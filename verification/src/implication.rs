//! Cheap, sound syntactic proofs that one law implies another.
//!
//! These never rely on search: a cell marked implied in the matrix carries a
//! proof, not merely the absence of a small counterexample.

use vstd::prelude::*;
use crate::law::{
    lemma_first_occurrences_props, lemma_leaves_vars, lemma_position_of_bound, position_of, var_order, Law,
    Term,
};
use crate::magma::{lemma_cell_index, valid_magma};
use crate::verify::{law_satisfied, term_value, valid_values, violated_at};

verus! {

/// Why `hypothesis` implies `conclusion`, when a syntactic reason exists.
#[derive(Clone, Copy, Debug, PartialEq, Eq, Structural)]
pub enum Proof {
    /// The two laws are the same law (possibly with sides swapped).
    Same,
    /// The conclusion's sides are identical terms.
    TrivialConclusion,
    /// The hypothesis has the form `x = t` with `x` absent from `t`, which
    /// forces every element to equal `t` evaluated at fixed values: only the
    /// one-element magma satisfies it.
    CollapsesToSingleton,
    /// One side of the conclusion becomes the other by rewriting a single
    /// subterm with an instance of the hypothesis (a one-step equational
    /// derivation; plain substitution instances are the root case).
    Rewrite,
    /// Follows by chaining other proofs.
    Transitive,
}

/// `t` with each variable `v` that `sub` binds replaced by its binding.
pub open spec fn substitute(t: Term, sub: Seq<Option<Term>>) -> Term
    decreases t,
{
    match t {
        Term::Var(v) => if (v as int) < sub.len() && sub[v as int] is Some {
            sub[v as int]->0
        } else {
            t
        },
        Term::Op(l, r) => Term::Op(Box::new(substitute(*l, sub)), Box::new(substitute(*r, sub))),
    }
}

/// `sub` binds every one of `k` variables.
pub open spec fn total(sub: Seq<Option<Term>>, k: nat) -> bool {
    &&& sub.len() == k
    &&& forall|v: int| 0 <= v < k ==> #[trigger] sub[v] is Some
}

/// `b` keeps every binding of `a`.
pub open spec fn keeps(a: Seq<Option<Term>>, b: Seq<Option<Term>>) -> bool {
    &&& a.len() == b.len()
    &&& forall|v: int| 0 <= v < a.len() && #[trigger] a[v] is Some ==> b[v] == a[v]
}

/// `(s, t)` is a substitution instance of the rule `rl = rr` over `k` variables.
pub open spec fn is_instance(rl: Term, rr: Term, k: nat, s: Term, t: Term) -> bool {
    exists|sub: Seq<Option<Term>>|
        total(sub, k) && #[trigger] substitute(rl, sub) == s && substitute(rr, sub) == t
}

/// `t` comes from `s` by rewriting one subterm with an instance of the rule
/// `rl = rr` (over `k` variables) or of its swapped form `ql = qr` (over `q`).
pub open spec fn rewrites(rl: Term, rr: Term, k: nat, ql: Term, qr: Term, q: nat, s: Term, t: Term) -> bool
    decreases s,
{
    ||| is_instance(rl, rr, k, s, t)
    ||| is_instance(ql, qr, q, s, t)
    ||| match (s, t) {
        (Term::Op(sl, sr), Term::Op(tl, tr)) => (*sl == *tl && rewrites(rl, rr, k, ql, qr, q, *sr, *tr))
            || (*sr == *tr && rewrites(rl, rr, k, ql, qr, q, *sl, *tl)),
        _ => false,
    }
}

/// `var_side` is a variable that `other` does not contain.
pub open spec fn collapses_spec(var_side: Term, other: Term) -> bool {
    var_side matches Term::Var(x) && !other.has_var(x)
}

/// The swapped law's sides and variable count, as `Law::swapped` builds them.
pub open spec fn swapped_lhs(h: Law) -> Term {
    h.rhs.numbered(var_order(h.rhs, h.lhs))
}

pub open spec fn swapped_rhs(h: Law) -> Term {
    h.lhs.numbered(var_order(h.rhs, h.lhs))
}

pub open spec fn swapped_vars(h: Law) -> nat {
    var_order(h.rhs, h.lhs).len()
}

/// The direct syntactic proof that `h` implies `c`, checked in this order:
/// same law, trivial conclusion, collapsing hypothesis, one rewrite step.
pub open spec fn direct_proof_of(h: Law, c: Law) -> Option<Proof> {
    if (h.lhs == c.lhs && h.rhs == c.rhs) || (swapped_lhs(h) == c.lhs && swapped_rhs(h) == c.rhs) {
        Some(Proof::Same)
    } else if c.lhs == c.rhs {
        Some(Proof::TrivialConclusion)
    } else if collapses_spec(h.lhs, h.rhs) || collapses_spec(h.rhs, h.lhs) {
        Some(Proof::CollapsesToSingleton)
    } else if rewrites(
        h.lhs,
        h.rhs,
        h.nvars as nat,
        swapped_lhs(h),
        swapped_rhs(h),
        swapped_vars(h),
        c.lhs,
        c.rhs,
    ) {
        Some(Proof::Rewrite)
    } else {
        None
    }
}

fn collapses(var_side: &Term, other: &Term) -> (b: bool)
    ensures
        b == collapses_spec(*var_side, *other),
{
    match var_side {
        Term::Var(x) => !other.contains_var(*x),
        Term::Op(_, _) => false,
    }
}

/// Two substitutions that bind every variable of `t` to the same terms give
/// the same instance of `t`.
pub proof fn lemma_substitute_agree(t: Term, a: Seq<Option<Term>>, b: Seq<Option<Term>>)
    requires
        forall|v: u8| #[trigger] t.has_var(v) ==> (v as int) < a.len() && (v as int) < b.len() && a[v as int]
            is Some && b[v as int] == a[v as int],
    ensures
        substitute(t, a) == substitute(t, b),
    decreases t,
{
    match t {
        Term::Var(x) => {
            assert(t.has_var(x));
        },
        Term::Op(l, r) => {
            assert forall|v: u8| #[trigger] l.has_var(v) implies (v as int) < a.len() && (v as int) < b.len()
                && a[v as int] is Some && b[v as int] == a[v as int] by {
                assert(t.has_var(v));
            }
            assert forall|v: u8| #[trigger] r.has_var(v) implies (v as int) < a.len() && (v as int) < b.len()
                && a[v as int] is Some && b[v as int] == a[v as int] by {
                assert(t.has_var(v));
            }
            lemma_substitute_agree(*l, a, b);
            lemma_substitute_agree(*r, a, b);
        },
    }
}

/// A substitution binding every variable of `t` is pinned down on them by the
/// instance it produces.
pub proof fn lemma_substitute_determines(t: Term, a: Seq<Option<Term>>, b: Seq<Option<Term>>, v: u8)
    requires
        t.has_var(v),
        forall|x: u8| #[trigger] t.has_var(x) ==> (x as int) < a.len() && a[x as int] is Some,
        forall|x: u8| #[trigger] t.has_var(x) ==> (x as int) < b.len() && b[x as int] is Some,
        substitute(t, a) == substitute(t, b),
    ensures
        a[v as int] == b[v as int],
    decreases t,
{
    match t {
        Term::Var(x) => {
            assert(t.has_var(x));
        },
        Term::Op(l, r) => {
            assert forall|x: u8| #[trigger] l.has_var(x) implies (x as int) < a.len() && a[x as int] is Some by {
                assert(t.has_var(x));
            }
            assert forall|x: u8| #[trigger] l.has_var(x) implies (x as int) < b.len() && b[x as int] is Some by {
                assert(t.has_var(x));
            }
            assert forall|x: u8| #[trigger] r.has_var(x) implies (x as int) < a.len() && a[x as int] is Some by {
                assert(t.has_var(x));
            }
            assert forall|x: u8| #[trigger] r.has_var(x) implies (x as int) < b.len() && b[x as int] is Some by {
                assert(t.has_var(x));
            }
            if l.has_var(v) {
                lemma_substitute_determines(*l, a, b, v);
            } else {
                lemma_substitute_determines(*r, a, b, v);
            }
        },
    }
}

/// Extends `subst` so that `pattern` becomes `target`. On success the
/// bindings added are exactly those of the pattern's unbound variables; on
/// failure no complete substitution keeping the old bindings makes the
/// pattern equal to the target.
fn match_term(pattern: &Term, target: &Term, subst: &mut Vec<Option<Term>>) -> (ok: bool)
    requires
        pattern.vars_below(old(subst)@.len() as int),
        old(subst)@.len() <= 256,
    ensures
        final(subst)@.len() == old(subst)@.len(),
        ok ==> {
            &&& keeps(old(subst)@, final(subst)@)
            &&& forall|v: int|
                0 <= v < old(subst)@.len() ==> (#[trigger] final(subst)@[v] is Some <==> (old(subst)@[v] is Some
                    || pattern.has_var(v as u8)))
            &&& substitute(*pattern, final(subst)@) == *target
        },
        !ok ==> forall|sub: Seq<Option<Term>>|
            total(sub, old(subst)@.len()) && keeps(old(subst)@, sub) ==> #[trigger] substitute(*pattern, sub)
                != *target,
    decreases pattern,
{
    match pattern {
        Term::Var(v) => {
            let i = *v as usize;
            match &subst[i] {
                Some(bound) => {
                    let same = *bound == *target;
                    proof {
                        assert forall|v2: int| 0 <= v2 < old(subst)@.len() implies (#[trigger] subst@[v2] is Some
                            <==> (old(subst)@[v2] is Some || pattern.has_var(v2 as u8))) by {
                            if pattern.has_var(v2 as u8) {
                                assert(v2 == i);
                            }
                        }
                    }
                    same
                },
                None => {
                    let t = target.clone();
                    subst.set(i, Some(t));
                    proof {
                        assert forall|v2: int| 0 <= v2 < old(subst)@.len() implies (#[trigger] subst@[v2] is Some
                            <==> (old(subst)@[v2] is Some || pattern.has_var(v2 as u8))) by {
                            if v2 == i {
                                assert(pattern.has_var(v2 as u8));
                            } else {
                                assert(subst@[v2] == old(subst)@[v2]);
                            }
                        }
                    }
                    true
                },
            }
        },
        Term::Op(pl, pr) => match target {
            Term::Op(tl, tr) => {
                let ghost s0 = subst@;
                if !match_term(pl, tl, subst) {
                    proof {
                        assert forall|sub: Seq<Option<Term>>|
                            total(sub, s0.len()) && keeps(s0, sub) implies #[trigger] substitute(*pattern, sub)
                            != *target by {
                            assert(substitute(**pl, sub) != **tl);
                        }
                    }
                    return false;
                }
                let ghost s1 = subst@;
                proof {
                    crate::law::lemma_vars_below_mono(**pr, s0.len() as int, s1.len() as int);
                }
                let ok = match_term(pr, tr, subst);
                proof {
                    if ok {
                        assert forall|v: u8| #[trigger] pl.has_var(v) implies (v as int) < s1.len() && (v as int)
                            < subst@.len() && s1[v as int] is Some && subst@[v as int] == s1[v as int] by {
                            lemma_var_below(**pl, v, s0.len() as int);
                            assert(s1[v as int] is Some);
                        }
                        lemma_substitute_agree(**pl, s1, subst@);
                        assert forall|v2: int| 0 <= v2 < s0.len() implies (#[trigger] subst@[v2] is Some <==> (
                        s0[v2] is Some || pattern.has_var(v2 as u8))) by {
                            assert(s1[v2] is Some <==> (s0[v2] is Some || pl.has_var(v2 as u8)));
                        }
                    } else {
                        assert forall|sub: Seq<Option<Term>>|
                            total(sub, s0.len()) && keeps(s0, sub) implies #[trigger] substitute(*pattern, sub)
                            != *target by {
                            if substitute(*pattern, sub) == *target {
                                assert(substitute(**pl, sub) == **tl);
                                assert forall|v: int| 0 <= v < s1.len() && #[trigger] s1[v] is Some implies sub[v]
                                    == s1[v] by {
                                    if s0[v] is None {
                                        assert(s1[v] is Some <==> (s0[v] is Some || pl.has_var(v as u8)));
                                        assert(pl.has_var(v as u8));
                                        assert forall|x: u8| #[trigger] pl.has_var(x) implies (x as int) < s1.len()
                                            && s1[x as int] is Some by {
                                            lemma_var_below(**pl, x, s0.len() as int);
                                        }
                                        assert forall|x: u8| #[trigger] pl.has_var(x) implies (x as int) < sub.len()
                                            && sub[x as int] is Some by {
                                            lemma_var_below(**pl, x, s0.len() as int);
                                        }
                                        lemma_substitute_determines(**pl, s1, sub, v as u8);
                                    }
                                }
                                assert(keeps(s1, sub));
                                assert(substitute(**pr, sub) == **tr);
                            }
                        }
                    }
                }
                ok
            },
            Term::Var(_) => false,
        },
    }
}

/// A variable of a term whose variables are below `k` is below `k`.
pub proof fn lemma_var_below(t: Term, v: u8, k: int)
    requires
        t.vars_below(k),
        t.has_var(v),
    ensures
        (v as int) < k,
    decreases t,
{
    match t {
        Term::Var(_) => {},
        Term::Op(l, r) => {
            if l.has_var(v) {
                lemma_var_below(*l, v, k);
            } else {
                lemma_var_below(*r, v, k);
            }
        },
    }
}

/// Whether `(s, t)` is a substitution instance of `(rule.lhs, rule.rhs)`.
fn instance_pair(rule: &Law, s: &Term, t: &Term) -> (b: bool)
    requires
        rule.wf(),
    ensures
        b == is_instance(rule.lhs, rule.rhs, rule.nvars as nat, *s, *t),
{
    let k = rule.nvars;
    let mut subst: Vec<Option<Term>> = Vec::new();
    let mut i: usize = 0;
    while i < k
        invariant
            i <= k,
            subst@.len() == i,
            forall|v: int| 0 <= v < i ==> #[trigger] subst@[v] is None,
        decreases k - i,
    {
        subst.push(None);
        i = i + 1;
    }
    let ghost s0 = subst@;
    if !match_term(&rule.lhs, s, &mut subst) {
        proof {
            if is_instance(rule.lhs, rule.rhs, k as nat, *s, *t) {
                let sub = choose|sub: Seq<Option<Term>>|
                    total(sub, k as nat) && #[trigger] substitute(rule.lhs, sub) == *s && substitute(
                        rule.rhs,
                        sub,
                    ) == *t;
                assert(keeps(s0, sub));
            }
        }
        return false;
    }
    let ghost s1 = subst@;
    let ok = match_term(&rule.rhs, t, &mut subst);
    proof {
        let f = subst@;
        if ok {
            let w = Seq::new(k as nat, |v: int| if f[v] is Some { f[v] } else { Some(Term::Var(0)) });
            assert forall|v: u8| #[trigger] rule.lhs.has_var(v) implies (v as int) < f.len() && (v as int) < w.len()
                && f[v as int] is Some && w[v as int] == f[v as int] by {
                lemma_var_below(rule.lhs, v, k as int);
                assert(s1[v as int] is Some);
            }
            lemma_substitute_agree(rule.lhs, f, w);
            assert forall|v: u8| #[trigger] rule.lhs.has_var(v) implies (v as int) < s1.len() && (v as int) < f.len()
                && s1[v as int] is Some && f[v as int] == s1[v as int] by {
                lemma_var_below(rule.lhs, v, k as int);
            }
            lemma_substitute_agree(rule.lhs, s1, f);
            assert forall|v: u8| #[trigger] rule.rhs.has_var(v) implies (v as int) < f.len() && (v as int) < w.len()
                && f[v as int] is Some && w[v as int] == f[v as int] by {
                lemma_var_below(rule.rhs, v, k as int);
            }
            lemma_substitute_agree(rule.rhs, f, w);
            assert(total(w, k as nat));
        } else if is_instance(rule.lhs, rule.rhs, k as nat, *s, *t) {
            let sub = choose|sub: Seq<Option<Term>>|
                total(sub, k as nat) && #[trigger] substitute(rule.lhs, sub) == *s && substitute(rule.rhs, sub)
                    == *t;
            assert forall|v: int| 0 <= v < s1.len() && #[trigger] s1[v] is Some implies sub[v] == s1[v] by {
                assert(s1[v] is Some <==> (s0[v] is Some || rule.lhs.has_var(v as u8)));
                assert forall|x: u8| #[trigger] rule.lhs.has_var(x) implies (x as int) < s1.len() && s1[x as int]
                    is Some by {
                    lemma_var_below(rule.lhs, x, k as int);
                }
                assert forall|x: u8| #[trigger] rule.lhs.has_var(x) implies (x as int) < sub.len() && sub[x as int]
                    is Some by {
                    lemma_var_below(rule.lhs, x, k as int);
                }
                lemma_substitute_determines(rule.lhs, s1, sub, v as u8);
            }
            assert(keeps(s1, sub));
            assert(substitute(rule.rhs, sub) == *t);
        }
    }
    ok
}

fn one_step(rule: &Law, swapped: &Law, s: &Term, t: &Term) -> (b: bool)
    requires
        rule.wf(),
        swapped.wf(),
    ensures
        b == rewrites(
            rule.lhs,
            rule.rhs,
            rule.nvars as nat,
            swapped.lhs,
            swapped.rhs,
            swapped.nvars as nat,
            *s,
            *t,
        ),
    decreases s,
{
    if instance_pair(rule, s, t) || instance_pair(swapped, s, t) {
        return true;
    }
    match (s, t) {
        (Term::Op(sl, sr), Term::Op(tl, tr)) => {
            (**sl == **tl && one_step(rule, swapped, sr, tr)) || (**sr == **tr && one_step(
                rule,
                swapped,
                sl,
                tl,
            ))
        },
        _ => false,
    }
}

/// A direct (non-transitive) syntactic proof, if one exists.
pub fn direct_proof(hypothesis: &Law, conclusion: &Law) -> (p: Option<Proof>)
    requires
        hypothesis.wf(),
        conclusion.wf(),
    ensures
        p == direct_proof_of(*hypothesis, *conclusion),
{
    let swapped = hypothesis.swapped();
    if *hypothesis == *conclusion || swapped == *conclusion {
        Some(Proof::Same)
    } else if conclusion.is_trivial() {
        Some(Proof::TrivialConclusion)
    } else if collapses(&hypothesis.lhs, &hypothesis.rhs) || collapses(&hypothesis.rhs, &hypothesis.lhs) {
        Some(Proof::CollapsesToSingleton)
    } else if one_step(hypothesis, &swapped, &conclusion.lhs, &conclusion.rhs) {
        Some(Proof::Rewrite)
    } else {
        None
    }
}

/// Whether law `i` reaches law `j` by proofs in `rel` (a row-major `m × m`
/// table) whose intermediate laws are all below `k`.
pub open spec fn chained(rel: Seq<Option<Proof>>, m: nat, k: nat, i: int, j: int) -> bool
    decreases k,
{
    if k == 0 {
        rel[i * m + j] is Some
    } else {
        let p = (k - 1) as nat;
        chained(rel, m, p, i, j) || (chained(rel, m, p, i, p as int) && chained(rel, m, p, p as int, j))
    }
}

/// Step `x` of the walk `p` (from `p[x]` to `p[x + 1]`) is an entry of `rel`.
pub open spec fn proof_step(rel: Seq<Option<Proof>>, m: nat, p: Seq<int>, x: int) -> bool {
    rel[p[x] * m + p[x + 1]] is Some
}

/// `p` is a chain of proofs in `rel` (a row-major `m × m` table): at least two
/// laws, each below `m`, every step an entry of `rel`, and every law passed on
/// the way (neither the first nor the last) below `k`.
pub open spec fn proof_path(rel: Seq<Option<Proof>>, m: nat, k: nat, p: Seq<int>) -> bool {
    &&& p.len() >= 2
    &&& forall|x: int| 0 <= x < p.len() ==> 0 <= #[trigger] p[x] < m
    &&& forall|x: int| 0 <= x < p.len() - 1 ==> #[trigger] proof_step(rel, m, p, x)
    &&& forall|x: int| 0 < x < p.len() - 1 ==> #[trigger] p[x] < k
}

/// Law `j` follows from law `i` by a chain of proofs in `rel`.
pub open spec fn reachable(rel: Seq<Option<Proof>>, m: nat, i: int, j: int) -> bool {
    exists|p: Seq<int>| #[trigger] proof_path(rel, m, m, p) && p[0] == i && p[p.len() - 1] == j
}

/// Joining a chain from `a` to `c` with a chain from `c` to `b`, with `c` below `k`,
/// gives a chain from `a` to `b`.
proof fn lemma_join_paths(rel: Seq<Option<Proof>>, m: nat, k: nat, p: Seq<int>, q: Seq<int>) -> (r: Seq<int>)
    requires
        proof_path(rel, m, k, p),
        proof_path(rel, m, k, q),
        p[p.len() - 1] == q[0],
        q[0] < k,
    ensures
        proof_path(rel, m, k, r),
        r[0] == p[0],
        r[r.len() - 1] == q[q.len() - 1],
        r.len() == p.len() + q.len() - 1,
{
    let r = p + q.subrange(1, q.len() as int);
    let lp = p.len() as int;
    assert forall|x: int| 0 <= x < r.len() implies 0 <= #[trigger] r[x] < m by {
        if x >= lp {
            assert(r[x] == q[x - lp + 1]);
        }
    }
    assert forall|x: int| 0 <= x < r.len() - 1 implies #[trigger] proof_step(rel, m, r, x) by {
        if x < lp - 1 {
            assert(proof_step(rel, m, p, x));
        } else if x == lp - 1 {
            assert(proof_step(rel, m, q, 0));
            assert(r[x + 1] == q[1]);
        } else {
            assert(proof_step(rel, m, q, x - lp + 1));
            assert(r[x] == q[x - lp + 1]);
            assert(r[x + 1] == q[x - lp + 2]);
        }
    }
    assert forall|x: int| 0 < x < r.len() - 1 implies #[trigger] r[x] < k by {
        if x >= lp {
            assert(r[x] == q[x - lp + 1]);
        }
    }
    r
}

/// Every pair that `chained` relates is joined by a chain of proofs whose
/// intermediate laws are below `k`.
proof fn lemma_chained_has_path(rel: Seq<Option<Proof>>, m: nat, k: nat, i: int, j: int) -> (p: Seq<int>)
    requires
        0 <= i < m,
        0 <= j < m,
        k <= m,
        chained(rel, m, k, i, j),
    ensures
        proof_path(rel, m, k, p),
        p[0] == i,
        p[p.len() - 1] == j,
    decreases k,
{
    if k == 0 {
        let p = seq![i, j];
        assert(proof_step(rel, m, p, 0));
        p
    } else {
        let c = (k - 1) as nat;
        if chained(rel, m, c, i, j) {
            lemma_chained_has_path(rel, m, c, i, j)
        } else {
            let p1 = lemma_chained_has_path(rel, m, c, i, c as int);
            let p2 = lemma_chained_has_path(rel, m, c, c as int, j);
            let r = lemma_join_paths(rel, m, k, p1, p2);
            r
        }
    }
}

/// A chain of proofs whose intermediate laws are below `k` joins a pair that
/// `chained` relates.
proof fn lemma_path_is_chained(rel: Seq<Option<Proof>>, m: nat, k: nat, p: Seq<int>)
    requires
        proof_path(rel, m, k, p),
    ensures
        chained(rel, m, k, p[0], p[p.len() - 1]),
    decreases k, p.len(),
{
    let len = p.len() as int;
    if k == 0 {
        if len > 2 {
            assert(p[1] < 0);
        }
        assert(proof_step(rel, m, p, 0));
    } else {
        let c = (k - 1) as nat;
        if exists|f: int| 0 < f < len - 1 && p[f] == c {
            let f = choose|f: int| 0 < f < len - 1 && p[f] == c;
            let p1 = p.subrange(0, f + 1);
            let p2 = p.subrange(f, len);
            assert forall|x: int| 0 <= x < p1.len() - 1 implies #[trigger] proof_step(rel, m, p1, x) by {
                assert(proof_step(rel, m, p, x));
            }
            assert forall|x: int| 0 <= x < p2.len() - 1 implies #[trigger] proof_step(rel, m, p2, x) by {
                assert(proof_step(rel, m, p, x + f));
                assert(p2[x] == p[x + f]);
                assert(p2[x + 1] == p[x + f + 1]);
            }
            assert forall|x: int| 0 < x < p2.len() - 1 implies #[trigger] p2[x] < k by {
                assert(p2[x] == p[x + f]);
            }
            assert forall|x: int| 0 <= x < p2.len() implies 0 <= #[trigger] p2[x] < m by {
                assert(p2[x] == p[x + f]);
            }
            lemma_path_is_chained(rel, m, k, p1);
            lemma_path_is_chained(rel, m, k, p2);
        } else {
            assert forall|x: int| 0 < x < len - 1 implies #[trigger] p[x] < c by {
                assert(p[x] < k);
            }
            lemma_path_is_chained(rel, m, c, p);
        }
    }
}

/// The closure relates `i` to `j` exactly when a chain of proofs in `rel` leads
/// from law `i` to law `j`.
pub proof fn lemma_chained_iff_reachable(rel: Seq<Option<Proof>>, m: nat, i: int, j: int)
    requires
        0 <= i < m,
        0 <= j < m,
    ensures
        chained(rel, m, m, i, j) <==> reachable(rel, m, i, j),
{
    if chained(rel, m, m, i, j) {
        let p = lemma_chained_has_path(rel, m, m, i, j);
        assert(proof_path(rel, m, m, p));
    }
    if reachable(rel, m, i, j) {
        let p = choose|p: Seq<int>| #[trigger] proof_path(rel, m, m, p) && p[0] == i && p[p.len() - 1] == j;
        lemma_path_is_chained(rel, m, m, p);
    }
}

/// Reachability by chains of proofs is transitive.
pub proof fn lemma_reachable_transitive(rel: Seq<Option<Proof>>, m: nat, a: int, b: int, c: int)
    requires
        reachable(rel, m, a, b),
        reachable(rel, m, b, c),
    ensures
        reachable(rel, m, a, c),
{
    let p = choose|p: Seq<int>| #[trigger] proof_path(rel, m, m, p) && p[0] == a && p[p.len() - 1] == b;
    let q = choose|q: Seq<int>| #[trigger] proof_path(rel, m, m, q) && q[0] == b && q[q.len() - 1] == c;
    assert(0 <= q[0] < m);
    let r = lemma_join_paths(rel, m, m, p, q);
    assert(proof_path(rel, m, m, r));
}

/// Cell `(i, j)` of an `m × m` table has its own index.
pub proof fn lemma_index(i: int, j: int, m: int)
    requires
        0 <= i < m,
        0 <= j < m,
    ensures
        0 <= i * m + j < m * m,
        (i * m + j) / m == i,
        (i * m + j) % m == j,
{
    crate::magma::lemma_cell_index(i, j, m);
    assert(i * m + j == m * i + j) by (nonlinear_arith);
    vstd::arithmetic::div_mod::lemma_fundamental_div_mod_converse(i * m + j, m, i, j);
}

/// Distinct cells have distinct indices.
pub proof fn lemma_index_injective(i: int, j: int, a: int, b: int, m: int)
    requires
        0 <= i < m,
        0 <= j < m,
        0 <= a < m,
        0 <= b < m,
        i * m + j == a * m + b,
    ensures
        i == a,
        j == b,
{
    lemma_index(i, j, m);
    lemma_index(a, b, m);
}

/// Closes a row-major `m × m` proof table under transitivity (Warshall).
/// Entries that were present stay; each new one is [`Proof::Transitive`].
pub fn transitive_closure(m: usize, table: &mut Vec<Option<Proof>>)
    requires
        old(table)@.len() == m * m,
    ensures
        final(table)@.len() == m * m,
        forall|i: int, j: int|
            0 <= i < m && 0 <= j < m ==> (final(table)@[i * m + j] is Some <==> #[trigger] chained(
                old(table)@,
                m as nat,
                m as nat,
                i,
                j,
            )),
        forall|i: int, j: int|
            0 <= i < m && 0 <= j < m ==> (final(table)@[i * m + j] is Some <==> #[trigger] reachable(
                old(table)@,
                m as nat,
                i,
                j,
            )),
        forall|p: int| 0 <= p < m * m && #[trigger] old(table)@[p] is Some ==> final(table)@[p] == old(table)@[p],
        forall|p: int|
            0 <= p < m * m && old(table)@[p] is None && #[trigger] final(table)@[p] is Some ==> final(table)@[p]
                == Some(Proof::Transitive),
{
    let ghost rel = table@;
    let len = table.len();
    let mut k: usize = 0;
    while k < m
        invariant
            k <= m,
            len == m * m,
            table@.len() == m * m,
            rel.len() == m * m,
            forall|i: int, j: int|
                0 <= i < m && 0 <= j < m ==> (table@[i * m + j] is Some <==> #[trigger] chained(
                    rel,
                    m as nat,
                    k as nat,
                    i,
                    j,
                )),
            forall|p: int| 0 <= p < m * m && #[trigger] rel[p] is Some ==> table@[p] == rel[p],
            forall|p: int|
                0 <= p < m * m && rel[p] is None && #[trigger] table@[p] is Some ==> table@[p] == Some(Proof::Transitive),
        decreases m - k,
    {
        let mut i: usize = 0;
        while i < m
            invariant
                k < m,
                i <= m,
                len == m * m,
                table@.len() == m * m,
                rel.len() == m * m,
                forall|a: int, j: int|
                    0 <= a < i && 0 <= j < m ==> (table@[a * m + j] is Some <==> #[trigger] chained(
                        rel,
                        m as nat,
                        (k + 1) as nat,
                        a,
                        j,
                    )),
                forall|a: int, j: int|
                    i <= a < m && 0 <= j < m ==> (table@[a * m + j] is Some <==> #[trigger] chained(
                        rel,
                        m as nat,
                        k as nat,
                        a,
                        j,
                    )),
                forall|p: int| 0 <= p < m * m && #[trigger] rel[p] is Some ==> table@[p] == rel[p],
                forall|p: int|
                    0 <= p < m * m && rel[p] is None && #[trigger] table@[p] is Some ==> table@[p] == Some(
                        Proof::Transitive,
                    ),
            decreases m - i,
        {
            proof {
                lemma_index(i as int, k as int, m as int);
            }
            if table[i * m + k].is_none() {
                proof {
                    assert forall|a: int, j: int|
                        0 <= a < i + 1 && 0 <= j < m implies (table@[a * m + j] is Some <==> #[trigger] chained(
                        rel,
                        m as nat,
                        (k + 1) as nat,
                        a,
                        j,
                    )) by {
                        if a == i {
                            assert(!chained(rel, m as nat, k as nat, a, k as int));
                            assert(table@[a * m + j] is Some <==> chained(rel, m as nat, k as nat, a, j));
                        }
                    }
                }
                i = i + 1;
                continue;
            }
            let ghost row_start = table@;
            let mut j: usize = 0;
            while j < m
                invariant
                    k < m,
                    i < m,
                    j <= m,
                    len == m * m,
                    table@.len() == m * m,
                    rel.len() == m * m,
                    chained(rel, m as nat, k as nat, i as int, k as int),
                    forall|a: int, b: int|
                        0 <= a < m && 0 <= b < m && a != i ==> table@[a * m + b] == #[trigger] row_start[a * m + b],
                    forall|a: int, b: int|
                        0 <= a < i && 0 <= b < m ==> (row_start[a * m + b] is Some <==> #[trigger] chained(
                            rel,
                            m as nat,
                            (k + 1) as nat,
                            a,
                            b,
                        )),
                    forall|a: int, b: int|
                        i <= a < m && 0 <= b < m ==> (row_start[a * m + b] is Some <==> #[trigger] chained(
                            rel,
                            m as nat,
                            k as nat,
                            a,
                            b,
                        )),
                    forall|b: int|
                        0 <= b < j ==> (table@[i * m + b] is Some <==> #[trigger] chained(
                            rel,
                            m as nat,
                            (k + 1) as nat,
                            i as int,
                            b,
                        )),
                    forall|b: int| j <= b < m ==> table@[i * m + b] == #[trigger] row_start[i * m + b],
                    forall|p: int| 0 <= p < m * m && #[trigger] rel[p] is Some ==> table@[p] == rel[p],
                    forall|p: int|
                        0 <= p < m * m && rel[p] is None && #[trigger] table@[p] is Some ==> table@[p] == Some(
                            Proof::Transitive,
                        ),
                decreases m - j,
            {
                proof {
                    lemma_index(i as int, j as int, m as int);
                    lemma_index(k as int, j as int, m as int);
                    assert(table@[k * m + j] is Some <==> chained(rel, m as nat, k as nat, k as int, j as int)) by {
                        if k < i {
                            assert(table@[k * m + j] == row_start[k * m + j]);
                            assert(row_start[k * m + j] is Some <==> chained(rel, m as nat, (k + 1) as nat, k as int, j as int));
                        } else if k > i {
                            assert(table@[k * m + j] == row_start[k * m + j]);
                        } else {
                            assert(table@[k * m + j] == row_start[k * m + j]);
                        }
                    }
                    assert(table@[i * m + j] == row_start[i * m + j]);
                }
                if table[i * m + j].is_none() && table[k * m + j].is_some() {
                    let ghost before = table@;
                    table.set(i * m + j, Some(Proof::Transitive));
                    proof {
                        assert forall|a: int, b: int|
                            0 <= a < m && 0 <= b < m && a != i implies table@[a * m + b] == #[trigger] row_start[a * m
                            + b] by {
                            lemma_index(a, b, m as int);
                            if a * m + b == i * m + j {
                                lemma_index_injective(a, b, i as int, j as int, m as int);
                            }
                        }
                        assert forall|b: int| j + 1 <= b < m implies table@[i * m + b] == #[trigger] row_start[i * m
                            + b] by {
                            lemma_index(i as int, b, m as int);
                            if i * m + b == i * m + j {
                                lemma_index_injective(i as int, b, i as int, j as int, m as int);
                            }
                        }
                        assert forall|b: int| 0 <= b < j implies (table@[i * m + b] is Some <==> #[trigger] chained(
                            rel,
                            m as nat,
                            (k + 1) as nat,
                            i as int,
                            b,
                        )) by {
                            lemma_index(i as int, b, m as int);
                            assert(table@[i * m + b] == before[i * m + b]);
                        }
                        assert(rel[i * m + j] is None);
                    }
                }
                proof {
                    assert(chained(rel, m as nat, (k + 1) as nat, i as int, j as int) == (chained(
                        rel,
                        m as nat,
                        k as nat,
                        i as int,
                        j as int,
                    ) || (chained(rel, m as nat, k as nat, i as int, k as int) && chained(
                        rel,
                        m as nat,
                        k as nat,
                        k as int,
                        j as int,
                    ))));
                    assert(table@[i * m + j] is Some <==> chained(rel, m as nat, (k + 1) as nat, i as int, j as int));
                }
                j = j + 1;
            }
            proof {
                assert forall|a: int, b: int|
                    0 <= a < i + 1 && 0 <= b < m implies (table@[a * m + b] is Some <==> #[trigger] chained(
                    rel,
                    m as nat,
                    (k + 1) as nat,
                    a,
                    b,
                )) by {
                    if a < i {
                        assert(table@[a * m + b] == row_start[a * m + b]);
                    }
                }
                assert forall|a: int, b: int|
                    i + 1 <= a < m && 0 <= b < m implies (table@[a * m + b] is Some <==> #[trigger] chained(
                    rel,
                    m as nat,
                    k as nat,
                    a,
                    b,
                )) by {
                    assert(table@[a * m + b] == row_start[a * m + b]);
                }
            }
            i = i + 1;
        }
        let ghost done = (k + 1) as nat;
        proof {
            assert forall|a: int, b: int| 0 <= a < m && 0 <= b < m implies (table@[a * m + b] is Some
                <==> #[trigger] chained(rel, m as nat, done, a, b)) by {
                assert(0 <= a < i);
            }
        }
        k = k + 1;
        proof {
            assert(done == k as nat);
        }
    }
    proof {
        assert forall|i: int, j: int| 0 <= i < m && 0 <= j < m implies (table@[i * m + j] is Some
            <==> #[trigger] reachable(rel, m as nat, i, j)) by {
            lemma_chained_iff_reachable(rel, m as nat, i, j);
        }
    }
}

/// The direct proofs between laws, as a row-major `m × m` table.
pub open spec fn direct_table(laws: Seq<Law>) -> Seq<Option<Proof>> {
    let m = laws.len();
    Seq::new(m * m, |p: int| direct_proof_of(laws[p / (m as int)], laws[p % (m as int)]))
}

/// Row-major `m × m` table of proofs, closed under transitivity.
pub fn proof_table(laws: &[Law]) -> (table: Vec<Option<Proof>>)
    requires
        forall|i: int| 0 <= i < laws@.len() ==> (#[trigger] laws@[i]).wf(),
        laws@.len() * laws@.len() <= usize::MAX,
    ensures
        table@.len() == laws@.len() * laws@.len(),
        forall|i: int, j: int|
            0 <= i < laws@.len() && 0 <= j < laws@.len() ==> {
                &&& (table@[i * laws@.len() + j] is Some <==> #[trigger] chained(
                    direct_table(laws@),
                    laws@.len(),
                    laws@.len(),
                    i,
                    j,
                ))
                &&& (table@[i * laws@.len() + j] is Some <==> reachable(direct_table(laws@), laws@.len(), i, j))
                &&& direct_proof_of(laws@[i], laws@[j]) is Some ==> table@[i * laws@.len() + j]
                    == direct_proof_of(laws@[i], laws@[j])
                &&& direct_proof_of(laws@[i], laws@[j]) is None && table@[i * laws@.len() + j] is Some
                    ==> table@[i * laws@.len() + j] == Some(Proof::Transitive)
            },
{
    let m = laws.len();
    let ghost rel = direct_table(laws@);
    let mut table: Vec<Option<Proof>> = Vec::new();
    let mut h: usize = 0;
    while h < m
        invariant
            h <= m,
            m == laws@.len(),
            m * m <= usize::MAX,
            rel == direct_table(laws@),
            forall|i: int| 0 <= i < laws@.len() ==> (#[trigger] laws@[i]).wf(),
            table@.len() == h * m,
            forall|p: int| 0 <= p < h * m ==> #[trigger] table@[p] == rel[p],
        decreases m - h,
    {
        let mut c: usize = 0;
        proof {
            assert((h + 1) * m <= m * m) by (nonlinear_arith)
                requires
                    h < m,
            ;
            assert((h + 1) * m == h * m + m) by (nonlinear_arith);
        }
        while c < m
            invariant
                h < m,
                c <= m,
                m == laws@.len(),
                (h + 1) * m <= m * m,
                (h + 1) * m == h * m + m,
                rel == direct_table(laws@),
                forall|i: int| 0 <= i < laws@.len() ==> (#[trigger] laws@[i]).wf(),
                table@.len() == h * m + c,
                forall|p: int| 0 <= p < h * m + c ==> #[trigger] table@[p] == rel[p],
            decreases m - c,
        {
            let d = direct_proof(&laws[h], &laws[c]);
            proof {
                lemma_index(h as int, c as int, m as int);
                assert(rel[h * m + c] == direct_proof_of(laws@[h as int], laws@[c as int]));
            }
            table.push(d);
            c = c + 1;
        }
        h = h + 1;
    }
    proof {
        assert(table@ =~= rel);
    }
    transitive_closure(m, &mut table);
    proof {
        assert forall|i: int, j: int| 0 <= i < m && 0 <= j < m implies {
            &&& (table@[i * m + j] is Some <==> #[trigger] chained(rel, m as nat, m as nat, i, j))
            &&& (table@[i * m + j] is Some <==> reachable(rel, m as nat, i, j))
            &&& direct_proof_of(laws@[i], laws@[j]) is Some ==> table@[i * m + j] == direct_proof_of(
                laws@[i],
                laws@[j],
            )
            &&& direct_proof_of(laws@[i], laws@[j]) is None && table@[i * m + j] is Some ==> table@[i * m
                + j] == Some(Proof::Transitive)
        } by {
            lemma_index(i, j, m as int);
            assert(rel[i * m + j] == direct_proof_of(laws@[i], laws@[j]));
            if rel[i * m + j] is Some {
                assert(table@[i * m + j] == rel[i * m + j]);
            }
        }
    }
    table
}

/// Values of terms whose variables have values in the carrier stay in the carrier.
pub proof fn lemma_value_range(t: Term, n: nat, table: Seq<u8>, v: Seq<usize>)
    requires
        valid_magma(n, table),
        t.vars_below(v.len() as int),
        forall|i: int| 0 <= i < v.len() ==> #[trigger] v[i] < n,
    ensures
        term_value(t, n, table, v) < n,
    decreases t,
{
    match t {
        Term::Var(x) => {},
        Term::Op(l, r) => {
            lemma_value_range(*l, n, table, v);
            lemma_value_range(*r, n, table, v);
            lemma_cell_index(term_value(*l, n, table, v) as int, term_value(*r, n, table, v) as int, n as int);
        },
    }
}

/// The value of a term depends only on the values of its own variables.
pub proof fn lemma_value_agree(t: Term, n: nat, table: Seq<u8>, v: Seq<usize>, w: Seq<usize>)
    requires
        forall|x: u8| #[trigger] t.has_var(x) ==> (x as int) < v.len() && (x as int) < w.len() && v[x as int] == w[x as int],
    ensures
        term_value(t, n, table, v) == term_value(t, n, table, w),
    decreases t,
{
    match t {
        Term::Var(x) => {
            assert(t.has_var(x));
        },
        Term::Op(l, r) => {
            assert forall|x: u8| #[trigger] l.has_var(x) implies (x as int) < v.len() && (x as int) < w.len() && v[x as int]
                == w[x as int] by {
                assert(t.has_var(x));
            }
            assert forall|x: u8| #[trigger] r.has_var(x) implies (x as int) < v.len() && (x as int) < w.len() && v[x as int]
                == w[x as int] by {
                assert(t.has_var(x));
            }
            lemma_value_agree(*l, n, table, v, w);
            lemma_value_agree(*r, n, table, v, w);
        },
    }
}

/// A law that holds for assignments of `k1` variables holds for assignments
/// of `k2` variables, when both sides only use variables below both.
pub proof fn lemma_satisfied_transfer(lhs: Term, rhs: Term, k1: nat, k2: nat, n: nat, table: Seq<u8>)
    requires
        n >= 1,
        lhs.vars_below(k1 as int),
        rhs.vars_below(k1 as int),
        lhs.vars_below(k2 as int),
        rhs.vars_below(k2 as int),
        law_satisfied(lhs, rhs, k1, n, table),
    ensures
        law_satisfied(lhs, rhs, k2, n, table),
{
    assert forall|v: Seq<usize>| valid_values(v, k2, n) implies !#[trigger] violated_at(lhs, rhs, n, table, v) by {
        let w = Seq::new(k1, |x: int| if x < k2 { v[x] } else { 0usize });
        assert(valid_values(w, k1, n));
        assert forall|x: u8| #[trigger] lhs.has_var(x) implies (x as int) < v.len() && (x as int) < w.len() && v[x as int]
            == w[x as int] by {
            lemma_var_below(lhs, x, k1 as int);
            lemma_var_below(lhs, x, k2 as int);
        }
        assert forall|x: u8| #[trigger] rhs.has_var(x) implies (x as int) < v.len() && (x as int) < w.len() && v[x as int]
            == w[x as int] by {
            lemma_var_below(rhs, x, k1 as int);
            lemma_var_below(rhs, x, k2 as int);
        }
        lemma_value_agree(lhs, n, table, v, w);
        lemma_value_agree(rhs, n, table, v, w);
        assert(!violated_at(lhs, rhs, n, table, w));
    }
}

/// Evaluating a term numbered by `order` under `v` is evaluating the
/// original term under `w`, where `w` gives each variable the value of its position.
pub proof fn lemma_numbered_value(t: Term, order: Seq<u8>, n: nat, table: Seq<u8>, v: Seq<usize>, w: Seq<usize>)
    requires
        forall|x: u8| #[trigger] t.has_var(x) ==> {
            &&& order.contains(x)
            &&& position_of(order, x) < v.len()
            &&& (x as int) < w.len()
            &&& w[x as int] == v[position_of(order, x)]
        },
        order.len() <= 256,
    ensures
        term_value(t.numbered(order), n, table, v) == term_value(t, n, table, w),
    decreases t,
{
    match t {
        Term::Var(x) => {
            assert(t.has_var(x));
            lemma_position_of_bound(order, x);
        },
        Term::Op(l, r) => {
            assert forall|x: u8| #[trigger] l.has_var(x) implies {
                &&& order.contains(x)
                &&& position_of(order, x) < v.len()
                &&& (x as int) < w.len()
                &&& w[x as int] == v[position_of(order, x)]
            } by {
                assert(t.has_var(x));
            }
            assert forall|x: u8| #[trigger] r.has_var(x) implies {
                &&& order.contains(x)
                &&& position_of(order, x) < v.len()
                &&& (x as int) < w.len()
                &&& w[x as int] == v[position_of(order, x)]
            } by {
                assert(t.has_var(x));
            }
            lemma_numbered_value(*l, order, n, table, v, w);
            lemma_numbered_value(*r, order, n, table, v, w);
        },
    }
}

/// Swapping the sides of a law (and renumbering its variables) keeps its models.
pub proof fn lemma_swapped_sound(h: Law, n: nat, table: Seq<u8>)
    requires
        h.wf(),
        valid_magma(n, table),
        law_satisfied(h.lhs, h.rhs, h.nvars as nat, n, table),
    ensures
        law_satisfied(swapped_lhs(h), swapped_rhs(h), swapped_vars(h), n, table),
{
    let o = var_order(h.rhs, h.lhs);
    lemma_first_occurrences_props(Seq::empty(), h.rhs.leaves() + h.lhs.leaves());
    crate::law::lemma_distinct_bytes_len(o);
    lemma_leaves_vars(h.lhs, 0);
    lemma_leaves_vars(h.rhs, 0);
    assert forall|x: u8| #[trigger] h.lhs.has_var(x) implies o.contains(x) by {
        crate::law::lemma_contains_concat(h.rhs.leaves(), h.lhs.leaves(), x);
    }
    assert forall|x: u8| #[trigger] h.rhs.has_var(x) implies o.contains(x) by {
        crate::law::lemma_contains_concat(h.rhs.leaves(), h.lhs.leaves(), x);
    }
    assert forall|v: Seq<usize>| valid_values(v, o.len(), n) implies !#[trigger] violated_at(
        swapped_lhs(h),
        swapped_rhs(h),
        n,
        table,
        v,
    ) by {
        let w = Seq::new(
            h.nvars as nat,
            |x: int| if o.contains(x as u8) { v[position_of(o, x as u8)] } else { 0usize },
        );
        assert(valid_values(w, h.nvars as nat, n)) by {
            assert forall|x: int| 0 <= x < w.len() implies #[trigger] w[x] < n by {
                if o.contains(x as u8) {
                    lemma_position_of_bound(o, x as u8);
                }
            }
        }
        assert forall|x: u8| #[trigger] h.lhs.has_var(x) implies {
            &&& o.contains(x)
            &&& position_of(o, x) < v.len()
            &&& (x as int) < w.len()
            &&& w[x as int] == v[position_of(o, x)]
        } by {
            lemma_position_of_bound(o, x);
            lemma_var_below(h.lhs, x, h.nvars as int);
        }
        assert forall|x: u8| #[trigger] h.rhs.has_var(x) implies {
            &&& o.contains(x)
            &&& position_of(o, x) < v.len()
            &&& (x as int) < w.len()
            &&& w[x as int] == v[position_of(o, x)]
        } by {
            lemma_position_of_bound(o, x);
            lemma_var_below(h.rhs, x, h.nvars as int);
        }
        lemma_numbered_value(h.lhs, o, n, table, v, w);
        lemma_numbered_value(h.rhs, o, n, table, v, w);
        assert(!violated_at(h.lhs, h.rhs, n, table, w));
    }
}

/// A law `x = t` with `x` absent from `t` holds only in the one-element magma.
pub proof fn lemma_collapse_forces_one(var_side: Term, other: Term, k: nat, n: nat, table: Seq<u8>)
    requires
        collapses_spec(var_side, other),
        var_side.vars_below(k as int),
        other.vars_below(k as int),
        valid_magma(n, table),
        law_satisfied(var_side, other, k, n, table) || law_satisfied(other, var_side, k, n, table),
    ensures
        n == 1,
{
    if n >= 2 {
        let x = var_side->Var_0;
        let zero = Seq::new(k, |i: int| 0usize);
        let one = Seq::new(k, |i: int| if i == x { 1usize } else { 0usize });
        assert(valid_values(zero, k, n));
        assert(valid_values(one, k, n));
        assert forall|y: u8| #[trigger] other.has_var(y) implies (y as int) < zero.len() && (y as int) < one.len()
            && zero[y as int] == one[y as int] by {
            lemma_var_below(other, y, k as int);
            assert(y != x);
        }
        lemma_value_agree(other, n, table, zero, one);
        assert(term_value(var_side, n, table, zero) == 0);
        assert(term_value(var_side, n, table, one) == 1);
        assert(!violated_at(var_side, other, n, table, zero) ==> term_value(other, n, table, zero) == 0);
        if law_satisfied(var_side, other, k, n, table) {
            assert(!violated_at(var_side, other, n, table, zero));
            assert(!violated_at(var_side, other, n, table, one));
        } else {
            assert(!violated_at(other, var_side, n, table, zero));
            assert(!violated_at(other, var_side, n, table, one));
        }
    }
}

/// Every law holds in the one-element magma.
pub proof fn lemma_one_element(lhs: Term, rhs: Term, k: nat, table: Seq<u8>)
    requires
        valid_magma(1, table),
        lhs.vars_below(k as int),
        rhs.vars_below(k as int),
    ensures
        law_satisfied(lhs, rhs, k, 1, table),
{
    assert forall|v: Seq<usize>| valid_values(v, k, 1) implies !#[trigger] violated_at(lhs, rhs, 1, table, v) by {
        lemma_value_range(lhs, 1, table, v);
        lemma_value_range(rhs, 1, table, v);
    }
}

/// Variables bound by a substitution into a term end up inside the instance.
pub proof fn lemma_substitute_vars(p: Term, sub: Seq<Option<Term>>, x: u8, m: int)
    requires
        p.has_var(x),
        (x as int) < sub.len(),
        sub[x as int] is Some,
        substitute(p, sub).vars_below(m),
    ensures
        (sub[x as int]->0).vars_below(m),
    decreases p,
{
    match p {
        Term::Var(_) => {},
        Term::Op(l, r) => {
            if l.has_var(x) {
                lemma_substitute_vars(*l, sub, x, m);
            } else {
                lemma_substitute_vars(*r, sub, x, m);
            }
        },
    }
}

/// Evaluating an instance is evaluating the pattern with each variable given
/// the value of its binding.
pub proof fn lemma_substitute_value(p: Term, sub: Seq<Option<Term>>, n: nat, table: Seq<u8>, v: Seq<usize>, w: Seq<usize>)
    requires
        forall|x: u8| #[trigger] p.has_var(x) ==> {
            &&& (x as int) < sub.len()
            &&& sub[x as int] is Some
            &&& (x as int) < w.len()
            &&& w[x as int] == term_value(sub[x as int]->0, n, table, v)
        },
    ensures
        term_value(substitute(p, sub), n, table, v) == term_value(p, n, table, w),
    decreases p,
{
    match p {
        Term::Var(x) => {
            assert(p.has_var(x));
        },
        Term::Op(l, r) => {
            assert forall|x: u8| #[trigger] l.has_var(x) implies {
                &&& (x as int) < sub.len()
                &&& sub[x as int] is Some
                &&& (x as int) < w.len()
                &&& w[x as int] == term_value(sub[x as int]->0, n, table, v)
            } by {
                assert(p.has_var(x));
            }
            assert forall|x: u8| #[trigger] r.has_var(x) implies {
                &&& (x as int) < sub.len()
                &&& sub[x as int] is Some
                &&& (x as int) < w.len()
                &&& w[x as int] == term_value(sub[x as int]->0, n, table, v)
            } by {
                assert(p.has_var(x));
            }
            lemma_substitute_value(*l, sub, n, table, v, w);
            lemma_substitute_value(*r, sub, n, table, v, w);
        },
    }
}

/// Both sides of an instance of a law that holds in a magma evaluate alike.
pub proof fn lemma_instance_sound(rl: Term, rr: Term, k: nat, s: Term, t: Term, n: nat, table: Seq<u8>, v: Seq<usize>)
    requires
        valid_magma(n, table),
        n <= usize::MAX,
        rl.vars_below(k as int),
        rr.vars_below(k as int),
        law_satisfied(rl, rr, k, n, table),
        is_instance(rl, rr, k, s, t),
        s.vars_below(v.len() as int),
        t.vars_below(v.len() as int),
        forall|i: int| 0 <= i < v.len() ==> #[trigger] v[i] < n,
    ensures
        term_value(s, n, table, v) == term_value(t, n, table, v),
{
    let sub = choose|sub: Seq<Option<Term>>|
        total(sub, k) && #[trigger] substitute(rl, sub) == s && substitute(rr, sub) == t;
    let w = Seq::new(
        k,
        |x: int| {
            let val = term_value(sub[x]->0, n, table, v);
            if val < n { val as usize } else { 0usize }
        },
    );
    assert(valid_values(w, k, n));
    assert forall|x: u8| #[trigger] rl.has_var(x) implies {
        &&& (x as int) < sub.len()
        &&& sub[x as int] is Some
        &&& (x as int) < w.len()
        &&& w[x as int] == term_value(sub[x as int]->0, n, table, v)
    } by {
        lemma_var_below(rl, x, k as int);
        lemma_substitute_vars(rl, sub, x, v.len() as int);
        lemma_value_range(sub[x as int]->0, n, table, v);
    }
    assert forall|x: u8| #[trigger] rr.has_var(x) implies {
        &&& (x as int) < sub.len()
        &&& sub[x as int] is Some
        &&& (x as int) < w.len()
        &&& w[x as int] == term_value(sub[x as int]->0, n, table, v)
    } by {
        lemma_var_below(rr, x, k as int);
        lemma_substitute_vars(rr, sub, x, v.len() as int);
        lemma_value_range(sub[x as int]->0, n, table, v);
    }
    lemma_substitute_value(rl, sub, n, table, v, w);
    lemma_substitute_value(rr, sub, n, table, v, w);
    assert(!violated_at(rl, rr, n, table, w));
}

/// One rewrite step with a law (or its swapped form) that holds in a magma
/// preserves values there.
pub proof fn lemma_rewrites_sound(
    rl: Term,
    rr: Term,
    k: nat,
    ql: Term,
    qr: Term,
    q: nat,
    s: Term,
    t: Term,
    n: nat,
    table: Seq<u8>,
    v: Seq<usize>,
)
    requires
        valid_magma(n, table),
        n <= usize::MAX,
        rl.vars_below(k as int),
        rr.vars_below(k as int),
        ql.vars_below(q as int),
        qr.vars_below(q as int),
        law_satisfied(rl, rr, k, n, table),
        law_satisfied(ql, qr, q, n, table),
        rewrites(rl, rr, k, ql, qr, q, s, t),
        s.vars_below(v.len() as int),
        t.vars_below(v.len() as int),
        forall|i: int| 0 <= i < v.len() ==> #[trigger] v[i] < n,
    ensures
        term_value(s, n, table, v) == term_value(t, n, table, v),
    decreases s,
{
    if is_instance(rl, rr, k, s, t) {
        lemma_instance_sound(rl, rr, k, s, t, n, table, v);
    } else if is_instance(ql, qr, q, s, t) {
        lemma_instance_sound(ql, qr, q, s, t, n, table, v);
    } else {
        match (s, t) {
            (Term::Op(sl, sr), Term::Op(tl, tr)) => {
                if *sl == *tl && rewrites(rl, rr, k, ql, qr, q, *sr, *tr) {
                    lemma_rewrites_sound(rl, rr, k, ql, qr, q, *sr, *tr, n, table, v);
                } else {
                    lemma_rewrites_sound(rl, rr, k, ql, qr, q, *sl, *tl, n, table, v);
                }
            },
            _ => {},
        }
    }
}

/// The sides of the swapped law use only variables below its count.
pub proof fn lemma_swapped_wf(h: Law)
    requires
        h.wf(),
    ensures
        swapped_lhs(h).vars_below(swapped_vars(h) as int),
        swapped_rhs(h).vars_below(swapped_vars(h) as int),
        swapped_vars(h) <= 256,
{
    let o = var_order(h.rhs, h.lhs);
    lemma_first_occurrences_props(Seq::empty(), h.rhs.leaves() + h.lhs.leaves());
    crate::law::lemma_distinct_bytes_len(o);
    lemma_leaves_vars(h.lhs, 0);
    lemma_leaves_vars(h.rhs, 0);
    assert forall|x: u8| #[trigger] h.lhs.has_var(x) implies o.contains(x) by {
        crate::law::lemma_contains_concat(h.rhs.leaves(), h.lhs.leaves(), x);
    }
    assert forall|x: u8| #[trigger] h.rhs.has_var(x) implies o.contains(x) by {
        crate::law::lemma_contains_concat(h.rhs.leaves(), h.lhs.leaves(), x);
    }
    crate::law::lemma_numbered_vars(h.lhs, o);
    crate::law::lemma_numbered_vars(h.rhs, o);
}

/// A direct syntactic proof is sound: every magma that satisfies the
/// hypothesis satisfies the conclusion.
pub proof fn lemma_direct_proof_sound(h: Law, c: Law, n: nat, table: Seq<u8>)
    requires
        h.wf(),
        c.wf(),
        valid_magma(n, table),
        n <= usize::MAX,
        direct_proof_of(h, c) is Some,
        law_satisfied(h.lhs, h.rhs, h.nvars as nat, n, table),
    ensures
        law_satisfied(c.lhs, c.rhs, c.nvars as nat, n, table),
{
    lemma_swapped_wf(h);
    lemma_swapped_sound(h, n, table);
    if h.lhs == c.lhs && h.rhs == c.rhs {
        lemma_satisfied_transfer(c.lhs, c.rhs, h.nvars as nat, c.nvars as nat, n, table);
    } else if swapped_lhs(h) == c.lhs && swapped_rhs(h) == c.rhs {
        lemma_satisfied_transfer(c.lhs, c.rhs, swapped_vars(h), c.nvars as nat, n, table);
    } else if c.lhs == c.rhs {
    } else if collapses_spec(h.lhs, h.rhs) || collapses_spec(h.rhs, h.lhs) {
        if collapses_spec(h.lhs, h.rhs) {
            lemma_collapse_forces_one(h.lhs, h.rhs, h.nvars as nat, n, table);
        } else {
            lemma_collapse_forces_one(h.rhs, h.lhs, h.nvars as nat, n, table);
        }
        lemma_one_element(c.lhs, c.rhs, c.nvars as nat, table);
    } else {
        assert forall|v: Seq<usize>| valid_values(v, c.nvars as nat, n) implies !#[trigger] violated_at(
            c.lhs,
            c.rhs,
            n,
            table,
            v,
        ) by {
            lemma_rewrites_sound(
                h.lhs,
                h.rhs,
                h.nvars as nat,
                swapped_lhs(h),
                swapped_rhs(h),
                swapped_vars(h),
                c.lhs,
                c.rhs,
                n,
                table,
                v,
            );
        }
    }
}

/// Chained proofs are sound: if law `i` reaches law `j` through proofs, every
/// magma that satisfies law `i` satisfies law `j`.
pub proof fn lemma_chained_sound(laws: Seq<Law>, k: nat, i: int, j: int, n: nat, table: Seq<u8>)
    requires
        forall|a: int| 0 <= a < laws.len() ==> (#[trigger] laws[a]).wf(),
        k <= laws.len(),
        0 <= i < laws.len(),
        0 <= j < laws.len(),
        chained(direct_table(laws), laws.len(), k, i, j),
        valid_magma(n, table),
        n <= usize::MAX,
        law_satisfied(laws[i].lhs, laws[i].rhs, laws[i].nvars as nat, n, table),
    ensures
        law_satisfied(laws[j].lhs, laws[j].rhs, laws[j].nvars as nat, n, table),
    decreases k,
{
    let m = laws.len();
    if k == 0 {
        lemma_index(i, j, m as int);
        assert(direct_table(laws)[i * m + j] == direct_proof_of(laws[i], laws[j]));
        lemma_direct_proof_sound(laws[i], laws[j], n, table);
    } else {
        let p = (k - 1) as nat;
        if chained(direct_table(laws), m, p, i, j) {
            lemma_chained_sound(laws, p, i, j, n, table);
        } else {
            lemma_chained_sound(laws, p, i, p as int, n, table);
            lemma_chained_sound(laws, p, p as int, j, n, table);
        }
    }
}

/// Every entry of the proof table is a true implication: a magma that
/// satisfies the row's law satisfies the column's.
pub proof fn lemma_proof_table_sound(laws: Seq<Law>, i: int, j: int, n: nat, table: Seq<u8>)
    requires
        forall|a: int| 0 <= a < laws.len() ==> (#[trigger] laws[a]).wf(),
        0 <= i < laws.len(),
        0 <= j < laws.len(),
        chained(direct_table(laws), laws.len(), laws.len(), i, j),
        valid_magma(n, table),
        n <= usize::MAX,
        law_satisfied(laws[i].lhs, laws[i].rhs, laws[i].nvars as nat, n, table),
    ensures
        law_satisfied(laws[j].lhs, laws[j].rhs, laws[j].nvars as nat, n, table),
{
    lemma_chained_sound(laws, laws.len(), i, j, n, table);
}

} // verus!
