//! Why symmetry breaking loses nothing: renaming the elements of a model
//! gives a model, every isomorphism class has exactly one lex-leader, and so
//! a search that keeps only lex-leaders still meets every class.

use vstd::prelude::*;
use crate::eval::{complete_table, law_holds};
use crate::implication::{lemma_index, lemma_value_range};
use crate::law::{lemma_position_of, lemma_position_of_bound, position_of, Term};
use crate::magma::valid_magma;
use crate::search::{
    accepted, is_identity, is_lex_leader, is_permutation, lemma_permutation_has, lemma_relabel_identity, lemma_row_col,
    lex_le, relabel_source, relabelled,
};
use crate::verify::{lemma_holds_iff_satisfied, law_satisfied, term_value, valid_values, violated_at};

verus! {

/// `tau` after `sigma`: element `a` goes to `tau[sigma[a]]`.
pub open spec fn compose(tau: Seq<u8>, sigma: Seq<u8>) -> Seq<u8> {
    Seq::new(sigma.len(), |a: int| tau[sigma[a] as int])
}

/// The inverse renaming: element `a` goes back to its position in `sigma`.
pub open spec fn inverse(sigma: Seq<u8>) -> Seq<u8> {
    Seq::new(sigma.len(), |a: int| position_of(sigma, a as u8) as u8)
}

/// Two tables are isomorphic: one is a renaming of the other.
pub open spec fn isomorphic(a: Seq<u8>, b: Seq<u8>, n: int) -> bool {
    exists|sigma: Seq<u8>| is_permutation(sigma, n) && b == #[trigger] relabelled(a, sigma, n)
}

/// Basic facts about a permutation of `0..n`.
pub proof fn lemma_perm(sigma: Seq<u8>, n: int)
    requires
        is_permutation(sigma, n),
    ensures
        forall|a: int| 0 <= a < n ==> #[trigger] position_of(sigma, sigma[a]) == a,
        forall|x: u8| (x as int) < n ==> 0 <= #[trigger] position_of(sigma, x) < n && sigma[position_of(sigma, x)] == x,
{
    assert forall|a: int| 0 <= a < n implies #[trigger] position_of(sigma, sigma[a]) == a by {
        lemma_position_of(sigma, a);
    }
    assert forall|x: u8| (x as int) < n implies 0 <= #[trigger] position_of(sigma, x) < n && sigma[position_of(sigma, x)]
        == x by {
        lemma_permutation_has(sigma, n, x);
        lemma_position_of_bound(sigma, x);
    }
}

/// Composing permutations gives a permutation, whose positions compose backwards.
pub proof fn lemma_compose(tau: Seq<u8>, sigma: Seq<u8>, n: int)
    requires
        is_permutation(tau, n),
        is_permutation(sigma, n),
    ensures
        is_permutation(compose(tau, sigma), n),
        forall|x: u8| (x as int) < n ==> #[trigger] position_of(compose(tau, sigma), x) == position_of(
            sigma,
            position_of(tau, x) as u8,
        ),
{
    let c = compose(tau, sigma);
    lemma_perm(tau, n);
    lemma_perm(sigma, n);
    assert(c.no_duplicates()) by {
        assert forall|i: int, j: int| 0 <= i < c.len() && 0 <= j < c.len() && i != j implies c[i] != c[j] by {
            if c[i] == c[j] {
                assert(position_of(tau, tau[sigma[i] as int]) == sigma[i]);
                assert(position_of(tau, tau[sigma[j] as int]) == sigma[j]);
            }
        }
    }
    crate::law::lemma_distinct_bytes_len(tau);
    assert forall|x: u8| (x as int) < n implies #[trigger] position_of(c, x) == position_of(sigma, position_of(tau, x) as u8) by {
        let p = position_of(tau, x);
        assert(0 <= p < n);
        assert(p < 256);
        let q = position_of(sigma, p as u8);
        assert(0 <= q < n);
        assert(sigma[q] == p as u8);
        assert(sigma[q] as int == p);
        assert(tau[p] == x);
        assert(c[q] == x);
        lemma_position_of(c, q);
    }
}

/// The inverse of a permutation is a permutation that undoes it.
pub proof fn lemma_inverse(sigma: Seq<u8>, n: int)
    requires
        is_permutation(sigma, n),
        n <= 256,
    ensures
        is_permutation(inverse(sigma), n),
        is_identity(compose(inverse(sigma), sigma)),
        is_identity(compose(sigma, inverse(sigma))),
{
    let iv = inverse(sigma);
    lemma_perm(sigma, n);
    assert forall|a: int| 0 <= a < n implies #[trigger] iv[a] < n by {
        assert(position_of(sigma, a as u8) < n);
    }
    assert(iv.no_duplicates()) by {
        assert forall|i: int, j: int| 0 <= i < iv.len() && 0 <= j < iv.len() && i != j implies iv[i] != iv[j] by {
            if iv[i] == iv[j] {
                assert(sigma[position_of(sigma, i as u8)] == i as u8);
                assert(sigma[position_of(sigma, j as u8)] == j as u8);
            }
        }
    }
    assert forall|a: int| 0 <= a < n implies #[trigger] compose(iv, sigma)[a] == a by {
        assert(position_of(sigma, sigma[a]) == a);
    }
    assert forall|a: int| 0 <= a < n implies #[trigger] compose(sigma, iv)[a] == a by {
        assert(sigma[position_of(sigma, a as u8)] == a as u8);
    }
}

/// A renamed complete table is complete.
pub proof fn lemma_relabel_complete(t: Seq<u8>, sigma: Seq<u8>, n: int)
    requires
        complete_table(t, n),
        is_permutation(sigma, n),
    ensures
        complete_table(relabelled(t, sigma, n), n),
{
    assert forall|q: int| 0 <= q < t.len() implies #[trigger] relabelled(t, sigma, n)[q] < n by {
        crate::search::lemma_relabel_source_range(sigma, n, q);
        assert(t[relabel_source(sigma, n, q)] < n);
    }
}

/// Renaming by `sigma` and then by `tau` is renaming by `tau` after `sigma`.
pub proof fn lemma_relabel_compose(t: Seq<u8>, sigma: Seq<u8>, tau: Seq<u8>, n: int)
    requires
        complete_table(t, n),
        is_permutation(sigma, n),
        is_permutation(tau, n),
    ensures
        relabelled(relabelled(t, sigma, n), tau, n) == relabelled(t, compose(tau, sigma), n),
{
    let r1 = relabelled(t, sigma, n);
    let r2 = relabelled(r1, tau, n);
    let r3 = relabelled(t, compose(tau, sigma), n);
    lemma_compose(tau, sigma, n);
    lemma_perm(tau, n);
    lemma_perm(sigma, n);
    assert forall|q: int| 0 <= q < t.len() implies r2[q] == r3[q] by {
        lemma_row_col(q, n);
        let a = position_of(tau, (q / n) as u8);
        let b = position_of(tau, (q % n) as u8);
        lemma_index(a, b, n);
        assert(relabel_source(tau, n, q) == a * n + b);
        assert(relabel_source(sigma, n, a * n + b) == relabel_source(compose(tau, sigma), n, q));
        crate::search::lemma_relabel_source_range(sigma, n, a * n + b);
        crate::search::lemma_relabel_source_range(compose(tau, sigma), n, q);
        let src = relabel_source(compose(tau, sigma), n, q);
        assert(r1[a * n + b] == sigma[t[src] as int]);
        assert(r2[q] == tau[r1[a * n + b] as int]);
        assert(t[src] < n);
        assert(r3[q] == compose(tau, sigma)[t[src] as int]);
    }
    assert(r2 =~= r3);
}

/// Evaluating a term in a renamed table under renamed values gives the
/// renamed value.
pub proof fn lemma_relabel_value(term: Term, t: Seq<u8>, sigma: Seq<u8>, n: nat, v: Seq<usize>, w: Seq<usize>)
    requires
        complete_table(t, n as int),
        is_permutation(sigma, n as int),
        term.vars_below(v.len() as int),
        v.len() == w.len(),
        forall|i: int| 0 <= i < v.len() ==> #[trigger] v[i] < n && w[i] == sigma[v[i] as int],
    ensures
        term_value(term, n, relabelled(t, sigma, n as int), w) == sigma[term_value(term, n, t, v) as int],
        term_value(term, n, t, v) < n,
    decreases term,
{
    match term {
        Term::Var(x) => {},
        Term::Op(l, r) => {
            lemma_relabel_value(*l, t, sigma, n, v, w);
            lemma_relabel_value(*r, t, sigma, n, v, w);
            lemma_perm(sigma, n as int);
            let a = term_value(*l, n, t, v);
            let b = term_value(*r, n, t, v);
            let (sa, sb) = (sigma[a as int], sigma[b as int]);
            lemma_index(sa as int, sb as int, n as int);
            lemma_index(a as int, b as int, n as int);
            assert(relabel_source(sigma, n as int, sa * n + sb) == a * n + b);
            assert(t[(a * n + b) as int] < n);
        },
    }
}

/// Renaming the elements of a model gives a model.
pub proof fn lemma_relabel_keeps_law(lhs: Term, rhs: Term, k: nat, n: nat, t: Seq<u8>, sigma: Seq<u8>)
    requires
        complete_table(t, n as int),
        is_permutation(sigma, n as int),
        lhs.vars_below(k as int),
        rhs.vars_below(k as int),
        law_holds(lhs, rhs, k as int, n as int, t),
    ensures
        law_holds(lhs, rhs, k as int, n as int, relabelled(t, sigma, n as int)),
{
    let r = relabelled(t, sigma, n as int);
    lemma_relabel_complete(t, sigma, n as int);
    lemma_holds_iff_satisfied(lhs, rhs, k, n, t);
    lemma_holds_iff_satisfied(lhs, rhs, k, n, r);
    lemma_perm(sigma, n as int);
    assert forall|w: Seq<usize>| valid_values(w, k, n) implies !#[trigger] violated_at(lhs, rhs, n, r, w) by {
        let v = Seq::new(k, |x: int| position_of(sigma, w[x] as u8) as usize);
        assert(valid_values(v, k, n));
        assert forall|i: int| 0 <= i < v.len() implies #[trigger] v[i] < n && w[i] == sigma[v[i] as int] by {
            assert(sigma[position_of(sigma, w[i] as u8)] == w[i] as u8);
        }
        lemma_relabel_value(lhs, t, sigma, n, v, w);
        lemma_relabel_value(rhs, t, sigma, n, v, w);
        assert(!violated_at(lhs, rhs, n, t, v));
    }
}

/// A table and any renaming of it satisfy the same laws.
pub proof fn lemma_isomorphic_same_laws(lhs: Term, rhs: Term, k: nat, n: nat, t: Seq<u8>, sigma: Seq<u8>)
    requires
        1 <= n <= 255,
        complete_table(t, n as int),
        is_permutation(sigma, n as int),
        lhs.vars_below(k as int),
        rhs.vars_below(k as int),
    ensures
        law_holds(lhs, rhs, k as int, n as int, t) <==> law_holds(
            lhs,
            rhs,
            k as int,
            n as int,
            relabelled(t, sigma, n as int),
        ),
{
    let r = relabelled(t, sigma, n as int);
    if law_holds(lhs, rhs, k as int, n as int, t) {
        lemma_relabel_keeps_law(lhs, rhs, k, n, t, sigma);
    }
    if law_holds(lhs, rhs, k as int, n as int, r) {
        let iv = inverse(sigma);
        lemma_inverse(sigma, n as int);
        lemma_relabel_complete(t, sigma, n as int);
        lemma_relabel_keeps_law(lhs, rhs, k, n, r, iv);
        lemma_relabel_compose(t, sigma, iv, n as int);
        lemma_compose(iv, sigma, n as int);
        lemma_relabel_identity(t, compose(iv, sigma), n as int);
    }
}

/// 256 to the power `k`.
pub open spec fn pow256(k: nat) -> nat
    decreases k,
{
    if k == 0 { 1 } else { 256 * pow256((k - 1) as nat) }
}

/// The table read as a number in base 256, first cell most significant.
pub open spec fn code(s: Seq<u8>) -> nat
    decreases s.len(),
{
    if s.len() == 0 {
        0
    } else {
        (s[0] as nat) * pow256((s.len() - 1) as nat) + code(s.drop_first())
    }
}

proof fn lemma_code_bound(s: Seq<u8>)
    ensures
        code(s) < pow256(s.len()),
    decreases s.len(),
{
    if s.len() > 0 {
        lemma_code_bound(s.drop_first());
        let p = pow256((s.len() - 1) as nat);
        assert(s[0] * p + code(s.drop_first()) < 256 * p) by (nonlinear_arith)
            requires
                s[0] < 256,
                code(s.drop_first()) < p,
        ;
    }
}

/// The first difference decides the order of the codes.
proof fn lemma_code_first_difference(a: Seq<u8>, b: Seq<u8>, p: int)
    requires
        a.len() == b.len(),
        0 <= p < a.len(),
        a[p] < b[p],
        forall|q: int| 0 <= q < p ==> a[q] == b[q],
    ensures
        code(a) < code(b),
    decreases p,
{
    if p == 0 {
        lemma_code_bound(a.drop_first());
        let w = pow256((a.len() - 1) as nat);
        assert(a[0] * w + code(a.drop_first()) < b[0] * w) by (nonlinear_arith)
            requires
                a[0] < b[0],
                code(a.drop_first()) < w,
        ;
    } else {
        assert forall|q: int| 0 <= q < p - 1 implies a.drop_first()[q] == b.drop_first()[q] by {
            assert(a[q + 1] == b[q + 1]);
        }
        lemma_code_first_difference(a.drop_first(), b.drop_first(), p - 1);
        assert(a[0] == b[0]);
    }
}

/// Either two sequences are equal, or one is smaller at their first difference.
proof fn lemma_trichotomy(a: Seq<u8>, b: Seq<u8>)
    requires
        a.len() == b.len(),
    ensures
        a == b || (exists|p: int|
            0 <= p < a.len() && #[trigger] a[p] != b[p] && forall|q: int| 0 <= q < p ==> a[q] == b[q]),
{
    crate::search::lemma_first_difference(a, b, 0);
    if forall|q: int| 0 <= q < a.len() ==> a[q] == b[q] {
        assert(a =~= b);
    }
}

/// A sequence whose code is no larger than that of `b` is lexicographically at most `b`.
proof fn lemma_code_lex(a: Seq<u8>, b: Seq<u8>)
    requires
        a.len() == b.len(),
        code(a) <= code(b),
    ensures
        lex_le(a, b),
{
    lemma_trichotomy(a, b);
    if a != b {
        let p = choose|p: int| 0 <= p < a.len() && #[trigger] a[p] != b[p] && forall|q: int| 0 <= q < p ==> a[q] == b[q];
        if a[p] > b[p] {
            lemma_code_first_difference(b, a, p);
        } else {
            assert(0 <= p < a.len() && a[p] < b[p] && forall|q: int| 0 <= q < p ==> a[q] == b[q]);
        }
    }
}

/// Lexicographic order is antisymmetric.
pub proof fn lemma_lex_antisymmetric(a: Seq<u8>, b: Seq<u8>)
    requires
        a.len() == b.len(),
        lex_le(a, b),
        lex_le(b, a),
    ensures
        a == b,
{
    if a != b {
        let p = choose|p: int| 0 <= p < a.len() && #[trigger] a[p] < b[p] && forall|q: int| 0 <= q < p ==> a[q] == b[q];
        let r = choose|r: int| 0 <= r < b.len() && #[trigger] b[r] < a[r] && forall|q: int| 0 <= q < r ==> b[q] == a[q];
        if p < r {
            assert(b[p] == a[p]);
        } else if r < p {
            assert(a[r] == b[r]);
        }
    }
}

/// `m` is a member of the family with the least code.
pub open spec fn least_in(family: spec_fn(Seq<u8>) -> bool, m: Seq<u8>) -> bool {
    family(m) && forall|y: Seq<u8>| #[trigger] family(y) ==> code(m) <= code(y)
}

/// Some member of a non-empty family has the least code.
proof fn lemma_least_code(family: spec_fn(Seq<u8>) -> bool, x: Seq<u8>)
    requires
        family(x),
    ensures
        exists|m: Seq<u8>| #[trigger] least_in(family, m),
    decreases code(x),
{
    if exists|y: Seq<u8>| family(y) && code(y) < code(x) {
        let y = choose|y: Seq<u8>| family(y) && code(y) < code(x);
        lemma_least_code(family, y);
    } else {
        assert(least_in(family, x));
    }
}

/// Every isomorphism class of complete tables holds a lex-leader.
pub proof fn lemma_class_has_leader(t: Seq<u8>, n: int)
    requires
        complete_table(t, n),
    ensures
        exists|sigma: Seq<u8>| is_permutation(sigma, n) && is_lex_leader(#[trigger] relabelled(t, sigma, n), n),
{
    let family = |m: Seq<u8>| exists|sigma: Seq<u8>| is_permutation(sigma, n) && m == #[trigger] relabelled(t, sigma, n);
    let id = Seq::new(n as nat, |a: int| a as u8);
    assert(is_permutation(id, n)) by {
        assert(id.no_duplicates());
    }
    assert(is_identity(id));
    lemma_relabel_identity(t, id, n);
    assert(family(t));
    lemma_least_code(family, t);
    let m = choose|m: Seq<u8>| #[trigger] least_in(family, m);
    let sigma = choose|sigma: Seq<u8>| is_permutation(sigma, n) && m == #[trigger] relabelled(t, sigma, n);
    assert forall|tau: Seq<u8>| is_permutation(tau, n) implies lex_le(m, #[trigger] relabelled(m, tau, n)) by {
        lemma_relabel_compose(t, sigma, tau, n);
        lemma_compose(tau, sigma, n);
        assert(family(relabelled(m, tau, n)));
        lemma_code_lex(m, relabelled(m, tau, n));
    }
    assert(is_lex_leader(relabelled(t, sigma, n), n));
}

/// An isomorphism class holds at most one lex-leader.
pub proof fn lemma_leader_unique(t: Seq<u8>, sigma: Seq<u8>, n: int)
    requires
        1 <= n <= 255,
        complete_table(t, n),
        is_permutation(sigma, n),
        is_lex_leader(t, n),
        is_lex_leader(relabelled(t, sigma, n), n),
    ensures
        relabelled(t, sigma, n) == t,
{
    let r = relabelled(t, sigma, n);
    let iv = inverse(sigma);
    lemma_inverse(sigma, n);
    lemma_relabel_compose(t, sigma, iv, n);
    lemma_compose(iv, sigma, n);
    lemma_relabel_identity(t, compose(iv, sigma), n);
    assert(relabelled(r, iv, n) == t);
    assert(lex_le(t, r));
    assert(lex_le(r, relabelled(r, iv, n)));
    lemma_lex_antisymmetric(t, r);
}


/// With symmetry breaking, a search accepts exactly one table per isomorphism
/// class of models: every model of the law is isomorphic to an accepted table,
/// and to only one.
pub proof fn lemma_one_accepted_per_class(lhs: Term, rhs: Term, k: nat, n: int, t: Seq<u8>)
    requires
        lhs.vars_below(k as int),
        rhs.vars_below(k as int),
        complete_table(t, n),
        law_holds(lhs, rhs, k as int, n, t),
    ensures
        exists|m: Seq<u8>| #[trigger] accepted(lhs, rhs, k, n, true, m) && isomorphic(t, m, n),
        forall|m1: Seq<u8>, m2: Seq<u8>|
            #![trigger accepted(lhs, rhs, k, n, true, m1), accepted(lhs, rhs, k, n, true, m2)]
            accepted(lhs, rhs, k, n, true, m1) && isomorphic(t, m1, n) && accepted(lhs, rhs, k, n, true, m2)
                && isomorphic(t, m2, n) ==> m1 == m2,
{
    lemma_class_has_leader(t, n);
    let sigma = choose|sigma: Seq<u8>| is_permutation(sigma, n) && is_lex_leader(#[trigger] relabelled(t, sigma, n), n);
    let m = relabelled(t, sigma, n);
    lemma_relabel_complete(t, sigma, n);
    lemma_relabel_keeps_law(lhs, rhs, k, n as nat, t, sigma);
    assert(accepted(lhs, rhs, k, n, true, m) && isomorphic(t, m, n));
    assert forall|m1: Seq<u8>, m2: Seq<u8>|
        accepted(lhs, rhs, k, n, true, m1) && isomorphic(t, m1, n) && accepted(lhs, rhs, k, n, true, m2)
            && isomorphic(t, m2, n) implies m1 == m2 by {
        let s1 = choose|s: Seq<u8>| is_permutation(s, n) && m1 == #[trigger] relabelled(t, s, n);
        let s2 = choose|s: Seq<u8>| is_permutation(s, n) && m2 == #[trigger] relabelled(t, s, n);
        let iv = inverse(s1);
        lemma_inverse(s1, n);
        lemma_compose(s2, iv, n);
        let tau = compose(s2, iv);
        lemma_relabel_compose(t, s1, tau, n);
        assert(compose(tau, s1) =~= s2) by {
            assert forall|a: int| 0 <= a < s1.len() implies #[trigger] compose(tau, s1)[a] == s2[a] by {
                assert(compose(iv, s1)[a] == a);
            }
        }
        lemma_leader_unique(m1, tau, n);
    }
}

} // verus!
