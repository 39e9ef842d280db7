//! Variables numbered by first occurrence: numbering twice changes nothing,
//! swapping the sides of a law twice gives it back, and so the generator's
//! keys tell laws apart up to renaming and swapping sides.

use vstd::prelude::*;
use crate::law::{
    first_occurrences_into, lemma_contains_concat, lemma_distinct_bytes_len, lemma_first_occurrences_props,
    candidate, dedup_all, dedup_step, generated, lemma_leaves_vars, lemma_position_of, lemma_position_of_bound, law_key,
    pair_lt, position_of, stream_left, stream_ls, stream_pats, stream_rs, stream_total, stream_upto, term_lt, var_order,
    Term,
};

verus! {

/// Each element replaced by its position in `o`.
pub open spec fn renumbered(s: Seq<u8>, o: Seq<u8>) -> Seq<u8> {
    s.map_values(|v: u8| position_of(o, v) as u8)
}

/// Every element of `s` occurs in `o`.
pub open spec fn all_in(s: Seq<u8>, o: Seq<u8>) -> bool {
    forall|i: int| 0 <= i < s.len() ==> o.contains(#[trigger] s[i])
}

/// Positions in a sequence without duplicates tell its elements apart.
pub(crate) proof fn lemma_position_injective(o: Seq<u8>, x: u8, y: u8)
    requires
        o.no_duplicates(),
        o.contains(x),
        o.contains(y),
        position_of(o, x) == position_of(o, y),
    ensures
        x == y,
{
    lemma_position_of_bound(o, x);
    lemma_position_of_bound(o, y);
}

/// Taking first occurrences commutes with renumbering through `o`.
proof fn lemma_first_occurrences_renumbered(acc: Seq<u8>, s: Seq<u8>, o: Seq<u8>)
    requires
        o.no_duplicates(),
        all_in(acc, o),
        all_in(s, o),
    ensures
        first_occurrences_into(renumbered(acc, o), renumbered(s, o)) == renumbered(
            first_occurrences_into(acc, s),
            o,
        ),
    decreases s.len(),
{
    lemma_distinct_bytes_len(o);
    if s.len() > 0 {
        let x = s[0];
        let px = position_of(o, x) as u8;
        assert(renumbered(s, o)[0] == px);
        assert(acc.contains(x) <==> renumbered(acc, o).contains(px)) by {
            if acc.contains(x) {
                let k = choose|k: int| 0 <= k < acc.len() && acc[k] == x;
                assert(renumbered(acc, o)[k] == px);
            }
            if renumbered(acc, o).contains(px) {
                let k = choose|k: int| 0 <= k < renumbered(acc, o).len() && renumbered(acc, o)[k] == px;
                assert(o.contains(acc[k]));
                lemma_position_of_bound(o, acc[k]);
                lemma_position_of_bound(o, x);
                lemma_position_injective(o, acc[k], x);
            }
        }
        let acc2 = if acc.contains(x) { acc } else { acc.push(x) };
        assert(all_in(acc2, o)) by {
            assert forall|i: int| 0 <= i < acc2.len() implies o.contains(#[trigger] acc2[i]) by {
                if i < acc.len() {
                    assert(acc2[i] == acc[i]);
                }
            }
        }
        assert(all_in(s.drop_first(), o)) by {
            assert forall|i: int| 0 <= i < s.drop_first().len() implies o.contains(#[trigger] s.drop_first()[i]) by {
                assert(s.drop_first()[i] == s[i + 1]);
            }
        }
        lemma_first_occurrences_renumbered(acc2, s.drop_first(), o);
        assert(renumbered(s, o).drop_first() =~= renumbered(s.drop_first(), o));
        if !acc.contains(x) {
            assert(renumbered(acc.push(x), o) =~= renumbered(acc, o).push(px));
        }
    }
}

/// The variables of a numbered term, in order, are the renumbered variables.
proof fn lemma_leaves_numbered(t: Term, o: Seq<u8>)
    ensures
        t.numbered(o).leaves() == renumbered(t.leaves(), o),
    decreases t,
{
    if let Term::Op(l, r) = t {
        lemma_leaves_numbered(*l, o);
        lemma_leaves_numbered(*r, o);
        assert(renumbered(l.leaves() + r.leaves(), o) =~= renumbered(l.leaves(), o) + renumbered(r.leaves(), o));
    }
}

/// Every variable of `t` occurs in `o`.
pub open spec fn covers(o: Seq<u8>, t: Term) -> bool {
    forall|v: u8| #[trigger] t.has_var(v) ==> o.contains(v)
}

proof fn lemma_covers_leaves(o: Seq<u8>, t: Term)
    requires
        covers(o, t),
    ensures
        all_in(t.leaves(), o),
{
    lemma_leaves_vars(t, 0);
    assert forall|i: int| 0 <= i < t.leaves().len() implies o.contains(#[trigger] t.leaves()[i]) by {
        assert(t.leaves().contains(t.leaves()[i]));
        assert(t.has_var(t.leaves()[i]));
    }
}

/// Numbering both sides through `o` renumbers their order of first occurrence.
pub(crate) proof fn lemma_var_order_numbered(l: Term, r: Term, o: Seq<u8>)
    requires
        o.no_duplicates(),
        covers(o, l),
        covers(o, r),
    ensures
        var_order(l.numbered(o), r.numbered(o)) == renumbered(var_order(l, r), o),
{
    lemma_leaves_numbered(l, o);
    lemma_leaves_numbered(r, o);
    lemma_covers_leaves(o, l);
    lemma_covers_leaves(o, r);
    let s = l.leaves() + r.leaves();
    assert(all_in(s, o)) by {
        assert forall|i: int| 0 <= i < s.len() implies o.contains(#[trigger] s[i]) by {
            if i < l.leaves().len() {
                assert(s[i] == l.leaves()[i]);
            } else {
                assert(s[i] == r.leaves()[i - l.leaves().len()]);
            }
        }
    }
    assert(renumbered(s, o) =~= renumbered(l.leaves(), o) + renumbered(r.leaves(), o));
    assert(renumbered(Seq::<u8>::empty(), o) =~= Seq::<u8>::empty());
    lemma_first_occurrences_renumbered(Seq::empty(), s, o);
}

/// The order of first occurrence of a law's variables holds each of them once.
pub(crate) proof fn lemma_var_order_props(l: Term, r: Term)
    ensures
        var_order(l, r).no_duplicates(),
        var_order(l, r).len() <= 256,
        covers(var_order(l, r), l),
        covers(var_order(l, r), r),
        forall|x: u8| #[trigger] var_order(l, r).contains(x) ==> l.has_var(x) || r.has_var(x),
{
    let s = l.leaves() + r.leaves();
    lemma_first_occurrences_props(Seq::empty(), s);
    lemma_distinct_bytes_len(var_order(l, r));
    lemma_leaves_vars(l, 0);
    lemma_leaves_vars(r, 0);
    assert forall|v: u8| #[trigger] l.has_var(v) implies var_order(l, r).contains(v) by {
        lemma_contains_concat(l.leaves(), r.leaves(), v);
    }
    assert forall|v: u8| #[trigger] r.has_var(v) implies var_order(l, r).contains(v) by {
        lemma_contains_concat(l.leaves(), r.leaves(), v);
    }
    assert forall|x: u8| #[trigger] var_order(l, r).contains(x) implies l.has_var(x) || r.has_var(x) by {
        lemma_contains_concat(l.leaves(), r.leaves(), x);
    }
}

/// The sequence `0, 1, ..., k - 1`.
pub open spec fn first_numbers(k: nat) -> Seq<u8> {
    Seq::new(k, |i: int| i as u8)
}

/// The variables of `l = r` are numbered by first occurrence, left side first:
/// they first occur in the order `0, 1, 2, ...`.
pub open spec fn canonical(l: Term, r: Term) -> bool {
    var_order(l, r) == first_numbers(var_order(l, r).len())
}

/// Numbering a law's variables by first occurrence makes it canonical.
pub proof fn lemma_numbered_canonical(l: Term, r: Term)
    ensures
        canonical(l.numbered(var_order(l, r)), r.numbered(var_order(l, r))),
{
    let o = var_order(l, r);
    lemma_var_order_props(l, r);
    lemma_var_order_numbered(l, r, o);
    assert(renumbered(o, o) =~= first_numbers(o.len())) by {
        assert forall|i: int| 0 <= i < o.len() implies renumbered(o, o)[i] == first_numbers(o.len())[i] by {
            lemma_position_of(o, i);
        }
    }
}

/// Numbering through an order that sends every variable of `t` to itself
/// leaves `t` as it is.
proof fn lemma_numbered_fixed(t: Term, o: Seq<u8>)
    requires
        forall|v: u8| #[trigger] t.has_var(v) ==> position_of(o, v) == v,
    ensures
        t.numbered(o) == t,
    decreases t,
{
    match t {
        Term::Var(x) => {
            assert(t.has_var(x));
        },
        Term::Op(l, r) => {
            assert forall|v: u8| #[trigger] l.has_var(v) implies position_of(o, v) == v by {
                assert(t.has_var(v));
            }
            assert forall|v: u8| #[trigger] r.has_var(v) implies position_of(o, v) == v by {
                assert(t.has_var(v));
            }
            lemma_numbered_fixed(*l, o);
            lemma_numbered_fixed(*r, o);
        },
    }
}

/// Numbering a canonical law's variables by first occurrence changes
/// nothing: `Law::new` keeps a law that is numbered already.
pub proof fn lemma_canonical_numbered(l: Term, r: Term)
    requires
        canonical(l, r),
    ensures
        l.numbered(var_order(l, r)) == l,
        r.numbered(var_order(l, r)) == r,
{
    let o = var_order(l, r);
    let k = o.len();
    lemma_var_order_props(l, r);
    assert forall|v: u8|
        #![trigger l.has_var(v)]
        #![trigger r.has_var(v)]
        l.has_var(v) || r.has_var(v) implies position_of(o, v) == v by {
        let q = choose|q: int| 0 <= q < k && o[q] == v;
        assert(first_numbers(k)[q] == q as u8);
        lemma_position_of(o, q);
    }
    assert forall|v: u8| #[trigger] l.has_var(v) implies position_of(o, v) == v by {
        assert(l.has_var(v) || r.has_var(v));
    }
    assert forall|v: u8| #[trigger] r.has_var(v) implies position_of(o, v) == v by {
        assert(l.has_var(v) || r.has_var(v));
    }
    lemma_numbered_fixed(l, o);
    lemma_numbered_fixed(r, o);
}

/// Numbering through `a` and then through `b` sends every variable back to
/// itself when `b` lists the positions in `a` of `0, 1, ...` in order.
proof fn lemma_numbered_back(t: Term, a: Seq<u8>, b: Seq<u8>)
    requires
        a.no_duplicates(),
        b.no_duplicates(),
        covers(a, t),
        forall|v: u8| #[trigger] t.has_var(v) ==> (v as int) < b.len() && b[v as int] == position_of(a, v) as u8,
    ensures
        t.numbered(a).numbered(b) == t,
    decreases t,
{
    match t {
        Term::Var(x) => {
            assert(t.has_var(x));
            lemma_position_of(b, x as int);
        },
        Term::Op(l, r) => {
            assert forall|v: u8| #[trigger] l.has_var(v) implies a.contains(v) && (v as int) < b.len() && b[v as int]
                == position_of(a, v) as u8 by {
                assert(t.has_var(v));
            }
            assert forall|v: u8| #[trigger] r.has_var(v) implies a.contains(v) && (v as int) < b.len() && b[v as int]
                == position_of(a, v) as u8 by {
                assert(t.has_var(v));
            }
            lemma_numbered_back(*l, a, b);
            lemma_numbered_back(*r, a, b);
        },
    }
}

/// The law with its sides swapped and its variables numbered again by first
/// occurrence.
pub open spec fn swap_sides(p: (Term, Term)) -> (Term, Term) {
    let o = var_order(p.1, p.0);
    (p.1.numbered(o), p.0.numbered(o))
}

/// Swapping the sides of a canonical law twice gives it back.
pub proof fn lemma_swap_twice(l: Term, r: Term)
    requires
        canonical(l, r),
    ensures
        swap_sides(swap_sides((l, r))) == (l, r),
{
    let o1 = var_order(r, l);
    let (r1, l1) = swap_sides((l, r));
    lemma_var_order_props(r, l);
    lemma_var_order_props(l, r);
    lemma_var_order_numbered(l, r, o1);
    let o2 = var_order(l1, r1);
    lemma_var_order_props(l1, r1);
    let k = var_order(l, r).len();
    assert forall|v: u8| #[trigger] l.has_var(v) implies (v as int) < o2.len() && o2[v as int] == position_of(o1, v) as u8 by {
        assert(var_order(l, r).contains(v));
        let q = choose|q: int| 0 <= q < k && var_order(l, r)[q] == v;
        assert(first_numbers(k)[q] == q as u8);
    }
    assert forall|v: u8| #[trigger] r.has_var(v) implies (v as int) < o2.len() && o2[v as int] == position_of(o1, v) as u8 by {
        assert(var_order(l, r).contains(v));
        let q = choose|q: int| 0 <= q < k && var_order(l, r)[q] == v;
        assert(first_numbers(k)[q] == q as u8);
    }
    lemma_numbered_back(l, o1, o2);
    lemma_numbered_back(r, o1, o2);
}

/// The order on terms is a strict total order: of two different terms,
/// exactly one is smaller.
proof fn lemma_term_lt_total(a: Term, b: Term)
    ensures
        !(term_lt(a, b) && term_lt(b, a)),
        a == b ==> !term_lt(a, b),
        a != b ==> term_lt(a, b) || term_lt(b, a),
    decreases a,
{
    match (a, b) {
        (Term::Op(l1, r1), Term::Op(l2, r2)) => {
            lemma_term_lt_total(*l1, *l2);
            lemma_term_lt_total(*r1, *r2);
            if *l1 == *l2 && *r1 == *r2 {
                assert(a == b);
            }
        },
        _ => {},
    }
}

proof fn lemma_pair_lt_total(a: (Term, Term), b: (Term, Term))
    ensures
        !(pair_lt(a, b) && pair_lt(b, a)),
        a == b ==> !pair_lt(a, b),
        a != b ==> pair_lt(a, b) || pair_lt(b, a),
{
    lemma_term_lt_total(a.0, b.0);
    lemma_term_lt_total(a.1, b.1);
}

/// A canonical law and its swapped form have the same key.
pub proof fn lemma_key_of_swap(l: Term, r: Term)
    requires
        canonical(l, r),
    ensures
        law_key(swap_sides((l, r)).0, swap_sides((l, r)).1) == law_key(l, r),
{
    let a = (l, r);
    let sw = swap_sides(a);
    lemma_swap_twice(l, r);
    assert(swap_sides(sw) == a);
    lemma_pair_lt_total(a, sw);
}

/// Every candidate law in `s` is canonical.
pub open spec fn all_canonical(s: Seq<(Term, Term, nat)>) -> bool {
    forall|i: int| 0 <= i < s.len() ==> canonical(#[trigger] s[i].0, s[i].1)
}

proof fn lemma_all_canonical_concat(a: Seq<(Term, Term, nat)>, b: Seq<(Term, Term, nat)>)
    requires
        all_canonical(a),
        all_canonical(b),
    ensures
        all_canonical(a + b),
{
    assert forall|i: int| 0 <= i < (a + b).len() implies canonical(#[trigger] (a + b)[i].0, (a + b)[i].1) by {
        if i < a.len() {
            assert((a + b)[i] == a[i]);
        } else {
            assert((a + b)[i] == b[i - a.len()]);
        }
    }
}

proof fn lemma_stream_pats(ls: Term, rs: Term, pats: Seq<Seq<u8>>, total: nat)
    ensures
        all_canonical(stream_pats(ls, rs, pats, total)),
{
    assert forall|i: int| 0 <= i < stream_pats(ls, rs, pats, total).len() implies canonical(
        #[trigger] stream_pats(ls, rs, pats, total)[i].0,
        stream_pats(ls, rs, pats, total)[i].1,
    ) by {
        let c = candidate(ls, rs, pats[i], total);
        assert(stream_pats(ls, rs, pats, total)[i] == c);
        let fl = crate::law::fill_spec(ls, pats[i], 0);
        let fr = crate::law::fill_spec(rs, pats[i], ls.leaves().len() as int);
        lemma_numbered_canonical(fl, fr);
    }
}

proof fn lemma_stream_rs(ls: Term, rss: Seq<Term>, pats: Seq<Seq<u8>>, total: nat)
    ensures
        all_canonical(stream_rs(ls, rss, pats, total)),
    decreases rss.len(),
{
    if rss.len() > 0 {
        lemma_stream_rs(ls, rss.drop_last(), pats, total);
        lemma_stream_pats(ls, rss.last(), pats, total);
        lemma_all_canonical_concat(stream_rs(ls, rss.drop_last(), pats, total), stream_pats(ls, rss.last(), pats, total));
    }
}

proof fn lemma_stream_ls(lss: Seq<Term>, rss: Seq<Term>, pats: Seq<Seq<u8>>, total: nat)
    ensures
        all_canonical(stream_ls(lss, rss, pats, total)),
    decreases lss.len(),
{
    if lss.len() > 0 {
        lemma_stream_ls(lss.drop_last(), rss, pats, total);
        lemma_stream_rs(lss.last(), rss, pats, total);
        lemma_all_canonical_concat(stream_ls(lss.drop_last(), rss, pats, total), stream_rs(lss.last(), rss, pats, total));
    }
}

proof fn lemma_stream_total(total: nat, j: nat)
    ensures
        all_canonical(stream_total(total, j)),
    decreases j,
{
    if j > 0 {
        lemma_stream_total(total, (j - 1) as nat);
        let left = (j - 1) as nat;
        lemma_stream_ls(
            crate::law::shapes_of(left),
            crate::law::shapes_of((total - left) as nat),
            crate::law::patterns_of(total + 2, Seq::empty(), 0),
            total,
        );
        lemma_all_canonical_concat(stream_total(total, (j - 1) as nat), stream_left(total, left));
    }
}

pub(crate) proof fn lemma_stream_upto(t: nat)
    ensures
        all_canonical(stream_upto(t)),
    decreases t,
{
    if t > 0 {
        let u = (t - 1) as nat;
        lemma_stream_upto(u);
        lemma_stream_total(u, u / 2 + 1);
        lemma_all_canonical_concat(stream_upto(u), stream_total(u, u / 2 + 1));
    }
}

/// What deduplication keeps: canonical laws, each with its key, no key twice.
pub open spec fn dedup_ok(st: (Seq<(Term, Term)>, Seq<(Term, Term)>)) -> bool {
    &&& st.0.len() == st.1.len()
    &&& forall|i: int| 0 <= i < st.1.len() ==> #[trigger] st.0[i] == law_key(st.1[i].0, st.1[i].1)
    &&& forall|i: int| 0 <= i < st.1.len() ==> canonical(#[trigger] st.1[i].0, st.1[i].1)
    &&& st.0.no_duplicates()
}

pub(crate) proof fn lemma_dedup_all_ok(st: (Seq<(Term, Term)>, Seq<(Term, Term)>), cs: Seq<(Term, Term, nat)>)
    requires
        dedup_ok(st),
        all_canonical(cs),
    ensures
        dedup_ok(dedup_all(st, cs)),
    decreases cs.len(),
{
    if cs.len() > 0 {
        assert(all_canonical(cs.drop_last())) by {
            assert forall|i: int| 0 <= i < cs.drop_last().len() implies canonical(
                #[trigger] cs.drop_last()[i].0,
                cs.drop_last()[i].1,
            ) by {
                assert(cs.drop_last()[i] == cs[i]);
            }
        }
        lemma_dedup_all_ok(st, cs.drop_last());
        let prev = dedup_all(st, cs.drop_last());
        let c = cs.last();
        assert(canonical(cs[cs.len() - 1].0, cs[cs.len() - 1].1));
        if !(c.0 == c.1 && c.2 > 0) && !prev.0.contains(law_key(c.0, c.1)) {
            let next = dedup_step(prev, c);
            assert forall|i: int| 0 <= i < next.1.len() implies #[trigger] next.0[i] == law_key(next.1[i].0, next.1[i].1)
                && canonical(next.1[i].0, next.1[i].1) by {
                if i < prev.1.len() {
                    assert(next.0[i] == prev.0[i]);
                    assert(next.1[i] == prev.1[i]);
                }
            }
            assert(next.0.no_duplicates()) by {
                assert forall|a: int, b: int| 0 <= a < next.0.len() && 0 <= b < next.0.len() && a != b implies next.0[a]
                    != next.0[b] by {
                    if a < prev.0.len() && b < prev.0.len() {
                        assert(next.0[a] == prev.0[a] && next.0[b] == prev.0[b]);
                    } else if a < prev.0.len() {
                        assert(next.0[a] == prev.0[a]);
                    } else {
                        assert(next.0[b] == prev.0[b]);
                    }
                }
            }
        }
    }
}

/// The laws the generator lists have their variables numbered by first
/// occurrence, and none is a renaming of another one or of another one with
/// its sides swapped.
pub proof fn lemma_generated_distinct(max_ops: nat)
    ensures
        forall|i: int|
            0 <= i < generated(max_ops).len() ==> canonical(
                #[trigger] generated(max_ops)[i].0,
                generated(max_ops)[i].1,
            ),
        forall|i: int, j: int|
            #![trigger generated(max_ops)[i], generated(max_ops)[j]]
            0 <= i < generated(max_ops).len() && 0 <= j < generated(max_ops).len() && i != j ==> !renaming_of(
                generated(max_ops)[j],
                generated(max_ops)[i],
            ) && !renaming_of(generated(max_ops)[j], swap_sides(generated(max_ops)[i])),
{
    let st0 = (Seq::<(Term, Term)>::empty(), Seq::<(Term, Term)>::empty());
    lemma_stream_upto(max_ops + 1);
    lemma_dedup_all_ok(st0, stream_upto(max_ops + 1));
    let st = dedup_all(st0, stream_upto(max_ops + 1));
    let g = generated(max_ops);
    assert(g == st.1);
    assert forall|i: int, j: int|
        #![trigger generated(max_ops)[i], generated(max_ops)[j]]
        0 <= i < generated(max_ops).len() && 0 <= j < generated(max_ops).len() && i != j implies !renaming_of(
            generated(max_ops)[j],
            generated(max_ops)[i],
        ) && !renaming_of(generated(max_ops)[j], swap_sides(generated(max_ops)[i])) by {
        assert(st.0[i] == law_key(st.1[i].0, st.1[i].1));
        assert(st.0[j] == law_key(st.1[j].0, st.1[j].1));
        assert(st.0[i] != st.0[j]);
        assert(canonical(st.1[i].0, st.1[i].1));
        assert(canonical(st.1[j].0, st.1[j].1));
        lemma_key_of_swap(st.1[i].0, st.1[i].1);
        lemma_swap_canonical(st.1[i]);
        if renaming_of(g[j], g[i]) {
            lemma_canonical_renaming(g[i], g[j]);
        }
        if renaming_of(g[j], swap_sides(g[i])) {
            lemma_canonical_renaming(swap_sides(g[i]), g[j]);
        }
    }
}

/// `b` is `a` with its variables renamed one-to-one: distinct variables of
/// `a` get distinct names.
pub open spec fn renaming_of(b: (Term, Term), a: (Term, Term)) -> bool {
    exists|m: Seq<u8>|
        {
            &&& forall|v: u8|
                #![trigger a.0.has_var(v)]
                #![trigger a.1.has_var(v)]
                a.0.has_var(v) || a.1.has_var(v) ==> (v as int) < m.len()
            &&& forall|v: u8, w: u8|
                #![trigger m[v as int], m[w as int]]
                (a.0.has_var(v) || a.1.has_var(v)) && (a.0.has_var(w) || a.1.has_var(w)) && v != w ==> m[v as int]
                    != m[w as int]
            &&& b == (a.0.renamed(m), a.1.renamed(m))
        }
}

/// Each element replaced by its name under `m`.
pub open spec fn mapped(s: Seq<u8>, m: Seq<u8>) -> Seq<u8> {
    s.map_values(|v: u8| m[v as int])
}

/// Taking first occurrences commutes with a one-to-one renaming.
proof fn lemma_first_occurrences_mapped(acc: Seq<u8>, s: Seq<u8>, m: Seq<u8>, dom: Set<u8>)
    requires
        forall|i: int| 0 <= i < acc.len() ==> dom.contains(#[trigger] acc[i]),
        forall|i: int| 0 <= i < s.len() ==> dom.contains(#[trigger] s[i]),
        forall|v: u8, w: u8| #![trigger dom.contains(v), dom.contains(w)] dom.contains(v) && dom.contains(w) && v != w ==> m[v as int] != m[w as int],
    ensures
        first_occurrences_into(mapped(acc, m), mapped(s, m)) == mapped(first_occurrences_into(acc, s), m),
    decreases s.len(),
{
    if s.len() > 0 {
        let x = s[0];
        let mx = m[x as int];
        assert(mapped(s, m)[0] == mx);
        assert(acc.contains(x) <==> mapped(acc, m).contains(mx)) by {
            if acc.contains(x) {
                let k = choose|k: int| 0 <= k < acc.len() && acc[k] == x;
                assert(mapped(acc, m)[k] == mx);
            }
            if mapped(acc, m).contains(mx) {
                let k = choose|k: int| 0 <= k < mapped(acc, m).len() && mapped(acc, m)[k] == mx;
                assert(dom.contains(acc[k]) && dom.contains(x));
            }
        }
        let acc2 = if acc.contains(x) { acc } else { acc.push(x) };
        assert forall|i: int| 0 <= i < acc2.len() implies dom.contains(#[trigger] acc2[i]) by {
            if i < acc.len() {
                assert(acc2[i] == acc[i]);
            }
        }
        assert forall|i: int| 0 <= i < s.drop_first().len() implies dom.contains(#[trigger] s.drop_first()[i]) by {
            assert(s.drop_first()[i] == s[i + 1]);
        }
        lemma_first_occurrences_mapped(acc2, s.drop_first(), m, dom);
        assert(mapped(s, m).drop_first() =~= mapped(s.drop_first(), m));
        if !acc.contains(x) {
            assert(mapped(acc.push(x), m) =~= mapped(acc, m).push(mx));
        }
    }
}

proof fn lemma_leaves_renamed(t: Term, m: Seq<u8>)
    ensures
        t.renamed(m).leaves() == mapped(t.leaves(), m),
    decreases t,
{
    if let Term::Op(l, r) = t {
        lemma_leaves_renamed(*l, m);
        lemma_leaves_renamed(*r, m);
        assert(mapped(l.leaves() + r.leaves(), m) =~= mapped(l.leaves(), m) + mapped(r.leaves(), m));
    }
}

/// Renaming through a table that sends every variable to itself changes nothing.
proof fn lemma_renamed_fixed(t: Term, m: Seq<u8>)
    requires
        forall|v: u8| #[trigger] t.has_var(v) ==> m[v as int] == v,
    ensures
        t.renamed(m) == t,
    decreases t,
{
    match t {
        Term::Var(x) => {
            assert(t.has_var(x));
        },
        Term::Op(l, r) => {
            assert forall|v: u8| #[trigger] l.has_var(v) implies m[v as int] == v by {
                assert(t.has_var(v));
            }
            assert forall|v: u8| #[trigger] r.has_var(v) implies m[v as int] == v by {
                assert(t.has_var(v));
            }
            lemma_renamed_fixed(*l, m);
            lemma_renamed_fixed(*r, m);
        },
    }
}

/// Two canonical laws that are renamings of one another are equal: numbering
/// variables by first occurrence forgets their names.
pub proof fn lemma_canonical_renaming(a: (Term, Term), b: (Term, Term))
    requires
        canonical(a.0, a.1),
        canonical(b.0, b.1),
        renaming_of(b, a),
    ensures
        a == b,
{
    let m = choose|m: Seq<u8>|
        {
            &&& forall|v: u8|
                #![trigger a.0.has_var(v)]
                #![trigger a.1.has_var(v)]
                a.0.has_var(v) || a.1.has_var(v) ==> (v as int) < m.len()
            &&& forall|v: u8, w: u8|
                #![trigger m[v as int], m[w as int]]
                (a.0.has_var(v) || a.1.has_var(v)) && (a.0.has_var(w) || a.1.has_var(w)) && v != w ==> m[v as int]
                    != m[w as int]
            &&& b == (a.0.renamed(m), a.1.renamed(m))
        };
    let dom = Set::new(|v: u8| a.0.has_var(v) || a.1.has_var(v));
    lemma_leaves_vars(a.0, 0);
    lemma_leaves_vars(a.1, 0);
    let s = a.0.leaves() + a.1.leaves();
    assert forall|i: int| 0 <= i < s.len() implies dom.contains(#[trigger] s[i]) by {
        lemma_contains_concat(a.0.leaves(), a.1.leaves(), s[i]);
        assert(s.contains(s[i]));
    }
    assert forall|v: u8, w: u8| #![trigger dom.contains(v), dom.contains(w)] dom.contains(v) && dom.contains(w) && v != w implies m[v as int] != m[w as int] by {
    }
    lemma_leaves_renamed(a.0, m);
    lemma_leaves_renamed(a.1, m);
    assert(mapped(s, m) =~= mapped(a.0.leaves(), m) + mapped(a.1.leaves(), m));
    assert(mapped(Seq::<u8>::empty(), m) =~= Seq::<u8>::empty());
    lemma_first_occurrences_mapped(Seq::empty(), s, m, dom);
    let oa = var_order(a.0, a.1);
    let k = oa.len();
    assert(var_order(b.0, b.1) == mapped(oa, m));
    assert forall|v: u8|
        #![trigger a.0.has_var(v)]
        #![trigger a.1.has_var(v)]
        a.0.has_var(v) || a.1.has_var(v) implies m[v as int] == v by {
        lemma_var_order_props(a.0, a.1);
        let q = choose|q: int| 0 <= q < k && oa[q] == v;
        assert(first_numbers(k)[q] == q as u8);
        assert(mapped(oa, m)[q] == m[v as int]);
        assert(first_numbers(mapped(oa, m).len())[q] == q as u8);
    }
    assert forall|v: u8| #[trigger] a.0.has_var(v) implies m[v as int] == v by {
        assert(a.0.has_var(v) || a.1.has_var(v));
    }
    assert forall|v: u8| #[trigger] a.1.has_var(v) implies m[v as int] == v by {
        assert(a.0.has_var(v) || a.1.has_var(v));
    }
    lemma_renamed_fixed(a.0, m);
    lemma_renamed_fixed(a.1, m);
}

/// Swapping sides gives a canonical law.
pub proof fn lemma_swap_canonical(p: (Term, Term))
    ensures
        canonical(swap_sides(p).0, swap_sides(p).1),
{
    lemma_numbered_canonical(p.1, p.0);
}

} // verus!
