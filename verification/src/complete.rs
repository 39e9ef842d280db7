//! The generator misses no law: every law with at most `max_ops` operations
//! and at most [`MAX_VARS`] variables, other than a trivial one with
//! operations, is listed with its variables numbered by first occurrence,
//! possibly with its sides swapped.

use vstd::prelude::*;
use crate::canonical::{
    canonical, covers, first_numbers, lemma_canonical_numbered, lemma_dedup_all_ok, lemma_numbered_canonical,
    lemma_position_injective, lemma_swap_canonical, lemma_swap_twice, lemma_var_order_numbered,
    lemma_var_order_props, renaming_of, swap_sides,
};
use crate::generator::lemma_numbered_ops;
use crate::law::{
    candidate, combine, dedup_all, dedup_step, fill_spec, first_occurrences_into, generated, law_key,
    lemma_first_occurrences_append, lemma_first_occurrences_props, pattern_limit, patterns_of, patterns_with,
    position_of, shapes_from, shapes_of, stream_left, stream_ls, stream_pats, stream_rs, stream_total, stream_upto,
    var_order, Term, MAX_VARS,
};

verus! {

/// `a + b` holds what `a` holds and what `b` holds.
proof fn lemma_in_concat<A>(a: Seq<A>, b: Seq<A>, x: A)
    requires
        a.contains(x) || b.contains(x),
    ensures
        (a + b).contains(x),
{
    if a.contains(x) {
        let k = choose|k: int| 0 <= k < a.len() && a[k] == x;
        assert((a + b)[k] == x);
    } else {
        let k = choose|k: int| 0 <= k < b.len() && b[k] == x;
        assert((a + b)[a.len() + k] == x);
    }
}

/// The tree shape of `t`: `t` with every leaf variable 0.
pub open spec fn shape_of(t: Term) -> Term
    decreases t,
{
    match t {
        Term::Var(_) => Term::Var(0),
        Term::Op(l, r) => Term::Op(Box::new(shape_of(*l)), Box::new(shape_of(*r))),
    }
}

proof fn lemma_shape_props(t: Term)
    ensures
        shape_of(t).op_count() == t.op_count(),
        shape_of(t).leaves().len() == t.leaves().len(),
        t.leaves().len() == t.op_count() + 1,
    decreases t,
{
    if let Term::Op(l, r) = t {
        lemma_shape_props(*l);
        lemma_shape_props(*r);
    }
}

proof fn lemma_combine_contains(ls: Seq<Term>, rs: Seq<Term>, x: Term, y: Term)
    requires
        ls.contains(x),
        rs.contains(y),
    ensures
        combine(ls, rs).contains(Term::Op(Box::new(x), Box::new(y))),
    decreases ls.len(),
{
    let part = rs.map_values(|r: Term| Term::Op(Box::new(ls.last()), Box::new(r)));
    if x == ls.last() {
        let j = choose|j: int| 0 <= j < rs.len() && rs[j] == y;
        assert(part[j] == Term::Op(Box::new(x), Box::new(y)));
        lemma_in_concat(combine(ls.drop_last(), rs), part, Term::Op(Box::new(x), Box::new(y)));
    } else {
        let i = choose|i: int| 0 <= i < ls.len() && ls[i] == x;
        assert(ls.drop_last()[i] == x);
        lemma_combine_contains(ls.drop_last(), rs, x, y);
        lemma_in_concat(combine(ls.drop_last(), rs), part, Term::Op(Box::new(x), Box::new(y)));
    }
}

proof fn lemma_shapes_from_contains(ops: nat, left: nat, j: nat, x: Term)
    requires
        left <= j < ops,
        combine(shapes_of(j), shapes_of((ops - 1 - j) as nat)).contains(x),
    ensures
        shapes_from(ops, left).contains(x),
    decreases j - left,
{
    let here = combine(shapes_of(left), shapes_of((ops - 1 - left) as nat));
    if left < j {
        lemma_shapes_from_contains(ops, left + 1, j, x);
    }
    lemma_in_concat(here, shapes_from(ops, left + 1), x);
}

/// Every tree shape is listed among the shapes of its size.
proof fn lemma_shapes_contain(t: Term)
    ensures
        shapes_of(t.op_count()).contains(shape_of(t)),
    decreases t,
{
    match t {
        Term::Var(_) => {
            assert(shapes_of(0)[0] == Term::Var(0));
        },
        Term::Op(l, r) => {
            lemma_shapes_contain(*l);
            lemma_shapes_contain(*r);
            lemma_shape_props(*l);
            lemma_shape_props(*r);
            let ops = t.op_count();
            lemma_combine_contains(shapes_of(l.op_count()), shapes_of(r.op_count()), shape_of(*l), shape_of(*r));
            assert((ops - 1 - l.op_count()) as nat == r.op_count());
            lemma_shapes_from_contains(ops, 0, l.op_count(), shape_of(t));
        },
    }
}

/// Filling the shape of `t` with the leaves of `t` gives `t` back.
proof fn lemma_fill_shape(t: Term, pat: Seq<u8>, start: int)
    requires
        0 <= start,
        start + t.leaves().len() <= pat.len(),
        pat.subrange(start, start + t.leaves().len()) == t.leaves(),
    ensures
        fill_spec(shape_of(t), pat, start) == t,
    decreases t,
{
    match t {
        Term::Var(x) => {
            assert(pat.subrange(start, start + 1)[0] == pat[start]);
        },
        Term::Op(l, r) => {
            lemma_shape_props(*l);
            let a = l.leaves().len() as int;
            let b = r.leaves().len() as int;
            assert(pat.subrange(start, start + a) =~= pat.subrange(start, start + a + b).subrange(0, a));
            assert(pat.subrange(start + a, start + a + b) =~= pat.subrange(start, start + a + b).subrange(a, a + b));
            assert(t.leaves().subrange(0, a) =~= l.leaves());
            assert(t.leaves().subrange(a, a + b) =~= r.leaves());
            lemma_fill_shape(*l, pat, start);
            lemma_fill_shape(*r, pat, start + a);
        },
    }
}

/// The candidates built from `ls`, `rs` and a pattern of `pats` are all in the stream.
proof fn lemma_stream_ls_contains(
    lss: Seq<Term>,
    rss: Seq<Term>,
    pats: Seq<Seq<u8>>,
    total: nat,
    ls: Term,
    rs: Term,
    pat: Seq<u8>,
)
    requires
        lss.contains(ls),
        rss.contains(rs),
        pats.contains(pat),
    ensures
        stream_ls(lss, rss, pats, total).contains(candidate(ls, rs, pat, total)),
    decreases lss.len(),
{
    let c = candidate(ls, rs, pat, total);
    if ls == lss.last() {
        lemma_stream_rs_contains(ls, rss, pats, total, rs, pat);
        lemma_in_concat(stream_ls(lss.drop_last(), rss, pats, total), stream_rs(ls, rss, pats, total), c);
    } else {
        let i = choose|i: int| 0 <= i < lss.len() && lss[i] == ls;
        assert(lss.drop_last()[i] == ls);
        lemma_stream_ls_contains(lss.drop_last(), rss, pats, total, ls, rs, pat);
        lemma_in_concat(stream_ls(lss.drop_last(), rss, pats, total), stream_rs(lss.last(), rss, pats, total), c);
    }
}

proof fn lemma_stream_rs_contains(ls: Term, rss: Seq<Term>, pats: Seq<Seq<u8>>, total: nat, rs: Term, pat: Seq<u8>)
    requires
        rss.contains(rs),
        pats.contains(pat),
    ensures
        stream_rs(ls, rss, pats, total).contains(candidate(ls, rs, pat, total)),
    decreases rss.len(),
{
    let c = candidate(ls, rs, pat, total);
    if rs == rss.last() {
        let j = choose|j: int| 0 <= j < pats.len() && pats[j] == pat;
        assert(stream_pats(ls, rs, pats, total)[j] == c);
        lemma_in_concat(stream_rs(ls, rss.drop_last(), pats, total), stream_pats(ls, rs, pats, total), c);
    } else {
        let i = choose|i: int| 0 <= i < rss.len() && rss[i] == rs;
        assert(rss.drop_last()[i] == rs);
        lemma_stream_rs_contains(ls, rss.drop_last(), pats, total, rs, pat);
        lemma_in_concat(stream_rs(ls, rss.drop_last(), pats, total), stream_pats(ls, rss.last(), pats, total), c);
    }
}

proof fn lemma_stream_total_contains(total: nat, j: nat, left: nat, c: (Term, Term, nat))
    requires
        left < j,
        stream_left(total, left).contains(c),
    ensures
        stream_total(total, j).contains(c),
    decreases j,
{
    let prev = (j - 1) as nat;
    if left < prev {
        lemma_stream_total_contains(total, prev, left, c);
    }
    lemma_in_concat(stream_total(total, prev), stream_left(total, prev), c);
}

proof fn lemma_stream_upto_contains(t: nat, u: nat, c: (Term, Term, nat))
    requires
        u < t,
        stream_total(u, u / 2 + 1).contains(c),
    ensures
        stream_upto(t).contains(c),
    decreases t,
{
    let prev = (t - 1) as nat;
    if u < prev {
        lemma_stream_upto_contains(prev, u, c);
    }
    lemma_in_concat(stream_upto(prev), stream_total(prev, prev / 2 + 1), c);
}

/// The largest element of `s` (0 when `s` is empty).
pub open spec fn seq_max(s: Seq<u8>) -> u8
    decreases s.len(),
{
    if s.len() == 0 {
        0
    } else if s.last() > seq_max(s.drop_last()) {
        s.last()
    } else {
        seq_max(s.drop_last())
    }
}

/// `s` is a variable pattern: each value within the limit set by the values before it.
pub open spec fn growth_ok(s: Seq<u8>) -> bool {
    forall|i: int| 0 <= i < s.len() ==> (#[trigger] s[i]) as nat <= pattern_limit(s.take(i), seq_max(s.take(i)))
}

proof fn lemma_patterns_with_contains(len: nat, prefix: Seq<u8>, max: u8, w: nat, v: nat, x: Seq<u8>)
    requires
        prefix.len() < len,
        w <= v <= pattern_limit(prefix, max),
        v < 9,
        patterns_of(len, prefix.push(v as u8), if v > max { v as u8 } else { max }).contains(x),
    ensures
        patterns_with(len, prefix, max, w).contains(x),
    decreases v - w,
{
    let here = patterns_of(len, prefix.push(w as u8), if w > max { w as u8 } else { max });
    if w < v {
        lemma_patterns_with_contains(len, prefix, max, w + 1, v, x);
    }
    lemma_in_concat(here, patterns_with(len, prefix, max, w + 1), x);
}

/// A variable pattern of length `len` is listed among the patterns extending
/// any of its prefixes.
proof fn lemma_patterns_contain(len: nat, s: Seq<u8>, p: nat)
    requires
        s.len() == len,
        p <= len,
        growth_ok(s),
    ensures
        patterns_of(len, s.take(p as int), seq_max(s.take(p as int))).contains(s),
    decreases len - p,
{
    let prefix = s.take(p as int);
    if p == len {
        assert(prefix =~= s);
        assert(patterns_of(len, prefix, seq_max(prefix))[0] == s);
    } else {
        let v = s[p as int];
        let max = seq_max(prefix);
        assert(v as nat <= pattern_limit(prefix, max));
        lemma_patterns_contain(len, s, p + 1);
        let next = s.take(p + 1 as int);
        assert(next =~= prefix.push(v));
        assert(next.drop_last() =~= prefix);
        assert(seq_max(next) == if v > max { v } else { max });
        lemma_patterns_with_contains(len, prefix, max, 0, v as nat, s);
    }
}

/// Along a sequence whose variables first occur in the order `0, 1, 2, ...`,
/// the first occurrences in each prefix are `0, 1, ...` up to one more than
/// the prefix's largest value, and every value is within the pattern limit.
proof fn lemma_growth_upto(s: Seq<u8>, i: nat)
    requires
        i <= s.len(),
        first_occurrences_into(Seq::empty(), s) == first_numbers(first_occurrences_into(Seq::empty(), s).len()),
        first_occurrences_into(Seq::empty(), s).len() <= MAX_VARS,
    ensures
        first_occurrences_into(Seq::empty(), s.take(i as int)) == first_numbers(
            first_occurrences_into(Seq::empty(), s.take(i as int)).len(),
        ),
        i > 0 ==> seq_max(s.take(i as int)) + 1 == first_occurrences_into(Seq::empty(), s.take(i as int)).len(),
        i == 0 ==> first_occurrences_into(Seq::empty(), s.take(i as int)).len() == 0,
        forall|j: int| 0 <= j < i ==> (#[trigger] s[j]) as nat <= pattern_limit(s.take(j), seq_max(s.take(j))),
    decreases i,
{
    let e = Seq::<u8>::empty();
    let big = first_occurrences_into(e, s);
    let k = big.len();
    if i == 0 {
        assert(s.take(0) =~= e);
        assert(first_numbers(0) =~= e);
    } else {
        let j = (i - 1) as nat;
        lemma_growth_upto(s, j);
        let x = s[j as int];
        let pre = s.take(j as int);
        let cur = s.take(i as int);
        let fj = first_occurrences_into(e, pre);
        let fi = first_occurrences_into(e, cur);
        assert(cur =~= pre + seq![x]);
        lemma_first_occurrences_append(e, pre, seq![x]);
        assert(seq![x].drop_first() =~= e);
        let step = if fj.contains(x) { fj } else { fj.push(x) };
        assert(first_occurrences_into(fj, seq![x]) == first_occurrences_into(step, seq![x].drop_first()));
        assert(fi == step);
        assert(cur + s.skip(i as int) =~= s);
        lemma_first_occurrences_append(e, cur, s.skip(i as int));
        lemma_first_occurrences_props(e, cur);
        lemma_first_occurrences_props(fi, s.skip(i as int));
        assert(big.subrange(0, fi.len() as int) == fi);
        assert(fi =~= first_numbers(fi.len())) by {
            assert forall|q: int| 0 <= q < fi.len() implies fi[q] == first_numbers(fi.len())[q] by {
                assert(big.subrange(0, fi.len() as int)[q] == big[q]);
            }
        }
        assert(fi.len() <= k);
        assert(cur.drop_last() =~= pre);
        assert(cur.last() == x);
        if fj.contains(x) {
            let q = choose|q: int| 0 <= q < fj.len() && fj[q] == x;
            assert(first_numbers(fj.len())[q] == q as u8);
        } else {
            assert(fi[fj.len() as int] == x);
            assert(first_numbers(fi.len())[fj.len() as int] == fj.len() as u8);
        }
        assert(x < k) by {
            let q = choose|q: int| 0 <= q < fi.len() && fi[q] == x;
            assert(first_numbers(fi.len())[q] == q as u8);
        }
        assert forall|jj: int| 0 <= jj < i implies (#[trigger] s[jj]) as nat <= pattern_limit(
            s.take(jj),
            seq_max(s.take(jj)),
        ) by {
            if jj == j {
                if j == 0 {
                    assert(pre =~= e);
                }
            }
        }
    }
}

/// A canonical law with no more operations on the left than on the right is
/// one of the candidates the generator considers.
proof fn lemma_candidate_listed(l: Term, r: Term, t: nat)
    requires
        canonical(l, r),
        var_order(l, r).len() <= MAX_VARS,
        l.op_count() <= r.op_count(),
        l.op_count() + r.op_count() < t,
    ensures
        stream_upto(t).contains((l, r, l.op_count() + r.op_count())),
{
    let total = l.op_count() + r.op_count();
    let left = l.op_count();
    let s = l.leaves() + r.leaves();
    let a = l.leaves().len() as int;
    lemma_shape_props(l);
    lemma_shape_props(r);
    lemma_growth_upto(s, s.len());
    assert(s.take(s.len() as int) =~= s);
    assert(growth_ok(s));
    lemma_patterns_contain(total + 2, s, 0);
    assert(s.take(0) =~= Seq::<u8>::empty());
    let pats = patterns_of(total + 2, Seq::empty(), 0);
    lemma_shapes_contain(l);
    lemma_shapes_contain(r);
    assert(s.subrange(0, a) =~= l.leaves());
    assert(s.subrange(a, a + r.leaves().len()) =~= r.leaves());
    lemma_fill_shape(l, s, 0);
    lemma_fill_shape(r, s, a);
    lemma_canonical_numbered(l, r);
    let c = (l, r, total);
    assert(candidate(shape_of(l), shape_of(r), s, total) == c);
    lemma_stream_ls_contains(shapes_of(left), shapes_of((total - left) as nat), pats, total, shape_of(l), shape_of(r), s);
    assert(stream_left(total, left).contains(c));
    lemma_stream_total_contains(total, total / 2 + 1, left, c);
    lemma_stream_upto_contains(t, total, c);
}

/// The two orders of first occurrence of a law, left side first or right side
/// first, have the same length.
proof fn lemma_var_order_len_swap(l: Term, r: Term)
    ensures
        var_order(r, l).len() == var_order(l, r).len(),
{
    lemma_var_order_props(l, r);
    lemma_var_order_props(r, l);
    let a = var_order(l, r);
    let b = var_order(r, l);
    assert(a.to_set() =~= b.to_set()) by {
        assert forall|x: u8| a.to_set().contains(x) <==> b.to_set().contains(x) by {
            if a.contains(x) {
                assert(l.has_var(x) || r.has_var(x));
            }
            if b.contains(x) {
                assert(l.has_var(x) || r.has_var(x));
            }
        }
    }
    a.unique_seq_to_set();
    b.unique_seq_to_set();
}

/// Numbering through an order without duplicates that covers both terms
/// tells different terms apart.
proof fn lemma_numbered_injective(l: Term, r: Term, o: Seq<u8>)
    requires
        o.no_duplicates(),
        o.len() <= 256,
        covers(o, l),
        covers(o, r),
        l.numbered(o) == r.numbered(o),
    ensures
        l == r,
    decreases l,
{
    match (l, r) {
        (Term::Var(x), Term::Var(y)) => {
            assert(l.has_var(x) && r.has_var(y));
            crate::law::lemma_position_of_bound(o, x);
            crate::law::lemma_position_of_bound(o, y);
            lemma_position_injective(o, x, y);
        },
        (Term::Op(a, b), Term::Op(c, d)) => {
            assert forall|v: u8| #[trigger] a.has_var(v) implies o.contains(v) by {
                assert(l.has_var(v));
            }
            assert forall|v: u8| #[trigger] b.has_var(v) implies o.contains(v) by {
                assert(l.has_var(v));
            }
            assert forall|v: u8| #[trigger] c.has_var(v) implies o.contains(v) by {
                assert(r.has_var(v));
            }
            assert forall|v: u8| #[trigger] d.has_var(v) implies o.contains(v) by {
                assert(r.has_var(v));
            }
            lemma_numbered_injective(*a, *c, o);
            lemma_numbered_injective(*b, *d, o);
        },
        _ => {},
    }
}

/// Every canonical law with at most `max_ops` operations and at most
/// [`MAX_VARS`] variables, other than a trivial law with operations, is listed
/// by the generator as it is or with its sides swapped.
pub proof fn lemma_generated_complete_canonical(max_ops: nat, l: Term, r: Term)
    requires
        canonical(l, r),
        l.op_count() + r.op_count() <= max_ops,
        var_order(l, r).len() <= MAX_VARS,
        l == r ==> l.op_count() == 0,
    ensures
        exists|i: int|
            0 <= i < generated(max_ops).len() && (#[trigger] generated(max_ops)[i] == (l, r) || generated(max_ops)[i]
                == swap_sides((l, r))),
{
    let t = max_ops + 1;
    let sw = swap_sides((l, r));
    lemma_swap_canonical((l, r));
    lemma_swap_twice(l, r);
    let p = if l.op_count() <= r.op_count() { (l, r) } else { sw };
    if l.op_count() > r.op_count() {
        let o = var_order(r, l);
        lemma_numbered_ops(r, o);
        lemma_numbered_ops(l, o);
        lemma_var_order_props(r, l);
        lemma_var_order_numbered(r, l, o);
        lemma_var_order_len_swap(l, r);
    }
    lemma_candidate_listed(p.0, p.1, t);
    let c = (p.0, p.1, p.0.op_count() + p.1.op_count());
    let st0 = (Seq::<(Term, Term)>::empty(), Seq::<(Term, Term)>::empty());
    let cs = stream_upto(t);
    lemma_dedup_records(st0, cs, c);
    crate::canonical::lemma_stream_upto(t);
    lemma_dedup_all_ok(st0, cs);
    let st = dedup_all(st0, cs);
    let key = law_key(p.0, p.1);
    let i = choose|i: int| 0 <= i < st.0.len() && st.0[i] == key;
    let g = st.1[i];
    assert(st.0[i] == law_key(g.0, g.1));
    assert(canonical(g.0, g.1));
    lemma_swap_twice(g.0, g.1);
    lemma_swap_twice(p.0, p.1);
    assert(generated(max_ops)[i] == g);
}

/// The table that sends each variable to its position in `o`.
spec fn position_table(o: Seq<u8>) -> Seq<u8> {
    Seq::new(256, |v: int| position_of(o, v as u8) as u8)
}

proof fn lemma_numbered_renamed(t: Term, o: Seq<u8>)
    ensures
        t.numbered(o) == t.renamed(position_table(o)),
    decreases t,
{
    if let Term::Op(a, b) = t {
        lemma_numbered_renamed(*a, o);
        lemma_numbered_renamed(*b, o);
    }
}

/// Numbering a law's variables by first occurrence renames them one-to-one.
pub proof fn lemma_numbered_is_renaming(l: Term, r: Term)
    ensures
        renaming_of((l.numbered(var_order(l, r)), r.numbered(var_order(l, r))), (l, r)),
{
    let o = var_order(l, r);
    let m = position_table(o);
    lemma_var_order_props(l, r);
    lemma_numbered_renamed(l, o);
    lemma_numbered_renamed(r, o);
    assert forall|v: u8, w: u8|
        #![trigger m[v as int], m[w as int]]
        (l.has_var(v) || r.has_var(v)) && (l.has_var(w) || r.has_var(w)) && v != w implies m[v as int] != m[
        w as int] by {
        assert(o.contains(v) && o.contains(w));
        crate::law::lemma_position_of_bound(o, v);
        crate::law::lemma_position_of_bound(o, w);
        if m[v as int] == m[w as int] {
            lemma_position_injective(o, v, w);
        }
    }
    assert(((l.numbered(o), r.numbered(o))) == (l.renamed(m), r.renamed(m)));
}

/// The generator misses no law: for every law with at most `max_ops`
/// operations and at most [`MAX_VARS`] variables, other than a trivial law
/// with operations, the law with its variables numbered by first occurrence
/// (a one-to-one renaming of it), or that law with its sides swapped, is listed.
pub proof fn lemma_generated_complete(max_ops: nat, l: Term, r: Term)
    requires
        l.op_count() + r.op_count() <= max_ops,
        var_order(l, r).len() <= MAX_VARS,
        l == r ==> l.op_count() == 0,
    ensures
        renaming_of((l.numbered(var_order(l, r)), r.numbered(var_order(l, r))), (l, r)),
        exists|i: int|
            0 <= i < generated(max_ops).len() && (#[trigger] generated(max_ops)[i] == (
                l.numbered(var_order(l, r)),
                r.numbered(var_order(l, r)),
            ) || generated(max_ops)[i] == swap_sides(
                (l.numbered(var_order(l, r)), r.numbered(var_order(l, r))),
            )),
{
    let o = var_order(l, r);
    let nl = l.numbered(o);
    let nr = r.numbered(o);
    lemma_numbered_canonical(l, r);
    lemma_numbered_ops(l, o);
    lemma_numbered_ops(r, o);
    lemma_var_order_props(l, r);
    lemma_var_order_numbered(l, r, o);
    if nl == nr {
        lemma_numbered_injective(l, r, o);
    }
    lemma_generated_complete_canonical(max_ops, nl, nr);
    lemma_numbered_is_renaming(l, r);
}

/// One deduplication step never forgets a key.
proof fn lemma_step_keeps(st: (Seq<(Term, Term)>, Seq<(Term, Term)>), c: (Term, Term, nat), key: (Term, Term))
    requires
        st.0.contains(key),
    ensures
        dedup_step(st, c).0.contains(key),
{
    let k = law_key(c.0, c.1);
    if !(c.0 == c.1 && c.2 > 0) && !st.0.contains(k) {
        let i = choose|i: int| 0 <= i < st.0.len() && st.0[i] == key;
        assert(st.0.push(k)[i] == key);
    }
}

/// Deduplication never forgets a key.
proof fn lemma_dedup_keeps(st: (Seq<(Term, Term)>, Seq<(Term, Term)>), cs: Seq<(Term, Term, nat)>, key: (Term, Term))
    requires
        st.0.contains(key),
    ensures
        dedup_all(st, cs).0.contains(key),
    decreases cs.len(),
{
    if cs.len() > 0 {
        lemma_dedup_keeps(st, cs.drop_last(), key);
        lemma_step_keeps(dedup_all(st, cs.drop_last()), cs.last(), key);
    }
}

/// Every candidate that is not trivial with operations leaves its key behind.
proof fn lemma_dedup_records(st: (Seq<(Term, Term)>, Seq<(Term, Term)>), cs: Seq<(Term, Term, nat)>, c: (Term, Term, nat))
    requires
        cs.contains(c),
        !(c.0 == c.1 && c.2 > 0),
    ensures
        dedup_all(st, cs).0.contains(law_key(c.0, c.1)),
    decreases cs.len(),
{
    let prev = dedup_all(st, cs.drop_last());
    let k = law_key(cs.last().0, cs.last().1);
    if c == cs.last() {
        if !prev.0.contains(k) {
            assert(prev.0.push(k)[prev.0.len() as int] == k);
        }
    } else {
        let i = choose|i: int| 0 <= i < cs.len() && cs[i] == c;
        assert(cs.drop_last()[i] == c);
        lemma_dedup_records(st, cs.drop_last(), c);
        lemma_step_keeps(prev, cs.last(), law_key(c.0, c.1));
    }
}

} // verus!
