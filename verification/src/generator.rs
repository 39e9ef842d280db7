//! What the law generator lists: laws with at most the requested number of
//! operations, the left side never larger than the right, in order of
//! operation count, each list a prefix of the next.

use vstd::prelude::*;
use crate::law::{
    candidate, combine, dedup_all, dedup_step, fill_spec, generated, shapes_from, shapes_of, stream_left, stream_ls,
    stream_pats, stream_rs, stream_total, stream_upto, Term,
};

verus! {

/// Every term of `s` has `k` operations.
pub open spec fn all_ops(s: Seq<Term>, k: nat) -> bool {
    forall|i: int| 0 <= i < s.len() ==> (#[trigger] s[i]).op_count() == k
}

proof fn lemma_combine_ops(ls: Seq<Term>, rs: Seq<Term>, a: nat, b: nat)
    requires
        all_ops(ls, a),
        all_ops(rs, b),
    ensures
        all_ops(combine(ls, rs), 1 + a + b),
    decreases ls.len(),
{
    if ls.len() > 0 {
        assert(all_ops(ls.drop_last(), a)) by {
            assert forall|i: int| 0 <= i < ls.drop_last().len() implies (#[trigger] ls.drop_last()[i]).op_count() == a by {
                assert(ls.drop_last()[i] == ls[i]);
            }
        }
        lemma_combine_ops(ls.drop_last(), rs, a, b);
        let x = combine(ls.drop_last(), rs);
        let y = rs.map_values(|r: Term| Term::Op(Box::new(ls.last()), Box::new(r)));
        assert(ls.last().op_count() == a);
        assert forall|i: int| 0 <= i < (x + y).len() implies (#[trigger] (x + y)[i]).op_count() == 1 + a + b by {
            if i < x.len() {
                assert((x + y)[i] == x[i]);
            } else {
                assert((x + y)[i] == y[i - x.len()]);
            }
        }
    }
}

proof fn lemma_shapes_ops(ops: nat)
    ensures
        all_ops(shapes_of(ops), ops),
    decreases ops, ops + 2,
{
    if ops > 0 {
        lemma_shapes_from_ops(ops, 0);
    }
}

proof fn lemma_shapes_from_ops(ops: nat, left: nat)
    ensures
        all_ops(shapes_from(ops, left), ops),
    decreases ops, ops + 1 - left,
{
    if left < ops {
        lemma_shapes_ops(left);
        lemma_shapes_ops((ops - 1 - left) as nat);
        lemma_combine_ops(shapes_of(left), shapes_of((ops - 1 - left) as nat), left, (ops - 1 - left) as nat);
        lemma_shapes_from_ops(ops, left + 1);
        let x = combine(shapes_of(left), shapes_of((ops - 1 - left) as nat));
        let y = shapes_from(ops, left + 1);
        assert forall|i: int| 0 <= i < (x + y).len() implies (#[trigger] (x + y)[i]).op_count() == ops by {
            if i < x.len() {
                assert((x + y)[i] == x[i]);
            } else {
                assert((x + y)[i] == y[i - x.len()]);
            }
        }
    }
}

proof fn lemma_fill_ops(shape: Term, pattern: Seq<u8>, start: int)
    ensures
        fill_spec(shape, pattern, start).op_count() == shape.op_count(),
    decreases shape,
{
    if let Term::Op(l, r) = shape {
        lemma_fill_ops(*l, pattern, start);
        lemma_fill_ops(*r, pattern, start + l.leaves().len());
    }
}

pub(crate) proof fn lemma_numbered_ops(t: Term, o: Seq<u8>)
    ensures
        t.numbered(o).op_count() == t.op_count(),
    decreases t,
{
    if let Term::Op(l, r) = t {
        lemma_numbered_ops(*l, o);
        lemma_numbered_ops(*r, o);
    }
}

/// A candidate law `(l, r, total)`: `total` operations, at most half of them on the left.
pub open spec fn shaped(c: (Term, Term, nat)) -> bool {
    &&& c.0.op_count() + c.1.op_count() == c.2
    &&& c.0.op_count() <= c.1.op_count()
}

/// Every candidate in `s` is shaped, with `total` operations.
pub open spec fn all_shaped(s: Seq<(Term, Term, nat)>, total: nat) -> bool {
    forall|i: int| 0 <= i < s.len() ==> shaped(#[trigger] s[i]) && s[i].2 == total
}

proof fn lemma_all_shaped_concat(a: Seq<(Term, Term, nat)>, b: Seq<(Term, Term, nat)>, total: nat)
    requires
        all_shaped(a, total),
        all_shaped(b, total),
    ensures
        all_shaped(a + b, total),
{
    assert forall|i: int| 0 <= i < (a + b).len() implies shaped(#[trigger] (a + b)[i]) && (a + b)[i].2 == total by {
        if i < a.len() {
            assert((a + b)[i] == a[i]);
        } else {
            assert((a + b)[i] == b[i - a.len()]);
        }
    }
}

proof fn lemma_stream_rs_shaped(ls: Term, rss: Seq<Term>, pats: Seq<Seq<u8>>, total: nat, left: nat)
    requires
        ls.op_count() == left,
        all_ops(rss, (total - left) as nat),
        left <= total - left,
    ensures
        all_shaped(stream_rs(ls, rss, pats, total), total),
    decreases rss.len(),
{
    if rss.len() > 0 {
        assert(all_ops(rss.drop_last(), (total - left) as nat)) by {
            assert forall|i: int| 0 <= i < rss.drop_last().len() implies (#[trigger] rss.drop_last()[i]).op_count() == (total
                - left) as nat by {
                assert(rss.drop_last()[i] == rss[i]);
            }
        }
        lemma_stream_rs_shaped(ls, rss.drop_last(), pats, total, left);
        let rs = rss.last();
        assert(rs.op_count() == total - left);
        let ps = stream_pats(ls, rs, pats, total);
        assert forall|i: int| 0 <= i < ps.len() implies shaped(#[trigger] ps[i]) && ps[i].2 == total by {
            let pat = pats[i];
            assert(ps[i] == candidate(ls, rs, pat, total));
            let fl = fill_spec(ls, pat, 0);
            let fr = fill_spec(rs, pat, ls.leaves().len() as int);
            lemma_fill_ops(ls, pat, 0);
            lemma_fill_ops(rs, pat, ls.leaves().len() as int);
            lemma_numbered_ops(fl, crate::law::var_order(fl, fr));
            lemma_numbered_ops(fr, crate::law::var_order(fl, fr));
        }
        lemma_all_shaped_concat(stream_rs(ls, rss.drop_last(), pats, total), ps, total);
    }
}

proof fn lemma_stream_ls_shaped(lss: Seq<Term>, rss: Seq<Term>, pats: Seq<Seq<u8>>, total: nat, left: nat)
    requires
        all_ops(lss, left),
        all_ops(rss, (total - left) as nat),
        left <= total - left,
    ensures
        all_shaped(stream_ls(lss, rss, pats, total), total),
    decreases lss.len(),
{
    if lss.len() > 0 {
        assert(all_ops(lss.drop_last(), left)) by {
            assert forall|i: int| 0 <= i < lss.drop_last().len() implies (#[trigger] lss.drop_last()[i]).op_count() == left by {
                assert(lss.drop_last()[i] == lss[i]);
            }
        }
        lemma_stream_ls_shaped(lss.drop_last(), rss, pats, total, left);
        lemma_stream_rs_shaped(lss.last(), rss, pats, total, left);
        lemma_all_shaped_concat(stream_ls(lss.drop_last(), rss, pats, total), stream_rs(lss.last(), rss, pats, total), total);
    }
}

proof fn lemma_stream_total_shaped(total: nat, j: nat)
    requires
        j <= total / 2 + 1,
    ensures
        all_shaped(stream_total(total, j), total),
    decreases j,
{
    if j > 0 {
        let left = (j - 1) as nat;
        lemma_stream_total_shaped(total, left);
        lemma_shapes_ops(left);
        lemma_shapes_ops((total - left) as nat);
        lemma_stream_ls_shaped(
            shapes_of(left),
            shapes_of((total - left) as nat),
            crate::law::patterns_of(total + 2, Seq::empty(), 0),
            total,
            left,
        );
        lemma_all_shaped_concat(stream_total(total, left), stream_left(total, left), total);
    }
}

/// Candidates in `s` are shaped, with fewer than `t` operations, in order of
/// operation count.
pub open spec fn stream_ok(s: Seq<(Term, Term, nat)>, t: nat) -> bool {
    &&& forall|i: int| 0 <= i < s.len() ==> shaped(#[trigger] s[i]) && s[i].2 < t
    &&& forall|i: int, j: int| 0 <= i <= j < s.len() ==> (#[trigger] s[i]).2 <= (#[trigger] s[j]).2
}

proof fn lemma_stream_upto(t: nat)
    ensures
        stream_ok(stream_upto(t), t),
    decreases t,
{
    if t > 0 {
        let u = (t - 1) as nat;
        lemma_stream_upto(u);
        lemma_stream_total_shaped(u, u / 2 + 1);
        let a = stream_upto(u);
        let b = stream_total(u, u / 2 + 1);
        assert forall|i: int| 0 <= i < (a + b).len() implies shaped(#[trigger] (a + b)[i]) && (a + b)[i].2 < t by {
            if i < a.len() {
                assert((a + b)[i] == a[i]);
            } else {
                assert((a + b)[i] == b[i - a.len()]);
            }
        }
        assert forall|i: int, j: int| 0 <= i <= j < (a + b).len() implies (#[trigger] (a + b)[i]).2 <= (#[trigger] (a
            + b)[j]).2 by {
            if j < a.len() {
                assert((a + b)[i] == a[i] && (a + b)[j] == a[j]);
            } else if i < a.len() {
                assert((a + b)[i] == a[i] && (a + b)[j] == b[j - a.len()]);
            } else {
                assert((a + b)[i] == b[i - a.len()] && (a + b)[j] == b[j - a.len()]);
            }
        }
    }
}

/// Operations of a law, both sides together.
pub open spec fn law_ops(p: (Term, Term)) -> nat {
    p.0.op_count() + p.1.op_count()
}

/// Kept laws: left side never larger, fewer than `t` operations, in order of
/// operation count, none with more than `bound` operations.
pub open spec fn kept_ok(kept: Seq<(Term, Term)>, t: nat, bound: nat) -> bool {
    &&& forall|i: int| 0 <= i < kept.len() ==> (#[trigger] kept[i]).0.op_count() <= kept[i].1.op_count() && law_ops(kept[i]) < t
    &&& forall|i: int, j: int| 0 <= i <= j < kept.len() ==> law_ops(#[trigger] kept[i]) <= law_ops(#[trigger] kept[j])
    &&& forall|i: int| 0 <= i < kept.len() ==> law_ops(#[trigger] kept[i]) <= bound
}

proof fn lemma_dedup_kept(st: (Seq<(Term, Term)>, Seq<(Term, Term)>), cs: Seq<(Term, Term, nat)>, t: nat)
    requires
        stream_ok(cs, t),
        kept_ok(st.1, t, if cs.len() > 0 { cs[0].2 } else { t }),
    ensures
        kept_ok(dedup_all(st, cs).1, t, t),
        dedup_all(st, cs).1.len() >= st.1.len(),
        dedup_all(st, cs).1.subrange(0, st.1.len() as int) == st.1,
        cs.len() > 0 ==> kept_ok(dedup_all(st, cs).1, t, cs.last().2),
    decreases cs.len(),
{
    if cs.len() == 0 {
        assert(st.1.subrange(0, st.1.len() as int) =~= st.1);
    } else {
        let init = cs.drop_last();
        assert(stream_ok(init, t)) by {
            assert forall|i: int| 0 <= i < init.len() implies shaped(#[trigger] init[i]) && init[i].2 < t by {
                assert(init[i] == cs[i]);
            }
            assert forall|i: int, j: int| 0 <= i <= j < init.len() implies (#[trigger] init[i]).2 <= (#[trigger] init[j]).2 by {
                assert(init[i] == cs[i] && init[j] == cs[j]);
            }
        }
        if init.len() > 0 {
            assert(init[0] == cs[0]);
        }
        lemma_dedup_kept(st, init, t);
        let prev = dedup_all(st, init);
        let c = cs.last();
        assert(shaped(cs[cs.len() - 1]));
        let bound_prev = if init.len() > 0 { init.last().2 } else { t };
        assert(kept_ok(prev.1, t, c.2)) by {
            if init.len() > 0 {
                assert(init.last() == cs[init.len() - 1]);
                assert(cs[init.len() - 1].2 <= cs[cs.len() - 1].2);
            } else {
                assert(prev.1 == st.1);
                assert(cs[0] == c);
            }
            assert forall|i: int| 0 <= i < prev.1.len() implies law_ops(#[trigger] prev.1[i]) <= c.2 by {
                if init.len() == 0 {
                    assert(law_ops(prev.1[i]) <= cs[0].2);
                }
            }
        }
        let next = dedup_step(prev, c);
        if next.1.len() > prev.1.len() {
            assert(next.1 == prev.1.push((c.0, c.1)));
            assert forall|i: int| 0 <= i < next.1.len() implies (#[trigger] next.1[i]).0.op_count() <= next.1[i].1.op_count()
                && law_ops(next.1[i]) < t && law_ops(next.1[i]) <= c.2 by {
                if i < prev.1.len() {
                    assert(next.1[i] == prev.1[i]);
                }
            }
            assert forall|i: int, j: int| 0 <= i <= j < next.1.len() implies law_ops(#[trigger] next.1[i]) <= law_ops(
                #[trigger] next.1[j],
            ) by {
                if j < prev.1.len() {
                    assert(next.1[i] == prev.1[i] && next.1[j] == prev.1[j]);
                } else if i < prev.1.len() {
                    assert(next.1[i] == prev.1[i]);
                }
            }
            assert(next.1.subrange(0, st.1.len() as int) =~= prev.1.subrange(0, st.1.len() as int));
        } else {
            assert(next == prev);
        }
        assert forall|i: int| 0 <= i < next.1.len() implies law_ops(#[trigger] next.1[i]) <= t by {
            assert(law_ops(next.1[i]) < t);
        }
    }
}

proof fn lemma_dedup_concat(st: (Seq<(Term, Term)>, Seq<(Term, Term)>), a: Seq<(Term, Term, nat)>, b: Seq<(Term, Term, nat)>)
    ensures
        dedup_all(st, a + b) == dedup_all(dedup_all(st, a), b),
    decreases b.len(),
{
    if b.len() == 0 {
        assert(a + b =~= a);
    } else {
        lemma_dedup_concat(st, a, b.drop_last());
        assert((a + b).drop_last() =~= a + b.drop_last());
        assert((a + b).last() == b.last());
    }
}

/// Every generated law has at most `max_ops` operations and no more on the
/// left than on the right; the list is in order of operation count, and the
/// list for `max_ops` is the start of the list for `max_ops + 1`.
pub proof fn lemma_generated_shape(max_ops: nat)
    ensures
        forall|i: int|
            0 <= i < generated(max_ops).len() ==> {
                &&& (#[trigger] generated(max_ops)[i]).0.op_count() + generated(max_ops)[i].1.op_count() <= max_ops
                &&& generated(max_ops)[i].0.op_count() <= generated(max_ops)[i].1.op_count()
            },
        forall|i: int, j: int|
            0 <= i <= j < generated(max_ops).len() ==> law_ops(#[trigger] generated(max_ops)[i]) <= law_ops(
                #[trigger] generated(max_ops)[j],
            ),
        generated(max_ops).len() <= generated(max_ops + 1).len(),
        generated(max_ops + 1).subrange(0, generated(max_ops).len() as int) == generated(max_ops),
{
    let st0 = (Seq::<(Term, Term)>::empty(), Seq::<(Term, Term)>::empty());
    let t = max_ops + 1;
    lemma_stream_upto(t);
    lemma_dedup_kept(st0, stream_upto(t), t);
    lemma_stream_upto(t + 1);
    assert(stream_upto(t + 1) == stream_upto(t) + stream_total(t, t / 2 + 1));
    lemma_dedup_concat(st0, stream_upto(t), stream_total(t, t / 2 + 1));
    let mid = dedup_all(st0, stream_upto(t));
    lemma_stream_total_shaped(t, t / 2 + 1);
    let b = stream_total(t, t / 2 + 1);
    assert(stream_ok(b, t + 1)) by {
        assert forall|i: int, j: int| 0 <= i <= j < b.len() implies (#[trigger] b[i]).2 <= (#[trigger] b[j]).2 by {}
    }
    assert(kept_ok(mid.1, t + 1, if b.len() > 0 { b[0].2 } else { t + 1 })) by {
        assert forall|i: int| 0 <= i < mid.1.len() implies law_ops(#[trigger] mid.1[i]) <= (if b.len() > 0 { b[0].2 } else { t + 1 }) by {
            assert(law_ops(mid.1[i]) < t);
        }
    }
    lemma_dedup_kept(mid, b, t + 1);
}

} // verus!
