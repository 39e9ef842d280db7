//! The pruned search and plain enumeration of every table agree: on which
//! sizes hold a counterexample, and on how many labelled models a law has.
//! Syntactic proofs agree with both: what they prove, no table refutes.

use vstd::prelude::*;
use crate::{counterexample, none_up_to};
use crate::eval::{
    complete_table, instance_assignment, law_holds, lemma_instance_of, lemma_instance_valid, lemma_power_pos,
    odometer_value, power, valid_assignment,
};
use crate::implication::{direct_proof_of, lemma_direct_proof_sound, substitute, total};
use crate::law::{position_of, var_order, Law, Term};
use crate::magma::{valid_magma, Magma};
use crate::matrix::{holds_in_magma, implied_ok, open_ok, witnesses_ok, Cell};
use crate::naive::{models_before, odometer_table, refutes_at, tables_of};
use crate::search::{accepted_tables, size_ok};
use crate::verify::lemma_holds_iff_satisfied;

verus! {

/// Reading the digits of `j` back as a number gives `j`.
proof fn lemma_odometer_of_instance(j: int, k: nat, n: int)
    requires
        1 <= n <= 256,
        0 <= j < power(n, k),
    ensures
        odometer_value(instance_assignment(j, k, n), n) == j,
    decreases k,
{
    let a = instance_assignment(j, k, n);
    if k > 0 {
        let q = j / n;
        lemma_power_pos(n, (k - 1) as nat);
        vstd::arithmetic::div_mod::lemma_multiply_divide_lt(j, n, power(n, (k - 1) as nat));
        vstd::arithmetic::div_mod::lemma_div_pos_is_pos(j, n);
        lemma_odometer_of_instance(q, (k - 1) as nat, n);
        let rest = instance_assignment(q, (k - 1) as nat, n);
        assert(a.drop_first() =~= rest) by {
            assert forall|i: int| 0 <= i < rest.len() implies #[trigger] a.drop_first()[i] == rest[i] by {
                lemma_power_pos(n, i as nat);
                vstd::arithmetic::div_mod::lemma_div_denominator(j, n, power(n, i as nat));
                assert(power(n, (i + 1) as nat) == n * power(n, i as nat));
            }
        }
        assert(a[0] as int == j % n) by {
            assert(power(n, 0) == 1);
            assert(j / 1 == j);
            vstd::arithmetic::div_mod::lemma_mod_pos_bound(j, n);
        }
        vstd::arithmetic::div_mod::lemma_fundamental_div_mod(j, n);
    }
}

/// Every position of the enumeration below `n^(n²)` names a complete table,
/// and different positions name different tables.
proof fn lemma_odometer_table(j: int, n: int)
    requires
        1 <= n <= 255,
        0 <= j < tables_of(n as nat),
    ensures
        complete_table(odometer_table(j, n as nat), n),
        odometer_value(odometer_table(j, n as nat), n) == j,
{
    lemma_instance_valid(j, (n * n) as nat, n);
    lemma_odometer_of_instance(j, (n * n) as nat, n);
}

/// Every complete table sits at one position of the enumeration.
proof fn lemma_table_position(t: Seq<u8>, n: int)
    requires
        complete_table(t, n),
    ensures
        0 <= odometer_value(t, n) < tables_of(n as nat),
        odometer_table(odometer_value(t, n), n as nat) == t,
{
    assert(valid_assignment(t, n * n, n));
    lemma_instance_of(t, (n * n) as nat, n);
}

/// A conclusion that is a substitution instance of the hypothesis always
/// gets a syntactic proof.
pub proof fn lemma_instances_are_proven(h: Law, c: Law, sub: Seq<Option<Term>>)
    requires
        total(sub, h.nvars as nat),
        substitute(h.lhs, sub) == c.lhs,
        substitute(h.rhs, sub) == c.rhs,
    ensures
        direct_proof_of(h, c) is Some,
{
    assert(crate::implication::rewrites(
        h.lhs,
        h.rhs,
        h.nvars as nat,
        crate::implication::swapped_lhs(h),
        crate::implication::swapped_rhs(h),
        crate::implication::swapped_vars(h),
        c.lhs,
        c.rhs,
    ));
}

/// `t` is `s` with one subterm `a` replaced by `b`: the two agree everywhere
/// but at one position, where `s` holds `a` and `t` holds `b`.
pub open spec fn one_place(s: Term, t: Term, a: Term, b: Term) -> bool
    decreases s,
{
    ||| (s == a && t == b)
    ||| match (s, t) {
        (Term::Op(sl, sr), Term::Op(tl, tr)) => (*sl == *tl && one_place(*sr, *tr, a, b)) || (*sr == *tr && one_place(
            *sl,
            *tl,
            a,
            b,
        )),
        _ => false,
    }
}

proof fn lemma_one_place_rewrites(h: Law, sub: Seq<Option<Term>>, s: Term, t: Term)
    requires
        total(sub, h.nvars as nat),
        one_place(s, t, substitute(h.lhs, sub), substitute(h.rhs, sub)),
    ensures
        crate::implication::rewrites(
            h.lhs,
            h.rhs,
            h.nvars as nat,
            crate::implication::swapped_lhs(h),
            crate::implication::swapped_rhs(h),
            crate::implication::swapped_vars(h),
            s,
            t,
        ),
    decreases s,
{
    if s == substitute(h.lhs, sub) && t == substitute(h.rhs, sub) {
    } else {
        match (s, t) {
            (Term::Op(sl, sr), Term::Op(tl, tr)) => {
                if *sl == *tl && one_place(*sr, *tr, substitute(h.lhs, sub), substitute(h.rhs, sub)) {
                    lemma_one_place_rewrites(h, sub, *sr, *tr);
                } else {
                    lemma_one_place_rewrites(h, sub, *sl, *tl);
                }
            },
            _ => {},
        }
    }
}

/// A conclusion that comes from the hypothesis by one rewrite step, an
/// instance of the hypothesis applied to one subterm inside a context, always
/// gets a syntactic proof.
pub proof fn lemma_rewrites_are_proven(h: Law, c: Law, sub: Seq<Option<Term>>)
    requires
        total(sub, h.nvars as nat),
        one_place(c.lhs, c.rhs, substitute(h.lhs, sub), substitute(h.rhs, sub)),
    ensures
        direct_proof_of(h, c) is Some,
{
    lemma_one_place_rewrites(h, sub, c.lhs, c.rhs);
}

/// Substituting `sub` into a term numbered through `o` gives what
/// substituting into the term itself gives, when `sub` binds each position
/// of `o` as the original binds the variable there.
proof fn lemma_substitute_numbered(t: Term, o: Seq<u8>, sub: Seq<Option<Term>>, orig: Seq<Option<Term>>)
    requires
        o.no_duplicates(),
        o.len() <= 256,
        crate::canonical::covers(o, t),
        sub.len() == o.len(),
        forall|i: int| 0 <= i < o.len() ==> #[trigger] sub[i] == orig[o[i] as int],
        forall|v: u8| #[trigger] t.has_var(v) ==> (v as int) < orig.len() && orig[v as int] is Some,
    ensures
        substitute(t.numbered(o), sub) == substitute(t, orig),
    decreases t,
{
    match t {
        Term::Var(x) => {
            assert(t.has_var(x));
            crate::law::lemma_position_of_bound(o, x);
            let p = position_of(o, x);
            assert(sub[p] == orig[x as int]);
        },
        Term::Op(a, b) => {
            assert forall|v: u8| #[trigger] a.has_var(v) implies o.contains(v) && (v as int) < orig.len()
                && orig[v as int] is Some by {
                assert(t.has_var(v));
            }
            assert forall|v: u8| #[trigger] b.has_var(v) implies o.contains(v) && (v as int) < orig.len()
                && orig[v as int] is Some by {
                assert(t.has_var(v));
            }
            lemma_substitute_numbered(*a, o, sub, orig);
            lemma_substitute_numbered(*b, o, sub, orig);
        },
    }
}

proof fn lemma_one_place_rewrites_back(h: Law, sub: Seq<Option<Term>>, s: Term, t: Term)
    requires
        total(sub, crate::implication::swapped_vars(h)),
        one_place(
            s,
            t,
            substitute(crate::implication::swapped_lhs(h), sub),
            substitute(crate::implication::swapped_rhs(h), sub),
        ),
    ensures
        crate::implication::rewrites(
            h.lhs,
            h.rhs,
            h.nvars as nat,
            crate::implication::swapped_lhs(h),
            crate::implication::swapped_rhs(h),
            crate::implication::swapped_vars(h),
            s,
            t,
        ),
    decreases s,
{
    let a = substitute(crate::implication::swapped_lhs(h), sub);
    let b = substitute(crate::implication::swapped_rhs(h), sub);
    if s == a && t == b {
    } else {
        match (s, t) {
            (Term::Op(sl, sr), Term::Op(tl, tr)) => {
                if *sl == *tl && one_place(*sr, *tr, a, b) {
                    lemma_one_place_rewrites_back(h, sub, *sr, *tr);
                } else {
                    lemma_one_place_rewrites_back(h, sub, *sl, *tl);
                }
            },
            _ => {},
        }
    }
}

/// A conclusion that comes from the hypothesis read right to left, by one
/// rewrite step inside a context, also always gets a syntactic proof.
pub proof fn lemma_reverse_rewrites_are_proven(h: Law, c: Law, sub: Seq<Option<Term>>)
    requires
        h.wf(),
        total(sub, h.nvars as nat),
        one_place(c.lhs, c.rhs, substitute(h.rhs, sub), substitute(h.lhs, sub)),
    ensures
        direct_proof_of(h, c) is Some,
{
    let o = var_order(h.rhs, h.lhs);
    crate::canonical::lemma_var_order_props(h.rhs, h.lhs);
    crate::law::lemma_leaves_vars(h.lhs, h.nvars as int);
    crate::law::lemma_leaves_vars(h.rhs, h.nvars as int);
    let back = Seq::new(o.len(), |i: int| sub[o[i] as int]);
    assert forall|v: u8| #[trigger] h.lhs.has_var(v) implies (v as int) < sub.len() && sub[v as int] is Some by {
        let k = choose|k: int| 0 <= k < h.lhs.leaves().len() && h.lhs.leaves()[k] == v;
    }
    assert forall|v: u8| #[trigger] h.rhs.has_var(v) implies (v as int) < sub.len() && sub[v as int] is Some by {
        let k = choose|k: int| 0 <= k < h.rhs.leaves().len() && h.rhs.leaves()[k] == v;
    }
    assert forall|i: int| 0 <= i < o.len() implies #[trigger] back[i] is Some by {
        assert(o.contains(o[i]));
        assert(h.rhs.has_var(o[i]) || h.lhs.has_var(o[i]));
    }
    lemma_substitute_numbered(h.rhs, o, back, sub);
    lemma_substitute_numbered(h.lhs, o, back, sub);
    lemma_one_place_rewrites_back(h, back, c.lhs, c.rhs);
}

/// Where the enumeration's counter of tables does not saturate, the number of
/// labelled models a search without symmetry breaking accepts is the number
/// of models `naive::count_models` counts.
pub proof fn lemma_model_counts_agree(law: Law, n: int)
    requires
        1 <= n <= 255,
        tables_of(n as nat) <= u64::MAX,
    ensures
        accepted_tables(law.lhs, law.rhs, law.nvars as nat, n, false).len() == models_before(
            law.lhs,
            law.rhs,
            law.nvars as int,
            n as nat,
            crate::naive::capped(tables_of(n as nat)),
        ),
{
    lemma_labelled_counts_agree(law.lhs, law.rhs, law.nvars as nat, n);
}

/// No table of the enumeration refutes an implication that has a syntactic
/// proof.
pub proof fn lemma_proven_never_refuted(h: Law, c: Law, n: nat, j: int)
    requires
        h.wf(),
        c.wf(),
        1 <= n <= 255,
        0 <= j < tables_of(n),
        direct_proof_of(h, c) is Some,
    ensures
        !refutes_at(h, c, n, j),
{
    let t = odometer_table(j, n);
    lemma_odometer_table(j, n as int);
    lemma_holds_iff_satisfied(h.lhs, h.rhs, h.nvars as nat, n, t);
    lemma_holds_iff_satisfied(c.lhs, c.rhs, c.nvars as nat, n, t);
    if law_holds(h.lhs, h.rhs, h.nvars as int, n as int, t) {
        lemma_direct_proof_sound(h, c, n, t);
    }
}

/// The search, with or without symmetry breaking, finds a counterexample of
/// size `n` exactly when the enumeration of all `n^(n²)` tables holds one.
pub proof fn lemma_search_and_enumeration_agree(h: &Law, c: &Law, n: int, symmetry: bool)
    requires
        h.wf(),
        c.wf(),
        1 <= n <= 255,
    ensures
        (exists|t: Seq<u8>| #[trigger] counterexample(h, c, n, symmetry, t)) <==> (exists|j: int|
            0 <= j < tables_of(n as nat) && #[trigger] refutes_at(*h, *c, n as nat, j)),
{
    if exists|t: Seq<u8>| #[trigger] counterexample(h, c, n, symmetry, t) {
        let t = choose|t: Seq<u8>| #[trigger] counterexample(h, c, n, symmetry, t);
        lemma_table_position(t, n);
        let j = odometer_value(t, n);
        assert(refutes_at(*h, *c, n as nat, j));
    }
    if exists|j: int| 0 <= j < tables_of(n as nat) && #[trigger] refutes_at(*h, *c, n as nat, j) {
        let j = choose|j: int| 0 <= j < tables_of(n as nat) && #[trigger] refutes_at(*h, *c, n as nat, j);
        let t = odometer_table(j, n as nat);
        lemma_odometer_table(j, n);
        assert(counterexample(h, c, n, false, t));
        crate::lemma_leaders_keep_counterexamples(h, c, n, t);
        if !symmetry {
            assert(counterexample(h, c, n, symmetry, t));
        }
    }
}

/// Positions below `k` of the enumeration whose table is a model.
pub open spec fn model_positions(lhs: Term, rhs: Term, kv: int, n: nat, k: int) -> Set<int> {
    Set::new(|j: int| 0 <= j < k && law_holds(lhs, rhs, kv, n as int, odometer_table(j, n)))
}

proof fn lemma_model_positions(lhs: Term, rhs: Term, kv: int, n: nat, k: int)
    requires
        k >= 0,
    ensures
        model_positions(lhs, rhs, kv, n, k).finite(),
        model_positions(lhs, rhs, kv, n, k).len() == models_before(lhs, rhs, kv, n, k),
    decreases k,
{
    let s = model_positions(lhs, rhs, kv, n, k);
    if k == 0 {
        assert(s =~= Set::<int>::empty());
    } else {
        lemma_model_positions(lhs, rhs, kv, n, k - 1);
        let p = model_positions(lhs, rhs, kv, n, k - 1);
        if law_holds(lhs, rhs, kv, n as int, odometer_table(k - 1, n)) {
            assert(s =~= p.insert(k - 1));
        } else {
            assert(s =~= p);
        }
    }
}

/// Without symmetry breaking the search accepts exactly as many tables as
/// the enumeration of all `n^(n²)` tables counts models.
pub proof fn lemma_labelled_counts_agree(lhs: Term, rhs: Term, kv: nat, n: int)
    requires
        1 <= n <= 255,
    ensures
        accepted_tables(lhs, rhs, kv, n, false).finite(),
        accepted_tables(lhs, rhs, kv, n, false).len() == models_before(
            lhs,
            rhs,
            kv as int,
            n as nat,
            tables_of(n as nat),
        ),
{
    let total_count = tables_of(n as nat);
    lemma_power_pos(n, (n * n) as nat);
    let s = accepted_tables(lhs, rhs, kv, n, false);
    let a = model_positions(lhs, rhs, kv as int, n as nat, total_count);
    lemma_model_positions(lhs, rhs, kv as int, n as nat, total_count);
    let pos = |t: Seq<u8>| odometer_value(t, n);
    let at = |j: int| odometer_table(j, n as nat);
    assert(s =~= a.map(at)) by {
        assert forall|t: Seq<u8>| s.contains(t) implies a.map(at).contains(t) by {
            lemma_table_position(t, n);
            assert(a.contains(pos(t)));
            assert(at(pos(t)) == t);
        }
        assert forall|t: Seq<u8>| a.map(at).contains(t) implies s.contains(t) by {
            let j = choose|j: int| a.contains(j) && at(j) == t;
            lemma_odometer_table(j, n);
        }
    }
    assert forall|x: int, y: int| a.contains(x) && a.contains(y) && #[trigger] at(x) == #[trigger] at(y) implies x
        == y by {
        lemma_odometer_table(x, n);
        lemma_odometer_table(y, n);
    }
    vstd::set_lib::lemma_map_size(a, s, at);
}

/// Whether two cells agree: each is implied, refuted or open exactly when the other is.
pub open spec fn same_verdict(x: Cell, y: Cell) -> bool {
    &&& x is Implied <==> y is Implied
    &&& x is Refuted <==> y is Refuted
    &&& x is Open <==> y is Open
}

/// What a matrix over `laws` searched up to `max_size` guarantees: its
/// implied cells, its witnesses, and its open cells, as building it ensures.
pub open spec fn matrix_outcome(
    laws: Seq<Law>,
    max_size: int,
    symmetry: bool,
    cells: Seq<Cell>,
    witnesses: Seq<Magma>,
) -> bool {
    &&& cells.len() == laws.len() * laws.len()
    &&& witnesses_ok(laws, cells, witnesses)
    &&& implied_ok(laws, cells)
    &&& open_ok(laws, cells, max_size, symmetry)
    &&& forall|i: int| 0 <= i < witnesses.len() ==> 1 <= (#[trigger] witnesses[i]).carrier() <= max_size
    &&& forall|i: int| 0 <= i < witnesses.len() ==> (#[trigger] witnesses[i]).carrier() <= 16
    &&& forall|i: int|
        0 <= i < witnesses.len() ==> valid_magma((#[trigger] witnesses[i]).carrier(), witnesses[i].cells())
}

/// A witness of cell `(a, b)` is a counterexample that any search of its
/// size meets, with or without symmetry breaking.
proof fn lemma_witness_meets_search(laws: Seq<Law>, a: int, b: int, w: Magma, symmetry: bool)
    requires
        0 <= a < laws.len(),
        0 <= b < laws.len(),
        laws[a].wf(),
        laws[b].wf(),
        1 <= w.carrier() <= 16,
        valid_magma(w.carrier(), w.cells()),
        holds_in_magma(laws[a], w),
        !holds_in_magma(laws[b], w),
    ensures
        exists|t: Seq<u8>| #[trigger] counterexample(&laws[a], &laws[b], w.carrier() as int, symmetry, t),
{
    let n = w.carrier();
    let t = w.cells();
    lemma_holds_iff_satisfied(laws[a].lhs, laws[a].rhs, laws[a].nvars as nat, n, t);
    lemma_holds_iff_satisfied(laws[b].lhs, laws[b].rhs, laws[b].nvars as nat, n, t);
    assert(counterexample(&laws[a], &laws[b], n as int, false, t));
    crate::lemma_leaders_keep_counterexamples(&laws[a], &laws[b], n as int, t);
    if !symmetry {
        assert(counterexample(&laws[a], &laws[b], n as int, symmetry, t));
    }
}

/// Matrices over the same laws and sizes give every cell the same verdict,
/// with or without symmetry breaking, when every size up to `max_size` is
/// searchable for every law.
pub proof fn lemma_matrix_verdicts_agree(
    laws: Seq<Law>,
    max_size: int,
    symmetry1: bool,
    cells1: Seq<Cell>,
    witnesses1: Seq<Magma>,
    symmetry2: bool,
    cells2: Seq<Cell>,
    witnesses2: Seq<Magma>,
)
    requires
        forall|i: int| 0 <= i < laws.len() ==> (#[trigger] laws[i]).wf(),
        forall|a: int, n: int| 0 <= a < laws.len() && 1 <= n <= max_size ==> #[trigger] size_ok(laws[a].nvars as nat, n),
        matrix_outcome(laws, max_size, symmetry1, cells1, witnesses1),
        matrix_outcome(laws, max_size, symmetry2, cells2, witnesses2),
    ensures
        forall|a: int, b: int|
            0 <= a < laws.len() && 0 <= b < laws.len() ==> same_verdict(
                #[trigger] cells1[a * laws.len() + b],
                cells2[a * laws.len() + b],
            ),
{
    let m = laws.len();
    assert forall|a: int, b: int| 0 <= a < m && 0 <= b < m implies same_verdict(
        #[trigger] cells1[a * m + b],
        cells2[a * m + b],
    ) by {
        let p = a * m + b;
        assert(cells1[p] is Implied <==> cells2[p] is Implied);
        if let Cell::Refuted(id) = cells1[p] {
            let w = witnesses1[id as int];
            lemma_witness_meets_search(laws, a, b, w, symmetry2);
            let t = choose|t: Seq<u8>| #[trigger] counterexample(&laws[a], &laws[b], w.carrier() as int, symmetry2, t);
            assert(size_ok(laws[a].nvars as nat, w.carrier() as int));
            assert(!(cells2[p] is Open));
        }
        if let Cell::Refuted(id) = cells2[p] {
            let w = witnesses2[id as int];
            lemma_witness_meets_search(laws, a, b, w, symmetry1);
            let t = choose|t: Seq<u8>| #[trigger] counterexample(&laws[a], &laws[b], w.carrier() as int, symmetry1, t);
            assert(size_ok(laws[a].nvars as nat, w.carrier() as int));
            assert(!(cells1[p] is Open));
        }
    }
}

/// Some size up to `max_size` has a table of the enumeration that satisfies
/// `h` and violates `c`.
pub open spec fn enumeration_refutes(h: Law, c: Law, max_size: int) -> bool {
    exists|n: int, k: int| 1 <= n <= max_size && 0 <= k < tables_of(n as nat) && #[trigger] refutes_at(h, c, n as nat, k)
}

/// When every size up to `max_size` is searchable, a matrix cell is refuted
/// exactly when plain enumeration of all tables up to that size finds a
/// counterexample; implied and open cells have none.
pub proof fn lemma_matrix_agrees_with_enumeration(
    laws: Seq<Law>,
    max_size: int,
    symmetry: bool,
    cells: Seq<Cell>,
    witnesses: Seq<Magma>,
)
    requires
        forall|i: int| 0 <= i < laws.len() ==> (#[trigger] laws[i]).wf(),
        forall|a: int, n: int| 0 <= a < laws.len() && 1 <= n <= max_size ==> #[trigger] size_ok(laws[a].nvars as nat, n),
        matrix_outcome(laws, max_size, symmetry, cells, witnesses),
    ensures
        forall|a: int, b: int|
            0 <= a < laws.len() && 0 <= b < laws.len() ==> ((#[trigger] cells[a * laws.len() + b]) is Refuted
                <==> enumeration_refutes(laws[a], laws[b], max_size)),
{
    let m = laws.len();
    assert forall|a: int, b: int| 0 <= a < m && 0 <= b < m implies ((#[trigger] cells[a * m + b]) is Refuted
        <==> enumeration_refutes(laws[a], laws[b], max_size)) by {
        let p = a * m + b;
        if let Cell::Refuted(id) = cells[p] {
            let w = witnesses[id as int];
            let n = w.carrier() as int;
            lemma_witness_meets_search(laws, a, b, w, false);
            lemma_search_and_enumeration_agree(&laws[a], &laws[b], n, false);
            let k = choose|k: int| 0 <= k < tables_of(n as nat) && #[trigger] refutes_at(laws[a], laws[b], n as nat, k);
            assert(refutes_at(laws[a], laws[b], n as nat, k));
        }
        if enumeration_refutes(laws[a], laws[b], max_size) {
            let (n, k) = choose|n: int, k: int|
                1 <= n <= max_size && 0 <= k < tables_of(n as nat) && #[trigger] refutes_at(laws[a], laws[b], n as nat, k);
            assert(size_ok(laws[a].nvars as nat, n));
            lemma_search_and_enumeration_agree(&laws[a], &laws[b], n, symmetry);
            let t = choose|t: Seq<u8>| #[trigger] counterexample(&laws[a], &laws[b], n, symmetry, t);
            assert(!(cells[p] is Open));
            if cells[p] is Implied {
                assert(crate::implication::chained(crate::implication::direct_table(laws), m, m, a, b));
                lemma_holds_iff_satisfied(laws[a].lhs, laws[a].rhs, laws[a].nvars as nat, n as nat, t);
                lemma_holds_iff_satisfied(laws[b].lhs, laws[b].rhs, laws[b].nvars as nat, n as nat, t);
                crate::implication::lemma_proof_table_sound(laws, a, b, n as nat, t);
            }
        }
    }
}


/// What `refute` answers when it returns `Ok`: a witness of a searchable size
/// that is a counterexample with nothing smaller among all tables, or no
/// witness when no table of any size up to `max_size` is a counterexample.
pub open spec fn refute_answer(h: &Law, c: &Law, max_size: int, symmetry: bool, witness: Option<Magma>) -> bool {
    match witness {
        Some(w) => {
            &&& 1 <= w.carrier() <= max_size
            &&& size_ok(h.nvars as nat, w.carrier() as int)
            &&& counterexample(h, c, w.carrier() as int, symmetry, w.cells())
            &&& none_up_to(h, c, w.carrier() - 1, false)
        },
        None => none_up_to(h, c, max_size, false),
    }
}

/// `refute` finds a witness exactly when plain enumeration of every table up
/// to `max_size` holds a counterexample, and the witness has the smallest
/// size at which the enumeration holds one.
pub proof fn lemma_refute_agrees_with_enumeration(h: &Law, c: &Law, max_size: int, symmetry: bool, witness: Option<Magma>)
    requires
        h.wf(),
        c.wf(),
        refute_answer(h, c, max_size, symmetry, witness),
    ensures
        witness is Some <==> enumeration_refutes(*h, *c, max_size),
        witness matches Some(w) ==> {
            &&& !enumeration_refutes(*h, *c, w.carrier() - 1)
            &&& exists|k: int| 0 <= k < tables_of(w.carrier()) && #[trigger] refutes_at(*h, *c, w.carrier(), k)
        },
{
    let bound = match witness {
        Some(w) => w.carrier() - 1,
        None => max_size,
    };
    assert forall|n: int, k: int| 1 <= n <= bound && 0 <= k < tables_of(n as nat) implies !#[trigger] refutes_at(
        *h,
        *c,
        n as nat,
        k,
    ) by {
        assert(size_ok(h.nvars as nat, n));
        lemma_search_and_enumeration_agree(h, c, n, false);
        if refutes_at(*h, *c, n as nat, k) {
            let t = choose|t: Seq<u8>| #[trigger] counterexample(h, c, n, false, t);
        }
    }
    if let Some(w) = witness {
        let n = w.carrier() as int;
        lemma_search_and_enumeration_agree(h, c, n, symmetry);
        assert(counterexample(h, c, n, symmetry, w.cells()));
        let k = choose|k: int| 0 <= k < tables_of(n as nat) && #[trigger] refutes_at(*h, *c, n as nat, k);
        assert(refutes_at(*h, *c, n as nat, k));
    }
}

} // verus!
