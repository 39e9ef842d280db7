//! Batch mode: the full implication matrix over a list of laws.

use vstd::prelude::*;
use crate::eval::{complete_table, law_holds, CompiledLaw};
use crate::implication::{chained, direct_proof_of, direct_table, lemma_index, lemma_proof_table_sound, proof_table, Proof};
use crate::law::Law;
use crate::magma::{valid_magma, Magma};
use crate::search::{check_size, saturated, size_ok, Options, Search};
use crate::verify::{
    broken_hypothesis_error, first_violation, kept_conclusion_error, lemma_holds_iff_satisfied, law_satisfied,
    satisfies, verify_witness,
};
use crate::eval::power;
use crate::magma::table_text;
use crate::text::{decimal, padded, push_char, push_decimal, push_str, repeat_char};
use crate::counterexample;

verus! {

#[derive(Clone, Copy, Debug, PartialEq, Eq, Structural)]
pub enum Cell {
    /// The implication holds, by a syntactic proof.
    Implied(Proof),
    /// Refuted by the witness with this index.
    Refuted(usize),
    /// No counterexample up to the searched size, and no proof.
    Open,
}

#[derive(Clone, Copy, Debug, PartialEq, Eq, Structural)]
pub struct MatrixStats {
    pub nodes: u64,
    /// Model searches started (one per hypothesis and size with open cells).
    pub searches: u64,
    /// Searches skipped because the law has too many instances at that size.
    pub skipped_too_large: u64,
}

impl Default for MatrixStats {
    fn default() -> (s: MatrixStats)
        ensures
            s == (MatrixStats { nodes: 0, searches: 0, skipped_too_large: 0 }),
    {
        MatrixStats { nodes: 0, searches: 0, skipped_too_large: 0 }
    }
}

pub struct Matrix {
    pub laws: Vec<Law>,
    /// Row-major: `cells[h * m + c]` is "does law h imply law c".
    pub cells: Vec<Cell>,
    pub witnesses: Vec<Magma>,
    pub max_size: usize,
    pub stats: MatrixStats,
    /// What [`Matrix::build`] did, law by law and size by size.
    pub trace: Ghost<Seq<Step>>,
}

/// What [`Matrix::build`] did for one law at one size.
pub enum Visit {
    /// The law's row had no open cell left, so nothing was searched.
    Closed,
    /// The law has too many ground instances at this size.
    Skipped,
    /// A model search ran; it tried this many cell assignments.
    Searched(u64),
}

/// One visit of [`Matrix::build`]: the size, the law (its row), what was done,
/// and the cells just before and just after.
pub struct Step {
    pub size: nat,
    pub row: nat,
    pub visit: Visit,
    pub before: Seq<Cell>,
    pub after: Seq<Cell>,
}

/// Searches run, searches skipped and nodes tried, over `trace`.
pub open spec fn tally(trace: Seq<Step>) -> (nat, nat, nat)
    decreases trace.len(),
{
    if trace.len() == 0 {
        (0, 0, 0)
    } else {
        let t = tally(trace.drop_last());
        match trace.last().visit {
            Visit::Closed => t,
            Visit::Skipped => (t.0, t.1 + 1, t.2),
            Visit::Searched(k) => (t.0 + 1, t.1, t.2 + k as nat),
        }
    }
}

/// The visit `s` fits the row's state: a row with no open cell is left alone;
/// otherwise the law is skipped exactly when the size check refuses it, and
/// searched when it accepts it. Only a search changes cells, and only from
/// open to refuted; it tries at most `(n + 2)^(n²)` assignments and leaves no
/// open cell of its row with a counterexample of its size.
pub open spec fn step_ok(laws: Seq<Law>, symmetry: bool, s: Step) -> bool {
    let m = laws.len();
    let h = s.row as int;
    let n = s.size as int;
    &&& 1 <= n
    &&& 0 <= h < m
    &&& (s.visit is Closed <==> open_in_row(s.before, m, h, m as int) == 0)
    &&& (s.visit is Skipped <==> open_in_row(s.before, m, h, m as int) > 0 && !size_ok(laws[h].nvars as nat, n))
    &&& cells_follow(s.before, s.after)
    &&& !(s.visit is Searched) ==> s.after == s.before
    &&& s.visit matches Visit::Searched(k) ==> {
        &&& k <= power(n + 2, (n * n) as nat)
        &&& forall|c: int, t: Seq<u8>|
            0 <= c < m && s.after[h * m + c] is Open ==> !#[trigger] counterexample(&laws[h], &laws[c], n, symmetry, t)
    }
}

/// Visit `i + 1` comes right after visit `i`: the next law at the same size, or
/// the first law at the next size, starting from the cells visit `i` left.
pub open spec fn linked(trace: Seq<Step>, i: int, m: nat) -> bool {
    let a = trace[i];
    let b = trace[i + 1];
    &&& if a.row + 1 < m {
        b.size == a.size && b.row == a.row + 1
    } else {
        b.size == a.size + 1 && b.row == 0
    }
    &&& b.before == a.after
}

/// Each visit of `trace` fits its row, each follows the one before, the first
/// is law 0 at size 1 and starts with nothing refuted, and the last leaves
/// `cells` (which, for no visit at all, has nothing refuted).
pub open spec fn trace_links(laws: Seq<Law>, symmetry: bool, trace: Seq<Step>, cells: Seq<Cell>) -> bool {
    &&& forall|i: int| 0 <= i < trace.len() ==> step_ok(laws, symmetry, #[trigger] trace[i])
    &&& forall|i: int| 0 <= i < trace.len() - 1 ==> #[trigger] linked(trace, i, laws.len())
    &&& trace.len() > 0 ==> {
        &&& trace[0].size == 1
        &&& trace[0].row == 0
        &&& trace.last().after == cells
        &&& forall|p: int| 0 <= p < trace[0].before.len() ==> !(#[trigger] trace[0].before[p] is Refuted)
    }
    &&& trace.len() == 0 ==> forall|p: int| 0 <= p < cells.len() ==> !(#[trigger] cells[p] is Refuted)
}

/// The visits of `build`: every law at every size `1..=max_size`, in order of
/// size and then of law, from cells with nothing refuted to `cells`.
pub open spec fn trace_ok(laws: Seq<Law>, max_size: nat, symmetry: bool, trace: Seq<Step>, cells: Seq<Cell>) -> bool {
    &&& (trace.len() > 0 <==> max_size >= 1 && laws.len() >= 1)
    &&& trace_links(laws, symmetry, trace, cells)
    &&& trace.len() > 0 ==> trace.last().size == max_size && trace.last().row == laws.len() - 1
}

/// The counters agree with the visits so far.
spec fn stats_match(stats: MatrixStats, trace: Seq<Step>) -> bool {
    &&& stats.searches == saturated(tally(trace).0 as int)
    &&& stats.skipped_too_large == saturated(tally(trace).1 as int)
    &&& stats.nodes == saturated(tally(trace).2 as int)
}

/// Appending a visit that fits and comes next keeps the trace linked, and the
/// counters move with it.
proof fn lemma_trace_push(
    laws: Seq<Law>,
    symmetry: bool,
    trace: Seq<Step>,
    step: Step,
    s0: MatrixStats,
    s1: MatrixStats,
)
    requires
        trace_links(laws, symmetry, trace, step.before),
        step_ok(laws, symmetry, step),
        trace.len() == 0 ==> step.size == 1 && step.row == 0,
        trace.len() > 0 ==> if trace.last().row + 1 < laws.len() {
            step.size == trace.last().size && step.row == trace.last().row + 1
        } else {
            step.size == trace.last().size + 1 && step.row == 0
        },
        stats_match(s0, trace),
        step.visit is Closed ==> s1 == s0,
        step.visit is Skipped ==> s1.searches == s0.searches && s1.nodes == s0.nodes && s1.skipped_too_large
            == saturated(s0.skipped_too_large + 1),
        step.visit matches Visit::Searched(k) ==> s1.skipped_too_large == s0.skipped_too_large && s1.searches
            == saturated(s0.searches + 1) && s1.nodes == saturated(s0.nodes + k),
    ensures
        trace_links(laws, symmetry, trace.push(step), step.after),
        stats_match(s1, trace.push(step)),
{
    let t = trace.push(step);
    assert(t.drop_last() =~= trace);
    assert forall|i: int| 0 <= i < t.len() implies step_ok(laws, symmetry, #[trigger] t[i]) by {
        if i < trace.len() {
            assert(t[i] == trace[i]);
        }
    }
    assert forall|i: int| 0 <= i < t.len() - 1 implies #[trigger] linked(t, i, laws.len()) by {
        if i < trace.len() - 1 {
            assert(linked(trace, i, laws.len()));
            assert(t[i] == trace[i]);
            assert(t[i + 1] == trace[i + 1]);
        } else {
            assert(t[i] == trace.last());
            assert(t[i + 1] == step);
        }
    }
    if trace.len() > 0 {
        assert(t[0] == trace[0]);
    }
}

/// `law` holds in the magma with this table.
pub open spec fn holds_in_table(law: Law, n: nat, table: Seq<u8>) -> bool {
    law_satisfied(law.lhs, law.rhs, law.nvars as nat, n, table)
}

/// `law` holds in `w`.
pub open spec fn holds_in_magma(law: Law, w: Magma) -> bool {
    holds_in_table(law, w.carrier(), w.cells())
}

/// Number of open cells among the first `c` of row `a`.
pub open spec fn open_in_row(cells: Seq<Cell>, m: nat, a: int, c: int) -> nat
    decreases c,
{
    if c <= 0 {
        0
    } else {
        open_in_row(cells, m, a, c - 1) + if cells[a * m + c - 1] is Open { 1nat } else { 0nat }
    }
}

/// Every refuted cell names a witness that satisfies the row's law and
/// violates the column's.
pub open spec fn witnesses_ok(laws: Seq<Law>, cells: Seq<Cell>, witnesses: Seq<Magma>) -> bool {
    let m = laws.len();
    forall|a: int, b: int|
        0 <= a < m && 0 <= b < m ==> (#[trigger] cells[a * m + b] matches Cell::Refuted(id) ==> {
            &&& id < witnesses.len()
            &&& holds_in_magma(laws[a], witnesses[id as int])
            &&& !holds_in_magma(laws[b], witnesses[id as int])
        })
}

/// The implied cells are exactly those with a chain of syntactic proofs, each
/// carrying the direct proof when there is one.
pub open spec fn implied_ok(laws: Seq<Law>, cells: Seq<Cell>) -> bool {
    let m = laws.len();
    forall|a: int, b: int|
        0 <= a < m && 0 <= b < m ==> {
            &&& ((#[trigger] cells[a * m + b]) is Implied <==> chained(direct_table(laws), m, m, a, b))
            &&& cells[a * m + b] is Implied ==> cells[a * m + b] == Cell::Implied(
                if direct_proof_of(laws[a], laws[b]) is Some {
                    direct_proof_of(laws[a], laws[b])->0
                } else {
                    Proof::Transitive
                },
            )
        }
}

/// Every open cell `(a, b)` has no counterexample at any searchable size in `1..=up_to`.
pub open spec fn open_ok(laws: Seq<Law>, cells: Seq<Cell>, up_to: int, symmetry: bool) -> bool {
    let m = laws.len();
    forall|a: int, b: int, n: int, table: Seq<u8>|
        0 <= a < m && 0 <= b < m && 1 <= n <= up_to && (#[trigger] cells[a * m + b]) is Open && size_ok(
            laws[a].nvars as nat,
            n,
        ) ==> !#[trigger] counterexample(&laws[a], &laws[b], n, symmetry, table)
}

proof fn lemma_open_in_row_bound(cells: Seq<Cell>, m: nat, a: int, c: int)
    ensures
        open_in_row(cells, m, a, c) <= if c >= 0 { c as nat } else { 0 },
    decreases c,
{
    if c > 0 {
        lemma_open_in_row_bound(cells, m, a, c - 1);
    }
}

/// Changing one open cell of row `a` to another value lowers its count by one.
proof fn lemma_open_in_row_update(cells: Seq<Cell>, m: nat, a: int, b: int, x: Cell, c: int)
    requires
        0 <= b < m,
        0 <= a < m,
        cells.len() == m * m,
        cells[a * m + b] is Open,
        !(x is Open),
        0 <= c <= m,
    ensures
        open_in_row(cells.update(a * m + b, x), m, a, c) == open_in_row(cells, m, a, c) - if b < c { 1int } else { 0int },
    decreases c,
{
    if c > 0 {
        lemma_open_in_row_update(cells, m, a, b, x, c - 1);
        lemma_index(a, c - 1, m as int);
        lemma_index(a, b, m as int);
        if a * m + c - 1 == a * m + b {
            crate::implication::lemma_index_injective(a, c - 1, a, b, m as int);
        }
    }
}

/// Changing a cell outside row `r` leaves the count of row `r` alone.
proof fn lemma_open_in_row_other(cells: Seq<Cell>, m: nat, a: int, b: int, x: Cell, r: int, c: int)
    requires
        0 <= b < m,
        0 <= a < m,
        0 <= r < m,
        r != a,
        cells.len() == m * m,
        0 <= c <= m,
    ensures
        open_in_row(cells.update(a * m + b, x), m, r, c) == open_in_row(cells, m, r, c),
    decreases c,
{
    if c > 0 {
        lemma_open_in_row_other(cells, m, a, b, x, r, c - 1);
        lemma_index(r, c - 1, m as int);
        lemma_index(a, b, m as int);
        if r * m + c - 1 == a * m + b {
            crate::implication::lemma_index_injective(r, c - 1, a, b, m as int);
        }
    }
}

/// A row with no open cells among its first `c` has none there.
proof fn lemma_open_in_row_zero(cells: Seq<Cell>, m: nat, a: int, c: int, b: int)
    requires
        open_in_row(cells, m, a, c) == 0,
        0 <= b < c,
    ensures
        !(cells[a * m + b] is Open),
    decreases c,
{
    if b < c - 1 {
        lemma_open_in_row_zero(cells, m, a, c - 1, b);
    }
}

/// The compiled laws match the laws.
pub open spec fn compiled_ok(laws: Seq<Law>, compiled: Seq<CompiledLaw>) -> bool {
    &&& compiled.len() == laws.len()
    &&& forall|i: int|
        0 <= i < laws.len() ==> {
            &&& (#[trigger] laws[i]).wf()
            &&& compiled[i].lhs.term() == laws[i].lhs
            &&& compiled[i].rhs.term() == laws[i].rhs
            &&& compiled[i].nvars == laws[i].nvars
            &&& compiled[i].wf()
        }
}

/// `counts[a]` is the number of open cells of row `a`.
pub open spec fn counts_ok(cells: Seq<Cell>, m: nat, counts: Seq<usize>) -> bool {
    &&& counts.len() == m
    &&& forall|a: int| 0 <= a < m ==> #[trigger] counts[a] == open_in_row(cells, m, a, m as int)
}

/// Some cell is refuted by witness `id`.
pub open spec fn names_witness(cells: Seq<Cell>, id: int) -> bool {
    exists|p: int| 0 <= p < cells.len() && #[trigger] cells[p] == Cell::Refuted(id as usize)
}

/// How the witnesses are kept: in order of size, each the witness of some
/// refuted cell, and none refuting a cell still open, so that one witness
/// serves every cell it can refute.
pub open spec fn witnesses_used(laws: Seq<Law>, cells: Seq<Cell>, witnesses: Seq<Magma>) -> bool {
    let m = laws.len();
    &&& forall|i: int, j: int|
        0 <= i <= j < witnesses.len() ==> (#[trigger] witnesses[i]).carrier() <= (#[trigger] witnesses[j]).carrier()
    &&& forall|id: int| 0 <= id < witnesses.len() ==> #[trigger] names_witness(cells, id)
    &&& forall|id: int, a: int, b: int|
        0 <= id < witnesses.len() && 0 <= a < m && 0 <= b < m && (#[trigger] cells[a * m + b]) is Open ==> !(
        holds_in_magma(laws[a], #[trigger] witnesses[id]) && !holds_in_magma(laws[b], witnesses[id]))
}

/// Cells only move from open to refuted.
pub open spec fn cells_follow(before: Seq<Cell>, after: Seq<Cell>) -> bool {
    &&& after.len() == before.len()
    &&& forall|p: int| 0 <= p < before.len() && #[trigger] after[p] is Open ==> before[p] is Open
    &&& forall|p: int| 0 <= p < before.len() && !(#[trigger] before[p] is Open) ==> after[p] == before[p]
    &&& forall|p: int| 0 <= p < before.len() && (#[trigger] after[p] != before[p]) ==> after[p] is Refuted
}

/// The matrix state between searches.
pub open spec fn state_ok(laws: Seq<Law>, cells: Seq<Cell>, counts: Seq<usize>, witnesses: Seq<Magma>) -> bool {
    let m = laws.len();
    &&& cells.len() == m * m
    &&& m * m <= usize::MAX
    &&& counts_ok(cells, m, counts)
    &&& witnesses_ok(laws, cells, witnesses)
    &&& implied_ok(laws, cells)
    &&& forall|i: int| 0 <= i < witnesses.len() ==> 1 <= (#[trigger] witnesses[i]).carrier() <= 16
}

fn compile_all(laws: &Vec<Law>) -> (compiled: Vec<CompiledLaw>)
    requires
        forall|i: int| 0 <= i < laws@.len() ==> (#[trigger] laws@[i]).wf(),
    ensures
        compiled_ok(laws@, compiled@),
{
    let mut compiled: Vec<CompiledLaw> = Vec::new();
    let mut i: usize = 0;
    while i < laws.len()
        invariant
            i <= laws@.len(),
            compiled@.len() == i,
            forall|j: int| 0 <= j < laws@.len() ==> (#[trigger] laws@[j]).wf(),
            forall|j: int|
                0 <= j < i ==> {
                    &&& (#[trigger] compiled@[j]).lhs.term() == laws@[j].lhs
                    &&& compiled@[j].rhs.term() == laws@[j].rhs
                    &&& compiled@[j].nvars == laws@[j].nvars
                    &&& compiled@[j].wf()
                },
        decreases laws@.len() - i,
    {
        compiled.push(CompiledLaw::new(&laws[i]));
        i = i + 1;
    }
    compiled
}

/// Adds the model `table` of size `n` as a witness and lets it refute every
/// open cell `(a, b)` whose law `a` it satisfies and law `b` it violates.
fn record_witness(
    laws: &Vec<Law>,
    compiled: &Vec<CompiledLaw>,
    n: usize,
    table: Vec<u8>,
    cells: &mut Vec<Cell>,
    counts: &mut Vec<usize>,
    witnesses: &mut Vec<Magma>,
)
    requires
        compiled_ok(laws@, compiled@),
        state_ok(laws@, old(cells)@, old(counts)@, old(witnesses)@),
        1 <= n <= 16,
        complete_table(table@, n as int),
    ensures
        state_ok(laws@, final(cells)@, final(counts)@, final(witnesses)@),
        cells_follow(old(cells)@, final(cells)@),
        final(witnesses)@.len() == old(witnesses)@.len() + 1,
        final(witnesses)@.drop_last() == old(witnesses)@,
        final(witnesses)@.last().carrier() == n,
        final(witnesses)@.last().cells() == table@,
        forall|p: int|
            0 <= p < old(cells)@.len() && old(cells)@[p] is Open && !(#[trigger] final(cells)@[p] is Open) ==> final(cells)@[p]
                == Cell::Refuted(old(witnesses)@.len() as usize),
        forall|a: int, b: int|
            0 <= a < laws@.len() && 0 <= b < laws@.len() && (#[trigger] final(cells)@[a * laws@.len() + b]) is Open
                ==> !(holds_in_table(laws@[a], n as nat, table@) && !holds_in_table(laws@[b], n as nat, table@)),
{
    let m = laws.len();
    let ghost t = table@;
    let ghost c0 = cells@;
    let ghost w0 = witnesses@;
    let id = witnesses.len();
    proof {
        assert(n * n <= 256) by (nonlinear_arith)
            requires
                1 <= n <= 16,
        ;
    }
    let w = match Magma::new(n, table) {
        Ok(w) => w,
        Err(_) => {
            proof {
                assert(valid_magma(n as nat, t));
            }
            return ;
        },
    };
    let mut sat: Vec<bool> = Vec::new();
    let mut i: usize = 0;
    while i < m
        invariant
            i <= m,
            m == laws@.len(),
            compiled_ok(laws@, compiled@),
            complete_table(t, n as int),
            w.carrier() == n,
            w.cells() == t,
            sat@.len() == i,
            forall|j: int| 0 <= j < i ==> #[trigger] sat@[j] == holds_in_table(laws@[j], n as nat, t),
        decreases m - i,
    {
        let b = compiled[i].holds_in(n, w.table());
        proof {
            lemma_holds_iff_satisfied(laws@[i as int].lhs, laws@[i as int].rhs, laws@[i as int].nvars as nat, n as nat, t);
        }
        sat.push(b);
        i = i + 1;
    }
    witnesses.push(w);
    let mut a: usize = 0;
    while a < m
        invariant
            a <= m,
            m == laws@.len(),
            compiled_ok(laws@, compiled@),
            complete_table(t, n as int),
            1 <= n <= 16,
            sat@.len() == m,
            forall|j: int| 0 <= j < m ==> #[trigger] sat@[j] == holds_in_table(laws@[j], n as nat, t),
            witnesses@ == w0.push(w),
            w.carrier() == n,
            w.cells() == t,
            id == w0.len(),
            state_ok(laws@, cells@, counts@, witnesses@),
            cells_follow(c0, cells@),
            forall|p: int|
                0 <= p < c0.len() && c0[p] is Open && !(#[trigger] cells@[p] is Open) ==> cells@[p] == Cell::Refuted(id),
            forall|x: int, y: int|
                0 <= x < a && 0 <= y < m && (#[trigger] cells@[x * m + y]) is Open ==> !(sat@[x] && !sat@[y]),
        decreases m - a,
    {
        if sat[a] {
            let mut b: usize = 0;
            while b < m
                invariant
                    a < m,
                    b <= m,
                    m == laws@.len(),
                    compiled_ok(laws@, compiled@),
                    complete_table(t, n as int),
                    1 <= n <= 16,
                    sat@.len() == m,
                    sat@[a as int],
                    forall|j: int| 0 <= j < m ==> #[trigger] sat@[j] == holds_in_table(laws@[j], n as nat, t),
                    witnesses@ == w0.push(w),
                    w.carrier() == n,
                    w.cells() == t,
                    id == w0.len(),
                    state_ok(laws@, cells@, counts@, witnesses@),
                    cells_follow(c0, cells@),
                    forall|p: int|
                        0 <= p < c0.len() && c0[p] is Open && !(#[trigger] cells@[p] is Open) ==> cells@[p] == Cell::Refuted(id),
                    forall|x: int, y: int|
                        0 <= x < a && 0 <= y < m && (#[trigger] cells@[x * m + y]) is Open ==> !(sat@[x] && !sat@[y]),
                    forall|y: int| 0 <= y < b && (#[trigger] cells@[a * m + y]) is Open ==> sat@[y],
                decreases m - b,
            {
                proof {
                    lemma_index(a as int, b as int, m as int);
                }
                if !sat[b] {
                    match cells[a * m + b] {
                        Cell::Open => {
                            let ghost before = cells@;
                            let ghost cb = counts@;
                            cells.set(a * m + b, Cell::Refuted(id));
                            proof {
                                lemma_open_in_row_bound(before, m as nat, a as int, m as int);
                                lemma_open_in_row_update(before, m as nat, a as int, b as int, Cell::Refuted(id), m as int);
                                lemma_open_in_row_bound(before, m as nat, a as int, b as int);
                                assert(open_in_row(before, m as nat, a as int, m as int) >= 1) by {
                                    lemma_open_in_row_update(before, m as nat, a as int, b as int, Cell::Refuted(id), m as int);
                                }
                            }
                            counts.set(a, counts[a] - 1);
                            proof {
                                assert forall|r: int| 0 <= r < m implies #[trigger] counts@[r] == open_in_row(
                                    cells@,
                                    m as nat,
                                    r,
                                    m as int,
                                ) by {
                                    if r != a {
                                        lemma_open_in_row_other(before, m as nat, a as int, b as int, Cell::Refuted(id), r, m as int);
                                    }
                                }
                                assert forall|x: int, y: int|
                                    0 <= x < m && 0 <= y < m implies (#[trigger] cells@[x * m + y] matches Cell::Refuted(k) ==> {
                                    &&& k < witnesses@.len()
                                    &&& holds_in_magma(laws@[x], witnesses@[k as int])
                                    &&& !holds_in_magma(laws@[y], witnesses@[k as int])
                                }) by {
                                    lemma_index(x, y, m as int);
                                    if x * m + y == a * m + b {
                                        crate::implication::lemma_index_injective(x, y, a as int, b as int, m as int);
                                    } else {
                                        assert(cells@[x * m + y] == before[x * m + y]);
                                    }
                                }
                                assert forall|x: int, y: int| 0 <= x < m && 0 <= y < m implies {
                                    &&& ((#[trigger] cells@[x * m + y]) is Implied <==> chained(direct_table(laws@), m as nat, m as nat, x, y))
                                    &&& cells@[x * m + y] is Implied ==> cells@[x * m + y] == Cell::Implied(
                                        if direct_proof_of(laws@[x], laws@[y]) is Some {
                                            direct_proof_of(laws@[x], laws@[y])->0
                                        } else {
                                            Proof::Transitive
                                        },
                                    )
                                } by {
                                    lemma_index(x, y, m as int);
                                    if x * m + y == a * m + b {
                                        crate::implication::lemma_index_injective(x, y, a as int, b as int, m as int);
                                    }
                                }
                                assert forall|x: int, y: int|
                                    0 <= x < a && 0 <= y < m && (#[trigger] cells@[x * m + y]) is Open implies !(sat@[x] && !sat@[y]) by {
                                    lemma_index(x, y, m as int);
                                    assert(cells@[x * m + y] == before[x * m + y]);
                                }
                                assert forall|y: int| 0 <= y < b + 1 && (#[trigger] cells@[a * m + y]) is Open implies sat@[y] by {
                                    lemma_index(a as int, y, m as int);
                                    if y < b {
                                        assert(cells@[a * m + y] == before[a * m + y]);
                                    }
                                }
                            }
                        },
                        Cell::Implied(_) => {
                            proof {
                                assert(chained(direct_table(laws@), m as nat, m as nat, a as int, b as int));
                                assert(valid_magma(n as nat, t));
                                lemma_proof_table_sound(laws@, a as int, b as int, n as nat, t);
                                assert(false);
                            }
                        },
                        Cell::Refuted(_) => {},
                    }
                }
                b = b + 1;
            }
        } else {
        }
        a = a + 1;
    }
}

/// Recording a witness that refutes an open cell of row `h` keeps the
/// witnesses in order, each used, and none refuting a cell still open.
proof fn lemma_record_keeps_use(
    laws: Seq<Law>,
    c0: Seq<Cell>,
    c1: Seq<Cell>,
    w0: Seq<Magma>,
    w1: Seq<Magma>,
    h: int,
    n: nat,
    t: Seq<u8>,
)
    requires
        witnesses_used(laws, c0, w0),
        forall|i: int| 0 <= i < w0.len() ==> (#[trigger] w0[i]).carrier() <= n,
        c0.len() == laws.len() * laws.len(),
        cells_follow(c0, c1),
        w1.len() == w0.len() + 1,
        w1.drop_last() == w0,
        w1.last().carrier() == n,
        w1.last().cells() == t,
        0 <= h < laws.len(),
        holds_in_table(laws[h], n, t),
        exists|d: int| 0 <= d < laws.len() && (#[trigger] c0[h * laws.len() + d]) is Open && !holds_in_table(laws[d], n, t),
        forall|p: int|
            0 <= p < c0.len() && c0[p] is Open && !(#[trigger] c1[p] is Open) ==> c1[p] == Cell::Refuted(w0.len() as usize),
        forall|a: int, b: int|
            0 <= a < laws.len() && 0 <= b < laws.len() && (#[trigger] c1[a * laws.len() + b]) is Open ==> !(holds_in_table(
                laws[a],
                n,
                t,
            ) && !holds_in_table(laws[b], n, t)),
    ensures
        witnesses_used(laws, c1, w1),
{
    let m = laws.len();
    assert forall|i: int| 0 <= i < w0.len() implies #[trigger] w1[i] == w0[i] by {
        assert(w1.drop_last()[i] == w1[i]);
    }
    assert forall|i: int, j: int| 0 <= i <= j < w1.len() implies (#[trigger] w1[i]).carrier() <= (#[trigger] w1[j]).carrier() by {
        if j < w0.len() {
            assert(w0[i].carrier() <= w0[j].carrier());
        } else if i < w0.len() {
            assert(w0[i].carrier() <= n);
        }
    }
    assert forall|id: int| 0 <= id < w1.len() implies #[trigger] names_witness(c1, id) by {
        if id < w0.len() {
            assert(names_witness(c0, id));
            let p = choose|p: int| 0 <= p < c0.len() && #[trigger] c0[p] == Cell::Refuted(id as usize);
            assert(c1[p] == c0[p]);
        } else {
            let d = choose|d: int| 0 <= d < m && (#[trigger] c0[h * m + d]) is Open && !holds_in_table(laws[d], n, t);
            lemma_index(h, d, m as int);
            assert(!(c1[h * m + d] is Open));
            assert(c1[h * m + d] == Cell::Refuted(w0.len() as usize));
        }
    }
    assert forall|id: int, a: int, b: int|
        0 <= id < w1.len() && 0 <= a < m && 0 <= b < m && (#[trigger] c1[a * m + b]) is Open implies !(holds_in_magma(
        laws[a],
        #[trigger] w1[id],
    ) && !holds_in_magma(laws[b], w1[id])) by {
        lemma_index(a, b, m as int);
        if id < w0.len() {
            assert(c0[a * m + b] is Open);
        }
    }
}

/// Enumerates the models of law `h` of size `n`; every model that violates
/// an open conclusion of row `h` becomes a witness. Stops early once row `h`
/// has no open cell left. Returns the nodes the search explored.
fn search_row(
    laws: &Vec<Law>,
    compiled: &Vec<CompiledLaw>,
    h: usize,
    n: usize,
    opts: Options,
    cells: &mut Vec<Cell>,
    counts: &mut Vec<usize>,
    witnesses: &mut Vec<Magma>,
) -> (nodes: u64)
    requires
        compiled_ok(laws@, compiled@),
        state_ok(laws@, old(cells)@, old(counts)@, old(witnesses)@),
        h < laws@.len(),
        size_ok(laws@[h as int].nvars as nat, n as int),
        forall|i: int| 0 <= i < old(witnesses)@.len() ==> (#[trigger] old(witnesses)@[i]).carrier() <= n,
        witnesses_used(laws@, old(cells)@, old(witnesses)@),
    ensures
        witnesses_used(laws@, final(cells)@, final(witnesses)@),
        state_ok(laws@, final(cells)@, final(counts)@, final(witnesses)@),
        cells_follow(old(cells)@, final(cells)@),
        final(witnesses)@.len() >= old(witnesses)@.len(),
        forall|i: int| 0 <= i < final(witnesses)@.len() ==> (#[trigger] final(witnesses)@[i]).carrier() <= n,
        forall|c: int, t: Seq<u8>|
            0 <= c < laws@.len() && final(cells)@[h * laws@.len() + c] is Open ==> !#[trigger] counterexample(
                &laws@[h as int],
                &laws@[c],
                n as int,
                opts.symmetry,
                t,
            ),
        nodes <= power(n + 2, (n * n) as nat),
{
    let m = laws.len();
    let ghost c0 = cells@;
    let mut search = Search::new(&compiled[h], n, opts);
    loop
        invariant_except_break
            forall|c: int, j: int|
                0 <= c < m && 0 <= j < search.found().len() && (#[trigger] cells@[h * m + c]) is Open ==> law_holds(
                    laws@[c].lhs,
                    laws@[c].rhs,
                    laws@[c].nvars as int,
                    n as int,
                    #[trigger] search.found()[j],
                ),
        invariant
            m == laws@.len(),
            h < m,
            1 <= n <= 16,
            compiled_ok(laws@, compiled@),
            state_ok(laws@, cells@, counts@, witnesses@),
            cells_follow(c0, cells@),
            witnesses@.len() >= old(witnesses)@.len(),
            forall|i: int| 0 <= i < witnesses@.len() ==> (#[trigger] witnesses@[i]).carrier() <= n,
            witnesses_used(laws@, cells@, witnesses@),
            c0 == old(cells)@,
            search.inv(),
            search.compiled() == compiled@[h as int],
            search.order() == n,
            search.options() == opts,
            search.counters().nodes + search.remaining() <= power(n + 2, (n * n) as nat),
        ensures
            forall|c: int, t: Seq<u8>|
                0 <= c < m && cells@[h * m + c] is Open ==> !#[trigger] counterexample(
                    &laws@[h as int],
                    &laws@[c],
                    n as int,
                    opts.symmetry,
                    t,
                ),
        decreases search.remaining(),
    {
        proof {
            search.lemma_remaining();
        }
        let ghost cells_before = cells@;
        match search.next_model() {
            None => {
                proof {
                    assert forall|c: int, t: Seq<u8>|
                        0 <= c < m && cells@[h * m + c] is Open implies !#[trigger] counterexample(
                        &laws@[h as int],
                        &laws@[c],
                        n as int,
                        opts.symmetry,
                        t,
                    ) by {
                        if search.accepts(t) {
                            assert(search.found().contains(t));
                            let j = choose|j: int| 0 <= j < search.found().len() && search.found()[j] == t;
                            assert(law_holds(laws@[c].lhs, laws@[c].rhs, laws@[c].nvars as int, n as int, search.found()[j]));
                        }
                    }
                }
                break;
            },
            Some(table) => {
                proof {
                    search.lemma_remaining();
                }
                let ghost t = table@;
                let mut refutes = false;
                let mut c: usize = 0;
                while c < m
                    invariant
                        c <= m,
                        m == laws@.len(),
                        h < m,
                        1 <= n <= 16,
                        compiled_ok(laws@, compiled@),
                        complete_table(t, n as int),
                        table@ == t,
                        cells@.len() == m * m,
                        m * m <= usize::MAX,
                        refutes ==> exists|d: int|
                            0 <= d < m && (#[trigger] cells@[h * m + d]) is Open && !law_holds(
                                laws@[d].lhs,
                                laws@[d].rhs,
                                laws@[d].nvars as int,
                                n as int,
                                t,
                            ),
                        !refutes ==> forall|d: int|
                            0 <= d < c && (#[trigger] cells@[h * m + d]) is Open ==> law_holds(
                                laws@[d].lhs,
                                laws@[d].rhs,
                                laws@[d].nvars as int,
                                n as int,
                                t,
                            ),
                    decreases m - c,
                {
                    proof {
                        lemma_index(h as int, c as int, m as int);
                        assert(laws@[c as int].wf());
                    }
                    if cells[h * m + c] == Cell::Open && !compiled[c].holds_in(n, table.as_slice()) {
                        refutes = true;
                    }
                    c = c + 1;
                }
                if refutes {
                    let ghost w_before = witnesses@;
                    let ghost c_before = cells@;
                    proof {
                        let d = choose|d: int|
                            0 <= d < m && (#[trigger] cells@[h * m + d]) is Open && !law_holds(
                                laws@[d].lhs,
                                laws@[d].rhs,
                                laws@[d].nvars as int,
                                n as int,
                                t,
                            );
                        lemma_holds_iff_satisfied(laws@[d].lhs, laws@[d].rhs, laws@[d].nvars as nat, n as nat, t);
                        assert(0 <= d < m && (#[trigger] c_before[h * m + d]) is Open && !holds_in_table(laws@[d], n as nat, t));
                        lemma_holds_iff_satisfied(
                            laws@[h as int].lhs,
                            laws@[h as int].rhs,
                            laws@[h as int].nvars as nat,
                            n as nat,
                            t,
                        );
                    }
                    record_witness(laws, compiled, n, table, cells, counts, witnesses);
                    proof {
                        lemma_record_keeps_use(laws@, c_before, cells@, w_before, witnesses@, h as int, n as nat, t);
                        assert forall|i: int| 0 <= i < witnesses@.len() implies (#[trigger] witnesses@[i]).carrier() <= n by {
                            if i < w_before.len() {
                                assert(witnesses@.drop_last()[i] == witnesses@[i]);
                            }
                        }
                        lemma_holds_iff_satisfied(
                            laws@[h as int].lhs,
                            laws@[h as int].rhs,
                            laws@[h as int].nvars as nat,
                            n as nat,
                            t,
                        );
                        assert forall|d: int|
                            0 <= d < m && (#[trigger] cells@[h * m + d]) is Open implies law_holds(
                            laws@[d].lhs,
                            laws@[d].rhs,
                            laws@[d].nvars as int,
                            n as int,
                            t,
                        ) by {
                            lemma_holds_iff_satisfied(laws@[d].lhs, laws@[d].rhs, laws@[d].nvars as nat, n as nat, t);
                        }
                    }
                }
                proof {
                    assert forall|d: int, j: int|
                        0 <= d < m && 0 <= j < search.found().len() && (#[trigger] cells@[h * m + d]) is Open implies law_holds(
                        laws@[d].lhs,
                        laws@[d].rhs,
                        laws@[d].nvars as int,
                        n as int,
                        #[trigger] search.found()[j],
                    ) by {
                        lemma_index(h as int, d, m as int);
                        if j == search.found().len() - 1 {
                            assert(search.found()[j] == t);
                        } else {
                            assert(cells_before[h * m + d] is Open);
                        }
                    }
                }
                if counts[h] == 0 {
                    proof {
                        assert forall|d: int, u: Seq<u8>|
                            0 <= d < m && cells@[h * m + d] is Open implies !#[trigger] counterexample(
                            &laws@[h as int],
                            &laws@[d],
                            n as int,
                            opts.symmetry,
                            u,
                        ) by {
                            lemma_open_in_row_zero(cells@, m as nat, h as int, m as int, d);
                        }
                    }
                    break;
                }
            },
        }
    }
    proof {
        search.lemma_remaining();
    }
    search.stats().nodes
}

/// The proof table turned into cells, and the open count of each row.
fn initial_cells(laws: &Vec<Law>) -> (r: (Vec<Cell>, Vec<usize>))
    requires
        forall|i: int| 0 <= i < laws@.len() ==> (#[trigger] laws@[i]).wf(),
        laws@.len() * laws@.len() <= usize::MAX,
    ensures
        state_ok(laws@, r.0@, r.1@, Seq::empty()),
        forall|p: int| 0 <= p < r.0@.len() ==> !(#[trigger] r.0@[p] is Refuted),
{
    let m = laws.len();
    let sl = laws.as_slice();
    let table = proof_table(sl);
    assert(sl@ == laws@);
    let mut cells: Vec<Cell> = Vec::new();
    let mut p: usize = 0;
    while p < m * m
        invariant
            p <= m * m,
            m == laws@.len(),
            m * m <= usize::MAX,
            table@.len() == m * m,
            cells@.len() == p,
            forall|q: int|
                0 <= q < p ==> #[trigger] cells@[q] == match table@[q] {
                    Some(pr) => Cell::Implied(pr),
                    None => Cell::Open,
                },
        decreases m * m - p,
    {
        let c = match table[p] {
            Some(pr) => Cell::Implied(pr),
            None => Cell::Open,
        };
        cells.push(c);
        p = p + 1;
    }
    proof {
        assert forall|x: int, y: int| 0 <= x < m && 0 <= y < m implies {
            &&& ((#[trigger] cells@[x * m + y]) is Implied <==> chained(direct_table(laws@), m as nat, m as nat, x, y))
            &&& cells@[x * m + y] is Implied ==> cells@[x * m + y] == Cell::Implied(
                if direct_proof_of(laws@[x], laws@[y]) is Some {
                    direct_proof_of(laws@[x], laws@[y])->0
                } else {
                    Proof::Transitive
                },
            )
        } by {
            lemma_index(x, y, m as int);
            assert(table@[x * m + y] is Some <==> chained(direct_table(sl@), sl@.len(), sl@.len(), x, y));
            assert(cells@[x * m + y] == match table@[x * m + y] {
                Some(pr) => Cell::Implied(pr),
                None => Cell::Open,
            });
        }
    }
    let mut counts: Vec<usize> = Vec::new();
    let mut a: usize = 0;
    while a < m
        invariant
            a <= m,
            m == laws@.len(),
            m * m <= usize::MAX,
            cells@.len() == m * m,
            implied_ok(laws@, cells@),
            forall|q: int| 0 <= q < cells@.len() ==> !(#[trigger] cells@[q] is Refuted),
            counts@.len() == a,
            forall|r: int| 0 <= r < a ==> #[trigger] counts@[r] == open_in_row(cells@, m as nat, r, m as int),
        decreases m - a,
    {
        let mut k: usize = 0;
        let mut c: usize = 0;
        while c < m
            invariant
                a < m,
                c <= m,
                m * m <= usize::MAX,
                cells@.len() == m * m,
                k == open_in_row(cells@, m as nat, a as int, c as int),
                k <= c,
            decreases m - c,
        {
            proof {
                lemma_index(a as int, c as int, m as int);
            }
            if cells[a * m + c] == Cell::Open {
                k = k + 1;
            }
            c = c + 1;
        }
        counts.push(k);
        a = a + 1;
    }
    proof {
        assert(counts_ok(cells@, m as nat, counts@));
        assert forall|x: int, y: int| 0 <= x < m && 0 <= y < m implies (#[trigger] cells@[x * m + y] matches Cell::Refuted(id) ==> {
            &&& id < Seq::<Magma>::empty().len()
            &&& holds_in_magma(laws@[x], Seq::<Magma>::empty()[id as int])
            &&& !holds_in_magma(laws@[y], Seq::<Magma>::empty()[id as int])
        }) by {
            lemma_index(x, y, m as int);
            assert(!(cells@[x * m + y] is Refuted));
        }
        assert(witnesses_ok(laws@, cells@, Seq::<Magma>::empty()));
    }
    (cells, counts)
}

impl Matrix {
    /// Fills the matrix.
    ///
    /// Proven cells come from [`proof_table`]. Remaining cells are searched
    /// size by size across all rows, so every size-2 witness is found before
    /// any size-3 search starts. Each witness is evaluated against every law
    /// and refutes every open cell `(a, b)` with `a` satisfied and `b`
    /// violated, not just the pair it was found for.
    ///
    /// `trace` records every visit of a law at a size; `stats` counts the
    /// searches run, the searches the size check refused, and the nodes the
    /// searches tried, each saturating.
    pub fn build(laws: Vec<Law>, max_size: usize, opts: Options) -> (mx: Matrix)
        requires
            forall|i: int| 0 <= i < laws@.len() ==> (#[trigger] laws@[i]).wf(),
            laws@.len() * laws@.len() <= usize::MAX,
        ensures
            mx.laws@ == laws@,
            mx.max_size == max_size,
            mx.cells@.len() == laws@.len() * laws@.len(),
            witnesses_ok(laws@, mx.cells@, mx.witnesses@),
            implied_ok(laws@, mx.cells@),
            open_ok(laws@, mx.cells@, max_size as int, opts.symmetry),
            forall|i: int| 0 <= i < mx.witnesses@.len() ==> 1 <= (#[trigger] mx.witnesses@[i]).carrier() <= 16,
            forall|i: int| 0 <= i < mx.witnesses@.len() ==> (#[trigger] mx.witnesses@[i]).carrier() <= max_size,
            witnesses_used(laws@, mx.cells@, mx.witnesses@),
            mx.wf(),
            trace_ok(laws@, max_size as nat, opts.symmetry, mx.trace@, mx.cells@),
            mx.stats.searches == saturated(tally(mx.trace@).0 as int),
            mx.stats.skipped_too_large == saturated(tally(mx.trace@).1 as int),
            mx.stats.nodes == saturated(tally(mx.trace@).2 as int),
    {
        let m = laws.len();
        let compiled = compile_all(&laws);
        let (mut cells, mut counts) = initial_cells(&laws);
        let mut witnesses: Vec<Magma> = Vec::new();
        let mut stats = MatrixStats::default();
        let ghost mut trace: Seq<Step> = Seq::empty();
        proof {
            assert(state_ok(laws@, cells@, counts@, witnesses@)) by {
                assert(witnesses@ =~= Seq::<Magma>::empty());
            }
        }
        if max_size >= 1 {
            let mut n: usize = 1;
            loop
                invariant_except_break
                    m > 0 ==> (trace.len() == 0 <==> n == 1),
                    trace.len() > 0 ==> trace.last().size == n - 1 && trace.last().row == m - 1,
                invariant
                    1 <= n <= max_size,
                    m == laws@.len(),
                    compiled_ok(laws@, compiled@),
                    state_ok(laws@, cells@, counts@, witnesses@),
                    open_ok(laws@, cells@, n - 1, opts.symmetry),
                    forall|i: int| 0 <= i < witnesses@.len() ==> (#[trigger] witnesses@[i]).carrier() <= n,
                    witnesses_used(laws@, cells@, witnesses@),
                    m == 0 ==> trace.len() == 0,
                    trace_links(laws@, opts.symmetry, trace, cells@),
                    stats_match(stats, trace),
                ensures
                    witnesses_used(laws@, cells@, witnesses@),
                    state_ok(laws@, cells@, counts@, witnesses@),
                    open_ok(laws@, cells@, max_size as int, opts.symmetry),
                    forall|i: int| 0 <= i < witnesses@.len() ==> (#[trigger] witnesses@[i]).carrier() <= max_size,
                    m == 0 ==> trace.len() == 0,
                    m > 0 ==> trace.len() > 0 && trace.last().size == max_size && trace.last().row == m - 1,
                    trace_links(laws@, opts.symmetry, trace, cells@),
                    stats_match(stats, trace),
                decreases max_size - n,
            {
                let mut h: usize = 0;
                while h < m
                    invariant
                        1 <= n <= max_size,
                        h <= m,
                        m == laws@.len(),
                        compiled_ok(laws@, compiled@),
                        state_ok(laws@, cells@, counts@, witnesses@),
                        open_ok(laws@, cells@, n - 1, opts.symmetry),
                        forall|i: int| 0 <= i < witnesses@.len() ==> (#[trigger] witnesses@[i]).carrier() <= n,
                        witnesses_used(laws@, cells@, witnesses@),
                        forall|a: int, b: int, t: Seq<u8>|
                            0 <= a < h && 0 <= b < m && cells@[a * m + b] is Open && size_ok(
                                laws@[a].nvars as nat,
                                n as int,
                            ) ==> !#[trigger] counterexample(&laws@[a], &laws@[b], n as int, opts.symmetry, t),
                        m == 0 ==> trace.len() == 0,
                        m > 0 ==> (trace.len() == 0 <==> n == 1 && h == 0),
                        trace.len() > 0 && h > 0 ==> trace.last().size == n && trace.last().row == h - 1,
                        trace.len() > 0 && h == 0 ==> trace.last().size == n - 1 && trace.last().row == m - 1,
                        trace_links(laws@, opts.symmetry, trace, cells@),
                        stats_match(stats, trace),
                    decreases m - h,
                {
                    let ghost before = cells@;
                    let ghost stats0 = stats;
                    let ghost mut visit = Visit::Closed;
                    proof {
                        assert(counts@[h as int] == open_in_row(cells@, m as nat, h as int, m as int));
                        assert(laws@[h as int].wf());
                    }
                    if counts[h] == 0 {
                        proof {
                            assert forall|a: int, b: int, t: Seq<u8>|
                                0 <= a < h + 1 && 0 <= b < m && cells@[a * m + b] is Open && size_ok(
                                    laws@[a].nvars as nat,
                                    n as int,
                                ) implies !#[trigger] counterexample(&laws@[a], &laws@[b], n as int, opts.symmetry, t) by {
                                if a == h {
                                    lemma_open_in_row_zero(cells@, m as nat, h as int, m as int, b);
                                }
                            }
                        }
                    } else if check_size(&compiled[h], n).is_err() {
                        stats.skipped_too_large = stats.skipped_too_large.saturating_add(1);
                        proof {
                            visit = Visit::Skipped;
                        }
                    } else {
                        stats.searches = stats.searches.saturating_add(1);
                        let nodes = search_row(&laws, &compiled, h, n, opts, &mut cells, &mut counts, &mut witnesses);
                        stats.nodes = stats.nodes.saturating_add(nodes);
                        proof {
                            visit = Visit::Searched(nodes);
                            assert forall|a: int, b: int, t: Seq<u8>|
                                0 <= a < h + 1 && 0 <= b < m && cells@[a * m + b] is Open && size_ok(
                                    laws@[a].nvars as nat,
                                    n as int,
                                ) implies !#[trigger] counterexample(&laws@[a], &laws@[b], n as int, opts.symmetry, t) by {
                                lemma_index(a, b, m as int);
                                if a < h {
                                    assert(before[a * m + b] is Open);
                                }
                            }
                            assert forall|a: int, b: int, k: int, t: Seq<u8>|
                                0 <= a < m && 0 <= b < m && 1 <= k <= n - 1 && (#[trigger] cells@[a * m + b]) is Open
                                    && size_ok(laws@[a].nvars as nat, k) implies !#[trigger] counterexample(
                                &laws@[a],
                                &laws@[b],
                                k,
                                opts.symmetry,
                                t,
                            ) by {
                                lemma_index(a, b, m as int);
                                assert(before[a * m + b] is Open);
                            }
                        }
                    }
                    proof {
                        let step = Step { size: n as nat, row: h as nat, visit, before, after: cells@ };
                        assert(step_ok(laws@, opts.symmetry, step));
                        lemma_trace_push(laws@, opts.symmetry, trace, step, stats0, stats);
                        trace = trace.push(step);
                    }
                    h = h + 1;
                }
                proof {
                    assert forall|a: int, b: int, k: int, t: Seq<u8>|
                        0 <= a < m && 0 <= b < m && 1 <= k <= n && (#[trigger] cells@[a * m + b]) is Open && size_ok(
                            laws@[a].nvars as nat,
                            k,
                        ) implies !#[trigger] counterexample(&laws@[a], &laws@[b], k, opts.symmetry, t) by {
                        if k == n {
                            assert(0 <= a < h);
                        }
                    }
                }
                if n == max_size {
                    break;
                }
                n = n + 1;
            }
        }
        proof {
            assert forall|p: int| 0 <= p < m * m implies (#[trigger] cells@[p] matches Cell::Refuted(id) ==> id
                < witnesses@.len()) by {
                lemma_split_index(p, m as int);
                let (a, b) = (p / m as int, p % m as int);
                assert(cells@[a * m + b] == cells@[p]);
            }
        }
        Matrix { laws, cells, witnesses, max_size, stats, trace: Ghost(trace) }
    }
}

/// In a matrix whose refuted cells name witnesses as `build` ensures, every
/// refuted cell passes the re-check, so `verify` answers with the number of
/// refuted cells and never with an error.
pub proof fn lemma_witnesses_confirm_cells(laws: Seq<Law>, cells: Seq<Cell>, witnesses: Seq<Magma>)
    requires
        cells.len() == laws.len() * laws.len(),
        witnesses_ok(laws, cells, witnesses),
    ensures
        forall|p: int| 0 <= p < cells.len() ==> #[trigger] cell_confirmed(laws, cells, witnesses, p),
{
    let m = laws.len() as int;
    assert forall|p: int| 0 <= p < cells.len() implies #[trigger] cell_confirmed(laws, cells, witnesses, p) by {
        lemma_split_index(p, m);
        let (a, b) = (p / m, p % m);
        assert(cells[a * m + b] == cells[p]);
    }
}

/// Every index of an `m × m` table is a cell `(p / m, p % m)`.
pub proof fn lemma_split_index(p: int, m: int)
    requires
        0 <= p < m * m,
        0 <= m,
    ensures
        0 <= p / m < m,
        0 <= p % m < m,
        (p / m) * m + p % m == p,
{
    assert(m > 0) by (nonlinear_arith)
        requires
            0 <= p < m * m,
            0 <= m,
    ;
    vstd::arithmetic::div_mod::lemma_fundamental_div_mod(p, m);
    vstd::arithmetic::div_mod::lemma_mod_pos_bound(p, m);
    vstd::arithmetic::div_mod::lemma_div_pos_is_pos(p, m);
    assert((p / m) * m == m * (p / m)) by (nonlinear_arith);
    assert(p / m < m) by (nonlinear_arith)
        requires
            p == m * (p / m) + p % m,
            0 <= p % m,
            p < m * m,
            m > 0,
    ;
}

/// Number of `true` entries.
pub open spec fn count_true(bs: Seq<bool>) -> nat
    decreases bs.len(),
{
    if bs.len() == 0 {
        0
    } else {
        count_true(bs.drop_last()) + if bs.last() { 1nat } else { 0nat }
    }
}

/// Number of refuted cells.
pub open spec fn refuted_count(cells: Seq<Cell>) -> nat {
    count_true(cells.map_values(|c: Cell| c is Refuted))
}

/// The message of `verify_witness` for a witness it rejects.
pub open spec fn rejection(h: Law, c: Law, w: Magma) -> Seq<char> {
    if holds_in_magma(h, w) {
        kept_conclusion_error(c.text())
    } else {
        broken_hypothesis_error(
            h.text(),
            choose|values: Seq<usize>|
                first_violation(h.lhs, h.rhs, h.nvars as nat, w.carrier(), w.cells(), values),
        )
    }
}

/// The message for refuted cell `(h, c)` whose witness `id` is rejected.
pub open spec fn cell_error(h: nat, c: nat, id: nat, reason: Seq<char>) -> Seq<char> {
    "cell ("@ + decimal(h + 1) + ", "@ + decimal(c + 1) + ") witness w"@ + decimal(id) + ": "@ + reason
}

/// The witness of a refuted cell satisfies its hypothesis and violates its conclusion.
pub open spec fn cell_confirmed(laws: Seq<Law>, cells: Seq<Cell>, witnesses: Seq<Magma>, p: int) -> bool {
    let m = laws.len();
    cells[p] matches Cell::Refuted(id) ==> holds_in_magma(laws[p / m as int], witnesses[id as int])
        && !holds_in_magma(laws[p % m as int], witnesses[id as int])
}

impl Matrix {
    /// The fields fit together: laws are well formed, the cells form an
    /// `m × m` table and every refuted cell names an existing witness.
    pub open spec fn wf(&self) -> bool {
        let m = self.laws@.len();
        &&& forall|i: int| 0 <= i < m ==> (#[trigger] self.laws@[i]).wf()
        &&& self.cells@.len() == m * m
        &&& m * m <= usize::MAX
        &&& forall|p: int| 0 <= p < m * m ==> (#[trigger] self.cells@[p] matches Cell::Refuted(id) ==> id
            < self.witnesses@.len())
    }

    pub fn cell(&self, hypothesis: usize, conclusion: usize) -> (c: Cell)
        requires
            self.wf(),
            hypothesis < self.laws@.len(),
            conclusion < self.laws@.len(),
        ensures
            c == self.cells@[hypothesis * self.laws@.len() + conclusion],
    {
        proof {
            lemma_index(hypothesis as int, conclusion as int, self.laws@.len() as int);
        }
        self.cells[hypothesis * self.laws.len() + conclusion]
    }

    /// Number of cells for which `pred` holds.
    pub fn count<F: Fn(&Cell) -> bool>(&self, pred: F) -> (k: usize)
        requires
            forall|c: &Cell| #[trigger] call_requires(pred, (c,)),
        ensures
            exists|bs: Seq<bool>|
                bs.len() == self.cells@.len() && (forall|i: int|
                    0 <= i < bs.len() ==> #[trigger] call_ensures(pred, (&self.cells@[i],), bs[i])) && k
                    == count_true(bs),
    {
        let mut k: usize = 0;
        let mut i: usize = 0;
        let ghost mut bs: Seq<bool> = Seq::empty();
        while i < self.cells.len()
            invariant
                i <= self.cells@.len(),
                forall|c: &Cell| #[trigger] call_requires(pred, (c,)),
                bs.len() == i,
                forall|j: int| 0 <= j < i ==> #[trigger] call_ensures(pred, (&self.cells@[j],), bs[j]),
                k == count_true(bs),
                k <= i,
            decreases self.cells@.len() - i,
        {
            let b = pred(&self.cells[i]);
            proof {
                let old_bs = bs;
                bs = bs.push(b);
                assert(bs.drop_last() =~= old_bs);
            }
            if b {
                k = k + 1;
            }
            i = i + 1;
        }
        k
    }
}

proof fn lemma_count_true_push(bs: Seq<bool>, b: bool)
    ensures
        count_true(bs.push(b)) == count_true(bs) + if b { 1nat } else { 0nat },
{
    assert(bs.push(b).drop_last() =~= bs);
}

impl Matrix {
    /// Re-checks every refuted cell with the independent brute-force checker,
    /// in row-major order, and returns how many were checked.
    pub fn verify(&self) -> (r: Result<usize, String>)
        requires
            self.wf(),
            forall|id: int, i: int|
                0 <= id < self.witnesses@.len() && 0 <= i < self.laws@.len() ==> power(
                    (#[trigger] self.witnesses@[id]).carrier() as int,
                    (#[trigger] self.laws@[i]).nvars as nat,
                ) <= usize::MAX,
        ensures
            match r {
                Ok(k) => k == refuted_count(self.cells@) && forall|p: int|
                    0 <= p < self.cells@.len() ==> #[trigger] cell_confirmed(self.laws@, self.cells@, self.witnesses@, p),
                Err(e) => exists|p: int|
                    0 <= p < self.cells@.len() && !#[trigger] cell_confirmed(self.laws@, self.cells@, self.witnesses@, p)
                        && (forall|q: int| 0 <= q < p ==> cell_confirmed(self.laws@, self.cells@, self.witnesses@, q))
                        && e@ == cell_error(
                        (p / self.laws@.len() as int) as nat,
                        (p % self.laws@.len() as int) as nat,
                        self.cells@[p]->Refuted_0 as nat,
                        rejection(
                            self.laws@[p / self.laws@.len() as int],
                            self.laws@[p % self.laws@.len() as int],
                            self.witnesses@[self.cells@[p]->Refuted_0 as int],
                        ),
                    ),
            },
    {
        let m = self.laws.len();
        let ghost flags = self.cells@.map_values(|c: Cell| c is Refuted);
        let mut checked: usize = 0;
        let mut h: usize = 0;
        while h < m
            invariant
                h <= m,
                m == self.laws@.len(),
                self.wf(),
                forall|id: int, i: int|
                    0 <= id < self.witnesses@.len() && 0 <= i < self.laws@.len() ==> power(
                        (#[trigger] self.witnesses@[id]).carrier() as int,
                        (#[trigger] self.laws@[i]).nvars as nat,
                    ) <= usize::MAX,
                flags == self.cells@.map_values(|c: Cell| c is Refuted),
                checked == count_true(flags.take(h * m)),
                checked <= h * m,
                forall|q: int| 0 <= q < h * m ==> #[trigger] cell_confirmed(self.laws@, self.cells@, self.witnesses@, q),
            decreases m - h,
        {
            let mut c: usize = 0;
            proof {
                assert((h + 1) * m <= m * m) by (nonlinear_arith)
                    requires
                        h < m,
                ;
                assert((h + 1) * m == h * m + m) by (nonlinear_arith);
            }
            while c < m
                invariant
                    h < m,
                    c <= m,
                    m == self.laws@.len(),
                    self.wf(),
                    (h + 1) * m <= m * m,
                    (h + 1) * m == h * m + m,
                forall|id: int, i: int|
                        0 <= id < self.witnesses@.len() && 0 <= i < self.laws@.len() ==> power(
                            (#[trigger] self.witnesses@[id]).carrier() as int,
                            (#[trigger] self.laws@[i]).nvars as nat,
                        ) <= usize::MAX,
                    flags == self.cells@.map_values(|c: Cell| c is Refuted),
                    checked == count_true(flags.take(h * m + c)),
                    checked <= h * m + c,
                    forall|q: int| 0 <= q < h * m + c ==> #[trigger] cell_confirmed(self.laws@, self.cells@, self.witnesses@, q),
                decreases m - c,
            {
                proof {
                    lemma_index(h as int, c as int, m as int);
                    assert(flags.take(h * m + c + 1) =~= flags.take(h * m + c).push(flags[h * m + c]));
                    lemma_count_true_push(flags.take(h * m + c), flags[h * m + c]);
                }
                match self.cell(h, c) {
                    Cell::Refuted(id) => {
                        proof {
                            assert(self.laws@[h as int].wf());
                            assert(self.laws@[c as int].wf());
                            assert(power(self.witnesses@[id as int].carrier() as int, self.laws@[h as int].nvars as nat) <= usize::MAX);
                            assert(power(self.witnesses@[id as int].carrier() as int, self.laws@[c as int].nvars as nat) <= usize::MAX);
                        }
                        let _ = self.witnesses[id].size();
                        match verify_witness(&self.laws[h], &self.laws[c], &self.witnesses[id]) {
                            Ok(_) => {},
                            Err(e) => {
                                let mut msg = String::from_str("cell (");
                                push_decimal(&mut msg, (h + 1) as u64);
                                push_str(&mut msg, ", ");
                                push_decimal(&mut msg, (c + 1) as u64);
                                push_str(&mut msg, ") witness w");
                                push_decimal(&mut msg, id as u64);
                                push_str(&mut msg, ": ");
                                push_str(&mut msg, e.as_str());
                                proof {
                                    let hl = self.laws@[h as int];
                                    let cl = self.laws@[c as int];
                                    let w = self.witnesses@[id as int];
                                    if !holds_in_magma(hl, w) {
                                        let v = choose|values: Seq<usize>|
                                            #[trigger] first_violation(hl.lhs, hl.rhs, hl.nvars as nat, w.carrier(), w.cells(), values)
                                                && e@ == broken_hypothesis_error(hl.text(), values);
                                        let u = choose|values: Seq<usize>|
                                            first_violation(hl.lhs, hl.rhs, hl.nvars as nat, w.carrier(), w.cells(), values);
                                        crate::verify::lemma_first_violation_unique(
                                            hl.lhs,
                                            hl.rhs,
                                            hl.nvars as nat,
                                            w.carrier(),
                                            w.cells(),
                                            v,
                                            u,
                                        );
                                    }
                                    assert(msg@ =~= cell_error(h as nat, c as nat, id as nat, rejection(hl, cl, w)));
                                    assert(!cell_confirmed(self.laws@, self.cells@, self.witnesses@, h * m + c));
                                }
                                return Err(msg);
                            },
                        }
                        checked = checked + 1;
                    },
                    _ => {},
                }
                c = c + 1;
            }
            h = h + 1;
        }
        proof {
            assert(flags.take(m * m) =~= flags);
        }
        Ok(checked)
    }
}

/// The CSV field of a cell.
pub open spec fn cell_word(c: Cell) -> Seq<char> {
    match c {
        Cell::Implied(_) => "implied"@,
        Cell::Refuted(id) => "w"@ + decimal(id as nat),
        Cell::Open => "open"@,
    }
}

/// The header fields for laws `0..i`.
pub open spec fn csv_header_fields(laws: Seq<Law>, i: int) -> Seq<char>
    decreases i,
{
    if i <= 0 {
        Seq::empty()
    } else {
        csv_header_fields(laws, i - 1) + ",\""@ + laws[i - 1].text() + "\""@
    }
}

/// The fields of row `h` for conclusions `0..c`.
pub open spec fn csv_row_fields(cells: Seq<Cell>, m: nat, h: int, c: int) -> Seq<char>
    decreases c,
{
    if c <= 0 {
        Seq::empty()
    } else {
        csv_row_fields(cells, m, h, c - 1) + ","@ + cell_word(cells[h * m + c - 1])
    }
}

/// Rows `0..h` of the CSV body.
pub open spec fn csv_rows(laws: Seq<Law>, cells: Seq<Cell>, h: int) -> Seq<char>
    decreases h,
{
    if h <= 0 {
        Seq::empty()
    } else {
        csv_rows(laws, cells, h - 1) + "\""@ + laws[h - 1].text() + "\""@ + csv_row_fields(
            cells,
            laws.len(),
            h - 1,
            laws.len() as int,
        ) + "\n"@
    }
}

/// The whole CSV: a header row of conclusions, then one row per hypothesis.
pub open spec fn csv_text(laws: Seq<Law>, cells: Seq<Cell>) -> Seq<char> {
    "\"hypothesis \\ conclusion\""@ + csv_header_fields(laws, laws.len() as int) + "\n"@ + csv_rows(
        laws,
        cells,
        laws.len() as int,
    )
}

/// The 1-based numbers of the laws among `0..i` that `w` satisfies, separated by spaces.
pub open spec fn satisfied_list(laws: Seq<Law>, w: Magma, i: int) -> Seq<char>
    decreases i,
{
    if i <= 0 {
        Seq::empty()
    } else {
        let prev = satisfied_list(laws, w, i - 1);
        if holds_in_magma(laws[i - 1], w) {
            if prev.len() == 0 {
                decimal(i as nat)
            } else {
                prev + seq![' '] + decimal(i as nat)
            }
        } else {
            prev
        }
    }
}

/// One witness: its number, size, the laws it satisfies, and its table.
pub open spec fn witness_entry(laws: Seq<Law>, w: Magma, id: nat) -> Seq<char> {
    "w"@ + decimal(id) + ": size "@ + decimal(w.carrier()) + ", satisfies laws "@ + satisfied_list(
        laws,
        w,
        laws.len() as int,
    ) + "\n"@ + table_text(w.carrier(), w.cells()) + "\n"@
}

/// Witnesses `0..k`.
pub open spec fn witness_entries(laws: Seq<Law>, witnesses: Seq<Magma>, k: int) -> Seq<char>
    decreases k,
{
    if k <= 0 {
        Seq::empty()
    } else {
        witness_entries(laws, witnesses, k - 1) + witness_entry(laws, witnesses[k - 1], (k - 1) as nat)
    }
}

impl Matrix {
    /// CSV with one row per hypothesis and one column per conclusion.
    /// Cells are `implied`, `w<id>` (refuted by that witness) or `open`.
    pub fn to_csv(&self) -> (s: String)
        requires
            self.wf(),
        ensures
            s@ == csv_text(self.laws@, self.cells@),
    {
        let m = self.laws.len();
        let mut out = String::from_str("\"hypothesis \\ conclusion\"");
        let mut i: usize = 0;
        while i < m
            invariant
                i <= m,
                m == self.laws@.len(),
                self.wf(),
                out@ == "\"hypothesis \\ conclusion\""@ + csv_header_fields(self.laws@, i as int),
            decreases m - i,
        {
            push_str(&mut out, ",\"");
            let t = self.laws[i].to_string();
            push_str(&mut out, t.as_str());
            push_str(&mut out, "\"");
            i = i + 1;
            assert(out@ =~= "\"hypothesis \\ conclusion\""@ + csv_header_fields(self.laws@, i as int));
        }
        push_str(&mut out, "\n");
        let ghost head = out@;
        let mut h: usize = 0;
        while h < m
            invariant
                h <= m,
                m == self.laws@.len(),
                self.wf(),
                out@ == head + csv_rows(self.laws@, self.cells@, h as int),
            decreases m - h,
        {
            push_str(&mut out, "\"");
            let t = self.laws[h].to_string();
            push_str(&mut out, t.as_str());
            push_str(&mut out, "\"");
            let ghost row = out@;
            let mut c: usize = 0;
            while c < m
                invariant
                    h < m,
                    c <= m,
                    m == self.laws@.len(),
                    self.wf(),
                    out@ == row + csv_row_fields(self.cells@, m as nat, h as int, c as int),
                decreases m - c,
            {
                push_str(&mut out, ",");
                match self.cell(h, c) {
                    Cell::Implied(_) => push_str(&mut out, "implied"),
                    Cell::Refuted(id) => {
                        push_str(&mut out, "w");
                        push_decimal(&mut out, id as u64);
                    },
                    Cell::Open => push_str(&mut out, "open"),
                }
                c = c + 1;
                assert(out@ =~= row + csv_row_fields(self.cells@, m as nat, h as int, c as int));
            }
            push_str(&mut out, "\n");
            h = h + 1;
            assert(out@ =~= head + csv_rows(self.laws@, self.cells@, h as int));
        }
        assert(out@ =~= csv_text(self.laws@, self.cells@));
        out
    }

    /// Every witness table, with the laws (by 1-based index) it satisfies.
    #[verifier::rlimit(30)]
    pub fn witnesses_text(&self) -> (s: String)
        requires
            self.wf(),
            forall|id: int, i: int|
                0 <= id < self.witnesses@.len() && 0 <= i < self.laws@.len() ==> power(
                    (#[trigger] self.witnesses@[id]).carrier() as int,
                    (#[trigger] self.laws@[i]).nvars as nat,
                ) <= usize::MAX,
        ensures
            s@ == witness_entries(self.laws@, self.witnesses@, self.witnesses@.len() as int),
    {
        let m = self.laws.len();
        let k = self.witnesses.len();
        let mut out = String::new();
        let mut id: usize = 0;
        while id < k
            invariant
                id <= k,
                k == self.witnesses@.len(),
                m == self.laws@.len(),
                self.wf(),
                forall|a: int, i: int|
                    0 <= a < self.witnesses@.len() && 0 <= i < self.laws@.len() ==> power(
                        (#[trigger] self.witnesses@[a]).carrier() as int,
                        (#[trigger] self.laws@[i]).nvars as nat,
                    ) <= usize::MAX,
                out@ == witness_entries(self.laws@, self.witnesses@, id as int),
            decreases k - id,
        {
            let w = &self.witnesses[id];
            let mut sat = String::new();
            let mut started = false;
            let mut i: usize = 0;
            while i < m
                invariant
                    i <= m,
                    m == self.laws@.len(),
                    self.wf(),
                    id < self.witnesses@.len(),
                    *w == self.witnesses@[id as int],
                    forall|a: int, j: int|
                        0 <= a < self.witnesses@.len() && 0 <= j < self.laws@.len() ==> power(
                            (#[trigger] self.witnesses@[a]).carrier() as int,
                            (#[trigger] self.laws@[j]).nvars as nat,
                        ) <= usize::MAX,
                    sat@ == satisfied_list(self.laws@, *w, i as int),
                    started == (sat@.len() > 0),
                decreases m - i,
            {
                proof {
                    assert(self.laws@[i as int].wf());
                    assert(power(w.carrier() as int, self.laws@[i as int].nvars as nat) <= usize::MAX);
                }
                if satisfies(w, &self.laws[i]) {
                    if started {
                        push_char(&mut sat, ' ');
                    }
                    push_decimal(&mut sat, (i + 1) as u64);
                    started = true;
                    proof {
                        assert(crate::text::pow10(20) == 100000000000000000000nat) by {
                            reveal_with_fuel(crate::text::pow10, 21);
                        }
                        crate::text::lemma_decimal_len_bound((i + 1) as nat, 20);
                    }
                }
                i = i + 1;
                assert(sat@ =~= satisfied_list(self.laws@, *w, i as int));
            }
            push_str(&mut out, "w");
            push_decimal(&mut out, id as u64);
            push_str(&mut out, ": size ");
            push_decimal(&mut out, w.size() as u64);
            push_str(&mut out, ", satisfies laws ");
            push_str(&mut out, sat.as_str());
            push_str(&mut out, "\n");
            let t = w.to_string();
            push_str(&mut out, t.as_str());
            push_str(&mut out, "\n");
            id = id + 1;
            assert(out@ =~= witness_entries(self.laws@, self.witnesses@, id as int));
        }
        out
    }
}


/// The parts, each preceded by `sep`.
pub open spec fn prefixed(parts: Seq<Seq<char>>, sep: char) -> Seq<char>
    decreases parts.len(),
{
    if parts.len() == 0 {
        Seq::empty()
    } else {
        prefixed(parts.drop_last(), sep) + seq![sep] + parts.last()
    }
}

/// The parts, separated by `sep`.
pub open spec fn joined(parts: Seq<Seq<char>>, sep: char) -> Seq<char>
    decreases parts.len(),
{
    if parts.len() == 0 {
        Seq::empty()
    } else if parts.len() == 1 {
        parts[0]
    } else {
        joined(parts.drop_last(), sep) + seq![sep] + parts.last()
    }
}

/// The parts, one after another.
pub open spec fn concat_all(parts: Seq<Seq<char>>) -> Seq<char>
    decreases parts.len(),
{
    if parts.len() == 0 {
        Seq::empty()
    } else {
        concat_all(parts.drop_last()) + parts.last()
    }
}

/// `s` between double quotes.
pub open spec fn quoted(s: Seq<char>) -> Seq<char> {
    "\""@ + s + "\""@
}

/// The numbers written in decimal.
pub open spec fn decimals(ns: Seq<nat>) -> Seq<Seq<char>> {
    ns.map_values(|n: nat| decimal(n))
}

proof fn lemma_header_fields(laws: Seq<Law>, i: int)
    requires
        0 <= i <= laws.len(),
    ensures
        csv_header_fields(laws, i) == prefixed(Seq::new(i as nat, |j: int| quoted(laws[j].text())), ','),
    decreases i,
{
    let parts = Seq::new(i as nat, |j: int| quoted(laws[j].text()));
    if i > 0 {
        lemma_header_fields(laws, i - 1);
        assert(parts.drop_last() =~= Seq::new((i - 1) as nat, |j: int| quoted(laws[j].text())));
        reveal_strlit(",\"");
        reveal_strlit("\"");
        assert(csv_header_fields(laws, i) =~= prefixed(parts.drop_last(), ',') + seq![','] + parts.last());
    }
}

proof fn lemma_row_fields(cells: Seq<Cell>, m: nat, h: int, c: int)
    requires
        0 <= c,
    ensures
        csv_row_fields(cells, m, h, c) == prefixed(Seq::new(c as nat, |k: int| cell_word(cells[h * m + k])), ','),
    decreases c,
{
    let parts = Seq::new(c as nat, |k: int| cell_word(cells[h * m + k]));
    if c > 0 {
        lemma_row_fields(cells, m, h, c - 1);
        assert(parts.drop_last() =~= Seq::new((c - 1) as nat, |k: int| cell_word(cells[h * m + k])));
        reveal_strlit(",");
        assert(csv_row_fields(cells, m, h, c) =~= prefixed(parts.drop_last(), ',') + seq![','] + parts.last());
    }
}

proof fn lemma_rows(laws: Seq<Law>, cells: Seq<Cell>, h: int, rows: Seq<Seq<Seq<char>>>)
    requires
        0 <= h <= laws.len(),
        rows.len() == laws.len(),
        forall|k: int| 0 <= k < laws.len() ==> csv_row_fields(cells, laws.len(), k, laws.len() as int) == prefixed(
            #[trigger] rows[k],
            ',',
        ),
    ensures
        csv_rows(laws, cells, h) == concat_all(
            Seq::new(h as nat, |k: int| quoted(laws[k].text()) + prefixed(rows[k], ',') + "\n"@),
        ),
    decreases h,
{
    let parts = Seq::new(h as nat, |k: int| quoted(laws[k].text()) + prefixed(rows[k], ',') + "\n"@);
    if h > 0 {
        lemma_rows(laws, cells, h - 1, rows);
        assert(parts.drop_last() =~= Seq::new(
            (h - 1) as nat,
            |k: int| quoted(laws[k].text()) + prefixed(rows[k], ',') + "\n"@,
        ));
        assert(rows[h - 1] == rows[h - 1]);
        assert(csv_row_fields(cells, laws.len(), h - 1, laws.len() as int) == prefixed(rows[h - 1], ','));
        assert(csv_rows(laws, cells, h) =~= concat_all(parts.drop_last()) + parts.last());
    }
}

/// The CSV is a header row of the quoted laws, then one row per hypothesis
/// `h`: the quoted law `h` and, for each conclusion `c`, a field that is
/// `implied` exactly when cell `(h, c)` is implied (by any proof), `open`
/// exactly when it is open, and `w<id>` when it is refuted by witness `id`.
pub proof fn lemma_csv_fields(laws: Seq<Law>, cells: Seq<Cell>) -> (rows: Seq<Seq<Seq<char>>>)
    ensures
        rows.len() == laws.len(),
        forall|h: int| 0 <= h < laws.len() ==> (#[trigger] rows[h]).len() == laws.len(),
        csv_text(laws, cells) == "\"hypothesis \\ conclusion\""@ + prefixed(
            Seq::new(laws.len(), |j: int| quoted(laws[j].text())),
            ',',
        ) + "\n"@ + concat_all(
            Seq::new(laws.len(), |k: int| quoted(laws[k].text()) + prefixed(rows[k], ',') + "\n"@),
        ),
        forall|h: int, c: int|
            0 <= h < laws.len() && 0 <= c < laws.len() ==> {
                &&& (#[trigger] rows[h][c] == "implied"@ <==> cells[h * laws.len() + c] is Implied)
                &&& (rows[h][c] == "open"@ <==> cells[h * laws.len() + c] is Open)
                &&& (cells[h * laws.len() + c] matches Cell::Refuted(id) ==> rows[h][c] == "w"@ + decimal(id as nat))
            },
{
    let m = laws.len();
    let rows = Seq::new(m, |h: int| Seq::new(m, |c: int| cell_word(cells[h * m + c])));
    assert forall|k: int| 0 <= k < m implies csv_row_fields(cells, m, k, m as int) == prefixed(#[trigger] rows[k], ',') by {
        lemma_row_fields(cells, m, k, m as int);
    }
    lemma_header_fields(laws, m as int);
    lemma_rows(laws, cells, m as int, rows);
    reveal_strlit("implied");
    reveal_strlit("open");
    reveal_strlit("w");
    assert forall|h: int, c: int| 0 <= h < m && 0 <= c < m implies {
        &&& (#[trigger] rows[h][c] == "implied"@ <==> cells[h * m + c] is Implied)
        &&& (rows[h][c] == "open"@ <==> cells[h * m + c] is Open)
        &&& (cells[h * m + c] matches Cell::Refuted(id) ==> rows[h][c] == "w"@ + decimal(id as nat))
    } by {
        let f = rows[h][c];
        assert(f == cell_word(cells[h * m + c]));
        match cells[h * m + c] {
            Cell::Implied(_) => {
                assert(f =~= "implied"@);
                assert("implied"@[0] != "open"@[0]);
            },
            Cell::Open => {
                assert(f =~= "open"@);
                assert("implied"@[0] != "open"@[0]);
            },
            Cell::Refuted(id) => {
                assert(f[0] == 'w');
                assert("implied"@[0] != 'w');
                assert("open"@[0] != 'w');
            },
        }
    }
    rows
}

/// The numbers `j + 1` of the laws `j < i` that `w` satisfies under the
/// independent checker, in increasing order, as the list shows them.
proof fn lemma_satisfied_list(laws: Seq<Law>, w: Magma, i: int) -> (ns: Seq<nat>)
    requires
        0 <= i <= laws.len(),
    ensures
        satisfied_list(laws, w, i) == joined(decimals(ns), ' '),
        forall|a: int, b: int| 0 <= a < b < ns.len() ==> ns[a] < ns[b],
        forall|a: int| 0 <= a < ns.len() ==> 1 <= #[trigger] ns[a] <= i,
        forall|j: int|
            0 <= j < i ==> (ns.contains((j + 1) as nat) <==> law_satisfied(
                #[trigger] laws[j].lhs,
                laws[j].rhs,
                laws[j].nvars as nat,
                w.carrier(),
                w.cells(),
            )),
    decreases i,
{
    if i == 0 {
        let ns = Seq::<nat>::empty();
        assert(decimals(ns) =~= Seq::<Seq<char>>::empty());
        ns
    } else {
        let prev = lemma_satisfied_list(laws, w, i - 1);
        let law = laws[i - 1];
        if law_satisfied(law.lhs, law.rhs, law.nvars as nat, w.carrier(), w.cells()) {
            let ns = prev.push(i as nat);
            assert(decimals(ns).drop_last() =~= decimals(prev));
            assert(decimals(ns).last() == decimal(i as nat));
            if prev.len() == 0 {
                assert(decimals(ns) =~= seq![decimal(i as nat)]);
            }
            assert forall|j: int| 0 <= j < i implies (ns.contains((j + 1) as nat) <==> law_satisfied(
                #[trigger] laws[j].lhs,
                laws[j].rhs,
                laws[j].nvars as nat,
                w.carrier(),
                w.cells(),
            )) by {
                if j < i - 1 {
                    if ns.contains((j + 1) as nat) {
                        let q = choose|q: int| 0 <= q < ns.len() && ns[q] == (j + 1) as nat;
                        if q < prev.len() {
                            assert(prev[q] == ns[q]);
                        }
                    }
                    if prev.contains((j + 1) as nat) {
                        let q = choose|q: int| 0 <= q < prev.len() && prev[q] == (j + 1) as nat;
                        assert(ns[q] == prev[q]);
                    }
                } else {
                    assert(ns[prev.len() as int] == i as nat);
                }
            }
            ns
        } else {
            assert forall|j: int| 0 <= j < i implies (prev.contains((j + 1) as nat) <==> law_satisfied(
                #[trigger] laws[j].lhs,
                laws[j].rhs,
                laws[j].nvars as nat,
                w.carrier(),
                w.cells(),
            )) by {
                if j == i - 1 && prev.contains(i as nat) {
                    let q = choose|q: int| 0 <= q < prev.len() && prev[q] == i as nat;
                }
            }
            prev
        }
    }
}

/// Each witness entry names the witness and its size, then lists, in
/// increasing order and separated by spaces, exactly the 1-based numbers of
/// the laws that the witness satisfies under the independent checker, then
/// gives its table.
pub proof fn lemma_witness_entry_lists_satisfied(laws: Seq<Law>, w: Magma, id: nat) -> (ns: Seq<nat>)
    ensures
        witness_entry(laws, w, id) == listed_entry(id, w, ns),
        forall|a: int, b: int| 0 <= a < b < ns.len() ==> ns[a] < ns[b],
        forall|a: int| 0 <= a < ns.len() ==> 1 <= #[trigger] ns[a] <= laws.len(),
        forall|i: int|
            0 <= i < laws.len() ==> (ns.contains((i + 1) as nat) <==> law_satisfied(
                #[trigger] laws[i].lhs,
                laws[i].rhs,
                laws[i].nvars as nat,
                w.carrier(),
                w.cells(),
            )),
{
    lemma_satisfied_list(laws, w, laws.len() as int)
}


/// The entry that names witness `id` of size `n`, lists the law numbers `ns`
/// and shows the table.
pub open spec fn listed_entry(id: nat, w: Magma, ns: Seq<nat>) -> Seq<char> {
    "w"@ + decimal(id) + ": size "@ + decimal(w.carrier()) + ", satisfies laws "@ + joined(decimals(ns), ' ') + "\n"@
        + table_text(w.carrier(), w.cells()) + "\n"@
}

proof fn lemma_entries(laws: Seq<Law>, ws: Seq<Magma>, k: int, lists: Seq<Seq<nat>>)
    requires
        0 <= k <= ws.len(),
        lists.len() == ws.len(),
        forall|id: int| 0 <= id < ws.len() ==> witness_entry(laws, ws[id], id as nat) == listed_entry(
            id as nat,
            ws[id],
            #[trigger] lists[id],
        ),
    ensures
        witness_entries(laws, ws, k) == concat_all(Seq::new(k as nat, |id: int| listed_entry(id as nat, ws[id], lists[id]))),
    decreases k,
{
    let parts = Seq::new(k as nat, |id: int| listed_entry(id as nat, ws[id], lists[id]));
    if k > 0 {
        lemma_entries(laws, ws, k - 1, lists);
        assert(parts.drop_last() =~= Seq::new((k - 1) as nat, |id: int| listed_entry(id as nat, ws[id], lists[id])));
        assert(witness_entry(laws, ws[k - 1], (k - 1) as nat) == listed_entry((k - 1) as nat, ws[k - 1], lists[k - 1]));
    }
}

/// The witness listing holds one entry per witness, in order: entry `id`
/// names `w<id>` and its size, lists in increasing order exactly the 1-based
/// numbers of the laws that witness `id` satisfies under the independent
/// checker, and shows its table.
pub proof fn lemma_witnesses_text_lists_satisfied(laws: Seq<Law>, ws: Seq<Magma>) -> (lists: Seq<Seq<nat>>)
    ensures
        lists.len() == ws.len(),
        witness_entries(laws, ws, ws.len() as int) == concat_all(
            Seq::new(ws.len(), |id: int| listed_entry(id as nat, ws[id], lists[id])),
        ),
        forall|id: int, a: int, b: int| 0 <= id < ws.len() && 0 <= a < b < lists[id].len() ==> #[trigger] lists[id][a]
            < #[trigger] lists[id][b],
        forall|id: int, i: int|
            0 <= id < ws.len() && 0 <= i < laws.len() ==> ((#[trigger] lists[id]).contains((i + 1) as nat)
                <==> law_satisfied(
                #[trigger] laws[i].lhs,
                laws[i].rhs,
                laws[i].nvars as nat,
                ws[id].carrier(),
                ws[id].cells(),
            )),
        forall|id: int, a: int| 0 <= id < ws.len() && 0 <= a < lists[id].len() ==> 1 <= #[trigger] lists[id][a] <= laws.len(),
{
    let lists = Seq::new(ws.len(), |id: int| choose|ns: Seq<nat>| #[trigger] listed_ok(laws, ws[id], id as nat, ns));
    assert forall|id: int| 0 <= id < ws.len() implies #[trigger] listed_ok(laws, ws[id], id as nat, lists[id]) by {
        let ns = lemma_witness_entry_lists_satisfied(laws, ws[id], id as nat);
        assert(listed_ok(laws, ws[id], id as nat, ns));
    }
    assert forall|id: int| 0 <= id < ws.len() implies witness_entry(laws, ws[id], id as nat) == listed_entry(
        id as nat,
        ws[id],
        #[trigger] lists[id],
    ) by {
        assert(listed_ok(laws, ws[id], id as nat, lists[id]));
    }
    assert forall|id: int, a: int, b: int| 0 <= id < ws.len() && 0 <= a < b < lists[id].len() implies #[trigger] lists[id][a]
        < #[trigger] lists[id][b] by {
        assert(listed_ok(laws, ws[id], id as nat, lists[id]));
    }
    assert forall|id: int, a: int| 0 <= id < ws.len() && 0 <= a < lists[id].len() implies 1 <= #[trigger] lists[id][a]
        <= laws.len() by {
        assert(listed_ok(laws, ws[id], id as nat, lists[id]));
    }
    assert forall|id: int, i: int| 0 <= id < ws.len() && 0 <= i < laws.len() implies ((#[trigger] lists[id]).contains(
        (i + 1) as nat,
    ) <==> law_satisfied(#[trigger] laws[i].lhs, laws[i].rhs, laws[i].nvars as nat, ws[id].carrier(), ws[id].cells())) by {
        assert(listed_ok(laws, ws[id], id as nat, lists[id]));
    }
    lemma_entries(laws, ws, ws.len() as int, lists);
    lists
}

/// `ns` is what entry `id` for `w` lists, as [`lemma_witness_entry_lists_satisfied`] states it.
spec fn listed_ok(laws: Seq<Law>, w: Magma, id: nat, ns: Seq<nat>) -> bool {
    &&& witness_entry(laws, w, id) == listed_entry(id, w, ns)
    &&& forall|a: int, b: int| 0 <= a < b < ns.len() ==> ns[a] < ns[b]
    &&& forall|a: int| 0 <= a < ns.len() ==> 1 <= #[trigger] ns[a] <= laws.len()
    &&& forall|i: int|
        0 <= i < laws.len() ==> (ns.contains((i + 1) as nat) <==> law_satisfied(
            #[trigger] laws[i].lhs,
            laws[i].rhs,
            laws[i].nvars as nat,
            w.carrier(),
            w.cells(),
        ))
}


proof fn lemma_header_cells(w: nat, b: nat)
    ensures
        crate::magma::header_cells(w, b) == prefixed(Seq::new(b, |c: int| padded(decimal(c as nat), w)), ' '),
    decreases b,
{
    let parts = Seq::new(b, |c: int| padded(decimal(c as nat), w));
    if b > 0 {
        lemma_header_cells(w, (b - 1) as nat);
        assert(parts.drop_last() =~= Seq::new((b - 1) as nat, |c: int| padded(decimal(c as nat), w)));
        assert(crate::magma::header_cells(w, b) =~= prefixed(parts.drop_last(), ' ') + seq![' '] + parts.last());
    }
}

proof fn lemma_body_cells(table: Seq<u8>, n: nat, w: nat, a: nat, b: nat)
    ensures
        crate::magma::body_cells(table, n, w, a, b) == prefixed(
            Seq::new(b, |c: int| padded(decimal(table[a * n + c] as nat), w)),
            ' ',
        ),
    decreases b,
{
    let parts = Seq::new(b, |c: int| padded(decimal(table[a * n + c] as nat), w));
    if b > 0 {
        lemma_body_cells(table, n, w, a, (b - 1) as nat);
        assert(parts.drop_last() =~= Seq::new((b - 1) as nat, |c: int| padded(decimal(table[a * n + c] as nat), w)));
        assert(crate::magma::body_cells(table, n, w, a, b) =~= prefixed(parts.drop_last(), ' ') + seq![' ']
            + parts.last());
    }
}

/// Line `a` of a printed table: the row label, then the entries of row `a`
/// in column order, each after a space and right-aligned to `w`.
pub open spec fn table_line(table: Seq<u8>, n: nat, w: nat, a: int) -> Seq<char> {
    padded(decimal(a as nat), w) + seq![' ', '|'] + prefixed(
        Seq::new(n, |b: int| padded(decimal(table[a * n + b] as nat), w)),
        ' ',
    ) + seq!['\n']
}

proof fn lemma_body_rows(table: Seq<u8>, n: nat, w: nat, a: nat)
    ensures
        crate::magma::body_rows(table, n, w, a) == concat_all(Seq::new(a, |r: int| table_line(table, n, w, r))),
    decreases a,
{
    let parts = Seq::new(a, |r: int| table_line(table, n, w, r));
    if a > 0 {
        lemma_body_rows(table, n, w, (a - 1) as nat);
        lemma_body_cells(table, n, w, (a - 1) as nat, n);
        assert(parts.drop_last() =~= Seq::new((a - 1) as nat, |r: int| table_line(table, n, w, r)));
        assert(crate::magma::body_rows(table, n, w, a) =~= concat_all(parts.drop_last()) + parts.last());
    }
}

/// A printed table is a header line with the column labels `0..n`, a rule,
/// and then, for each row `a` in order, a line with the label `a` and the
/// entries `table[a * n + b]` for `b` in column order; every field is
/// right-aligned to the width of `n - 1`.
pub proof fn lemma_table_text_lines(n: nat, table: Seq<u8>)
    ensures
        table_text(n, table) == padded(seq!['◇'], decimal((n - 1) as nat).len()) + seq![' ', '|'] + prefixed(
            Seq::new(n, |c: int| padded(decimal(c as nat), decimal((n - 1) as nat).len())),
            ' ',
        ) + seq!['\n'] + repeat_char('-', decimal((n - 1) as nat).len()) + seq!['-', '+'] + repeat_char(
            '-',
            ((decimal((n - 1) as nat).len() + 1) * n) as nat,
        ) + seq!['\n'] + concat_all(
            Seq::new(n, |a: int| table_line(table, n, decimal((n - 1) as nat).len(), a)),
        ),
{
    let w = decimal((n - 1) as nat).len();
    lemma_header_cells(w, n);
    lemma_body_rows(table, n, w, n);
    assert(table_text(n, table) =~= padded(seq!['◇'], w) + seq![' ', '|'] + prefixed(
        Seq::new(n, |c: int| padded(decimal(c as nat), w)),
        ' ',
    ) + seq!['\n'] + repeat_char('-', w) + seq!['-', '+'] + repeat_char('-', ((w + 1) * n) as nat) + seq!['\n']
        + concat_all(Seq::new(n, |a: int| table_line(table, n, w, a))));
}

} // verus!
