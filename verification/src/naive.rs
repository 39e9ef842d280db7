//! Naive enumeration of all `n^(n²)` tables, the baseline the search is
//! measured and property-tested against.

use vstd::prelude::*;
use crate::eval::{
    complete_table, digit, instance_assignment, lemma_instance_of, lemma_instance_valid, lemma_odometer_carry,
    lemma_odometer_nonneg, lemma_odometer_zero, lemma_power_pos, law_holds, odometer_value, power,
    valid_assignment, CompiledLaw,
};
use crate::law::{Law, Term};
use crate::magma::{valid_magma, Magma};
use crate::search::capped_sum;

verus! {

/// The table at position `k` of odometer order: cell `i` holds digit `i` of
/// `k` in base `n` (the first cell turns fastest).
pub open spec fn odometer_table(k: int, n: nat) -> Seq<u8> {
    instance_assignment(k, n * n, n as int)
}

/// Number of tables of size `n`: `n^(n²)`.
pub open spec fn tables_of(n: nat) -> int {
    power(n as int, n * n)
}

/// With every digit at its largest, the odometer is at its last position.
pub proof fn lemma_odometer_last(s: Seq<u8>, n: int)
    requires
        n >= 1,
        forall|j: int| 0 <= j < s.len() ==> #[trigger] s[j] == n - 1,
    ensures
        odometer_value(s, n) == power(n, s.len()) - 1,
    decreases s.len(),
{
    if s.len() > 0 {
        let r = s.drop_first();
        assert forall|j: int| 0 <= j < r.len() implies #[trigger] r[j] == n - 1 by {
            assert(r[j] == s[j + 1]);
        }
        lemma_odometer_last(r, n);
        let p = power(n, r.len());
        assert(power(n, s.len()) == n * p);
        assert(s[0] == n - 1);
        assert((n - 1) + n * (p - 1) == n * p - 1) by (nonlinear_arith);
    }
}

/// Moves `table` to the next table in odometer order. Returns `false`, with
/// every cell back at 0, when `table` was the last one.
fn next_table(table: &mut Vec<u8>, n: usize) -> (more: bool)
    requires
        1 <= n <= 255,
        valid_assignment(old(table)@, old(table)@.len() as int, n as int),
    ensures
        final(table)@.len() == old(table)@.len(),
        valid_assignment(final(table)@, final(table)@.len() as int, n as int),
        more ==> odometer_value(final(table)@, n as int) == odometer_value(old(table)@, n as int) + 1,
        !more ==> odometer_value(old(table)@, n as int) == power(n as int, old(table)@.len()) - 1 && forall|i: int|
            0 <= i < final(table)@.len() ==> #[trigger] final(table)@[i] == 0,
{
    let ghost orig = table@;
    let len = table.len();
    let mut i: usize = 0;
    while i < len && table[i] as usize == n - 1
        invariant
            i <= len,
            len == table@.len(),
            orig.len() == len,
            1 <= n <= 255,
            valid_assignment(orig, len as int, n as int),
            forall|j: int| 0 <= j < i ==> #[trigger] orig[j] == n - 1,
            forall|j: int| 0 <= j < i ==> #[trigger] table@[j] == 0,
            forall|j: int| i <= j < len ==> #[trigger] table@[j] == orig[j],
        decreases len - i,
    {
        table.set(i, 0);
        i = i + 1;
    }
    if i == len {
        proof {
            lemma_odometer_last(orig, n as int);
        }
        false
    } else {
        let v = table[i] + 1;
        table.set(i, v);
        proof {
            assert forall|j: int| 0 <= j < i implies #[trigger] orig[j] == n - 1 && table@[j] == 0 by {
                assert(orig[j] == n - 1);
                assert(table@[j] == 0);
            }
            assert forall|j: int| 0 <= j < table@.len() implies #[trigger] table@[j] < n by {
                if j < i {
                    assert(table@[j] == 0);
                } else if j > i {
                    assert(table@[j] == orig[j]);
                }
            }
            lemma_odometer_carry(orig, table@, i as int, n as int);
        }
        true
    }
}

/// A call of a visitor like `F` on table `k` of odometer order may return `r`.
pub open spec fn visit_gave<F: FnMut(&[u8]) -> bool>(k: int, n: nat, r: bool) -> bool {
    exists|f: F, t: &[u8]| t@ == odometer_table(k, n) && #[trigger] call_ensures(f, (t,), r)
}

/// `rets` holds what each of `visited` visits returned: each visit got the
/// next table of odometer order, every visit but the last returned `true`, and
/// the last returned `false` unless the limit or the last table was reached.
pub open spec fn visits_made<F: FnMut(&[u8]) -> bool>(rets: Seq<bool>, visited: int, limit: int, n: nat) -> bool {
    &&& rets.len() == visited
    &&& forall|k: int| 0 <= k < visited ==> visit_gave::<F>(k, n, #[trigger] rets[k])
    &&& forall|k: int| 0 <= k < visited - 1 ==> #[trigger] rets[k]
    &&& (visited < limit && visited < tables_of(n)) ==> !rets[visited - 1]
}

/// Visits complete tables in odometer order, at most `limit` of them,
/// stopping after the first visit that returns `false`. Returns the number
/// of tables visited.
pub fn for_each_table<F: FnMut(&[u8]) -> bool>(n: usize, limit: u64, visit: &mut F) -> (visited: u64)
    requires
        n <= 255,
        forall|f: F, t: &[u8]| #[trigger] call_requires(f, (t,)),
    ensures
        visited <= limit,
        visited <= tables_of(n as nat),
        limit > 0 ==> visited >= 1,
        exists|rets: Seq<bool>| #[trigger] visits_made::<F>(rets, visited as int, limit as int, n as nat),
{
    proof {
        assert(n * n <= 65025) by (nonlinear_arith)
            requires
                n <= 255,
        ;
    }
    let mut table: Vec<u8> = vec![0u8; n * n];
    let mut visited: u64 = 0;
    let ghost mut before = *visit;
    let ghost mut rets: Seq<bool> = Seq::empty();
    proof {
        lemma_power_pos_or_zero(n as int, (n * n) as nat);
        if n >= 1 {
            lemma_odometer_zero(table@, n as int);
        }
    }
    while visited < limit
        invariant
            n <= 255,
            forall|f: F, t: &[u8]| #[trigger] call_requires(f, (t,)),
            table@.len() == n * n,
            n >= 1 ==> valid_assignment(table@, (n * n) as int, n as int),
            n >= 1 ==> odometer_value(table@, n as int) == visited,
            n == 0 ==> visited == 0,
            visited <= limit,
            visited < tables_of(n as nat),
            rets.len() == visited,
            forall|k: int| 0 <= k < visited ==> visit_gave::<F>(k, n as nat, #[trigger] rets[k]),
            forall|k: int| 0 <= k < visited ==> #[trigger] rets[k],
        decreases limit - visited,
    {
        let ghost k = visited as int;
        proof {
            before = *visit;
            if n >= 1 {
                lemma_instance_of(table@, (n * n) as nat, n as int);
            } else {
                assert(table@ =~= odometer_table(0, 0));
            }
        }
        visited = visited + 1;
        let sl = table.as_slice();
        let go = visit(sl);
        proof {
            assert(call_ensures(before, (sl,), go));
            assert(visit_gave::<F>(k, n as nat, go));
            rets = rets.push(go);
            assert forall|j: int| 0 <= j < visited implies visit_gave::<F>(j, n as nat, #[trigger] rets[j]) by {
                if j < k {
                    assert(rets[j] == rets.drop_last()[j]);
                }
            }
        }
        if !go {
            proof {
                lemma_power_pos_or_zero(n as int, (n * n) as nat);
                assert forall|j: int| 0 <= j < visited - 1 implies #[trigger] rets[j] by {
                    assert(rets[j] == rets.drop_last()[j]);
                }
                assert(visits_made::<F>(rets, visited as int, limit as int, n as nat));
            }
            return visited;
        }
        proof {
            assert forall|j: int| 0 <= j < visited implies #[trigger] rets[j] by {
                if j < k {
                    assert(rets[j] == rets.drop_last()[j]);
                }
            }
        }
        if n == 0 {
            proof {
                assert(tables_of(0) == 1);
                assert(visits_made::<F>(rets, visited as int, limit as int, n as nat));
            }
            return visited;
        }
        let ghost pre = table@;
        if !next_table(&mut table, n) {
            proof {
                assert(visited == tables_of(n as nat));
                assert(visits_made::<F>(rets, visited as int, limit as int, n as nat));
            }
            return visited;
        }
        proof {
            crate::eval::lemma_odometer_bound(table@, n as int);
        }
    }
    proof {
        assert(visits_made::<F>(rets, visited as int, limit as int, n as nat));
    }
    visited
}

proof fn lemma_power_pos_or_zero(n: int, e: nat)
    requires
        n >= 0,
    ensures
        power(n, e) >= 0,
        n >= 1 ==> power(n, e) >= 1,
        e == 0 ==> power(n, e) == 1,
    decreases e,
{
    if e > 0 {
        lemma_power_pos_or_zero(n, (e - 1) as nat);
        assert(n * power(n, (e - 1) as nat) >= 0) by (nonlinear_arith)
            requires
                n >= 0,
                power(n, (e - 1) as nat) >= 0,
        ;
        if n >= 1 {
            lemma_power_pos(n, e);
        }
    }
}

/// `x`, or `u64::MAX` when `x` is larger.
pub open spec fn capped(x: int) -> int {
    if x > u64::MAX { u64::MAX as int } else { x }
}

/// Total number of tables of size `n`, saturating at `u64::MAX`; the exponent
/// `n²` is taken as a `u32`.
pub fn table_count(n: usize) -> (count: u64)
    requires
        n * n <= usize::MAX,
    ensures
        count == capped(power(n as int, ((n * n) as u32) as nat)),
{
    let e: u32 = (n * n) as u32;
    let b: u64 = n as u64;
    let mut acc: u64 = 1;
    let mut i: u32 = 0;
    while i < e
        invariant
            i <= e,
            e == ((n * n) as u32),
            b == n,
            acc == power(n as int, i as nat),
            acc <= u64::MAX,
        decreases e - i,
    {
        proof {
            assert(power(n as int, (i + 1) as nat) == n * power(n as int, i as nat));
        }
        match acc.checked_mul(b) {
            Some(v) => {
                acc = v;
            },
            None => {
                proof {
                    assert(acc * b > u64::MAX);
                    lemma_power_grows(n as int, (i + 1) as nat, e as nat);
                    assert(power(n as int, e as nat) > u64::MAX);
                    assert(e == ((n * n) as u32));
                }
                return u64::MAX;
            },
        }
        i = i + 1;
    }
    acc
}

/// Powers of `n >= 1` do not shrink; powers of 0 past the first are 0.
proof fn lemma_power_grows(n: int, e: nat, f: nat)
    requires
        n >= 0,
        e <= f,
        power(n, e) > u64::MAX,
    ensures
        power(n, f) > u64::MAX,
    decreases f - e,
{
    if e < f {
        lemma_power_pos_or_zero(n, e);
        assert(power(n, (e + 1) as nat) == n * power(n, e));
        if n == 0 {
            assert(power(n, (e + 1) as nat) == 0);
            assert(e >= 1 ==> power(n, e) == 0) by {
                if e >= 1 {
                    assert(power(n, e) == n * power(n, (e - 1) as nat));
                }
            }
        }
        assert(n * power(n, e) >= power(n, e)) by (nonlinear_arith)
            requires
                n >= 1,
                power(n, e) >= 0,
        ;
        lemma_power_grows(n, (e + 1) as nat, f);
    }
}

/// Number of models of `lhs = rhs` among the first `k` tables of size `n`.
pub open spec fn models_before(lhs: Term, rhs: Term, kv: int, n: nat, k: int) -> nat
    decreases k,
{
    if k <= 0 {
        0
    } else {
        models_before(lhs, rhs, kv, n, k - 1) + if law_holds(lhs, rhs, kv, n as int, odometer_table(k - 1, n)) {
            1nat
        } else {
            0nat
        }
    }
}

/// Counts labelled models of `law` of size `n` by checking every table (at
/// most `u64::MAX` of them).
pub fn count_models(law: &Law, n: usize) -> (count: u64)
    requires
        law.wf(),
        1 <= n <= 255,
    ensures
        count == models_before(law.lhs, law.rhs, law.nvars as int, n as nat, capped(tables_of(n as nat))),
{
    let c = CompiledLaw::new(law);
    proof {
        assert(n * n <= 65025) by (nonlinear_arith)
            requires
                n <= 255,
        ;
        lemma_power_pos_or_zero(n as int, (n * n) as nat);
    }
    let mut table: Vec<u8> = vec![0u8; n * n];
    let mut visited: u64 = 0;
    let mut count: u64 = 0;
    proof {
        lemma_odometer_zero(table@, n as int);
    }
    while visited < u64::MAX
        invariant
            1 <= n <= 255,
            c.lhs.term() == law.lhs,
            c.rhs.term() == law.rhs,
            c.nvars == law.nvars,
            c.wf(),
            table@.len() == n * n,
            valid_assignment(table@, (n * n) as int, n as int),
            odometer_value(table@, n as int) == visited,
            visited < tables_of(n as nat),
            count == models_before(law.lhs, law.rhs, law.nvars as int, n as nat, visited as int),
            count <= visited,
        decreases u64::MAX - visited,
    {
        proof {
            lemma_instance_of(table@, (n * n) as nat, n as int);
        }
        if c.holds_in(n, table.as_slice()) {
            count = count + 1;
        }
        visited = visited + 1;
        if !next_table(&mut table, n) {
            return count;
        }
        proof {
            crate::eval::lemma_odometer_bound(table@, n as int);
        }
    }
    count
}

/// The table `k` of size `n` satisfies `h` and violates `c`.
pub open spec fn refutes_at(h: Law, c: Law, n: nat, k: int) -> bool {
    &&& law_holds(h.lhs, h.rhs, h.nvars as int, n as int, odometer_table(k, n))
    &&& !law_holds(c.lhs, c.rhs, c.nvars as int, n as int, odometer_table(k, n))
}

/// First table of size `n` (odometer order) that satisfies `hypothesis` and
/// violates `conclusion`, together with the number of tables examined.
pub fn find_counterexample(hypothesis: &Law, conclusion: &Law, n: usize) -> (r: (Option<Magma>, u64))
    requires
        hypothesis.wf(),
        conclusion.wf(),
        1 <= n <= 255,
    ensures
        1 <= r.1 <= capped(tables_of(n as nat)),
        forall|k: int| 0 <= k < r.1 - 1 ==> !#[trigger] refutes_at(*hypothesis, *conclusion, n as nat, k),
        match r.0 {
            Some(m) => refutes_at(*hypothesis, *conclusion, n as nat, r.1 - 1) && m.carrier() == n && m.cells()
                == odometer_table(r.1 - 1, n as nat),
            None => r.1 == capped(tables_of(n as nat)) && !refutes_at(*hypothesis, *conclusion, n as nat, r.1 - 1),
        },
        r.1 == examined(*hypothesis, *conclusion, n as nat),
{
    let h = CompiledLaw::new(hypothesis);
    let c = CompiledLaw::new(conclusion);
    proof {
        assert(n * n <= 65025) by (nonlinear_arith)
            requires
                n <= 255,
        ;
        lemma_power_pos_or_zero(n as int, (n * n) as nat);
    }
    let mut table: Vec<u8> = vec![0u8; n * n];
    let mut visited: u64 = 0;
    proof {
        lemma_odometer_zero(table@, n as int);
    }
    loop
        invariant
            1 <= n <= 255,
            h.lhs.term() == hypothesis.lhs,
            h.rhs.term() == hypothesis.rhs,
            h.nvars == hypothesis.nvars,
            h.wf(),
            c.lhs.term() == conclusion.lhs,
            c.rhs.term() == conclusion.rhs,
            c.nvars == conclusion.nvars,
            c.wf(),
            n * n <= 65025,
            table@.len() == n * n,
            valid_assignment(table@, (n * n) as int, n as int),
            odometer_value(table@, n as int) == visited,
            visited < tables_of(n as nat),
            visited < u64::MAX,
            forall|k: int| 0 <= k < visited ==> !#[trigger] refutes_at(*hypothesis, *conclusion, n as nat, k),
        decreases u64::MAX - visited,
    {
        proof {
            lemma_instance_of(table@, (n * n) as nat, n as int);
        }
        let ghost k = visited as int;
        visited = visited + 1;
        if h.holds_in(n, table.as_slice()) && !c.holds_in(n, table.as_slice()) {
            let m = match Magma::new(n, table) {
                Ok(m) => m,
                Err(_) => {
                    proof {
                        assert(valid_magma(n as nat, odometer_table(k, n as nat)));
                    }
                    return (None, visited);
                },
            };
            proof {
                lemma_examined(*hypothesis, *conclusion, n as nat, 0, visited as int);
            }
            return (Some(m), visited);
        }
        if visited == u64::MAX {
            proof {
                lemma_examined(*hypothesis, *conclusion, n as nat, 0, visited as int);
            }
            return (None, visited);
        }
        if !next_table(&mut table, n) {
            proof {
                lemma_examined(*hypothesis, *conclusion, n as nat, 0, visited as int);
            }
            return (None, visited);
        }
        proof {
            crate::eval::lemma_odometer_bound(table@, n as int);
        }
    }
}

/// Tables examined at size `n` from table `k` on: up to and including the
/// first that satisfies `h` and violates `c`, or all of them.
pub open spec fn examined_from(h: Law, c: Law, n: nat, k: int) -> int
    decreases capped(tables_of(n)) - k,
{
    if k < 0 || k >= capped(tables_of(n)) {
        if k < 0 { 0 } else { k }
    } else if refutes_at(h, c, n, k) {
        k + 1
    } else {
        examined_from(h, c, n, k + 1)
    }
}

/// Tables the enumeration examines at size `n`.
pub open spec fn examined(h: Law, c: Law, n: nat) -> int {
    examined_from(h, c, n, 0)
}

proof fn lemma_examined(h: Law, c: Law, n: nat, i: int, e: int)
    requires
        0 <= i <= e,
        1 <= e <= capped(tables_of(n)),
        forall|j: int| i <= j < e - 1 ==> !#[trigger] refutes_at(h, c, n, j),
        e < capped(tables_of(n)) ==> refutes_at(h, c, n, e - 1),
    ensures
        i <= e - 1 ==> examined_from(h, c, n, i) == e,
    decreases e - i,
{
    if i < e - 1 {
        assert(!refutes_at(h, c, n, i));
        lemma_examined(h, c, n, i + 1, e);
    } else if i == e - 1 {
        if !refutes_at(h, c, n, i) {
            assert(e == capped(tables_of(n)));
            assert(examined_from(h, c, n, i + 1) == e);
        }
    }
}

/// Tables the enumeration examines at each size `1..=m`.
pub open spec fn examined_sizes(h: Law, c: Law, m: int) -> Seq<int> {
    Seq::new(m as nat, |i: int| examined(h, c, (i + 1) as nat))
}

/// Naive refutation over sizes `1..=max_size`: the smallest size with a
/// counterexample and its first table in odometer order, with the total
/// number of tables examined (saturating).
pub fn refute(hypothesis: &Law, conclusion: &Law, max_size: usize) -> (r: (Option<Magma>, u64))
    requires
        hypothesis.wf(),
        conclusion.wf(),
        max_size <= 255 || exists|n: int, k: int|
            1 <= n <= 255 && 0 <= k < capped(tables_of(n as nat)) && #[trigger] refutes_at(
                *hypothesis,
                *conclusion,
                n as nat,
                k,
            ),
    ensures
        r.1 == capped_sum(examined_sizes(*hypothesis, *conclusion, if r.0 is Some { r.0->0.carrier() as int } else { max_size as int })),
        match r.0 {
            Some(m) => {
                &&& 1 <= m.carrier() <= max_size
                &&& exists|k: int|
                    0 <= k < capped(tables_of(m.carrier())) && #[trigger] refutes_at(*hypothesis, *conclusion, m.carrier(), k)
                        && m.cells() == odometer_table(k, m.carrier()) && forall|j: int| 0 <= j < k ==> !refutes_at(
                        *hypothesis,
                        *conclusion,
                        m.carrier(),
                        j,
                    )
                &&& forall|n: int, k: int|
                    1 <= n < m.carrier() && 0 <= k < capped(tables_of(n as nat)) ==> !#[trigger] refutes_at(
                        *hypothesis,
                        *conclusion,
                        n as nat,
                        k,
                    )
            },
            None => forall|n: int, k: int|
                1 <= n <= max_size && 0 <= k < capped(tables_of(n as nat)) ==> !#[trigger] refutes_at(
                    *hypothesis,
                    *conclusion,
                    n as nat,
                    k,
                ),
        },
{
    let mut total: u64 = 0;
    let mut n: usize = 1;
    while n <= max_size
        invariant
            1 <= n <= max_size + 1,
            max_size <= 255 || exists|n: int, k: int|
                1 <= n <= 255 && 0 <= k < capped(tables_of(n as nat)) && #[trigger] refutes_at(
                    *hypothesis,
                    *conclusion,
                    n as nat,
                    k,
                ),
            total == capped_sum(examined_sizes(*hypothesis, *conclusion, n - 1)),
            hypothesis.wf(),
            conclusion.wf(),
            forall|s: int, k: int|
                1 <= s < n && 0 <= k < capped(tables_of(s as nat)) ==> !#[trigger] refutes_at(
                    *hypothesis,
                    *conclusion,
                    s as nat,
                    k,
                ),
        decreases max_size + 1 - n,
    {
        assert(n <= 255) by {
            if n > 255 {
                let (a, b) = choose|a: int, b: int|
                    1 <= a <= 255 && 0 <= b < capped(tables_of(a as nat)) && #[trigger] refutes_at(
                        *hypothesis,
                        *conclusion,
                        a as nat,
                        b,
                    );
                assert(!refutes_at(*hypothesis, *conclusion, a as nat, b));
            }
        }
        let (found, visited) = find_counterexample(hypothesis, conclusion, n);
        proof {
            let prev = examined_sizes(*hypothesis, *conclusion, n - 1);
            let next = examined_sizes(*hypothesis, *conclusion, n as int);
            assert(next.drop_last() =~= prev);
            assert(next.last() == visited);
        }
        total = total.saturating_add(visited);
        match found {
            Some(m) => {
                return (Some(m), total);
            },
            None => {
                proof {
                    assert forall|s: int, k: int|
                        1 <= s < n + 1 && 0 <= k < capped(tables_of(s as nat)) implies !#[trigger] refutes_at(
                        *hypothesis,
                        *conclusion,
                        s as nat,
                        k,
                    ) by {
                        if s == n {
                            assert(0 <= k < visited);
                        }
                    }
                }
            },
        }
        n = n + 1;
    }
    (None, total)
}

} // verus!
