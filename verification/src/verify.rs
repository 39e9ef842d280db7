//! Independent brute-force checker.
//!
//! It shares no code with the compiled evaluator or the search: it walks the
//! term tree recursively and enumerates assignments by decoding a counter.
//! The two evaluators are proved to agree on complete tables.

use vstd::prelude::*;
use crate::eval::{complete_table, digit, law_holds, partial_value, power, status_of, valid_assignment, Status};
use crate::law::{Law, Term};
use crate::magma::{lemma_cell_index, valid_magma, Magma};
use crate::text::{decimal, push_decimal, push_str};

verus! {

/// Value of `t` in the magma with table `table` of size `n`, when variable `v`
/// takes the value `values[v]`.
pub open spec fn term_value(t: Term, n: nat, table: Seq<u8>, values: Seq<usize>) -> nat
    decreases t,
{
    match t {
        Term::Var(v) => values[v as int] as nat,
        Term::Op(l, r) => {
            let x = term_value(*l, n, table, values);
            let y = term_value(*r, n, table, values);
            table[(x * n + y) as int] as nat
        },
    }
}

/// `values` assigns each of `k` variables an element of `0..n`.
pub open spec fn valid_values(values: Seq<usize>, k: nat, n: nat) -> bool {
    &&& values.len() == k
    &&& forall|i: int| 0 <= i < values.len() ==> #[trigger] values[i] < n
}

/// The two sides differ under `values`.
pub open spec fn violated_at(lhs: Term, rhs: Term, n: nat, table: Seq<u8>, values: Seq<usize>) -> bool {
    term_value(lhs, n, table, values) != term_value(rhs, n, table, values)
}

/// The table satisfies `lhs = rhs` for every assignment of its `k` variables.
pub open spec fn law_satisfied(lhs: Term, rhs: Term, k: nat, n: nat, table: Seq<u8>) -> bool {
    forall|values: Seq<usize>|
        valid_values(values, k, n) ==> !#[trigger] violated_at(lhs, rhs, n, table, values)
}

/// Position of an assignment in counter order (the first variable turns fastest).
pub open spec fn counter_position(values: Seq<usize>, n: nat) -> int
    decreases values.len(),
{
    if values.len() == 0 {
        0
    } else {
        values[0] + n * counter_position(values.drop_first(), n)
    }
}

/// The assignment at position `code` of the counter.
pub open spec fn counter_values(code: int, k: nat, n: nat) -> Seq<usize> {
    Seq::new(k, |j: int| digit(code, j as nat, n as int) as usize)
}

/// The law is violated at `values`, and at no assignment earlier in counter order.
pub open spec fn first_violation(lhs: Term, rhs: Term, k: nat, n: nat, table: Seq<u8>, values: Seq<usize>) -> bool {
    &&& valid_values(values, k, n)
    &&& violated_at(lhs, rhs, n, table, values)
    &&& forall|w: Seq<usize>|
        valid_values(w, k, n) && counter_position(w, n) < counter_position(values, n)
            ==> !#[trigger] violated_at(lhs, rhs, n, table, w)
}

/// Debug notation of a list of numbers, e.g. `[0, 1, 1]`.
pub open spec fn list_text(values: Seq<usize>) -> Seq<char> {
    seq!['['] + list_items(values) + seq![']']
}

/// The numbers separated by `, `.
pub open spec fn list_items(values: Seq<usize>) -> Seq<char>
    decreases values.len(),
{
    if values.len() == 0 {
        Seq::empty()
    } else if values.len() == 1 {
        decimal(values[0] as nat)
    } else {
        list_items(values.drop_last()) + seq![',', ' '] + decimal(values.last() as nat)
    }
}

proof fn lemma_counter_nonneg(values: Seq<usize>, n: nat)
    ensures
        counter_position(values, n) >= 0,
    decreases values.len(),
{
    if values.len() > 0 {
        lemma_counter_nonneg(values.drop_first(), n);
        assert(n * counter_position(values.drop_first(), n) >= 0) by (nonlinear_arith)
            requires
                counter_position(values.drop_first(), n) >= 0,
        ;
    }
}

proof fn lemma_power_pos(n: int, e: nat)
    requires
        n >= 1,
    ensures
        power(n, e) >= 1,
    decreases e,
{
    if e > 0 {
        lemma_power_pos(n, (e - 1) as nat);
        assert(n * power(n, (e - 1) as nat) >= 1) by (nonlinear_arith)
            requires
                n >= 1,
                power(n, (e - 1) as nat) >= 1,
        ;
    }
}

/// Every assignment has a position below `n^k`, and decoding the position
/// gives the assignment back.
proof fn lemma_counter_roundtrip(values: Seq<usize>, k: nat, n: nat)
    requires
        n >= 1,
        valid_values(values, k, n),
    ensures
        0 <= counter_position(values, n) < power(n as int, k),
        counter_values(counter_position(values, n), k, n) == values,
    decreases k,
{
    lemma_counter_nonneg(values, n);
    if k > 0 {
        let r = values.drop_first();
        assert(valid_values(r, (k - 1) as nat, n)) by {
            assert forall|i: int| 0 <= i < r.len() implies #[trigger] r[i] < n by {
                assert(r[i] == values[i + 1]);
            }
        }
        lemma_counter_roundtrip(r, (k - 1) as nat, n);
        lemma_counter_nonneg(r, n);
        let x = counter_position(values, n);
        let v = counter_position(r, n);
        assert(values[0] < n);
        assert(x < n * power(n as int, (k - 1) as nat)) by (nonlinear_arith)
            requires
                x == values[0] + n * v,
                0 <= values[0] < n,
                0 <= v < power(n as int, (k - 1) as nat),
        ;
        assert(x == v * n + values[0]) by (nonlinear_arith)
            requires
                x == values[0] + n * v,
        ;
        vstd::arithmetic::div_mod::lemma_fundamental_div_mod_converse(x, n as int, v, values[0] as int);
        assert(counter_values(x, k, n) =~= values) by {
            assert forall|j: int| 0 <= j < k implies counter_values(x, k, n)[j] == values[j] by {
                if j == 0 {
                    assert(power(n as int, 0) == 1);
                    assert(x / 1 == x);
                } else {
                    lemma_power_pos(n as int, (j - 1) as nat);
                    vstd::arithmetic::div_mod::lemma_div_denominator(
                        x,
                        n as int,
                        power(n as int, (j - 1) as nat),
                    );
                    assert(power(n as int, j as nat) == n * power(n as int, (j - 1) as nat));
                    assert(counter_values(v, (k - 1) as nat, n)[j - 1] == r[j - 1]);
                    assert(r[j - 1] == values[j]);
                }
            }
        }
    } else {
        assert(counter_values(0, 0, n) =~= values);
    }
}

/// Distinct assignments have distinct positions.
proof fn lemma_counter_injective(a: Seq<usize>, b: Seq<usize>, k: nat, n: nat)
    requires
        n >= 1,
        valid_values(a, k, n),
        valid_values(b, k, n),
        counter_position(a, n) == counter_position(b, n),
    ensures
        a == b,
{
    lemma_counter_roundtrip(a, k, n);
    lemma_counter_roundtrip(b, k, n);
}

/// Decoded positions are valid assignments.
proof fn lemma_counter_values_valid(code: int, k: nat, n: nat)
    requires
        n >= 1,
        n <= usize::MAX,
        code >= 0,
    ensures
        valid_values(counter_values(code, k, n), k, n),
        forall|j: int| 0 <= j < k ==> 0 <= #[trigger] digit(code, j as nat, n as int) < n,
        0 <= code < power(n as int, k) ==> counter_position(counter_values(code, k, n), n) == code,
{
    assert forall|j: int| 0 <= j < k implies 0 <= #[trigger] digit(code, j as nat, n as int) < n by {
        lemma_power_pos(n as int, j as nat);
        vstd::arithmetic::div_mod::lemma_div_pos_is_pos(code, power(n as int, j as nat));
        vstd::arithmetic::div_mod::lemma_mod_pos_bound(code / power(n as int, j as nat), n as int);
    }
    if 0 <= code < power(n as int, k) {
        lemma_counter_position_digits(code, k, n);
    }
}

proof fn lemma_counter_position_digits(code: int, k: nat, n: nat)
    requires
        n >= 1,
        n <= usize::MAX,
        0 <= code < power(n as int, k),
    ensures
        counter_position(counter_values(code, k, n), n) == code,
    decreases k,
{
    let s = counter_values(code, k, n);
    if k == 0 {
        assert(power(n as int, 0) == 1);
    } else {
        let q = code / (n as int);
        let p = power(n as int, (k - 1) as nat);
        lemma_power_pos(n as int, (k - 1) as nat);
        vstd::arithmetic::div_mod::lemma_fundamental_div_mod(code, n as int);
        assert(q < p) by (nonlinear_arith)
            requires
                code == n * q + code % (n as int),
                0 <= code % (n as int),
                code < n * p,
                n >= 1,
        ;
        vstd::arithmetic::div_mod::lemma_div_pos_is_pos(code, n as int);
        lemma_counter_position_digits(q, (k - 1) as nat, n);
        assert(s.drop_first() =~= counter_values(q, (k - 1) as nat, n)) by {
            assert forall|j: int| 0 <= j < k - 1 implies s.drop_first()[j] == counter_values(
                q,
                (k - 1) as nat,
                n,
            )[j] by {
                lemma_power_pos(n as int, j as nat);
                vstd::arithmetic::div_mod::lemma_div_denominator(code, n as int, power(n as int, j as nat));
                assert(power(n as int, (j + 1) as nat) == n * power(n as int, j as nat));
            }
        }
        assert(power(n as int, 0) == 1);
        assert(code / 1 == code);
        vstd::arithmetic::div_mod::lemma_mod_pos_bound(code, n as int);
        assert(s[0] == code % (n as int));
    }
}

/// The independent evaluator and the compiled one compute the same value on
/// a complete table.
pub proof fn lemma_values_agree(t: Term, n: nat, table: Seq<u8>, a: Seq<u8>, values: Seq<usize>)
    requires
        complete_table(table, n as int),
        a.len() == values.len(),
        forall|i: int| 0 <= i < a.len() ==> #[trigger] a[i] == values[i] && a[i] < n,
        t.vars_below(a.len() as int),
    ensures
        partial_value(t, n as int, table, a) == Ok::<u8, usize>(term_value(t, n, table, values) as u8),
        term_value(t, n, table, values) < n,
    decreases t,
{
    match t {
        Term::Var(v) => {},
        Term::Op(l, r) => {
            lemma_values_agree(*l, n, table, a, values);
            lemma_values_agree(*r, n, table, a, values);
            let x = term_value(*l, n, table, values);
            let y = term_value(*r, n, table, values);
            lemma_cell_index(x as int, y as int, n as int);
        },
    }
}

/// The brute-force checker and the compiled evaluator agree: on a complete
/// table, a law holds for every assignment in one exactly when it does in the other.
pub proof fn lemma_holds_iff_satisfied(lhs: Term, rhs: Term, k: nat, n: nat, table: Seq<u8>)
    requires
        complete_table(table, n as int),
        lhs.vars_below(k as int),
        rhs.vars_below(k as int),
    ensures
        law_holds(lhs, rhs, k as int, n as int, table) <==> law_satisfied(lhs, rhs, k, n, table),
{
    if law_holds(lhs, rhs, k as int, n as int, table) {
        assert forall|values: Seq<usize>| valid_values(values, k, n) implies !#[trigger] violated_at(
            lhs,
            rhs,
            n,
            table,
            values,
        ) by {
            let a = Seq::new(values.len(), |i: int| values[i] as u8);
            assert(valid_assignment(a, k as int, n as int));
            lemma_values_agree(lhs, n, table, a, values);
            lemma_values_agree(rhs, n, table, a, values);
            assert(status_of(lhs, rhs, n as int, table, a) == Status::Holds);
        }
    }
    if law_satisfied(lhs, rhs, k, n, table) {
        assert forall|a: Seq<u8>| valid_assignment(a, k as int, n as int) implies #[trigger] status_of(
            lhs,
            rhs,
            n as int,
            table,
            a,
        ) == Status::Holds by {
            let values = Seq::new(a.len(), |i: int| a[i] as usize);
            assert(valid_values(values, k, n));
            lemma_values_agree(lhs, n, table, a, values);
            lemma_values_agree(rhs, n, table, a, values);
            assert(!violated_at(lhs, rhs, n, table, values));
        }
    }
}

fn eval(term: &Term, m: &Magma, values: &[usize]) -> (r: usize)
    requires
        valid_magma(m.carrier(), m.cells()),
        term.vars_below(values@.len() as int),
        forall|i: int| 0 <= i < values@.len() ==> #[trigger] values@[i] < m.carrier(),
    ensures
        r == term_value(*term, m.carrier(), m.cells(), values@),
        r < m.carrier(),
    decreases term,
{
    match term {
        Term::Var(v) => values[*v as usize],
        Term::Op(l, r) => {
            let a = eval(l, m, values);
            let b = eval(r, m, values);
            m.op(a, b)
        },
    }
}

/// Returns the first assignment, in counter order (first variable turning
/// fastest), under which the two sides differ in `m`, or `None` if `m`
/// satisfies the law.
pub fn find_violation(law: &Law, m: &Magma) -> (r: Option<Vec<usize>>)
    requires
        law.wf(),
        power(m.carrier() as int, law.nvars as nat) <= usize::MAX,
    ensures
        match r {
            Some(values) => first_violation(law.lhs, law.rhs, law.nvars as nat, m.carrier(), m.cells(), values@),
            None => law_satisfied(law.lhs, law.rhs, law.nvars as nat, m.carrier(), m.cells()),
        },
{
    let n = m.size();
    let k = law.nvars;
    let ghost nn = n as nat;
    let mut total: usize = 1;
    let mut i: usize = 0;
    while i < k
        invariant
            i <= k,
            n >= 1,
            total == power(n as int, i as nat),
            power(n as int, k as nat) <= usize::MAX,
        decreases k - i,
    {
        proof {
            lemma_power_pos(n as int, i as nat);
            assert(power(n as int, (i + 1) as nat) == n * power(n as int, i as nat));
            lemma_power_mono(n as int, (i + 1) as nat, k as nat);
        }
        total = total * n;
        i = i + 1;
    }
    let mut values: Vec<usize> = vec![0usize; k];
    let mut code: usize = 0;
    while code < total
        invariant
            n == m.carrier(),
            n >= 1,
            nn == n,
            valid_magma(m.carrier(), m.cells()),
            law.wf(),
            k == law.nvars,
            total == power(n as int, k as nat),
            code <= total,
            values@.len() == k,
            forall|c: int| 0 <= c < code ==> !#[trigger] violated_at(
                law.lhs,
                law.rhs,
                nn,
                m.cells(),
                counter_values(c, k as nat, nn),
            ),
        decreases total - code,
    {
        let mut rest = code;
        let mut j: usize = 0;
        while j < k
            invariant
                j <= k,
                n >= 1,
                values@.len() == k,
                rest == (code as int) / power(n as int, j as nat),
                forall|t: int| 0 <= t < j ==> #[trigger] values@[t] == digit(code as int, t as nat, n as int),
            decreases k - j,
        {
            proof {
                lemma_power_pos(n as int, j as nat);
                vstd::arithmetic::div_mod::lemma_div_denominator(code as int, power(n as int, j as nat), n as int);
                assert(power(n as int, (j + 1) as nat) == n * power(n as int, j as nat));
                assert(power(n as int, j as nat) * n == n * power(n as int, j as nat)) by (nonlinear_arith);
            }
            values.set(j, rest % n);
            rest = rest / n;
            j = j + 1;
        }
        proof {
            lemma_counter_values_valid(code as int, k as nat, nn);
            assert(values@ =~= counter_values(code as int, k as nat, nn));
        }
        let a = eval(&law.lhs, m, values.as_slice());
        let b = eval(&law.rhs, m, values.as_slice());
        if a != b {
            proof {
                assert forall|w: Seq<usize>|
                    valid_values(w, k as nat, nn) && counter_position(w, nn) < counter_position(values@, nn)
                        implies !#[trigger] violated_at(law.lhs, law.rhs, nn, m.cells(), w) by {
                    lemma_counter_roundtrip(w, k as nat, nn);
                    let c = counter_position(w, nn);
                    assert(c < code);
                    assert(!violated_at(law.lhs, law.rhs, nn, m.cells(), counter_values(c, k as nat, nn)));
                }
            }
            return Some(values);
        }
        code = code + 1;
    }
    proof {
        assert forall|w: Seq<usize>| valid_values(w, k as nat, nn) implies !#[trigger] violated_at(
            law.lhs,
            law.rhs,
            nn,
            m.cells(),
            w,
        ) by {
            lemma_counter_roundtrip(w, k as nat, nn);
            let c = counter_position(w, nn);
            assert(!violated_at(law.lhs, law.rhs, nn, m.cells(), counter_values(c, k as nat, nn)));
        }
    }
    None
}

proof fn lemma_power_mono(n: int, e: nat, f: nat)
    requires
        n >= 1,
        e <= f,
    ensures
        power(n, e) <= power(n, f),
    decreases f,
{
    if e < f {
        lemma_power_mono(n, e, (f - 1) as nat);
        lemma_power_pos(n, (f - 1) as nat);
        assert(power(n, (f - 1) as nat) <= n * power(n, (f - 1) as nat)) by (nonlinear_arith)
            requires
                n >= 1,
                power(n, (f - 1) as nat) >= 1,
        ;
    }
}

/// Whether `m` satisfies `law` under every assignment.
pub fn satisfies(m: &Magma, law: &Law) -> (b: bool)
    requires
        law.wf(),
        power(m.carrier() as int, law.nvars as nat) <= usize::MAX,
    ensures
        b == law_satisfied(law.lhs, law.rhs, law.nvars as nat, m.carrier(), m.cells()),
{
    find_violation(law, m).is_none()
}

/// Message for a witness that breaks the hypothesis.
pub open spec fn broken_hypothesis_error(hypothesis: Seq<char>, values: Seq<usize>) -> Seq<char> {
    "witness violates the hypothesis "@ + hypothesis + " at "@ + list_text(values)
}

/// Message for a witness that satisfies the conclusion.
pub open spec fn kept_conclusion_error(conclusion: Seq<char>) -> Seq<char> {
    "witness satisfies the conclusion "@ + conclusion
}

fn push_list(s: &mut String, values: &[usize])
    ensures
        final(s)@ == old(s)@ + list_text(values@),
{
    crate::text::push_char(s, '[');
    let ghost start = s@;
    let mut i: usize = 0;
    while i < values.len()
        invariant
            i <= values@.len(),
            s@ == start + list_items(values@.take(i as int)),
        decreases values@.len() - i,
    {
        if i > 0 {
            crate::text::push_char(s, ',');
            crate::text::push_char(s, ' ');
        }
        push_decimal(s, values[i] as u64);
        i = i + 1;
        proof {
            let t = values@.take(i as int);
            assert(t.drop_last() =~= values@.take(i - 1));
            if i == 1 {
                assert(values@.take(0).len() == 0);
            }
        }
        assert(s@ =~= start + list_items(values@.take(i as int)));
    }
    crate::text::push_char(s, ']');
    assert(values@.take(values@.len() as int) =~= values@);
    assert(s@ =~= old(s)@ + list_text(values@));
}

/// Confirms that `m` satisfies `hypothesis` and violates `conclusion`, and
/// returns the first assignment (in counter order) that violates `conclusion`.
pub fn verify_witness(hypothesis: &Law, conclusion: &Law, m: &Magma) -> (r: Result<Vec<usize>, String>)
    requires
        hypothesis.wf(),
        conclusion.wf(),
        power(m.carrier() as int, hypothesis.nvars as nat) <= usize::MAX,
        power(m.carrier() as int, conclusion.nvars as nat) <= usize::MAX,
    ensures
        match r {
            Ok(values) => {
                &&& law_satisfied(hypothesis.lhs, hypothesis.rhs, hypothesis.nvars as nat, m.carrier(), m.cells())
                &&& first_violation(conclusion.lhs, conclusion.rhs, conclusion.nvars as nat, m.carrier(), m.cells(), values@)
            },
            Err(e) => if law_satisfied(hypothesis.lhs, hypothesis.rhs, hypothesis.nvars as nat, m.carrier(), m.cells()) {
                &&& law_satisfied(conclusion.lhs, conclusion.rhs, conclusion.nvars as nat, m.carrier(), m.cells())
                &&& e@ == kept_conclusion_error(conclusion.text())
            } else {
                exists|values: Seq<usize>|
                    #[trigger] first_violation(hypothesis.lhs, hypothesis.rhs, hypothesis.nvars as nat, m.carrier(), m.cells(), values)
                        && e@ == broken_hypothesis_error(hypothesis.text(), values)
            },
        },
{
    if let Some(values) = find_violation(hypothesis, m) {
        let mut e = String::from_str("witness violates the hypothesis ");
        let text = hypothesis.to_string();
        push_str(&mut e, text.as_str());
        push_str(&mut e, " at ");
        push_list(&mut e, values.as_slice());
        return Err(e);
    }
    match find_violation(conclusion, m) {
        Some(values) => Ok(values),
        None => {
            let mut e = String::from_str("witness satisfies the conclusion ");
            let text = conclusion.to_string();
            push_str(&mut e, text.as_str());
            Err(e)
        },
    }
}

/// There is at most one first violating assignment.
pub proof fn lemma_first_violation_unique(lhs: Term, rhs: Term, k: nat, n: nat, table: Seq<u8>, a: Seq<usize>, b: Seq<usize>)
    requires
        n >= 1,
        first_violation(lhs, rhs, k, n, table, a),
        first_violation(lhs, rhs, k, n, table, b),
    ensures
        a == b,
{
    if counter_position(a, n) < counter_position(b, n) {
        assert(!violated_at(lhs, rhs, n, table, a));
    } else if counter_position(b, n) < counter_position(a, n) {
        assert(!violated_at(lhs, rhs, n, table, b));
    } else {
        lemma_counter_injective(a, b, k, n);
    }
}

} // verus!
