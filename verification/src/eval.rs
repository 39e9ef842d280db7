//! Compiled term evaluation over full and partial operation tables.

use vstd::prelude::*;
use crate::law::{Law, Term};

verus! {

/// Marks a table cell that has not been assigned yet.
pub const UNKNOWN: u8 = 255;

/// `b` to the power `e`.
pub open spec fn power(b: int, e: nat) -> int
    decreases e,
{
    if e == 0 { 1 } else { b * power(b, (e - 1) as nat) }
}

/// A row-major `n × n` table whose cells are elements of `0..n` or [`UNKNOWN`].
pub open spec fn partial_table(table: Seq<u8>, n: int) -> bool {
    &&& 1 <= n <= 255
    &&& table.len() == n * n
    &&& forall|i: int| 0 <= i < table.len() ==> (#[trigger] table[i] < n || table[i] == UNKNOWN)
}

/// A row-major `n × n` table whose cells are all elements of `0..n`.
pub open spec fn complete_table(table: Seq<u8>, n: int) -> bool {
    &&& 1 <= n <= 255
    &&& table.len() == n * n
    &&& forall|i: int| 0 <= i < table.len() ==> #[trigger] table[i] < n
}

/// An assignment of `k` variables to elements of `0..n`.
pub open spec fn valid_assignment(a: Seq<u8>, k: int, n: int) -> bool {
    &&& a.len() == k
    &&& forall|i: int| 0 <= i < a.len() ==> #[trigger] a[i] < n
}

/// Value of `t` under `a` on a possibly partial table, or the first unknown
/// cell the evaluation needs (left operand before right operand).
pub open spec fn partial_value(t: Term, n: int, table: Seq<u8>, a: Seq<u8>) -> Result<u8, usize>
    decreases t,
{
    match t {
        Term::Var(v) => Ok(a[v as int]),
        Term::Op(l, r) => match partial_value(*l, n, table, a) {
            Err(c) => Err(c),
            Ok(x) => match partial_value(*r, n, table, a) {
                Err(c) => Err(c),
                Ok(y) => {
                    let cell = x * n + y;
                    if table[cell] == UNKNOWN {
                        Err(cell as usize)
                    } else {
                        Ok(table[cell])
                    }
                },
            },
        },
    }
}

/// Outcome of checking one ground instance of a law on a partial table.
#[derive(Clone, Copy, Debug, PartialEq, Eq, Structural)]
pub enum Status {
    Holds,
    Fails,
    /// Undetermined; the payload is the first unknown cell it depends on.
    Blocked(usize),
}

/// The status of the instance `a` of `lhs = rhs`.
pub open spec fn status_of(lhs: Term, rhs: Term, n: int, table: Seq<u8>, a: Seq<u8>) -> Status {
    match partial_value(lhs, n, table, a) {
        Err(c) => Status::Blocked(c),
        Ok(x) => match partial_value(rhs, n, table, a) {
            Err(c) => Status::Blocked(c),
            Ok(y) => if x == y { Status::Holds } else { Status::Fails },
        },
    }
}

/// The table satisfies `lhs = rhs` for every assignment of its `k` variables.
pub open spec fn law_holds(lhs: Term, rhs: Term, k: int, n: int, table: Seq<u8>) -> bool {
    forall|a: Seq<u8>|
        valid_assignment(a, k, n) ==> #[trigger] status_of(lhs, rhs, n, table, a) == Status::Holds
}

#[derive(Clone, Copy, Debug, PartialEq, Eq, Structural)]
enum Code {
    Var(u8),
    Op,
}

spec fn postfix(t: Term) -> Seq<Code>
    decreases t,
{
    match t {
        Term::Var(v) => seq![Code::Var(v)],
        Term::Op(l, r) => postfix(*l) + postfix(*r) + seq![Code::Op],
    }
}

/// Runs stack-machine code; `None` when the code underflows the stack.
spec fn run_code(code: Seq<Code>, n: int, table: Seq<u8>, a: Seq<u8>, stack: Seq<u8>) -> Option<
    Result<Seq<u8>, usize>,
>
    decreases code.len(),
{
    if code.len() == 0 {
        Some(Ok(stack))
    } else {
        match code[0] {
            Code::Var(v) => run_code(code.drop_first(), n, table, a, stack.push(a[v as int])),
            Code::Op => if stack.len() < 2 {
                None
            } else {
                let y = stack[stack.len() - 1];
                let x = stack[stack.len() - 2];
                let cell = x * n + y;
                if table[cell] == UNKNOWN {
                    Some(Err(cell as usize))
                } else {
                    run_code(
                        code.drop_first(),
                        n,
                        table,
                        a,
                        stack.drop_last().drop_last().push(table[cell]),
                    )
                }
            },
        }
    }
}

proof fn lemma_run_postfix(
    t: Term,
    rest: Seq<Code>,
    n: int,
    table: Seq<u8>,
    a: Seq<u8>,
    stack: Seq<u8>,
)
    ensures
        run_code(postfix(t) + rest, n, table, a, stack) == match partial_value(t, n, table, a) {
            Ok(v) => run_code(rest, n, table, a, stack.push(v)),
            Err(c) => Some(Err(c)),
        },
    decreases t,
{
    match t {
        Term::Var(v) => {
            assert((postfix(t) + rest).drop_first() =~= rest);
        },
        Term::Op(l, r) => {
            let tail = postfix(*r) + (seq![Code::Op] + rest);
            assert(postfix(t) + rest =~= postfix(*l) + tail);
            assert(tail =~= postfix(*r) + (seq![Code::Op] + rest));
            lemma_run_postfix(*l, tail, n, table, a, stack);
            match partial_value(*l, n, table, a) {
                Ok(x) => {
                    lemma_run_postfix(*r, seq![Code::Op] + rest, n, table, a, stack.push(x));
                    match partial_value(*r, n, table, a) {
                        Ok(y) => {
                            let s2 = stack.push(x).push(y);
                            assert((seq![Code::Op] + rest)[0] == Code::Op);
                            assert((seq![Code::Op] + rest).drop_first() =~= rest);
                            assert(s2[s2.len() - 1] == y);
                            assert(s2[s2.len() - 2] == x);
                            assert(s2.drop_last().drop_last() =~= stack);
                        },
                        Err(_) => {},
                    }
                },
                Err(_) => {},
            }
        },
    }
}

/// A term flattened to postfix code for a stack machine.
pub struct Program {
    code: Vec<Code>,
    term: Ghost<Term>,
}

impl Clone for Program {
    fn clone(&self) -> (p: Program)
        ensures
            p.term() == self.term(),
    {
        proof {
            use_type_invariant(self);
        }
        let code = self.code.clone();
        assert(code@ =~= self.code@);
        Program { code, term: Ghost(self.term@) }
    }
}

impl Program {
    #[verifier::type_invariant]
    spec fn compiled(self) -> bool {
        self.code@ == postfix(self.term@)
    }

    /// The term this program evaluates.
    pub closed spec fn term(&self) -> Term {
        self.term@
    }

    pub fn compile(term: &Term) -> (p: Program)
        ensures
            p.term() == *term,
    {
        let mut code: Vec<Code> = Vec::new();
        emit(term, &mut code);
        assert(code@ =~= postfix(*term));
        Program { code, term: Ghost(*term) }
    }

    /// Evaluates under `assign` on a table that may contain [`UNKNOWN`] cells.
    ///
    /// Returns the value, or `Err(cell)` for the first unknown cell the
    /// evaluation needs. Both operands of an `Op` are always known when it
    /// runs, so an unknown short-circuits the whole term immediately.
    pub fn eval_partial(&self, n: usize, table: &[u8], assign: &[u8], stack: &mut Vec<u8>) -> (r:
        Result<u8, usize>)
        requires
            partial_table(table@, n as int),
            self.term().vars_below(assign@.len() as int),
            forall|i: int| 0 <= i < assign@.len() ==> #[trigger] assign@[i] < n,
        ensures
            r == partial_value(self.term(), n as int, table@, assign@),
            r matches Ok(v) ==> v < n,
            r matches Err(c) ==> c < table@.len() && table@[c as int] == UNKNOWN,
    {
        proof {
            use_type_invariant(self);
            lemma_run_postfix(self.term(), Seq::empty(), n as int, table@, assign@, Seq::empty());
            assert(postfix(self.term()) + Seq::<Code>::empty() =~= postfix(self.term()));
            lemma_partial_value_range(self.term(), n as int, table@, assign@);
        }
        let ghost want = run_code(self.code@, n as int, table@, assign@, Seq::empty());
        stack.clear();
        proof {
            assert(self.code@.skip(0) =~= self.code@);
            assert(stack@ =~= Seq::<u8>::empty());
            lemma_postfix_vars(self.term(), assign@.len() as int);
            if let Ok(v) = partial_value(self.term(), n as int, table@, assign@) {
                assert(run_code(Seq::empty(), n as int, table@, assign@, seq![v]) == Some(
                    Ok::<Seq<u8>, usize>(seq![v]),
                ));
                assert(Seq::<u8>::empty().push(v) =~= seq![v]);
            }
        }
        let mut i: usize = 0;
        while i < self.code.len()
            invariant
                i <= self.code@.len(),
                self.code@ == postfix(self.term()),
                partial_table(table@, n as int),
                self.term().vars_below(assign@.len() as int),
                forall|j: int| 0 <= j < assign@.len() ==> #[trigger] assign@[j] < n,
                want == run_code(self.code@, n as int, table@, assign@, Seq::empty()),
                want == match partial_value(self.term(), n as int, table@, assign@) {
                    Ok(v) => Some(Ok::<Seq<u8>, usize>(seq![v])),
                    Err(c) => Some(Err(c)),
                },
                run_code(self.code@.skip(i as int), n as int, table@, assign@, stack@) == want,
                forall|j: int| 0 <= j < stack@.len() ==> #[trigger] stack@[j] < n,
                forall|j: int| 0 <= j < self.code@.len() ==> (#[trigger] self.code@[j] matches Code::Var(v) ==> v < assign@.len()),
            decreases self.code@.len() - i,
        {
            let ghost rest = self.code@.skip(i as int);
            let ghost pre = stack@;
            assert(rest[0] == self.code@[i as int]);
            assert(rest.drop_first() =~= self.code@.skip(i as int + 1));
            match self.code[i] {
                Code::Var(v) => {
                    stack.push(assign[v as usize]);
                },
                Code::Op => {
                    let r = stack.pop().unwrap();
                    let l = stack.pop().unwrap();
                    proof {
                        assert(l < n && r < n);
                        assert(l as int * n + r < n * n) by (nonlinear_arith)
                            requires
                                l < n,
                                r < n,
                        ;
                        assert(l as int * n <= n * n) by (nonlinear_arith)
                            requires
                                l < n,
                        ;
                        assert(table@.len() == table.len());
                        assert(pre[pre.len() - 1] == r);
                        assert(pre[pre.len() - 2] == l);
                        assert(n * n <= 65025) by (nonlinear_arith)
                            requires
                                n <= 255,
                        ;
                        assert(stack@ =~= pre.drop_last().drop_last());
                    }
                    let cell = (l as usize) * n + (r as usize);
                    let val = table[cell];
                    if val == UNKNOWN {
                        proof {
                            assert(cell as int == l as int * n + r);
                            assert(run_code(rest, n as int, table@, assign@, pre) == Some(
                                Err::<Seq<u8>, usize>(cell),
                            ));
                            let pv = partial_value(self.term(), n as int, table@, assign@);
                            assert(want == Some(Err::<Seq<u8>, usize>(cell)));
                        }
                        return Err(cell);
                    }
                    stack.push(val);
                },
            }
            i = i + 1;
        }
        assert(self.code@.skip(i as int) =~= Seq::<Code>::empty());
        Ok(stack[0])
    }
}

proof fn lemma_postfix_vars(t: Term, k: int)
    requires
        t.vars_below(k),
    ensures
        forall|j: int| 0 <= j < postfix(t).len() ==> (#[trigger] postfix(t)[j] matches Code::Var(v) ==> v < k),
    decreases t,
{
    match t {
        Term::Var(v) => {},
        Term::Op(l, r) => {
            lemma_postfix_vars(*l, k);
            lemma_postfix_vars(*r, k);
            let (a, b) = (postfix(*l), postfix(*r));
            assert forall|j: int| 0 <= j < postfix(t).len() implies (#[trigger] postfix(t)[j] matches Code::Var(v) ==> v < k) by {
                if j < a.len() {
                    assert(postfix(t)[j] == a[j]);
                } else if j < a.len() + b.len() {
                    assert(postfix(t)[j] == b[j - a.len()]);
                }
            }
        },
    }
}

fn emit(t: &Term, code: &mut Vec<Code>)
    ensures
        final(code)@ == old(code)@ + postfix(*t),
    decreases t,
{
    match t {
        Term::Var(v) => code.push(Code::Var(*v)),
        Term::Op(l, r) => {
            emit(l, code);
            emit(r, code);
            code.push(Code::Op);
            assert(final(code)@ =~= old(code)@ + postfix(*t));
        },
    }
}

pub proof fn lemma_partial_value_range(t: Term, n: int, table: Seq<u8>, a: Seq<u8>)
    requires
        partial_table(table, n),
        t.vars_below(a.len() as int),
        forall|i: int| 0 <= i < a.len() ==> #[trigger] a[i] < n,
    ensures
        partial_value(t, n, table, a) matches Ok(v) ==> v < n,
        partial_value(t, n, table, a) matches Err(c) ==> c < table.len() && table[c as int]
            == UNKNOWN,
    decreases t,
{
    match t {
        Term::Var(v) => {
            assert(partial_value(t, n, table, a) == Ok::<u8, usize>(a[v as int]));
        },
        Term::Op(l, r) => {
            lemma_partial_value_range(*l, n, table, a);
            lemma_partial_value_range(*r, n, table, a);
            if let Ok(x) = partial_value(*l, n, table, a) {
                if let Ok(y) = partial_value(*r, n, table, a) {
                    assert(x * n + y < n * n) by (nonlinear_arith)
                        requires
                            x < n,
                            y < n,
                    ;
                    assert(n * n <= 65025) by (nonlinear_arith)
                        requires
                            n <= 255,
                            0 <= n,
                    ;
                    assert(0 <= x * n + y) by (nonlinear_arith)
                        requires
                            0 <= x,
                            0 <= y,
                            0 <= n,
                    ;
                }
            }
        },
    }
}

/// `u` agrees with `t` on every cell that `t` knows.
pub open spec fn extends(t: Seq<u8>, u: Seq<u8>) -> bool {
    &&& t.len() == u.len()
    &&& forall|i: int| 0 <= i < t.len() && t[i] != UNKNOWN ==> #[trigger] u[i] == t[i]
}

/// Evaluation is monotone: what a partial table determines stays determined
/// in every extension, and a blocking cell still blocks while it is unknown.
pub proof fn lemma_partial_value_extends(t: Term, n: int, x: Seq<u8>, y: Seq<u8>, a: Seq<u8>)
    requires
        partial_table(x, n),
        partial_table(y, n),
        extends(x, y),
        t.vars_below(a.len() as int),
        forall|i: int| 0 <= i < a.len() ==> #[trigger] a[i] < n,
    ensures
        partial_value(t, n, x, a) matches Ok(v) ==> partial_value(t, n, y, a) == Ok::<u8, usize>(v),
        partial_value(t, n, x, a) matches Err(c) ==> (y[c as int] == UNKNOWN ==> partial_value(t, n, y, a)
            == Err::<u8, usize>(c)),
    decreases t,
{
    lemma_partial_value_range(t, n, x, a);
    match t {
        Term::Var(v) => {},
        Term::Op(l, r) => {
            lemma_partial_value_extends(*l, n, x, y, a);
            lemma_partial_value_extends(*r, n, x, y, a);
            lemma_partial_value_range(*l, n, x, a);
            lemma_partial_value_range(*r, n, x, a);
            if let Ok(p) = partial_value(*l, n, x, a) {
                if let Ok(q) = partial_value(*r, n, x, a) {
                    assert(p * n + q < n * n) by (nonlinear_arith)
                        requires
                            p < n,
                            q < n,
                    ;
                    assert(0 <= p * n + q) by (nonlinear_arith)
                        requires
                            0 <= p,
                            0 <= q,
                            0 <= n,
                    ;
                    assert(n * n <= 65025) by (nonlinear_arith)
                        requires
                            n <= 255,
                            0 <= n,
                    ;
                }
            }
        },
    }
}

/// Status version of [`lemma_partial_value_extends`]; on a complete table no
/// instance is blocked.
pub proof fn lemma_status_extends(lhs: Term, rhs: Term, n: int, x: Seq<u8>, y: Seq<u8>, a: Seq<u8>)
    requires
        partial_table(x, n),
        partial_table(y, n),
        extends(x, y),
        lhs.vars_below(a.len() as int),
        rhs.vars_below(a.len() as int),
        forall|i: int| 0 <= i < a.len() ==> #[trigger] a[i] < n,
    ensures
        status_of(lhs, rhs, n, x, a) == Status::Holds ==> status_of(lhs, rhs, n, y, a) == Status::Holds,
        status_of(lhs, rhs, n, x, a) == Status::Fails ==> status_of(lhs, rhs, n, y, a) == Status::Fails,
        status_of(lhs, rhs, n, x, a) matches Status::Blocked(c) ==> (y[c as int] == UNKNOWN ==> status_of(
            lhs,
            rhs,
            n,
            y,
            a,
        ) == Status::Blocked(c)),
        status_of(lhs, rhs, n, x, a) matches Status::Blocked(c) ==> c < x.len() && x[c as int] == UNKNOWN,
{
    lemma_partial_value_extends(lhs, n, x, y, a);
    lemma_partial_value_extends(rhs, n, x, y, a);
    lemma_partial_value_range(lhs, n, x, a);
    lemma_partial_value_range(rhs, n, x, a);
}

/// On a complete table every instance holds or fails.
pub proof fn lemma_status_complete(lhs: Term, rhs: Term, n: int, x: Seq<u8>, a: Seq<u8>)
    requires
        complete_table(x, n),
        lhs.vars_below(a.len() as int),
        rhs.vars_below(a.len() as int),
        forall|i: int| 0 <= i < a.len() ==> #[trigger] a[i] < n,
    ensures
        !(status_of(lhs, rhs, n, x, a) is Blocked),
{
    assert(partial_table(x, n));
    lemma_partial_value_range(lhs, n, x, a);
    lemma_partial_value_range(rhs, n, x, a);
    if let Err(c) = partial_value(lhs, n, x, a) {
        assert(x[c as int] < n);
    }
    if let Err(c) = partial_value(rhs, n, x, a) {
        assert(x[c as int] < n);
    }
}

/// Position of an assignment in odometer order (first variable turns fastest).
pub open spec fn odometer_value(a: Seq<u8>, n: int) -> int
    decreases a.len(),
{
    if a.len() == 0 {
        0
    } else {
        a[0] + n * odometer_value(a.drop_first(), n)
    }
}

pub proof fn lemma_odometer_nonneg(a: Seq<u8>, n: int)
    requires
        n >= 1,
    ensures
        odometer_value(a, n) >= 0,
    decreases a.len(),
{
    if a.len() > 0 {
        lemma_odometer_nonneg(a.drop_first(), n);
        assert(n * odometer_value(a.drop_first(), n) >= 0) by (nonlinear_arith)
            requires
                n >= 1,
                odometer_value(a.drop_first(), n) >= 0,
        ;
    }
}

pub proof fn lemma_odometer_zero(a: Seq<u8>, n: int)
    requires
        forall|i: int| 0 <= i < a.len() ==> #[trigger] a[i] == 0,
    ensures
        odometer_value(a, n) == 0,
    decreases a.len(),
{
    if a.len() > 0 {
        assert forall|i: int| 0 <= i < a.len() - 1 implies #[trigger] a.drop_first()[i] == 0 by {
            assert(a.drop_first()[i] == a[i + 1]);
        }
        lemma_odometer_zero(a.drop_first(), n);
    }
}

/// Distinct assignments have distinct odometer positions.
pub proof fn lemma_odometer_injective(a: Seq<u8>, b: Seq<u8>, k: int, n: int)
    requires
        n >= 1,
        valid_assignment(a, k, n),
        valid_assignment(b, k, n),
        odometer_value(a, n) == odometer_value(b, n),
    ensures
        a == b,
    decreases a.len(),
{
    if a.len() > 0 {
        let (x, y) = (odometer_value(a.drop_first(), n), odometer_value(b.drop_first(), n));
        assert(a[0] < n && b[0] < n);
        assert(x == y && a[0] == b[0]) by (nonlinear_arith)
            requires
                a[0] + n * x == b[0] + n * y,
                0 <= a[0] < n,
                0 <= b[0] < n,
        ;
        assert forall|i: int| 0 <= i < a.len() - 1 implies #[trigger] a.drop_first()[i] < n by {
            assert(a.drop_first()[i] == a[i + 1]);
        }
        assert forall|i: int| 0 <= i < b.len() - 1 implies #[trigger] b.drop_first()[i] < n by {
            assert(b.drop_first()[i] == b[i + 1]);
        }
        lemma_odometer_injective(a.drop_first(), b.drop_first(), k - 1, n);
        assert(a =~= b) by {
            assert forall|i: int| 0 <= i < a.len() implies a[i] == b[i] by {
                if i > 0 {
                    assert(a[i] == a.drop_first()[i - 1]);
                    assert(b[i] == b.drop_first()[i - 1]);
                }
            }
        }
    } else {
        assert(a =~= b);
    }
}

/// No assignment lies beyond the one with every variable at `n - 1`.
pub proof fn lemma_odometer_le_last(b: Seq<u8>, m: Seq<u8>, n: int)
    requires
        n >= 1,
        b.len() == m.len(),
        forall|i: int| 0 <= i < b.len() ==> #[trigger] b[i] < n,
        forall|i: int| 0 <= i < m.len() ==> #[trigger] m[i] == n - 1,
    ensures
        odometer_value(b, n) <= odometer_value(m, n),
    decreases b.len(),
{
    if b.len() > 0 {
        assert forall|i: int| 0 <= i < b.len() - 1 implies #[trigger] b.drop_first()[i] < n by {
            assert(b.drop_first()[i] == b[i + 1]);
        }
        assert forall|i: int| 0 <= i < m.len() - 1 implies #[trigger] m.drop_first()[i] == n - 1 by {
            assert(m.drop_first()[i] == m[i + 1]);
        }
        lemma_odometer_le_last(b.drop_first(), m.drop_first(), n);
        assert(b[0] < n && m[0] == n - 1);
        let (x, y) = (odometer_value(b.drop_first(), n), odometer_value(m.drop_first(), n));
        assert(n * x <= n * y) by (nonlinear_arith)
            requires
                x <= y,
                n >= 1,
        ;
    }
}

/// Carrying: zeroing a prefix of maximal digits and bumping the next digit
/// advances the odometer by one.
pub proof fn lemma_odometer_carry(old: Seq<u8>, new: Seq<u8>, i: int, n: int)
    requires
        n >= 1,
        old.len() == new.len(),
        0 <= i < old.len(),
        forall|j: int| 0 <= j < i ==> #[trigger] old[j] == n - 1 && new[j] == 0,
        new[i] == old[i] + 1,
        forall|j: int| i < j < old.len() ==> #[trigger] new[j] == old[j],
    ensures
        odometer_value(new, n) == odometer_value(old, n) + 1,
    decreases i,
{
    let (a, b) = (old.drop_first(), new.drop_first());
    if i == 0 {
        assert(a =~= b) by {
            assert forall|j: int| 0 <= j < a.len() implies a[j] == b[j] by {
                assert(new[j + 1] == old[j + 1]);
            }
        }
    } else {
        assert forall|j: int| 0 <= j < i - 1 implies #[trigger] a[j] == n - 1 && b[j] == 0 by {
            assert(old[j + 1] == n - 1 && new[j + 1] == 0);
        }
        assert forall|j: int| i - 1 < j < a.len() implies #[trigger] b[j] == a[j] by {
            assert(new[j + 1] == old[j + 1]);
        }
        lemma_odometer_carry(a, b, i - 1, n);
        assert(old[0] == n - 1 && new[0] == 0);
        let x = odometer_value(a, n);
        assert(n * (x + 1) == n * x + n) by (nonlinear_arith);
    }
}

/// Digit `j` of `i` in base `n` (least significant first).
pub open spec fn digit(i: int, j: nat, n: int) -> int {
    (i / power(n, j)) % n
}

/// The assignment numbered `inst`: variable `j` gets digit `j` of `inst` in base `n`.
pub open spec fn instance_assignment(inst: int, k: nat, n: int) -> Seq<u8> {
    Seq::new(k, |j: int| digit(inst, j as nat, n) as u8)
}

pub proof fn lemma_power_pos(n: int, e: nat)
    requires
        n >= 1,
    ensures
        power(n, e) >= 1,
    decreases e,
{
    if e > 0 {
        lemma_power_pos(n, (e - 1) as nat);
        assert(n * power(n, (e - 1) as nat) >= 1) by (nonlinear_arith)
            requires
                n >= 1,
                power(n, (e - 1) as nat) >= 1,
        ;
    }
}

pub proof fn lemma_power_mono(n: int, e: nat, f: nat)
    requires
        n >= 1,
        e <= f,
    ensures
        power(n, e) <= power(n, f),
    decreases f,
{
    if e < f {
        lemma_power_mono(n, e, (f - 1) as nat);
        lemma_power_pos(n, (f - 1) as nat);
        assert(power(n, (f - 1) as nat) <= n * power(n, (f - 1) as nat)) by (nonlinear_arith)
            requires
                n >= 1,
                power(n, (f - 1) as nat) >= 1,
        ;
    }
}

/// Every assignment of `k` variables has an odometer position below `n^k`.
pub proof fn lemma_odometer_bound(a: Seq<u8>, n: int)
    requires
        n >= 1,
        forall|i: int| 0 <= i < a.len() ==> #[trigger] a[i] < n,
    ensures
        0 <= odometer_value(a, n) < power(n, a.len()),
    decreases a.len(),
{
    lemma_odometer_nonneg(a, n);
    if a.len() > 0 {
        let r = a.drop_first();
        assert forall|i: int| 0 <= i < r.len() implies #[trigger] r[i] < n by {
            assert(r[i] == a[i + 1]);
        }
        lemma_odometer_bound(r, n);
        let v = odometer_value(r, n);
        assert(a[0] < n);
        assert(a[0] + n * v < n * power(n, r.len())) by (nonlinear_arith)
            requires
                0 <= a[0] < n,
                0 <= v < power(n, r.len()),
        ;
        assert(power(n, a.len()) == n * power(n, r.len()));
    }
}

/// Digit `j` of an assignment's odometer position is the value of variable `j`.
pub proof fn lemma_odometer_digits(a: Seq<u8>, n: int)
    requires
        n >= 1,
        forall|i: int| 0 <= i < a.len() ==> #[trigger] a[i] < n,
    ensures
        forall|j: int| 0 <= j < a.len() ==> #[trigger] digit(odometer_value(a, n), j as nat, n) == a[j],
    decreases a.len(),
{
    if a.len() > 0 {
        let r = a.drop_first();
        assert forall|i: int| 0 <= i < r.len() implies #[trigger] r[i] < n by {
            assert(r[i] == a[i + 1]);
        }
        lemma_odometer_digits(r, n);
        lemma_odometer_nonneg(r, n);
        let x = odometer_value(a, n);
        let v = odometer_value(r, n);
        assert(a[0] < n);
        assert(x == a[0] + n * v);
        assert(x == v * n + a[0]) by (nonlinear_arith)
            requires
                x == a[0] + n * v,
        ;
        vstd::arithmetic::div_mod::lemma_fundamental_div_mod_converse(x, n, v, a[0] as int);
        assert(x >= 0);
        assert forall|j: int| 0 <= j < a.len() implies #[trigger] digit(x, j as nat, n) == a[j] by {
            if j == 0 {
                assert(power(n, 0) == 1);
                assert(x / 1 == x);
            } else {
                lemma_power_pos(n, (j - 1) as nat);
                vstd::arithmetic::div_mod::lemma_div_denominator(x, n, power(n, (j - 1) as nat));
                assert(power(n, j as nat) == n * power(n, (j - 1) as nat));
                assert(digit(v, (j - 1) as nat, n) == r[j - 1]);
                assert(r[j - 1] == a[j]);
            }
        }
    }
}

/// The numbered instances cover every assignment.
pub proof fn lemma_instance_of(a: Seq<u8>, k: nat, n: int)
    requires
        n >= 1,
        valid_assignment(a, k as int, n),
    ensures
        0 <= odometer_value(a, n) < power(n, k),
        instance_assignment(odometer_value(a, n), k, n) == a,
{
    lemma_odometer_bound(a, n);
    lemma_odometer_digits(a, n);
    let v = odometer_value(a, n);
    assert(instance_assignment(v, k, n) =~= a) by {
        assert forall|j: int| 0 <= j < k implies instance_assignment(v, k, n)[j] == a[j] by {
            assert(digit(v, j as nat, n) == a[j]);
        }
    }
}

/// Numbered instances are valid assignments.
pub proof fn lemma_instance_valid(inst: int, k: nat, n: int)
    requires
        n >= 1,
        n <= 255,
        inst >= 0,
    ensures
        valid_assignment(instance_assignment(inst, k, n), k as int, n),
{
    assert forall|j: int| 0 <= j < k implies #[trigger] instance_assignment(inst, k, n)[j] < n by {
        lemma_power_pos(n, j as nat);
        vstd::arithmetic::div_mod::lemma_div_pos_is_pos(inst, power(n, j as nat));
        vstd::arithmetic::div_mod::lemma_mod_pos_bound(inst / power(n, j as nat), n);
    }
}

/// A law compiled for fast repeated evaluation.
#[derive(Clone)]
pub struct CompiledLaw {
    pub lhs: Program,
    pub rhs: Program,
    pub nvars: usize,
}

impl CompiledLaw {
    /// Both sides use only variables below `nvars`.
    pub open spec fn wf(&self) -> bool {
        &&& self.lhs.term().vars_below(self.nvars as int)
        &&& self.rhs.term().vars_below(self.nvars as int)
        &&& self.nvars <= 256
    }

    /// The law holds on the complete table.
    pub open spec fn holds_on(&self, n: int, table: Seq<u8>) -> bool {
        law_holds(self.lhs.term(), self.rhs.term(), self.nvars as int, n, table)
    }

    pub fn new(law: &Law) -> (c: CompiledLaw)
        requires
            law.wf(),
        ensures
            c.lhs.term() == law.lhs,
            c.rhs.term() == law.rhs,
            c.nvars == law.nvars,
            c.wf(),
    {
        CompiledLaw {
            lhs: Program::compile(&law.lhs),
            rhs: Program::compile(&law.rhs),
            nvars: law.nvars,
        }
    }

    /// Number of ground instances over an `n`-element carrier, saturating at `u64::MAX`.
    pub fn instance_count(&self, n: usize) -> (count: u64)
        ensures
            count == if power(n as int, self.nvars as nat) > u64::MAX {
                u64::MAX as int
            } else {
                power(n as int, self.nvars as nat)
            },
    {
        let b: u64 = n as u64;
        let mut acc: u64 = 1;
        let mut i: usize = 0;
        while i < self.nvars
            invariant
                i <= self.nvars,
                b == n,
                acc == if power(n as int, i as nat) > u64::MAX {
                    u64::MAX as int
                } else {
                    power(n as int, i as nat)
                },
                power(n as int, i as nat) >= 0,
                n == 1 ==> power(n as int, i as nat) == 1,
                n == 0 ==> power(n as int, i as nat) <= 1,
            decreases self.nvars - i,
        {
            let ghost p = power(n as int, i as nat);
            assert(power(n as int, (i + 1) as nat) == n * p);
            proof {
                if p <= u64::MAX {
                    assert(acc * b == n * p) by (nonlinear_arith)
                        requires
                            acc == p,
                            b == n,
                    ;
                }
            }
            acc = match acc.checked_mul(b) {
                Some(v) => v,
                None => u64::MAX,
            };
            proof {
                if n == 0 {
                    assert(n * p == 0);
                }
                assert(n * p >= 0) by (nonlinear_arith)
                    requires
                        p >= 0,
                        n >= 0,
                ;
                if p > u64::MAX {
                    if n >= 2 {
                        assert(n * p > u64::MAX) by (nonlinear_arith)
                            requires
                                p > u64::MAX,
                                n >= 2,
                        ;
                        assert(u64::MAX * b > u64::MAX) by (nonlinear_arith)
                            requires
                                b >= 2,
                        ;
                    }
                }
            }
            i = i + 1;
        }
        acc
    }

    pub fn status(&self, n: usize, table: &[u8], assign: &[u8], stack: &mut Vec<u8>) -> (s: Status)
        requires
            self.wf(),
            partial_table(table@, n as int),
            valid_assignment(assign@, self.nvars as int, n as int),
        ensures
            s == status_of(self.lhs.term(), self.rhs.term(), n as int, table@, assign@),
            s matches Status::Blocked(c) ==> c < table@.len() && table@[c as int] == UNKNOWN,
    {
        let l = match self.lhs.eval_partial(n, table, assign, stack) {
            Ok(v) => v,
            Err(cell) => return Status::Blocked(cell),
        };
        match self.rhs.eval_partial(n, table, assign, stack) {
            Ok(r) => if r == l { Status::Holds } else { Status::Fails },
            Err(cell) => Status::Blocked(cell),
        }
    }

    /// Whether the law holds for every assignment on a complete table.
    pub fn holds_in(&self, n: usize, table: &[u8]) -> (b: bool)
        requires
            self.wf(),
            complete_table(table@, n as int),
        ensures
            b == self.holds_on(n as int, table@),
    {
        let k = self.nvars;
        let mut assign: Vec<u8> = vec![0u8; k];
        let mut stack: Vec<u8> = Vec::with_capacity(16);
        let ghost last = Seq::new(k as nat, |j: int| (n - 1) as u8);
        proof {
            assert(assign@ =~= Seq::new(k as nat, |j: int| 0u8));
            lemma_odometer_zero(assign@, n as int);
            lemma_odometer_nonneg(assign@, n as int);
            assert forall|b: Seq<u8>| valid_assignment(b, k as int, n as int) implies
                odometer_value(b, n as int) >= 0 by {
                lemma_odometer_nonneg(b, n as int);
            }
            lemma_odometer_le_last(assign@, last, n as int);
        }
        loop
            invariant
                self.wf(),
                k == self.nvars,
                complete_table(table@, n as int),
                valid_assignment(assign@, k as int, n as int),
                last.len() == k,
                forall|j: int| 0 <= j < k ==> #[trigger] last[j] == n - 1,
                odometer_value(assign@, n as int) <= odometer_value(last, n as int),
                forall|b: Seq<u8>|
                    valid_assignment(b, k as int, n as int) && odometer_value(b, n as int)
                        < odometer_value(assign@, n as int) ==> #[trigger] status_of(
                        self.lhs.term(),
                        self.rhs.term(),
                        n as int,
                        table@,
                        b,
                    ) == Status::Holds,
            decreases odometer_value(last, n as int) - odometer_value(assign@, n as int),
        {
            assert(partial_table(table@, n as int));
            if self.status(n, table, assign.as_slice(), &mut stack) != Status::Holds {
                return false;
            }
            let ghost orig = assign@;
            proof {
                assert forall|b: Seq<u8>|
                    valid_assignment(b, k as int, n as int) && odometer_value(b, n as int)
                        <= odometer_value(orig, n as int) implies #[trigger] status_of(
                        self.lhs.term(),
                        self.rhs.term(),
                        n as int,
                        table@,
                        b,
                    ) == Status::Holds by {
                    if odometer_value(b, n as int) == odometer_value(orig, n as int) {
                        lemma_odometer_injective(b, orig, k as int, n as int);
                    }
                }
            }
            let mut i: usize = 0;
            loop
                invariant_except_break
                    i <= k,
                    k == self.nvars,
                    assign@.len() == k,
                    orig.len() == k,
                    valid_assignment(orig, k as int, n as int),
                    1 <= n <= 255,
                    forall|b: Seq<u8>|
                        valid_assignment(b, k as int, n as int) && odometer_value(b, n as int)
                            <= odometer_value(orig, n as int) ==> #[trigger] status_of(
                            self.lhs.term(),
                            self.rhs.term(),
                            n as int,
                            table@,
                            b,
                        ) == Status::Holds,
                    forall|j: int| 0 <= j < i ==> #[trigger] orig[j] == n - 1,
                    forall|j: int| 0 <= j < i ==> #[trigger] assign@[j] == 0,
                    forall|j: int| i <= j < k ==> #[trigger] assign@[j] == orig[j],
                ensures
                    valid_assignment(assign@, k as int, n as int),
                    odometer_value(assign@, n as int) == odometer_value(orig, n as int) + 1,
                decreases k - i,
            {
                if i == assign.len() {
                    proof {
                        assert forall|b: Seq<u8>| valid_assignment(b, k as int, n as int) implies
                            #[trigger] status_of(
                                self.lhs.term(),
                                self.rhs.term(),
                                n as int,
                                table@,
                                b,
                            ) == Status::Holds by {
                            lemma_odometer_le_last(b, orig, n as int);
                        }
                    }
                    return true;
                }
                assert(orig[i as int] < n);
                let v = assign[i] + 1;
                let ghost pre = assign@;
                assign.set(i, v);
                if (assign[i] as usize) < n {
                    proof {
                        assert forall|j: int| 0 <= j < i implies #[trigger] orig[j] == n - 1 && assign@[j] == 0 by {
                            assert(pre[j] == 0);
                            assert(assign@[j] == pre[j]);
                        }
                        assert forall|j: int| 0 <= j < assign@.len() implies #[trigger] assign@[j] < n by {
                            if j < i {
                                assert(pre[j] == 0);
                                assert(assign@[j] == pre[j]);
                            } else if j > i {
                                assert(assign@[j] == pre[j]);
                                assert(orig[j] < n);
                            }
                        }
                        lemma_odometer_carry(orig, assign@, i as int, n as int);
                    }
                    break;
                }
                let ghost pre2 = assign@;
                assign.set(i, 0);
                proof {
                    assert forall|j: int| 0 <= j < i + 1 implies #[trigger] orig[j] == n - 1 by {
                    }
                    assert forall|j: int| 0 <= j < i + 1 implies #[trigger] assign@[j] == 0 by {
                        if j < i {
                            assert(assign@[j] == pre2[j]);
                            assert(pre2[j] == pre[j]);
                            assert(pre[j] == 0);
                        }
                    }
                    assert forall|j: int| i + 1 <= j < k implies #[trigger] assign@[j] == orig[j] by {
                        assert(assign@[j] == pre2[j]);
                        assert(pre2[j] == pre[j]);
                    }
                }
                i = i + 1;
            }
            proof {
                lemma_odometer_le_last(assign@, last, n as int);
            }
        }
    }
}

} // verus!
