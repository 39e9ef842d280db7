//! Finite magmas given by a complete operation table.

use vstd::prelude::*;
use crate::text::{
    decimal, decimal_len, padded, push_char, push_decimal, push_padded_decimal, push_repeat,
    push_str, repeat_char,
};

verus! {

/// A row-major `n × n` table over the carrier `0..n`, with `n >= 1`.
pub open spec fn valid_magma(n: nat, table: Seq<u8>) -> bool {
    &&& n >= 1
    &&& table.len() == n * n
    &&& forall|i: int| 0 <= i < table.len() ==> #[trigger] table[i] < n
}

/// The first position holding a value outside `0..n`, if any.
pub open spec fn first_bad_entry(n: nat, table: Seq<u8>) -> Option<int> {
    if exists|i: int| 0 <= i < table.len() && #[trigger] table[i] >= n {
        let i = choose|i: int|
            0 <= i < table.len() && #[trigger] table[i] >= n && forall|j: int|
                0 <= j < i ==> #[trigger] table[j] < n;
        Some(i)
    } else {
        None
    }
}

/// Message for a table of the wrong length.
pub open spec fn shape_error(n: nat, len: nat) -> Seq<char> {
    "expected "@ + decimal(n * n) + " table entries for size "@ + decimal(n) + ", got "@
        + decimal(len)
}

/// Message for a table entry outside the carrier.
pub open spec fn entry_error(n: nat, bad: nat) -> Seq<char> {
    "table entry "@ + decimal(bad) + " is not an element of a size-"@ + decimal(n) + " magma"@
}

/// Entries `0..b` of row `a`, separated by single spaces.
pub open spec fn row_entries(table: Seq<u8>, n: nat, a: nat, b: nat) -> Seq<char>
    decreases b,
{
    if b == 0 {
        Seq::empty()
    } else {
        let prev = row_entries(table, n, a, (b - 1) as nat);
        (if b == 1 { prev } else { prev.push(' ') }) + decimal(table[a * n + b - 1] as nat)
    }
}

/// Rows `0..a`, separated by `|`.
pub open spec fn compact_rows(table: Seq<u8>, n: nat, a: nat) -> Seq<char>
    decreases a,
{
    if a == 0 {
        Seq::empty()
    } else {
        let prev = compact_rows(table, n, (a - 1) as nat);
        (if a == 1 { prev } else { prev.push('|') }) + row_entries(table, n, (a - 1) as nat, n)
    }
}

/// Column labels `0..b`, each after a space and padded to `w`.
pub open spec fn header_cells(w: nat, b: nat) -> Seq<char>
    decreases b,
{
    if b == 0 {
        Seq::empty()
    } else {
        header_cells(w, (b - 1) as nat).push(' ') + padded(decimal((b - 1) as nat), w)
    }
}

/// Entries `0..b` of row `a`, each after a space and padded to `w`.
pub open spec fn body_cells(table: Seq<u8>, n: nat, w: nat, a: nat, b: nat) -> Seq<char>
    decreases b,
{
    if b == 0 {
        Seq::empty()
    } else {
        body_cells(table, n, w, a, (b - 1) as nat).push(' ') + padded(
            decimal(table[a * n + b - 1] as nat),
            w,
        )
    }
}

/// Rows `0..a` of the printed table, each ending in a newline.
pub open spec fn body_rows(table: Seq<u8>, n: nat, w: nat, a: nat) -> Seq<char>
    decreases a,
{
    if a == 0 {
        Seq::empty()
    } else {
        let r = (a - 1) as nat;
        body_rows(table, n, w, r) + padded(decimal(r), w) + seq![' ', '|'] + body_cells(
            table,
            n,
            w,
            r,
            n,
        ).push('\n')
    }
}

/// The operation table as printed: a header row of column labels, a rule,
/// and one line per row, every field right-aligned to the width of `n - 1`.
pub open spec fn table_text(n: nat, table: Seq<u8>) -> Seq<char> {
    let w = decimal((n - 1) as nat).len();
    padded(seq!['◇'], w) + seq![' ', '|'] + header_cells(w, n).push('\n') + repeat_char('-', w)
        + seq!['-', '+'] + repeat_char('-', ((w + 1) * n) as nat).push('\n') + body_rows(
        table,
        n,
        w,
        n,
    )
}

#[derive(Debug, PartialEq, Eq, Hash)]
pub struct Magma {
    n: usize,
    table: Vec<u8>,
}

impl Magma {
    #[verifier::type_invariant]
    spec fn well_formed(&self) -> bool {
        &&& valid_magma(self.n as nat, self.table@)
        &&& self.table@.len() <= usize::MAX
    }

    /// Number of elements.
    pub closed spec fn carrier(&self) -> nat {
        self.n as nat
    }

    /// The row-major operation table.
    pub closed spec fn cells(&self) -> Seq<u8> {
        self.table@
    }

    /// `table` is row-major: `table[a * n + b]` is `a ◇ b`.
    pub fn new(n: usize, table: Vec<u8>) -> (r: Result<Magma, String>)
        requires
            n * n <= usize::MAX,
        ensures
            match r {
                Ok(m) => valid_magma(n as nat, table@) && m.carrier() == n && m.cells() == table@,
                Err(e) => !valid_magma(n as nat, table@) && e@ == if n == 0 {
                    "a magma needs at least one element"@
                } else if table@.len() != n * n {
                    shape_error(n as nat, table@.len())
                } else {
                    entry_error(n as nat, table@[first_bad_entry(n as nat, table@)->0] as nat)
                },
            },
    {
        if n == 0 {
            return Err(String::from_str("a magma needs at least one element"));
        }
        let len = table.len();
        if len != n * n {
            let mut e = String::from_str("expected ");
            push_decimal(&mut e, (n * n) as u64);
            push_str(&mut e, " table entries for size ");
            push_decimal(&mut e, n as u64);
            push_str(&mut e, ", got ");
            push_decimal(&mut e, len as u64);
            return Err(e);
        }
        let mut i: usize = 0;
        while i < len
            invariant
                i <= len,
                len == table@.len(),
                len == n * n,
                n >= 1,
                forall|j: int| 0 <= j < i ==> #[trigger] table@[j] < n,
            decreases len - i,
        {
            let v = table[i];
            if v as usize >= n {
                let mut e = String::from_str("table entry ");
                push_decimal(&mut e, v as u64);
                push_str(&mut e, " is not an element of a size-");
                push_decimal(&mut e, n as u64);
                push_str(&mut e, " magma");
                proof {
                    let bad = first_bad_entry(n as nat, table@);
                    assert(table@[i as int] >= n);
                    let c = choose|c: int|
                        0 <= c < table@.len() && #[trigger] table@[c] >= n && forall|j: int|
                            0 <= j < c ==> #[trigger] table@[j] < n;
                    assert(c == i) by {
                        if c < i {
                            assert(table@[c] < n);
                        }
                        if c > i {
                            assert(table@[i as int] < n);
                        }
                    }
                    assert(bad == Some(i as int));
                    assert(e@ =~= entry_error(n as nat, v as nat));
                }
                return Err(e);
            }
            i = i + 1;
        }
        Ok(Magma { n, table })
    }

    /// Number of elements.
    pub fn size(&self) -> (n: usize)
        ensures
            n == self.carrier(),
            valid_magma(self.carrier(), self.cells()),
            self.carrier() * self.carrier() <= usize::MAX,
    {
        proof {
            use_type_invariant(self);
        }
        self.n
    }

    /// The row-major operation table.
    pub fn table(&self) -> (t: &[u8])
        ensures
            t@ == self.cells(),
            valid_magma(self.carrier(), self.cells()),
    {
        proof {
            use_type_invariant(self);
        }
        self.table.as_slice()
    }

    /// `a ◇ b`.
    pub fn op(&self, a: usize, b: usize) -> (r: usize)
        requires
            a < self.carrier(),
            b < self.carrier(),
        ensures
            r == self.cells()[a * self.carrier() + b],
            r < self.carrier(),
    {
        proof {
            use_type_invariant(self);
            lemma_cell_index(a as int, b as int, self.n as int);
        }
        self.table[a * self.n + b] as usize
    }

    /// Rows separated by `|`, e.g. `0 1|1 0`.
    pub fn compact(&self) -> (s: String)
        ensures
            s@ == compact_rows(self.cells(), self.carrier(), self.carrier()),
    {
        proof {
            use_type_invariant(self);
        }
        let n = self.n;
        let len = self.table.len();
        let mut out = String::new();
        let mut a: usize = 0;
        while a < n
            invariant
                a <= n,
                n == self.n,
                valid_magma(n as nat, self.table@),
                len == self.table@.len(),
                out@ == compact_rows(self.table@, n as nat, a as nat),
            decreases n - a,
        {
            let ghost before = out@;
            if a > 0 {
                push_char(&mut out, '|');
            }
            let ghost start = out@;
            let mut b: usize = 0;
            while b < n
                invariant
                    a < n,
                    b <= n,
                    n == self.n,
                    valid_magma(n as nat, self.table@),
                    len == self.table@.len(),
                len == self.table@.len(),
                    out@ == start + row_entries(self.table@, n as nat, a as nat, b as nat),
                decreases n - b,
            {
                if b > 0 {
                    push_char(&mut out, ' ');
                }
                proof {
                    lemma_cell_index(a as int, b as int, n as int);
                }
                push_decimal(&mut out, self.table[a * n + b] as u64);
                b = b + 1;
                assert(out@ =~= start + row_entries(self.table@, n as nat, a as nat, b as nat));
            }
            a = a + 1;
            assert(out@ =~= compact_rows(self.table@, n as nat, a as nat));
        }
        out
    }

    /// The operation table as a bordered grid, one row per line.
    pub fn to_string(&self) -> (s: String)
        ensures
            s@ == table_text(self.carrier(), self.cells()),
    {
        proof {
            use_type_invariant(self);
        }
        let n = self.n;
        let len = self.table.len();
        let w = decimal_len((n - 1) as u64);
        proof {
            assert((w + 1) * n <= usize::MAX) by (nonlinear_arith)
                requires
                    w <= 20,
                    n >= 1,
                    n * n <= usize::MAX,
            ;
        }
        let mut out = String::new();
        if w > 1 {
            push_repeat(&mut out, ' ', w - 1);
        }
        push_char(&mut out, '◇');
        push_char(&mut out, ' ');
        push_char(&mut out, '|');
        assert(out@ =~= padded(seq!['◇'], w as nat) + seq![' ', '|']);
        let ghost head = out@;
        let mut b: usize = 0;
        while b < n
            invariant
                b <= n,
                n == self.n,
                out@ == head + header_cells(w as nat, b as nat),
            decreases n - b,
        {
            push_char(&mut out, ' ');
            push_padded_decimal(&mut out, b as u64, w);
            b = b + 1;
            assert(out@ =~= head + header_cells(w as nat, b as nat));
        }
        push_char(&mut out, '\n');
        push_repeat(&mut out, '-', w);
        push_char(&mut out, '-');
        push_char(&mut out, '+');
        push_repeat(&mut out, '-', (w + 1) * n);
        push_char(&mut out, '\n');
        let ghost top = out@;
        let mut a: usize = 0;
        while a < n
            invariant
                a <= n,
                n == self.n,
                valid_magma(n as nat, self.table@),
                len == self.table@.len(),
                out@ == top + body_rows(self.table@, n as nat, w as nat, a as nat),
            decreases n - a,
        {
            push_padded_decimal(&mut out, a as u64, w);
            push_char(&mut out, ' ');
            push_char(&mut out, '|');
            let ghost start = out@;
            let mut b: usize = 0;
            while b < n
                invariant
                    a < n,
                    b <= n,
                    n == self.n,
                    valid_magma(n as nat, self.table@),
                    len == self.table@.len(),
                len == self.table@.len(),
                    out@ == start + body_cells(self.table@, n as nat, w as nat, a as nat, b as nat),
                decreases n - b,
            {
                proof {
                    lemma_cell_index(a as int, b as int, n as int);
                }
                push_char(&mut out, ' ');
                push_padded_decimal(&mut out, self.table[a * n + b] as u64, w);
                b = b + 1;
                assert(out@ =~= start + body_cells(
                    self.table@,
                    n as nat,
                    w as nat,
                    a as nat,
                    b as nat,
                ));
            }
            push_char(&mut out, '\n');
            a = a + 1;
            assert(out@ =~= top + body_rows(self.table@, n as nat, w as nat, a as nat));
        }
        assert(out@ =~= table_text(n as nat, self.table@));
        out
    }
}

impl Clone for Magma {
    fn clone(&self) -> (m: Magma)
        ensures
            m.carrier() == self.carrier(),
            m.cells() == self.cells(),
    {
        proof {
            use_type_invariant(self);
        }
        let table = self.table.clone();
        assert(table@ =~= self.table@);
        Magma { n: self.n, table }
    }
}

/// Cell `(a, b)` of an `n × n` table lies inside it.
pub proof fn lemma_cell_index(a: int, b: int, n: int)
    requires
        0 <= a < n,
        0 <= b < n,
    ensures
        0 <= a * n + b < n * n,
{
    assert(0 <= a * n + b < n * n) by (nonlinear_arith)
        requires
            0 <= a < n,
            0 <= b < n,
    ;
}

} // verus!
