//! Backtracking model finder for a single hypothesis law.
//!
//! The table is filled one cell at a time. Every ground instance of the
//! hypothesis sits on the watch list of the first unknown cell its evaluation
//! needs; assigning a cell re-evaluates only that list, so an instance is
//! checked exactly when its evaluation may have become determined.

use vstd::prelude::*;
use crate::eval::{lemma_power_pos, lemma_instance_valid, lemma_instance_of, lemma_status_extends, lemma_status_complete, extends, complete_table, instance_assignment, law_holds, partial_table, power, status_of, valid_assignment, CompiledLaw, Status, UNKNOWN};
use crate::law::{position_of, Term};
use crate::text::{decimal, push_decimal, push_str};

verus! {

/// Searches refuse to materialise more ground instances than this.
pub const MAX_INSTANCES: u64 = 4194304;

#[derive(Clone, Copy, Debug, PartialEq, Eq, Structural)]
pub struct Options {
    /// Only accept tables that are lexicographically least in their
    /// isomorphism class (one representative per class).
    pub symmetry: bool,
    /// Pick the unassigned cell with the most pending instances next;
    /// otherwise fill cells in row-major order.
    pub most_constrained: bool,
}

impl Default for Options {
    fn default() -> (o: Options)
        ensures
            o.symmetry,
            o.most_constrained,
    {
        Options { symmetry: true, most_constrained: true }
    }
}

impl Options {
    pub fn no_symmetry() -> (o: Options)
        ensures
            !o.symmetry,
            o.most_constrained,
    {
        Options { symmetry: false, most_constrained: true }
    }
}

#[derive(Clone, Copy, Debug, PartialEq, Eq, Structural)]
pub struct Stats {
    /// Cell assignments tried.
    pub nodes: u64,
    /// Complete tables reached (models of the hypothesis).
    pub leaves: u64,
}

impl Default for Stats {
    fn default() -> (s: Stats)
        ensures
            s.nodes == 0,
            s.leaves == 0,
    {
        Stats { nodes: 0, leaves: 0 }
    }
}

#[derive(Clone, Copy, Debug, PartialEq, Eq, Structural)]
pub enum Flow {
    Continue,
    Stop,
}

/// Whether a search of a law with `k` variables at size `n` is within bounds:
/// `1 <= n <= 16` and at most [`MAX_INSTANCES`] ground instances.
pub open spec fn size_ok(k: nat, n: int) -> bool {
    1 <= n <= 16 && power(n, k) <= MAX_INSTANCES
}

/// `x`, or `u64::MAX` when `x` is larger.
pub open spec fn saturated(x: int) -> nat {
    if x > u64::MAX { u64::MAX as nat } else if x < 0 { 0 } else { x as nat }
}

/// Message for a size outside `1..=16`.
pub open spec fn range_error(n: int) -> Seq<char> {
    "size "@ + decimal(n as nat) + " is out of range (1..=16)"@
}

/// Message for a law with too many ground instances at size `n`.
pub open spec fn count_error(k: nat, n: int) -> Seq<char> {
    "a law with "@ + decimal(k) + " variables has "@ + decimal(saturated(power(n, k)))
        + " ground instances at size "@ + decimal(n as nat) + "; the limit is "@ + decimal(
        MAX_INSTANCES as nat,
    )
}

/// Why a search of a law with `k` variables at size `n` is refused.
pub open spec fn size_message(k: nat, n: int) -> Seq<char> {
    if n < 1 || n > 16 {
        range_error(n)
    } else {
        count_error(k, n)
    }
}

/// Checks that a search of `law` at size `n` stays within [`MAX_INSTANCES`].
pub fn check_size(law: &CompiledLaw, n: usize) -> (r: Result<(), String>)
    ensures
        r is Ok <==> size_ok(law.nvars as nat, n as int),
        r matches Err(e) ==> e@ == size_message(law.nvars as nat, n as int),
{
    if n == 0 || n > 16 {
        let mut e = String::new();
        push_str(&mut e, "size ");
        push_decimal(&mut e, n as u64);
        push_str(&mut e, " is out of range (1..=16)");
        assert(e@ =~= range_error(n as int));
        return Err(e);
    }
    let count = law.instance_count(n);
    if count > MAX_INSTANCES {
        let mut e = String::new();
        push_str(&mut e, "a law with ");
        push_decimal(&mut e, law.nvars as u64);
        push_str(&mut e, " variables has ");
        push_decimal(&mut e, count);
        push_str(&mut e, " ground instances at size ");
        push_decimal(&mut e, n as u64);
        push_str(&mut e, "; the limit is ");
        push_decimal(&mut e, MAX_INSTANCES);
        assert(e@ =~= count_error(law.nvars as nat, n as int));
        return Err(e);
    }
    Ok(())
}

/// `p` lists each element of `0..n` exactly once.
pub open spec fn is_permutation(p: Seq<u8>, n: int) -> bool {
    &&& p.len() == n
    &&& forall|i: int| 0 <= i < p.len() ==> #[trigger] p[i] < n
    &&& p.no_duplicates()
}

/// `p` maps every element to itself.
pub open spec fn is_identity(p: Seq<u8>) -> bool {
    forall|i: int| 0 <= i < p.len() ==> #[trigger] p[i] == i
}

/// The row-major position whose value, renamed by `sigma`, lands at position
/// `q` of the renamed table: the cell `(sigma⁻¹(q / n), sigma⁻¹(q % n))`.
pub open spec fn relabel_source(sigma: Seq<u8>, n: int, q: int) -> int {
    position_of(sigma, (q / n) as u8) * n + position_of(sigma, (q % n) as u8)
}

/// The table of the isomorphic magma obtained by renaming each element `a`
/// to `sigma[a]`: `sigma[a] ◇ sigma[b] = sigma[a ◇ b]`.
pub open spec fn relabelled(table: Seq<u8>, sigma: Seq<u8>, n: int) -> Seq<u8> {
    Seq::new(table.len(), |q: int| sigma[table[relabel_source(sigma, n, q)] as int])
}

/// `a` is lexicographically at most `b` (same length).
pub open spec fn lex_le(a: Seq<u8>, b: Seq<u8>) -> bool {
    a == b || exists|p: int|
        0 <= p < a.len() && #[trigger] a[p] < b[p] && forall|q: int| 0 <= q < p ==> a[q] == b[q]
}

/// The table is the lexicographically least table of its isomorphism class.
pub open spec fn is_lex_leader(table: Seq<u8>, n: int) -> bool {
    forall|sigma: Seq<u8>|
        is_permutation(sigma, n) ==> lex_le(table, #[trigger] relabelled(table, sigma, n))
}

/// The partial comparison of a table with its renaming: walking positions
/// from `p` in row-major order and stopping at the first position where
/// either side is still unknown, the renamed table is found strictly smaller.
pub open spec fn relabelling_smaller(table: Seq<u8>, sigma: Seq<u8>, source: Seq<usize>, p: int) -> bool
    decreases table.len() - p,
{
    if p < 0 || p >= table.len() {
        false
    } else {
        let t = table[p];
        let s = table[source[p] as int];
        if t == UNKNOWN || s == UNKNOWN {
            false
        } else if t < sigma[s as int] {
            false
        } else if t > sigma[s as int] {
            true
        } else {
            relabelling_smaller(table, sigma, source, p + 1)
        }
    }
}

/// `source` holds the renaming source of every position of an `n × n` table.
pub open spec fn sources_of(sigma: Seq<u8>, source: Seq<usize>, n: int) -> bool {
    &&& source.len() == n * n
    &&& forall|q: int| 0 <= q < n * n ==> #[trigger] source[q] == relabel_source(sigma, n, q)
}

/// A table the search accepts: a complete table on which the law holds,
/// and, with symmetry breaking, the least of its isomorphism class.
pub open spec fn accepted(lhs: Term, rhs: Term, k: nat, n: int, symmetry: bool, table: Seq<u8>) -> bool {
    &&& complete_table(table, n)
    &&& law_holds(lhs, rhs, k as int, n, table)
    &&& (symmetry ==> is_lex_leader(table, n))
}

/// Row and column of a position of an `n × n` table are in `0..n`.
pub proof fn lemma_row_col(q: int, n: int)
    requires
        n >= 1,
        0 <= q < n * n,
    ensures
        0 <= q / n < n,
        0 <= q % n < n,
{
    vstd::arithmetic::div_mod::lemma_div_pos_is_pos(q, n);
    vstd::arithmetic::div_mod::lemma_mod_pos_bound(q, n);
    vstd::arithmetic::div_mod::lemma_div_is_ordered(q, n * n - 1, n);
    assert(n * n - 1 == (n - 1) * n + (n - 1)) by (nonlinear_arith);
    vstd::arithmetic::div_mod::lemma_fundamental_div_mod_converse(n * n - 1, n, n - 1, n - 1);
}

pub proof fn lemma_relabel_source_range(sigma: Seq<u8>, n: int, q: int)
    requires
        1 <= n <= 255,
        is_permutation(sigma, n),
        0 <= q < n * n,
    ensures
        0 <= relabel_source(sigma, n, q) < n * n,
{
    lemma_row_col(q, n);
    lemma_permutation_has(sigma, n, (q / n) as u8);
    lemma_permutation_has(sigma, n, (q % n) as u8);
    crate::law::lemma_position_of_bound(sigma, (q / n) as u8);
    crate::law::lemma_position_of_bound(sigma, (q % n) as u8);
    let (x, y) = (position_of(sigma, (q / n) as u8), position_of(sigma, (q % n) as u8));
    assert(x * n + y < n * n) by (nonlinear_arith)
        requires
            0 <= x < n,
            0 <= y < n,
    ;
    assert(0 <= x * n + y) by (nonlinear_arith)
        requires
            0 <= x,
            0 <= y,
            0 <= n,
    ;
}

/// A permutation of `0..n` holds every element of `0..n`.
pub proof fn lemma_permutation_has(sigma: Seq<u8>, n: int, v: u8)
    requires
        is_permutation(sigma, n),
        v < n,
    ensures
        sigma.contains(v),
{
    if !sigma.contains(v) {
        let s = sigma.to_set();
        let full = vstd::set_lib::set_int_range(0, n);
        let f = |x: u8| x as int;
        vstd::set_lib::lemma_int_range(0, n);
        sigma.unique_seq_to_set();
        assert(s.map(f).subset_of(full.remove(v as int))) by {
            assert forall|i: int| s.map(f).contains(i) implies full.remove(v as int).contains(i) by {
                let x = choose|x: u8| s.contains(x) && f(x) == i;
                let k = choose|k: int| 0 <= k < sigma.len() && sigma[k] == x;
                assert(sigma[k] < n);
            }
        }
        assert(vstd::relations::injective_on(f, s)) by {
            assert forall|x: u8, y: u8| s.contains(x) && s.contains(y) && f(x) == f(y) implies x == y by {}
        }
        vstd::set_lib::lemma_map_size(s, s.map(f), f);
        vstd::set_lib::lemma_len_subset(s.map(f), full.remove(v as int));
    }
}

/// Renaming by the identity changes nothing.
pub proof fn lemma_relabel_identity(table: Seq<u8>, sigma: Seq<u8>, n: int)
    requires
        complete_table(table, n),
        is_permutation(sigma, n),
        is_identity(sigma),
    ensures
        relabelled(table, sigma, n) == table,
{
    assert forall|x: u8| x < n implies position_of(sigma, x) == x as int by {
        assert(sigma[x as int] == x);
        crate::law::lemma_position_of(sigma, x as int);
    }
    assert forall|q: int| 0 <= q < table.len() implies relabelled(table, sigma, n)[q] == table[q] by {
        vstd::arithmetic::div_mod::lemma_fundamental_div_mod(q, n);
        lemma_row_col(q, n);
        assert(position_of(sigma, (q / n) as u8) == q / n);
        assert(position_of(sigma, (q % n) as u8) == q % n);
        assert(relabel_source(sigma, n, q) == q) by (nonlinear_arith)
            requires
                relabel_source(sigma, n, q) == (q / n) * n + q % n,
                q == n * (q / n) + q % n,
        ;
        assert(table[q] < n);
        assert(sigma[table[q] as int] == table[q]);
    }
    assert(relabelled(table, sigma, n) =~= table);
}

/// On a complete table the partial comparison decides the first difference.
proof fn lemma_smaller_complete_from(table: Seq<u8>, sigma: Seq<u8>, source: Seq<usize>, n: int, p: int)
    requires
        complete_table(table, n),
        is_permutation(sigma, n),
        sources_of(sigma, source, n),
        0 <= p <= table.len(),
    ensures
        relabelling_smaller(table, sigma, source, p) <==> exists|r: int|
            p <= r < table.len() && #[trigger] table[r] > relabelled(table, sigma, n)[r] && forall|q: int|
                p <= q < r ==> table[q] == relabelled(table, sigma, n)[q],
    decreases table.len() - p,
{
    let rt = relabelled(table, sigma, n);
    if p < table.len() {
        lemma_smaller_complete_from(table, sigma, source, n, p + 1);
        lemma_relabel_source_range(sigma, n, p);
        let s = table[source[p] as int];
        assert(s < n);
        assert(rt[p] == sigma[s as int]);
        if table[p] > rt[p] {
        } else if table[p] < rt[p] {
            if exists|r: int|
                p <= r < table.len() && #[trigger] table[r] > rt[r] && forall|q: int| p <= q < r ==> table[q] == rt[q] {
                let r = choose|r: int|
                    p <= r < table.len() && #[trigger] table[r] > rt[r] && forall|q: int| p <= q < r ==> table[q] == rt[q];
                assert(r == p);
            }
        } else {
            if exists|r: int|
                p <= r < table.len() && #[trigger] table[r] > rt[r] && forall|q: int| p <= q < r ==> table[q] == rt[q] {
                let r = choose|r: int|
                    p <= r < table.len() && #[trigger] table[r] > rt[r] && forall|q: int| p <= q < r ==> table[q] == rt[q];
                assert(r > p);
                assert(p + 1 <= r < table.len() && table[r] > rt[r] && forall|q: int| p + 1 <= q < r ==> table[q] == rt[q]);
            }
            if exists|r: int|
                p + 1 <= r < table.len() && #[trigger] table[r] > rt[r] && forall|q: int| p + 1 <= q < r ==> table[q] == rt[q] {
                let r = choose|r: int|
                    p + 1 <= r < table.len() && #[trigger] table[r] > rt[r] && forall|q: int| p + 1 <= q < r ==> table[q] == rt[q];
                assert(forall|q: int| p <= q < r ==> table[q] == rt[q]);
            }
        }
    }
}

/// Either two sequences agree from `p` on, or there is a first difference.
pub proof fn lemma_first_difference(a: Seq<u8>, b: Seq<u8>, p: int)
    requires
        a.len() == b.len(),
        0 <= p <= a.len(),
    ensures
        (forall|q: int| p <= q < a.len() ==> a[q] == b[q]) || exists|r: int|
            p <= r < a.len() && #[trigger] a[r] != b[r] && forall|q: int| p <= q < r ==> a[q] == b[q],
    decreases a.len() - p,
{
    if p < a.len() {
        lemma_first_difference(a, b, p + 1);
        if a[p] != b[p] {
            assert(p <= p < a.len() && a[p] != b[p] && forall|q: int| p <= q < p ==> a[q] == b[q]);
        } else if !(forall|q: int| p + 1 <= q < a.len() ==> a[q] == b[q]) {
            let r = choose|r: int|
                p + 1 <= r < a.len() && #[trigger] a[r] != b[r] && forall|q: int| p + 1 <= q < r ==> a[q] == b[q];
            assert(p <= r < a.len() && a[r] != b[r] && forall|q: int| p <= q < r ==> a[q] == b[q]);
        } else {
            assert(forall|q: int| p <= q < a.len() ==> a[q] == b[q]);
        }
    }
}

/// On a complete table the partial comparison is exact: it finds the
/// renaming smaller exactly when the table is not lexicographically at most it.
pub proof fn lemma_smaller_complete(table: Seq<u8>, sigma: Seq<u8>, source: Seq<usize>, n: int)
    requires
        complete_table(table, n),
        is_permutation(sigma, n),
        sources_of(sigma, source, n),
    ensures
        relabelling_smaller(table, sigma, source, 0) <==> !lex_le(table, relabelled(table, sigma, n)),
{
    let rt = relabelled(table, sigma, n);
    lemma_smaller_complete_from(table, sigma, source, n, 0);
    lemma_first_difference(table, rt, 0);
    if relabelling_smaller(table, sigma, source, 0) {
        let r = choose|r: int|
            0 <= r < table.len() && #[trigger] table[r] > rt[r] && forall|q: int| 0 <= q < r ==> table[q] == rt[q];
        if table == rt {
            assert(table[r] == rt[r]);
        }
        if exists|p: int| 0 <= p < table.len() && #[trigger] table[p] < rt[p] && forall|q: int| 0 <= q < p ==> table[q] == rt[q] {
            let p = choose|p: int| 0 <= p < table.len() && #[trigger] table[p] < rt[p] && forall|q: int| 0 <= q < p ==> table[q] == rt[q];
            if p < r {
                assert(table[p] == rt[p]);
            } else if r < p {
                assert(table[r] == rt[r]);
            }
        }
    } else {
        if forall|q: int| 0 <= q < table.len() ==> table[q] == rt[q] {
            assert(table =~= rt);
        } else {
            let r = choose|r: int|
                0 <= r < table.len() && #[trigger] table[r] != rt[r] && forall|q: int| 0 <= q < r ==> table[q] == rt[q];
            if table[r] > rt[r] {
                assert(exists|r: int| 0 <= r < table.len() && #[trigger] table[r] > rt[r] && forall|q: int| 0 <= q < r ==> table[q] == rt[q]);
            }
            assert(table[r] < rt[r]);
        }
    }
}

/// Once the partial comparison finds the renaming smaller, it does so in
/// every extension of the table.
pub proof fn lemma_smaller_extends(x: Seq<u8>, y: Seq<u8>, sigma: Seq<u8>, source: Seq<usize>, p: int)
    requires
        extends(x, y),
        relabelling_smaller(x, sigma, source, p),
        forall|q: int| 0 <= q < source.len() ==> #[trigger] source[q] < x.len(),
        source.len() == x.len(),
    ensures
        relabelling_smaller(y, sigma, source, p),
    decreases x.len() - p,
{
    if 0 <= p < x.len() {
        let t = x[p];
        let s = x[source[p] as int];
        assert(y[p] == t);
        assert(y[source[p] as int] == s);
        if t == sigma[s as int] {
            lemma_smaller_extends(x, y, sigma, source, p + 1);
        }
    }
}

/// Every permutation of `0..n`, in lexicographic order.
fn permutations(n: usize) -> (out: Vec<Vec<u8>>)
    requires
        n <= 255,
    ensures
        forall|i: int| 0 <= i < out@.len() ==> is_permutation(#[trigger] out@[i]@, n as int),
        forall|p: Seq<u8>|
            is_permutation(p, n as int) ==> exists|i: int| 0 <= i < out@.len() && #[trigger] out@[i]@ == p,
{
    let mut out: Vec<Vec<u8>> = Vec::new();
    let mut prefix: Vec<u8> = Vec::new();
    let mut used: Vec<bool> = vec![false; n];
    proof {
        assert forall|v: int| 0 <= v < n implies (#[trigger] used@[v] <==> prefix@.contains(v as u8)) by {
            assert(!prefix@.contains(v as u8));
        }
    }
    extend_permutations(n, &mut prefix, &mut used, &mut out);
    proof {
        assert forall|p: Seq<u8>| is_permutation(p, n as int) implies exists|i: int|
            0 <= i < out@.len() && #[trigger] out@[i]@ == p by {
            assert(p.take(0) =~= prefix@);
        }
    }
    out
}

fn extend_permutations(n: usize, prefix: &mut Vec<u8>, used: &mut Vec<bool>, out: &mut Vec<Vec<u8>>)
    requires
        n <= 255,
        old(used)@.len() == n,
        old(prefix)@.len() <= n,
        old(prefix)@.no_duplicates(),
        forall|i: int| 0 <= i < old(prefix)@.len() ==> #[trigger] old(prefix)@[i] < n,
        forall|v: int| 0 <= v < n ==> (#[trigger] old(used)@[v] <==> old(prefix)@.contains(v as u8)),
    ensures
        final(prefix)@ == old(prefix)@,
        final(used)@ == old(used)@,
        final(out)@.len() >= old(out)@.len(),
        forall|i: int| 0 <= i < old(out)@.len() ==> #[trigger] final(out)@[i] == old(out)@[i],
        forall|i: int|
            old(out)@.len() <= i < final(out)@.len() ==> is_permutation(#[trigger] final(out)@[i]@, n as int)
                && final(out)@[i]@.take(old(prefix)@.len() as int) == old(prefix)@,
        forall|p: Seq<u8>|
            is_permutation(p, n as int) && p.take(old(prefix)@.len() as int) == old(prefix)@ ==> exists|i: int|
                old(out)@.len() <= i < final(out)@.len() && #[trigger] final(out)@[i]@ == p,
    decreases n - old(prefix)@.len(),
{
    let ghost out0 = out@;
    let ghost pre = prefix@;
    if prefix.len() == n {
        out.push(prefix.clone());
        proof {
            assert(out@[out0.len() as int]@ == pre);
            assert(pre.take(pre.len() as int) =~= pre);
            assert forall|p: Seq<u8>|
                is_permutation(p, n as int) && p.take(pre.len() as int) == pre implies exists|i: int|
                    out0.len() <= i < out@.len() && #[trigger] out@[i]@ == p by {
                assert(p =~= p.take(pre.len() as int));
                assert(out@[out0.len() as int]@ == p);
            }
        }
        return;
    }
    let mut v: usize = 0;
    while v < n
        invariant
            n <= 255,
            prefix@ == pre,
            pre == old(prefix)@,
            used@ == old(used)@,
            used@.len() == n,
            pre.len() < n,
            pre.no_duplicates(),
            forall|i: int| 0 <= i < pre.len() ==> #[trigger] pre[i] < n,
            forall|w: int| 0 <= w < n ==> (#[trigger] used@[w] <==> pre.contains(w as u8)),
            v <= n,
            out@.len() >= out0.len(),
            forall|i: int| 0 <= i < out0.len() ==> #[trigger] out@[i] == out0[i],
            forall|i: int|
                out0.len() <= i < out@.len() ==> is_permutation(#[trigger] out@[i]@, n as int)
                    && out@[i]@.take(pre.len() as int) == pre,
            forall|p: Seq<u8>|
                is_permutation(p, n as int) && p.take(pre.len() as int) == pre && p[pre.len() as int] < v
                    ==> exists|i: int| out0.len() <= i < out@.len() && #[trigger] out@[i]@ == p,
        decreases n - v,
    {
        if !used[v] {
            let ghost out1 = out@;
            used.set(v, true);
            prefix.push(v as u8);
            proof {
                let np = prefix@;
                assert(np == pre.push(v as u8));
                assert(!pre.contains(v as u8));
                assert forall|i: int, j: int| 0 <= i < np.len() && 0 <= j < np.len() && i != j implies np[i] != np[j] by {
                    if i == pre.len() as int {
                        assert(np[j] == pre[j]);
                    } else if j == pre.len() as int {
                        assert(np[i] == pre[i]);
                    }
                }
                assert forall|w: int| 0 <= w < n implies (#[trigger] used@[w] <==> np.contains(w as u8)) by {
                    if np.contains(w as u8) && w != v {
                        let k = choose|k: int| 0 <= k < np.len() && np[k] == w as u8;
                        assert(k < pre.len());
                        assert(pre[k] == w as u8);
                    }
                    if w != v && pre.contains(w as u8) {
                        let k = choose|k: int| 0 <= k < pre.len() && pre[k] == w as u8;
                        assert(np[k] == w as u8);
                    }
                    if w == v {
                        assert(np[pre.len() as int] == v as u8);
                    }
                }
            }
            extend_permutations(n, prefix, used, out);
            prefix.pop();
            used.set(v, false);
            proof {
                assert(prefix@ =~= pre);
                assert(used@ =~= old(used)@);
                let np = pre.push(v as u8);
                assert forall|i: int| 0 <= i < out0.len() implies #[trigger] out@[i] == out0[i] by {
                    assert(out@[i] == out1[i]);
                }
                assert forall|i: int| out0.len() <= i < out@.len() implies is_permutation(
                    #[trigger] out@[i]@,
                    n as int,
                ) && out@[i]@.take(pre.len() as int) == pre by {
                    if i >= out1.len() {
                        assert(out@[i]@.take(np.len() as int) == np);
                        assert(out@[i]@.take(pre.len() as int) =~= np.take(pre.len() as int));
                        assert(np.take(pre.len() as int) =~= pre);
                    } else {
                        assert(out@[i] == out1[i]);
                    }
                }
                assert forall|p: Seq<u8>|
                    is_permutation(p, n as int) && p.take(pre.len() as int) == pre && p[pre.len() as int]
                        < v + 1 implies exists|i: int|
                    out0.len() <= i < out@.len() && #[trigger] out@[i]@ == p by {
                    if p[pre.len() as int] == v {
                        assert(p.take(np.len() as int) =~= np) by {
                            assert forall|j: int| 0 <= j < np.len() implies p.take(np.len() as int)[j] == np[j] by {
                                if j < pre.len() {
                                    assert(p.take(pre.len() as int)[j] == p[j]);
                                }
                            }
                        }
                    } else {
                        let i = choose|i: int| out0.len() <= i < out1.len() && #[trigger] out1[i]@ == p;
                        assert(out@[i] == out1[i]);
                    }
                }
            }
        } else {
            proof {
                assert forall|p: Seq<u8>|
                    is_permutation(p, n as int) && p.take(pre.len() as int) == pre && p[pre.len() as int]
                        < v + 1 implies exists|i: int|
                    out0.len() <= i < out@.len() && #[trigger] out@[i]@ == p by {
                    if p[pre.len() as int] == v {
                        assert(used@[v as int]);
                        let k = choose|k: int| 0 <= k < pre.len() && pre[k] == v as u8;
                        assert(p.take(pre.len() as int)[k] == p[k]);
                        assert(p[k] == p[pre.len() as int]);
                    }
                }
            }
        }
        v = v + 1;
    }
    proof {
        assert forall|p: Seq<u8>|
            is_permutation(p, n as int) && p.take(pre.len() as int) == pre implies exists|i: int|
                out0.len() <= i < out@.len() && #[trigger] out@[i]@ == p by {
            assert(p[pre.len() as int] < n);
        }
    }
}

/// Finds the models of one law at one size, one complete table at a time.
pub struct Search<'a> {
    n: usize,
    law: &'a CompiledLaw,
    opts: Options,
    table: Vec<u8>,
    filled: usize,
    assigns: Vec<u8>,
    watch: Vec<Vec<u32>>,
    trail: Vec<u32>,
    stack: Vec<u8>,
    perms: Vec<Perm>,
    infeasible: bool,
    frames: Vec<Frame>,
    phase: Phase,
    pub stats: Stats,
    found: Ghost<Seq<Seq<u8>>>,
    levels: Ghost<Seq<Seq<(usize, u32)>>>,
    base: Ghost<Seq<Seq<u32>>>,
}

struct Perm {
    sigma: Vec<u8>,
    /// For each row-major position p, the position q with sigma(q) = p.
    source: Vec<usize>,
}

/// One open decision of the depth-first walk: the cell, the value being
/// tried there, and the trail length before that value was assigned.
#[derive(Clone, Copy)]
struct Frame {
    cell: usize,
    value: u8,
    mark: usize,
}

#[derive(Clone, Copy, PartialEq, Eq, Structural)]
enum Phase {
    Start,
    AtLeaf,
    Done,
}

/// The status of instance number `inst`.
pub open spec fn instance_status(lhs: Term, rhs: Term, k: nat, n: int, table: Seq<u8>, inst: int) -> Status {
    status_of(lhs, rhs, n, table, instance_assignment(inst, k, n))
}

/// Every one of the `count` instances holds, or waits on the list of the
/// cell it is blocked on.
pub open spec fn watched(
    lhs: Term,
    rhs: Term,
    k: nat,
    n: int,
    count: int,
    table: Seq<u8>,
    watch: Seq<Seq<u32>>,
) -> bool {
    forall|inst: int|
        0 <= inst < count ==> match #[trigger] instance_status(lhs, rhs, k, n, table, inst) {
            Status::Holds => true,
            Status::Fails => false,
            Status::Blocked(c) => c < watch.len() && watch[c as int].contains(inst as u32),
        }
}

spec fn watch_view(w: Seq<Vec<u32>>) -> Seq<Seq<u32>> {
    w.map_values(|v: Vec<u32>| v@)
}

/// Watch lists after appending each `(cell, instance)` pair in order.
spec fn apply_pushes(w: Seq<Seq<u32>>, pushes: Seq<(usize, u32)>) -> Seq<Seq<u32>>
    decreases pushes.len(),
{
    if pushes.len() == 0 {
        w
    } else {
        let prev = apply_pushes(w, pushes.drop_last());
        let c = pushes.last().0 as int;
        prev.update(c, prev[c].push(pushes.last().1))
    }
}

spec fn trail_cells(pushes: Seq<(usize, u32)>) -> Seq<u32> {
    pushes.map_values(|p: (usize, u32)| p.0 as u32)
}

spec fn concat_levels(levels: Seq<Seq<(usize, u32)>>) -> Seq<(usize, u32)>
    decreases levels.len(),
{
    if levels.len() == 0 {
        Seq::empty()
    } else {
        concat_levels(levels.drop_last()) + levels.last()
    }
}

/// A table of `size` unknown cells.
pub open spec fn empty_table(size: nat) -> Seq<u8> {
    Seq::new(size, |i: int| UNKNOWN)
}

/// Some ground instance of the law already fails on the table with no cell
/// known: both sides evaluate without reading a cell, to different elements.
/// Then the law has no model of size `n`, and a search tries no assignment.
pub open spec fn refuted_on_empty(law: CompiledLaw, n: int) -> bool {
    sides_refuted_on_empty(law.lhs.term(), law.rhs.term(), law.nvars as nat, n)
}

/// [`refuted_on_empty`] for the law `lhs = rhs` over `k` variables.
pub open spec fn sides_refuted_on_empty(lhs: Term, rhs: Term, k: nat, n: int) -> bool {
    exists|a: Seq<u8>|
        valid_assignment(a, k as int, n) && #[trigger] status_of(lhs, rhs, n, empty_table((n * n) as nat), a)
            == Status::Fails
}

/// What adding `counts` one by one with `saturating_add` on a `u64` gives.
pub open spec fn capped_sum(counts: Seq<int>) -> nat
    decreases counts.len(),
{
    if counts.len() == 0 {
        0
    } else {
        saturated(capped_sum(counts.drop_last()) + counts.last())
    }
}

/// The empty table with the first `j` frames assigned.
spec fn table_after(frames: Seq<Frame>, j: int, size: nat) -> Seq<u8>
    decreases j,
{
    if j <= 0 {
        empty_table(size)
    } else {
        table_after(frames, j - 1, size).update(frames[j - 1].cell as int, frames[j - 1].value)
    }
}

/// `m` takes the values of the first `j` frames.
spec fn agrees(m: Seq<u8>, frames: Seq<Frame>, j: int) -> bool {
    forall|i: int| 0 <= i < j ==> #[trigger] m[frames[i].cell as int] == frames[i].value
}

/// `m` lies in a part of the walk already left behind: it follows the first
/// `j` frames and takes a smaller value than frame `j` at its cell.
spec fn explored(m: Seq<u8>, frames: Seq<Frame>, d: int) -> bool {
    exists|j: int| 0 <= j < d && agrees(m, frames, j) && #[trigger] m[frames[j].cell as int] < frames[j].value
}

proof fn lemma_apply_pushes_len(w: Seq<Seq<u32>>, pushes: Seq<(usize, u32)>)
    requires
        forall|j: int| 0 <= j < pushes.len() ==> (#[trigger] pushes[j]).0 < w.len(),
    ensures
        apply_pushes(w, pushes).len() == w.len(),
    decreases pushes.len(),
{
    if pushes.len() > 0 {
        lemma_apply_pushes_len(w, pushes.drop_last());
        assert(pushes.last() == pushes[pushes.len() - 1]);
    }
}

/// Pushes only append: every list of the earlier state is a prefix of the later one.
proof fn lemma_apply_pushes_prefix(w: Seq<Seq<u32>>, x: Seq<(usize, u32)>, y: Seq<(usize, u32)>, c: int)
    requires
        forall|j: int| 0 <= j < x.len() ==> (#[trigger] x[j]).0 < w.len(),
        forall|j: int| 0 <= j < y.len() ==> (#[trigger] y[j]).0 < w.len(),
        0 <= c < w.len(),
    ensures
        apply_pushes(w, x)[c].len() <= apply_pushes(w, x + y)[c].len(),
        apply_pushes(w, x + y)[c].subrange(0, apply_pushes(w, x)[c].len() as int) == apply_pushes(w, x)[c],
    decreases y.len(),
{
    lemma_apply_pushes_len(w, x);
    if y.len() == 0 {
        assert(x + y =~= x);
        assert(apply_pushes(w, x)[c].subrange(0, apply_pushes(w, x)[c].len() as int) =~= apply_pushes(w, x)[c]);
    } else {
        assert((x + y).drop_last() =~= x + y.drop_last());
        assert forall|j: int| 0 <= j < y.drop_last().len() implies (#[trigger] y.drop_last()[j]).0 < w.len() by {
            assert(y.drop_last()[j] == y[j]);
        }
        lemma_apply_pushes_prefix(w, x, y.drop_last(), c);
        assert((x + y).last() == y[y.len() - 1]);
        assert forall|j: int| 0 <= j < (x + y).drop_last().len() implies (#[trigger] (x + y).drop_last()[j]).0 < w.len() by {
            if j < x.len() {
                assert((x + y).drop_last()[j] == x[j]);
            } else {
                assert((x + y).drop_last()[j] == y[j - x.len()]);
            }
        }
        lemma_apply_pushes_len(w, (x + y).drop_last());
        let prev = apply_pushes(w, x + y.drop_last());
        let a = apply_pushes(w, x)[c];
        if (x + y).last().0 as int == c {
            assert(apply_pushes(w, x + y)[c] == prev[c].push((x + y).last().1));
            assert(apply_pushes(w, x + y)[c].subrange(0, a.len() as int) =~= prev[c].subrange(0, a.len() as int));
        }
    }
}

/// Lists of cells that no push touches are unchanged.
proof fn lemma_apply_pushes_untouched(w: Seq<Seq<u32>>, y: Seq<(usize, u32)>, c: int)
    requires
        forall|j: int| 0 <= j < y.len() ==> (#[trigger] y[j]).0 < w.len() && y[j].0 != c,
        0 <= c < w.len(),
    ensures
        apply_pushes(w, y)[c] == w[c],
    decreases y.len(),
{
    if y.len() > 0 {
        assert forall|j: int| 0 <= j < y.drop_last().len() implies (#[trigger] y.drop_last()[j]).0 < w.len() && y.drop_last()[j].0 != c by {
            assert(y.drop_last()[j] == y[j]);
        }
        lemma_apply_pushes_untouched(w, y.drop_last(), c);
        assert(y.last() == y[y.len() - 1]);
        lemma_apply_pushes_len(w, y.drop_last());
    }
}

/// Well-formedness of the parts of a search that never change after construction.
spec fn fixed_parts_ok(
    n: int,
    law: CompiledLaw,
    opts: Options,
    assigns: Seq<u8>,
    perms: Seq<Perm>,
) -> bool {
    &&& 1 <= n <= 16
    &&& law.wf()
    &&& power(n, law.nvars as nat) <= MAX_INSTANCES
    &&& assigns.len() == power(n, law.nvars as nat) * law.nvars
    &&& forall|inst: int|
        0 <= inst < power(n, law.nvars as nat) ==> assigns.subrange(
            inst * law.nvars,
            inst * law.nvars + law.nvars,
        ) == #[trigger] instance_assignment(inst, law.nvars as nat, n)
    &&& (!opts.symmetry ==> perms.len() == 0)
    &&& forall|j: int|
        0 <= j < perms.len() ==> is_permutation(#[trigger] perms[j].sigma@, n) && sources_of(
            perms[j].sigma@,
            perms[j].source@,
            n,
        )
    &&& opts.symmetry ==> forall|sigma: Seq<u8>|
        is_permutation(sigma, n) && !is_identity(sigma) ==> exists|j: int|
            0 <= j < perms.len() && #[trigger] perms[j].sigma@ == sigma
}

impl<'a> Search<'a> {
    /// The compiled law being searched.
    pub closed spec fn compiled(&self) -> CompiledLaw {
        *self.law
    }

    /// The table size.
    pub closed spec fn order(&self) -> usize {
        self.n
    }

    /// The public statistics field. Verus keeps the fields of `Search` private to
    /// this module, so callers elsewhere read it through [`Search::stats`],
    /// whose result is `counters()`.
    pub closed spec fn counters(&self) -> Stats {
        self.stats
    }

    pub closed spec fn options(&self) -> Options {
        self.opts
    }

    /// Tables returned so far by [`Search::next_model`] since the walk began.
    pub closed spec fn found(&self) -> Seq<Seq<u8>> {
        self.found@
    }

    /// A table this search accepts.
    pub open spec fn accepts(&self, table: Seq<u8>) -> bool {
        accepted(
            self.compiled().lhs.term(),
            self.compiled().rhs.term(),
            self.compiled().nvars as nat,
            self.order() as int,
            self.options().symmetry,
            table,
        )
    }

    /// The walk has not started: nothing found yet.
    pub closed spec fn fresh(&self) -> bool {
        self.phase == Phase::Start && self.found@.len() == 0
    }

    /// The walk is over: every accepted table has been found.
    pub closed spec fn exhausted(&self) -> bool {
        self.phase == Phase::Done
    }

    spec fn count(&self) -> int {
        power(self.n as int, self.law.nvars as nat)
    }

    spec fn size(&self) -> nat {
        (self.n * self.n) as nat
    }

    spec fn lhs(&self) -> Term {
        self.law.lhs.term()
    }

    spec fn rhs(&self) -> Term {
        self.law.rhs.term()
    }

    spec fn watched_at(&self, table: Seq<u8>, watch: Seq<Seq<u32>>) -> bool {
        watched(self.lhs(), self.rhs(), self.law.nvars as nat, self.n as int, self.count(), table, watch)
    }

    spec fn pushes_ok(&self, pushes: Seq<(usize, u32)>) -> bool {
        forall|j: int| 0 <= j < pushes.len() ==> (#[trigger] pushes[j]).0 < self.size() && (pushes[j].1 as int) < self.count()
    }

    /// Invariants of the fields that do not depend on the walk's position.
    spec fn basic(&self) -> bool {
        &&& fixed_parts_ok(self.n as int, *self.law, self.opts, self.assigns@, self.perms@)
        &&& self.table@.len() == self.size()
        &&& partial_table(self.table@, self.n as int)
        &&& self.watch@.len() == self.size()
        &&& self.base@.len() == self.size()
        &&& forall|c: int, j: int|
            0 <= c < self.base@.len() && 0 <= j < self.base@[c].len() ==> (#[trigger] self.base@[c][j] as int) < self.count()
        &&& !self.infeasible ==> self.watched_at(empty_table(self.size()), self.base@)
        &&& self.infeasible ==> exists|inst: int|
            0 <= inst < self.count() && #[trigger] instance_status(
                self.lhs(),
                self.rhs(),
                self.law.nvars as nat,
                self.n as int,
                empty_table(self.size()),
                inst,
            ) == Status::Fails
        &&& self.found@.no_duplicates()
        &&& forall|j: int| 0 <= j < self.found@.len() ==> self.accepts(#[trigger] self.found@[j])
    }
}

/// Block `i` of width `k` ends before block `j` starts when `i < j`.
proof fn lemma_blocks(i: int, j: int, k: int, count: int)
    requires
        0 <= i < j,
        j <= count,
        k >= 0,
    ensures
        i * k + k <= j * k,
        j * k <= count * k,
        0 <= i * k,
{
    assert(i * k + k <= j * k) by (nonlinear_arith)
        requires
            0 <= i < j,
            k >= 0,
    ;
    assert(j * k <= count * k) by (nonlinear_arith)
        requires
            j <= count,
            k >= 0,
    ;
    assert(0 <= i * k) by (nonlinear_arith)
        requires
            0 <= i,
            k >= 0,
    ;
}

/// The non-identity permutations of `0..n`, each with the source position of
/// every cell of the renamed table.
fn build_perms(n: usize) -> (perms: Vec<Perm>)
    requires
        1 <= n <= 16,
    ensures
        forall|j: int|
            0 <= j < perms@.len() ==> is_permutation(#[trigger] perms@[j].sigma@, n as int) && sources_of(
                perms@[j].sigma@,
                perms@[j].source@,
                n as int,
            ),
        forall|sigma: Seq<u8>|
            is_permutation(sigma, n as int) && !is_identity(sigma) ==> exists|j: int|
                0 <= j < perms@.len() && #[trigger] perms@[j].sigma@ == sigma,
{
    let all = permutations(n);
    let mut perms: Vec<Perm> = Vec::new();
    let mut idx: usize = 0;
    while idx < all.len()
        invariant
            1 <= n <= 16,
            idx <= all@.len(),
            forall|i: int| 0 <= i < all@.len() ==> is_permutation(#[trigger] all@[i]@, n as int),
            forall|j: int|
                0 <= j < perms@.len() ==> is_permutation(#[trigger] perms@[j].sigma@, n as int)
                    && sources_of(perms@[j].sigma@, perms@[j].source@, n as int),
            forall|i: int|
                0 <= i < idx && !is_identity(#[trigger] all@[i]@) ==> exists|j: int|
                    0 <= j < perms@.len() && perms@[j].sigma@ == all@[i]@,
        decreases all@.len() - idx,
    {
        let sigma = &all[idx];
        let ghost old_perms = perms@;
        assert(is_permutation(sigma@, n as int));
        let mut identity = true;
        let mut i: usize = 0;
        while i < n
            invariant
                i <= n,
                sigma@.len() == n,
                identity <==> forall|j: int| 0 <= j < i ==> #[trigger] sigma@[j] == j,
            decreases n - i,
        {
            if sigma[i] as usize != i {
                identity = false;
            }
            i = i + 1;
        }
        if !identity {
            let mut inv: Vec<usize> = vec![0usize; n];
            let mut i: usize = 0;
            while i < n
                invariant
                    i <= n,
                    inv@.len() == n,
                    is_permutation(sigma@, n as int),
                    forall|j: int| 0 <= j < i ==> #[trigger] inv@[sigma@[j] as int] == j,
                decreases n - i,
            {
                let ghost before = inv@;
                inv.set(sigma[i] as usize, i);
                proof {
                    assert forall|j: int| 0 <= j < i + 1 implies #[trigger] inv@[sigma@[j] as int] == j by {
                        if j < i {
                            assert(sigma@[j] != sigma@[i as int]);
                            assert(inv@[sigma@[j] as int] == before[sigma@[j] as int]);
                        }
                    }
                }
                i = i + 1;
            }
            proof {
                assert forall|x: int| 0 <= x < n implies #[trigger] inv@[x] == position_of(sigma@, x as u8) by {
                    lemma_permutation_has(sigma@, n as int, x as u8);
                    crate::law::lemma_position_of_bound(sigma@, x as u8);
                    let p = position_of(sigma@, x as u8);
                    assert(inv@[sigma@[p] as int] == p);
                }
            }
            let mut source: Vec<usize> = Vec::new();
            let mut p: usize = 0;
            assert(n * n <= 256) by (nonlinear_arith)
                requires
                    n <= 16,
            ;
            let nn = n * n;
            while p < nn
                invariant
                    1 <= n <= 16,
                    nn == n * n,
                    nn <= 256,
                    p <= n * n,
                    inv@.len() == n,
                    is_permutation(sigma@, n as int),
                    forall|x: int| 0 <= x < n ==> #[trigger] inv@[x] == position_of(sigma@, x as u8),
                    source@.len() == p,
                    forall|q: int| 0 <= q < p ==> #[trigger] source@[q] == relabel_source(sigma@, n as int, q),
                decreases n * n - p,
            {
                proof {
                    lemma_row_col(p as int, n as int);
                    lemma_relabel_source_range(sigma@, n as int, p as int);
                    lemma_permutation_has(sigma@, n as int, (p / n) as u8);
                    lemma_permutation_has(sigma@, n as int, (p % n) as u8);
                    crate::law::lemma_position_of_bound(sigma@, (p / n) as u8);
                    crate::law::lemma_position_of_bound(sigma@, (p % n) as u8);
                    let (x, y) = (inv@[(p / n) as int], inv@[(p % n) as int]);
                    assert(x * n + y < n * n) by (nonlinear_arith)
                        requires
                            x < n,
                            y < n,
                    ;
                }
                let v = inv[p / n] * n + inv[p % n];
                source.push(v);
                p = p + 1;
            }
            perms.push(Perm { sigma: sigma.clone(), source });
            proof {
                let last = perms@.len() - 1;
                assert(perms@[last].sigma@ == all@[idx as int]@);
                assert(sources_of(perms@[last].sigma@, perms@[last].source@, n as int));
                assert forall|j: int| 0 <= j < perms@.len() implies is_permutation(#[trigger] perms@[j].sigma@, n as int)
                    && sources_of(perms@[j].sigma@, perms@[j].source@, n as int) by {
                    if j < last {
                        assert(perms@[j] == old_perms[j]);
                    }
                }
            }
        }
        proof {
            assert forall|i: int|
                0 <= i < idx + 1 && !is_identity(#[trigger] all@[i]@) implies exists|j: int|
                    0 <= j < perms@.len() && perms@[j].sigma@ == all@[i]@ by {
                if i == idx {
                    if identity {
                        assert(is_identity(all@[i]@));
                    } else {
                        assert(perms@[perms@.len() - 1].sigma@ == all@[i]@);
                    }
                } else {
                    let j = choose|j: int| 0 <= j < old_perms.len() && old_perms[j].sigma@ == all@[i]@;
                    assert(perms@[j] == old_perms[j]);
                }
            }
        }
        idx = idx + 1;
    }
    proof {
        assert forall|sigma: Seq<u8>| is_permutation(sigma, n as int) && !is_identity(sigma) implies exists|j: int|
            0 <= j < perms@.len() && #[trigger] perms@[j].sigma@ == sigma by {
            let i = choose|i: int| 0 <= i < all@.len() && #[trigger] all@[i]@ == sigma;
            assert(!is_identity(all@[i]@));
        }
    }
    perms
}

impl<'a> Search<'a> {
    /// The representation of a walk with `d` frames of which the first
    /// `assigned` are assigned in the table.
    spec fn walk_ok(&self, d: int, assigned: int) -> bool {
        &&& self.walk_core(d, assigned)
        &&& self.watched_upto(assigned)
    }

    spec fn walk_core(&self, d: int, assigned: int) -> bool {
        &&& self.frames@.len() == d
        &&& self.levels@.len() == assigned
        &&& 0 <= assigned <= d
        &&& forall|j: int| 0 <= j < d ==> (#[trigger] self.frames@[j]).cell < self.size()
        &&& forall|i: int, j: int| 0 <= i < j < d ==> self.frames@[i].cell != self.frames@[j].cell
        &&& forall|j: int| 0 <= j < assigned ==> (#[trigger] self.frames@[j]).value < self.n
        &&& forall|j: int| 0 <= j < d ==> (#[trigger] self.frames@[j]).value <= self.n
        &&& self.table@ == table_after(self.frames@, assigned, self.size())
        &&& self.filled == assigned
        &&& watch_view(self.watch@) == apply_pushes(self.base@, concat_levels(self.levels@))
        &&& self.trail@ == trail_cells(concat_levels(self.levels@))
        &&& d <= assigned + 1
        &&& forall|j: int| 0 <= j < d && j <= assigned ==> (#[trigger] self.frames@[j]).mark == concat_levels(self.levels@.take(j)).len()
        &&& self.pushes_ok(concat_levels(self.levels@))
    }

    /// The watch lists were exact for each of the first `a` assignment prefixes.
    spec fn watched_upto(&self, a: int) -> bool {
        !self.infeasible ==> forall|j: int|
            0 <= j <= a ==> self.watched_at(
                #[trigger] table_after(self.frames@, j, self.size()),
                apply_pushes(self.base@, concat_levels(self.levels@.take(j))),
            )
    }

    /// Tables found so far are exactly the accepted tables the walk has passed.
    spec fn found_ok(&self, d: int, at_leaf: bool) -> bool {
        forall|m: Seq<u8>|
            #[trigger] self.found@.contains(m) <==> self.accepts(m) && (explored(m, self.frames@, d) || (at_leaf
                && m == self.table@))
    }

    /// The search's invariant between calls.
    pub closed spec fn inv(&self) -> bool {
        &&& self.basic()
        &&& match self.phase {
            Phase::Start => self.walk_ok(0, 0) && self.found@.len() == 0,
            Phase::Done => self.walk_ok(0, 0) && forall|m: Seq<u8>|
                #[trigger] self.found@.contains(m) <==> self.accepts(m),
            Phase::AtLeaf => {
                let d = self.frames@.len() as int;
                &&& d >= 1
                &&& !self.infeasible
                &&& self.walk_ok(d, d)
                &&& complete_table(self.table@, self.n as int)
                &&& self.found_ok(d, true)
            },
        }
    }

    /// Prepares a search for models of `law` of size `n`.
    pub fn new(law: &'a CompiledLaw, n: usize, opts: Options) -> (s: Search<'a>)
        requires
            law.wf(),
            size_ok(law.nvars as nat, n as int),
        ensures
            s.inv(),
            s.fresh(),
            s.compiled() == *law,
            s.order() == n,
            s.options() == opts,
            s.counters() == (Stats { nodes: 0, leaves: 0 }),
            s.found().len() == 0,
            s.remaining() == power(n + 2, (n * n) as nat),
    {
        let k = law.nvars;
        let count64 = law.instance_count(n);
        let ghost cnt = power(n as int, k as nat);
        assert(count64 == cnt);
        let count = count64 as usize;
        assert(count * k <= 4194304 * 256) by (nonlinear_arith)
            requires
                count <= 4194304,
                k <= 256,
        ;
        let total = count * k;
        let mut assigns: Vec<u8> = vec![0u8; total];
        let mut inst: usize = 0;
        while inst < count
            invariant
                1 <= n <= 16,
                k == law.nvars,
                k <= 256,
                count == cnt,
                count <= 4194304,
                total == count * k,
                assigns@.len() == total,
                inst <= count,
                forall|i: int|
                    0 <= i < inst ==> assigns@.subrange(i * k, i * k + k) == #[trigger] instance_assignment(
                        i,
                        k as nat,
                        n as int,
                    ),
            decreases count - inst,
        {
            let mut rest: usize = inst;
            let mut j: usize = 0;
            proof {
                lemma_blocks(inst as int, inst + 1, k as int, count as int);
            }
            let ghost before = assigns@;
            while j < k
                invariant
                    1 <= n <= 16,
                    k <= 256,
                    j <= k,
                    total == count * k,
                    assigns@.len() == total,
                    inst < count,
                    inst * k + k <= count * k,
                    0 <= inst * k,
                    rest == inst as int / power(n as int, j as nat),
                    forall|i: int| 0 <= i < inst * k ==> #[trigger] assigns@[i] == before[i],
                    forall|t: int|
                        0 <= t < j ==> #[trigger] assigns@[inst * k + t] == instance_assignment(
                            inst as int,
                            k as nat,
                            n as int,
                        )[t],
                decreases k - j,
            {
                proof {
                    lemma_power_pos(n as int, j as nat);
                    vstd::arithmetic::div_mod::lemma_div_denominator(inst as int, power(n as int, j as nat), n as int);
                    assert(power(n as int, (j + 1) as nat) == power(n as int, j as nat) * n) by (nonlinear_arith)
                        requires
                            power(n as int, (j + 1) as nat) == n * power(n as int, j as nat),
                    ;
                    vstd::arithmetic::div_mod::lemma_mod_pos_bound(rest as int, n as int);
                }
                assigns.set(inst * k + j, (rest % n) as u8);
                rest = rest / n;
                j = j + 1;
            }
            proof {
                assert forall|i: int|
                    0 <= i < inst + 1 implies assigns@.subrange(i * k, i * k + k) == #[trigger] instance_assignment(
                        i,
                        k as nat,
                        n as int,
                    ) by {
                    if i < inst {
                        lemma_blocks(i, inst as int, k as int, count as int);
                        assert(assigns@.subrange(i * k, i * k + k) =~= before.subrange(i * k, i * k + k));
                    } else {
                        assert(i == inst);
                        assert forall|t: int| 0 <= t < k implies #[trigger] assigns@.subrange(i * k, i * k + k)[t]
                            == instance_assignment(i, k as nat, n as int)[t] by {
                            assert(assigns@[inst * k + t] == instance_assignment(inst as int, k as nat, n as int)[t]);
                        }
                        assert(assigns@.subrange(i * k, i * k + k) =~= instance_assignment(i, k as nat, n as int));
                    }
                }
            }
            inst = inst + 1;
        }
        assert(n * n <= 256) by (nonlinear_arith)
            requires
                n <= 16,
        ;
        let size = n * n;
        let table: Vec<u8> = vec![UNKNOWN; size];
        let mut watch: Vec<Vec<u32>> = Vec::new();
        let mut c: usize = 0;
        while c < size
            invariant
                c <= size,
                watch@.len() == c,
                forall|i: int| 0 <= i < c ==> (#[trigger] watch@[i])@.len() == 0,
            decreases size - c,
        {
            watch.push(Vec::new());
            c = c + 1;
        }
        let mut stack: Vec<u8> = Vec::with_capacity(16);
        let mut infeasible = false;
        let ghost empty = empty_table(size as nat);
        assert(table@ =~= empty);
        assert(partial_table(table@, n as int));
        let mut inst: usize = 0;
        while inst < count
            invariant
                1 <= n <= 16,
                law.wf(),
                k == law.nvars,
                size == n * n,
                count == power(n as int, k as nat),
                count <= 4194304,
                total == count * k,
                assigns@.len() == total,
                forall|i: int|
                    0 <= i < count ==> assigns@.subrange(i * k, i * k + k) == #[trigger] instance_assignment(
                        i,
                        k as nat,
                        n as int,
                    ),
                table@ == empty,
                partial_table(table@, n as int),
                inst <= count,
                watch@.len() == size,
                forall|c: int, j: int|
                    0 <= c < watch@.len() && 0 <= j < watch@[c]@.len() ==> (#[trigger] watch@[c]@[j] as int) < count,
                forall|i: int|
                    0 <= i < inst ==> match #[trigger] instance_status(law.lhs.term(), law.rhs.term(), k as nat, n as int, empty, i) {
                        Status::Holds => true,
                        Status::Fails => infeasible,
                        Status::Blocked(c) => c < watch@.len() && watch@[c as int]@.contains(i as u32),
                    },
                infeasible ==> exists|i: int|
                    0 <= i < count && #[trigger] instance_status(law.lhs.term(), law.rhs.term(), k as nat, n as int, empty, i)
                        == Status::Fails,
            decreases count - inst,
        {
            proof {
                lemma_blocks(inst as int, inst + 1, k as int, count as int);
                lemma_instance_valid(inst as int, k as nat, n as int);
                assert(assigns@.subrange(inst * k, inst * k + k) == instance_assignment(inst as int, k as nat, n as int));
            }
            let slice = vstd::slice::slice_subrange(assigns.as_slice(), inst * k, inst * k + k);
            let st = law.status(n, table.as_slice(), slice, &mut stack);
            let ghost old_watch = watch@;
            match st {
                Status::Holds => {},
                Status::Fails => {
                    infeasible = true;
                },
                Status::Blocked(cell) => {
                    watch[cell].push(inst as u32);
                },
            }
            proof {
                assert(st == instance_status(law.lhs.term(), law.rhs.term(), k as nat, n as int, empty, inst as int));
                assert forall|i: int|
                    0 <= i < inst + 1 implies match #[trigger] instance_status(law.lhs.term(), law.rhs.term(), k as nat, n as int, empty, i) {
                        Status::Holds => true,
                        Status::Fails => infeasible,
                        Status::Blocked(c) => c < watch@.len() && watch@[c as int]@.contains(i as u32),
                    } by {
                    if let Status::Blocked(c) = instance_status(law.lhs.term(), law.rhs.term(), k as nat, n as int, empty, i) {
                        if i < inst {
                            let w = old_watch[c as int]@;
                            let t = choose|t: int| 0 <= t < w.len() && w[t] == i as u32;
                            assert(watch@[c as int]@[t] == i as u32);
                        } else {
                            assert(watch@[c as int]@[watch@[c as int]@.len() - 1] == i as u32);
                        }
                    }
                }
                assert forall|c: int, j: int|
                    0 <= c < watch@.len() && 0 <= j < watch@[c]@.len() implies (#[trigger] watch@[c]@[j] as int) < count by {
                    if let Status::Blocked(b) = st {
                        if c == b && j == watch@[c]@.len() - 1 {
                        } else {
                            assert(watch@[c]@[j] == old_watch[c]@[j]);
                        }
                    }
                }
            }
            inst = inst + 1;
        }
        let perms = if opts.symmetry {
            build_perms(n)
        } else {
            Vec::new()
        };
        let ghost base = watch_view(watch@);
        let s = Search {
            n,
            law,
            opts,
            table,
            filled: 0,
            assigns,
            watch,
            trail: Vec::new(),
            stack,
            perms,
            infeasible,
            frames: Vec::new(),
            phase: Phase::Start,
            stats: Stats { nodes: 0, leaves: 0 },
            found: Ghost(Seq::empty()),
            levels: Ghost(Seq::empty()),
            base: Ghost(base),
        };
        proof {
            assert(s.levels@.take(0) =~= Seq::<Seq<(usize, u32)>>::empty());
            assert(concat_levels(s.levels@) =~= Seq::<(usize, u32)>::empty());
            assert(s.trail@ =~= trail_cells(concat_levels(s.levels@)));
            assert(s.table@ == table_after(s.frames@, 0, s.size()));
            if !infeasible {
                assert forall|i: int| 0 <= i < s.count() implies match #[trigger] instance_status(
                    s.lhs(),
                    s.rhs(),
                    k as nat,
                    n as int,
                    empty,
                    i,
                ) {
                    Status::Holds => true,
                    Status::Fails => false,
                    Status::Blocked(c) => c < base.len() && base[c as int].contains(i as u32),
                } by {
                    if let Status::Blocked(c) = instance_status(s.lhs(), s.rhs(), k as nat, n as int, empty, i) {
                        assert(base[c as int] == watch@[c as int]@);
                    }
                }
                assert forall|j: int| 0 <= j <= 0 implies s.watched_at(
                    #[trigger] table_after(s.frames@, j, s.size()),
                    apply_pushes(s.base@, concat_levels(s.levels@.take(j))),
                ) by {
                    assert(concat_levels(s.levels@.take(j)) =~= Seq::<(usize, u32)>::empty());
                }
            }
            assert forall|c: int, j: int|
                0 <= c < base.len() && 0 <= j < base[c].len() implies (#[trigger] base[c][j] as int) < s.count() by {
                assert(base[c] == watch@[c]@);
            }
            assert(watch_view(s.watch@) =~= apply_pushes(s.base@, concat_levels(s.levels@)));
        }
        s
    }
}

/// `s` holds distinct elements of `0..size`: it holds all of them exactly when it has `size` elements.
proof fn lemma_cover(s: Seq<int>, size: int)
    requires
        size >= 0,
        s.no_duplicates(),
        forall|i: int| 0 <= i < s.len() ==> 0 <= #[trigger] s[i] < size,
    ensures
        s.len() <= size,
        s.len() == size ==> forall|c: int| 0 <= c < size ==> #[trigger] s.contains(c),
        s.len() < size ==> exists|c: int| 0 <= c < size && !#[trigger] s.contains(c),
{
    let range = vstd::set_lib::set_int_range(0, size);
    vstd::set_lib::lemma_int_range(0, size);
    s.unique_seq_to_set();
    assert(s.to_set().subset_of(range));
    vstd::set_lib::lemma_len_subset(s.to_set(), range);
    if s.len() == size {
        assert forall|c: int| 0 <= c < size implies #[trigger] s.contains(c) by {
            if !s.contains(c) {
                assert(s.to_set().subset_of(range.remove(c)));
                vstd::set_lib::lemma_len_subset(s.to_set(), range.remove(c));
            }
        }
    }
    if s.len() < size {
        if forall|c: int| 0 <= c < size ==> #[trigger] s.contains(c) {
            assert(range.subset_of(s.to_set()));
            vstd::set_lib::lemma_len_subset(range, s.to_set());
        }
    }
}

spec fn frame_cells(frames: Seq<Frame>, j: int) -> Seq<int> {
    Seq::new(j as nat, |i: int| frames[i].cell as int)
}

proof fn lemma_table_after(frames: Seq<Frame>, j: int, size: nat, n: int)
    requires
        0 <= j <= frames.len(),
        1 <= n <= 255,
        forall|i: int| 0 <= i < j ==> (#[trigger] frames[i]).cell < size,
        forall|i: int, k: int| 0 <= i < k < j ==> frames[i].cell != frames[k].cell,
        forall|i: int| 0 <= i < j ==> (#[trigger] frames[i]).value < n,
    ensures
        table_after(frames, j, size).len() == size,
        forall|i: int| 0 <= i < j ==> #[trigger] table_after(frames, j, size)[frames[i].cell as int] == frames[i].value,
        forall|c: int|
            0 <= c < size && !frame_cells(frames, j).contains(c) ==> #[trigger] table_after(frames, j, size)[c] == UNKNOWN,
        forall|c: int| 0 <= c < size ==> (#[trigger] table_after(frames, j, size)[c] < n || table_after(frames, j, size)[c] == UNKNOWN),
        forall|m: Seq<u8>|
            m.len() == size ==> (extends(table_after(frames, j, size), m) <==> #[trigger] agrees(m, frames, j)),
    decreases j,
{
    if j > 0 {
        lemma_table_after(frames, j - 1, size, n);
        let t = table_after(frames, j, size);
        let prev = table_after(frames, j - 1, size);
        let c = frames[j - 1].cell as int;
        assert forall|i: int| 0 <= i < j implies #[trigger] t[frames[i].cell as int] == frames[i].value by {
            if i < j - 1 {
                assert(frames[i].cell != frames[j - 1].cell);
            }
        }
        assert forall|x: int| 0 <= x < size && !frame_cells(frames, j).contains(x) implies #[trigger] t[x] == UNKNOWN by {
            assert(frame_cells(frames, j)[j - 1] == c);
            if frame_cells(frames, j - 1).contains(x) {
                let i = choose|i: int| 0 <= i < j - 1 && #[trigger] frame_cells(frames, j - 1)[i] == x;
                assert(frame_cells(frames, j)[i] == x);
            }
        }
        assert forall|m: Seq<u8>| m.len() == size implies (extends(t, m) <==> #[trigger] agrees(m, frames, j)) by {
            if extends(t, m) {
                assert forall|i: int| 0 <= i < j implies #[trigger] m[frames[i].cell as int] == frames[i].value by {
                    assert(t[frames[i].cell as int] == frames[i].value);
                }
            }
            if agrees(m, frames, j) {
                assert(agrees(m, frames, j - 1));
                assert(extends(prev, m));
                assert forall|x: int| 0 <= x < t.len() && t[x] != UNKNOWN implies #[trigger] m[x] == t[x] by {
                    if x != c {
                        assert(prev[x] == t[x]);
                    } else {
                        assert(m[frames[j - 1].cell as int] == frames[j - 1].value);
                    }
                }
            }
        }
    } else {
        let t = table_after(frames, j, size);
        assert forall|m: Seq<u8>| m.len() == size implies (extends(t, m) <==> #[trigger] agrees(m, frames, j)) by {}
    }
}

/// `table_after` and `agrees` only look at the first `j` frames.
proof fn lemma_frames_prefix(f: Seq<Frame>, g: Seq<Frame>, j: int, size: nat)
    requires
        0 <= j <= f.len(),
        j <= g.len(),
        forall|i: int| 0 <= i < j ==> f[i] == g[i],
    ensures
        table_after(f, j, size) == table_after(g, j, size),
        forall|m: Seq<u8>| #[trigger] agrees(m, f, j) <==> agrees(m, g, j),
        frame_cells(f, j) == frame_cells(g, j),
    decreases j,
{
    if j > 0 {
        lemma_frames_prefix(f, g, j - 1, size);
    }
    assert(frame_cells(f, j) =~= frame_cells(g, j));
}

/// Mixed-radix position of the walk: digit `i` is `n - value` of frame `i`,
/// positions past the last frame count as the largest digit `b - 1`.
spec fn walk_code(ds: Seq<int>, l: nat, b: int) -> int
    decreases l,
{
    if l == 0 {
        0
    } else {
        (if ds.len() > 0 { ds[0] } else { b - 1 }) * power(b, (l - 1) as nat) + walk_code(
            if ds.len() > 0 { ds.drop_first() } else { ds },
            (l - 1) as nat,
            b,
        )
    }
}

spec fn walk_digits(frames: Seq<Frame>, n: int) -> Seq<int> {
    Seq::new(frames.len(), |i: int| n - frames[i].value)
}

proof fn lemma_walk_code_empty(l: nat, b: int)
    requires
        b >= 2,
    ensures
        walk_code(Seq::empty(), l, b) == power(b, l) - 1,
    decreases l,
{
    if l > 0 {
        lemma_walk_code_empty((l - 1) as nat, b);
        assert((b - 1) * power(b, (l - 1) as nat) + power(b, (l - 1) as nat) - 1 == b * power(b, (l - 1) as nat) - 1) by (nonlinear_arith);
    }
}

proof fn lemma_walk_code_nonneg(ds: Seq<int>, l: nat, b: int)
    requires
        b >= 2,
        forall|i: int| 0 <= i < ds.len() ==> 0 <= #[trigger] ds[i] < b,
    ensures
        walk_code(ds, l, b) >= 0,
    decreases l,
{
    if l > 0 {
        let rest = if ds.len() > 0 { ds.drop_first() } else { ds };
        assert forall|i: int| 0 <= i < rest.len() implies 0 <= #[trigger] rest[i] < b by {
            if ds.len() > 0 {
                assert(rest[i] == ds[i + 1]);
            }
        }
        lemma_walk_code_nonneg(rest, (l - 1) as nat, b);
        lemma_power_pos(b, (l - 1) as nat);
        let h = if ds.len() > 0 { ds[0] } else { b - 1 };
        assert(h * power(b, (l - 1) as nat) >= 0) by (nonlinear_arith)
            requires
                h >= 0,
                power(b, (l - 1) as nat) >= 1,
        ;
    }
}

/// Changing only the digits after a common prefix changes the code by the
/// change of the tail's code.
proof fn lemma_walk_code_prefix(p: Seq<int>, x: Seq<int>, y: Seq<int>, l: nat, b: int)
    requires
        p.len() <= l,
    ensures
        walk_code(p + x, l, b) - walk_code(p + y, l, b) == walk_code(x, (l - p.len()) as nat, b) - walk_code(
            y,
            (l - p.len()) as nat,
            b,
        ),
    decreases p.len(),
{
    if p.len() > 0 {
        assert((p + x).drop_first() =~= p.drop_first() + x);
        assert((p + y).drop_first() =~= p.drop_first() + y);
        assert((p + x)[0] == p[0] && (p + y)[0] == p[0]);
        lemma_walk_code_prefix(p.drop_first(), x, y, (l - 1) as nat, b);
    } else {
        assert(p + x =~= x);
        assert(p + y =~= y);
    }
}

/// An instance that fails on a partial table fails on every completion, so
/// the law holds on none of them.
proof fn lemma_prune_law(lhs: Term, rhs: Term, k: nat, n: int, t: Seq<u8>, inst: int, m: Seq<u8>)
    requires
        1 <= n <= 255,
        lhs.vars_below(k as int),
        rhs.vars_below(k as int),
        inst >= 0,
        partial_table(t, n),
        complete_table(m, n),
        extends(t, m),
        instance_status(lhs, rhs, k, n, t, inst) == Status::Fails,
    ensures
        !law_holds(lhs, rhs, k as int, n, m),
{
    lemma_instance_valid(inst, k, n);
    let a = instance_assignment(inst, k, n);
    lemma_status_extends(lhs, rhs, n, t, m, a);
    assert(status_of(lhs, rhs, n, m, a) == Status::Fails);
}

/// A complete table on which every instance holds or waits satisfies the law.
proof fn lemma_complete_holds(lhs: Term, rhs: Term, k: nat, n: int, t: Seq<u8>, w: Seq<Seq<u32>>)
    requires
        1 <= n <= 255,
        lhs.vars_below(k as int),
        rhs.vars_below(k as int),
        complete_table(t, n),
        watched(lhs, rhs, k, n, power(n, k), t, w),
    ensures
        law_holds(lhs, rhs, k as int, n, t),
{
    assert forall|a: Seq<u8>| valid_assignment(a, k as int, n) implies #[trigger] status_of(lhs, rhs, n, t, a)
        == Status::Holds by {
        lemma_instance_of(a, k, n);
        let inst = crate::eval::odometer_value(a, n);
        assert(instance_status(lhs, rhs, k, n, t, inst) == status_of(lhs, rhs, n, t, a));
        lemma_status_complete(lhs, rhs, n, t, a);
    }
}

/// With the permutation list complete, the partial comparison against every
/// listed renaming accepts a complete table exactly when it is a lex-leader.
proof fn lemma_leader_complete(perms: Seq<Perm>, n: int, t: Seq<u8>)
    requires
        complete_table(t, n),
        forall|j: int|
            0 <= j < perms.len() ==> is_permutation(#[trigger] perms[j].sigma@, n) && sources_of(
                perms[j].sigma@,
                perms[j].source@,
                n,
            ),
        forall|sigma: Seq<u8>|
            is_permutation(sigma, n) && !is_identity(sigma) ==> exists|j: int|
                0 <= j < perms.len() && #[trigger] perms[j].sigma@ == sigma,
    ensures
        (forall|j: int| 0 <= j < perms.len() ==> !relabelling_smaller(t, (#[trigger] perms[j]).sigma@, perms[j].source@, 0))
            <==> is_lex_leader(t, n),
{
    if forall|j: int| 0 <= j < perms.len() ==> !relabelling_smaller(t, (#[trigger] perms[j]).sigma@, perms[j].source@, 0) {
        assert forall|sigma: Seq<u8>| is_permutation(sigma, n) implies lex_le(t, #[trigger] relabelled(t, sigma, n)) by {
            if is_identity(sigma) {
                lemma_relabel_identity(t, sigma, n);
            } else {
                let j = choose|j: int| 0 <= j < perms.len() && #[trigger] perms[j].sigma@ == sigma;
                assert(!relabelling_smaller(t, perms[j].sigma@, perms[j].source@, 0));
                lemma_smaller_complete(t, sigma, perms[j].source@, n);
            }
        }
    }
    if is_lex_leader(t, n) {
        assert forall|j: int| 0 <= j < perms.len() implies !relabelling_smaller(t, (#[trigger] perms[j]).sigma@, perms[j].source@, 0) by {
            let sigma = perms[j].sigma@;
            assert(lex_le(t, relabelled(t, sigma, n)));
            lemma_smaller_complete(t, sigma, perms[j].source@, n);
        }
    }
}

/// Once the partial comparison finds some renaming smaller, no completion is a lex-leader.
proof fn lemma_prune_leader(perms: Seq<Perm>, n: int, t: Seq<u8>, j: int, m: Seq<u8>)
    requires
        1 <= n <= 255,
        0 <= j < perms.len(),
        is_permutation(perms[j].sigma@, n),
        sources_of(perms[j].sigma@, perms[j].source@, n),
        t.len() == n * n,
        relabelling_smaller(t, perms[j].sigma@, perms[j].source@, 0),
        complete_table(m, n),
        extends(t, m),
    ensures
        !is_lex_leader(m, n),
{
    let sigma = perms[j].sigma@;
    let src = perms[j].source@;
    assert forall|q: int| 0 <= q < src.len() implies #[trigger] src[q] < t.len() by {
        lemma_relabel_source_range(sigma, n, q);
    }
    lemma_smaller_extends(t, m, sigma, src, 0);
    lemma_smaller_complete(m, sigma, src, n);
    assert(!lex_le(m, relabelled(m, sigma, n)));
}

impl<'a> Search<'a> {
    /// The unassigned cell to branch on next.
    fn pick_cell(&self) -> (cell: usize)
        requires
            self.table@.len() == self.size(),
            self.watch@.len() == self.size(),
            self.n <= 16,
            exists|c: int| 0 <= c < self.size() && #[trigger] self.table@[c] == UNKNOWN,
        ensures
            cell < self.size(),
            self.table@[cell as int] == UNKNOWN,
            !self.opts.most_constrained ==> forall|c: int| 0 <= c < cell ==> #[trigger] self.table@[c] != UNKNOWN,
            self.opts.most_constrained ==> forall|c: int|
                0 <= c < self.size() && #[trigger] self.table@[c] == UNKNOWN ==> self.watch@[c]@.len()
                    <= self.watch@[cell as int]@.len() && (c < cell ==> self.watch@[c]@.len()
                    < self.watch@[cell as int]@.len()),
    {
        let mut best = usize::MAX;
        let mut best_score: usize = 0;
        let mut c: usize = 0;
        assert(self.size() <= 256) by (nonlinear_arith)
            requires
                self.n <= 16,
                self.size() == self.n * self.n,
        ;
        while c < self.table.len()
            invariant
                c <= self.table@.len(),
                self.table@.len() == self.size(),
                self.watch@.len() == self.size(),
                self.size() <= 256,
                best == usize::MAX <==> forall|x: int| 0 <= x < c ==> #[trigger] self.table@[x] != UNKNOWN,
                best != usize::MAX ==> best < c && self.table@[best as int] == UNKNOWN && best_score
                    == self.watch@[best as int]@.len(),
                self.opts.most_constrained && best != usize::MAX ==> forall|x: int|
                    0 <= x < c && #[trigger] self.table@[x] == UNKNOWN ==> self.watch@[x]@.len() <= best_score
                        && (x < best ==> self.watch@[x]@.len() < best_score),
                !self.opts.most_constrained ==> best == usize::MAX,
            decreases self.table@.len() - c,
        {
            if self.table[c] != UNKNOWN {
                c = c + 1;
                continue;
            }
            if !self.opts.most_constrained {
                return c;
            }
            let score = self.watch[c].len();
            if best == usize::MAX || score > best_score {
                best = c;
                best_score = score;
            }
            c = c + 1;
        }
        best
    }

    /// Partial lex-leader test: fails only if some relabelling provably gives
    /// a row-major-smaller table for every completion of the current one.
    fn lex_leader_so_far(&self) -> (ok: bool)
        requires
            self.basic(),
        ensures
            ok == forall|j: int|
                0 <= j < self.perms@.len() ==> !relabelling_smaller(
                    self.table@,
                    (#[trigger] self.perms@[j]).sigma@,
                    self.perms@[j].source@,
                    0,
                ),
    {
        let mut i: usize = 0;
        while i < self.perms.len()
            invariant
                self.basic(),
                i <= self.perms@.len(),
                forall|j: int|
                    0 <= j < i ==> !relabelling_smaller(
                        self.table@,
                        (#[trigger] self.perms@[j]).sigma@,
                        self.perms@[j].source@,
                        0,
                    ),
            decreases self.perms@.len() - i,
        {
            let perm = &self.perms[i];
            let ghost sigma = perm.sigma@;
            let ghost src = perm.source@;
            assert(is_permutation(sigma, self.n as int) && sources_of(sigma, src, self.n as int));
            let mut p: usize = 0;
            while p < self.table.len()
                invariant
                    self.basic(),
                    i < self.perms@.len(),
                    forall|j: int|
                        0 <= j < i ==> !relabelling_smaller(
                            self.table@,
                            (#[trigger] self.perms@[j]).sigma@,
                            self.perms@[j].source@,
                            0,
                        ),
                    perm == self.perms@[i as int],
                    sigma == perm.sigma@,
                    src == perm.source@,
                    is_permutation(sigma, self.n as int),
                    sources_of(sigma, src, self.n as int),
                    p <= self.table@.len(),
                    relabelling_smaller(self.table@, sigma, src, 0) == relabelling_smaller(
                        self.table@,
                        sigma,
                        src,
                        p as int,
                    ),
                ensures
                    !relabelling_smaller(self.table@, sigma, src, 0),
                decreases self.table@.len() - p,
            {
                proof {
                    lemma_relabel_source_range(sigma, self.n as int, p as int);
                }
                let t = self.table[p];
                let s = self.table[perm.source[p]];
                if t == UNKNOWN || s == UNKNOWN {
                    assert(!relabelling_smaller(self.table@, sigma, src, p as int));
                    break;
                }
                let s = perm.sigma[s as usize];
                if t < s {
                    assert(!relabelling_smaller(self.table@, sigma, src, p as int));
                    break;
                }
                if t > s {
                    assert(relabelling_smaller(self.table@, self.perms@[i as int].sigma@, self.perms@[i as int].source@, 0));
                    return false;
                }
                p = p + 1;
            }
            i = i + 1;
        }
        true
    }
}

proof fn lemma_apply_pushes_concat(w: Seq<Seq<u32>>, x: Seq<(usize, u32)>, y: Seq<(usize, u32)>)
    ensures
        apply_pushes(w, x + y) == apply_pushes(apply_pushes(w, x), y),
    decreases y.len(),
{
    if y.len() == 0 {
        assert(x + y =~= x);
    } else {
        assert((x + y).drop_last() =~= x + y.drop_last());
        assert((x + y).last() == y.last());
        lemma_apply_pushes_concat(w, x, y.drop_last());
    }
}

proof fn lemma_contains_grows(w: Seq<Seq<u32>>, x: Seq<(usize, u32)>, y: Seq<(usize, u32)>, c: int, v: u32)
    requires
        forall|j: int| 0 <= j < x.len() ==> (#[trigger] x[j]).0 < w.len(),
        forall|j: int| 0 <= j < y.len() ==> (#[trigger] y[j]).0 < w.len(),
        0 <= c < w.len(),
        apply_pushes(w, x)[c].contains(v),
    ensures
        apply_pushes(w, x + y)[c].contains(v),
{
    lemma_apply_pushes_prefix(w, x, y, c);
    let a = apply_pushes(w, x)[c];
    let b = apply_pushes(w, x + y)[c];
    let t = choose|t: int| 0 <= t < a.len() && a[t] == v;
    assert(b.subrange(0, a.len() as int)[t] == b[t]);
}

impl<'a> Search<'a> {
    spec fn same_except_lists(&self, other: &Self) -> bool {
        &&& self.n == other.n
        &&& self.law == other.law
        &&& self.opts == other.opts
        &&& self.table == other.table
        &&& self.filled == other.filled
        &&& self.assigns == other.assigns
        &&& self.perms == other.perms
        &&& self.infeasible == other.infeasible
        &&& self.frames == other.frames
        &&& self.phase == other.phase
        &&& self.stats == other.stats
        &&& self.found == other.found
        &&& self.levels == other.levels
        &&& self.base == other.base
    }

    /// Re-checks instances waiting on `cell`. The watch list of an assigned
    /// cell is left in place (stale) so backtracking only has to undo pushes.
    #[verifier::spinoff_prover]
    fn propagate(&mut self, cell: usize, Ghost(x): Ghost<Seq<(usize, u32)>>) -> (r: (
        bool,
        Ghost<Seq<(usize, u32)>>,
    ))
        requires
            old(self).basic(),
            cell < old(self).size(),
            old(self).table@[cell as int] != UNKNOWN,
            watch_view(old(self).watch@) == apply_pushes(old(self).base@, x),
            old(self).trail@ == trail_cells(x),
            old(self).pushes_ok(x),
            old(self).watched_at(
                old(self).table@.update(cell as int, UNKNOWN),
                watch_view(old(self).watch@),
            ),
        ensures
            final(self).same_except_lists(old(self)),
            final(self).basic(),
            watch_view(final(self).watch@) == apply_pushes(final(self).base@, x + r.1@),
            final(self).trail@ == trail_cells(x + r.1@),
            final(self).pushes_ok(x + r.1@),
            r.0 ==> final(self).watched_at(final(self).table@, watch_view(final(self).watch@)),
            !r.0 ==> exists|inst: int|
                0 <= inst < final(self).count() && #[trigger] instance_status(
                    final(self).lhs(),
                    final(self).rhs(),
                    final(self).law.nvars as nat,
                    final(self).n as int,
                    final(self).table@,
                    inst,
                ) == Status::Fails,
    {
        let k = self.law.nvars;
        let ghost base = self.base@;
        let ghost pre_w = apply_pushes(base, x);
        let ghost prev = self.table@.update(cell as int, UNKNOWN);
        proof {
            lemma_apply_pushes_len(base, x);
        }
        let mut list: Vec<u32> = Vec::new();
        std::mem::swap(&mut self.watch[cell], &mut list);
        proof {
            assert(list@ == pre_w[cell as int]);
            assert(watch_view(self.watch@) =~= pre_w.update(cell as int, Seq::empty()));
        }
        let ghost list0 = list@;
        let ghost mut pend: Seq<(usize, u32)> = Seq::empty();
        let mut ok = true;
        let mut j: usize = 0;
        proof {
            assert(x + pend =~= x);
        }
        while j < list.len()
            invariant_except_break
                ok,
            invariant
                self.same_except_lists(old(self)),
                self.basic(),
                base == self.base@,
                k == self.law.nvars,
                cell < self.size(),
                self.table@[cell as int] != UNKNOWN,
                prev == self.table@.update(cell as int, UNKNOWN),
                pre_w == apply_pushes(base, x),
                pre_w.len() == self.size(),
                list@ == pre_w[cell as int],
                self.pushes_ok(x),
                watch_view(self.watch@) == apply_pushes(base, x + pend).update(cell as int, Seq::empty()),
                self.trail@ == trail_cells(x + pend),
                self.pushes_ok(pend),
                forall|t: int| 0 <= t < pend.len() ==> (#[trigger] pend[t]).0 != cell && self.table@[pend[t].0 as int] == UNKNOWN,
                j <= list@.len(),
                forall|t: int|
                    0 <= t < j ==> match #[trigger] instance_status(
                        self.lhs(),
                        self.rhs(),
                        k as nat,
                        self.n as int,
                        self.table@,
                        list@[t] as int,
                    ) {
                        Status::Holds => true,
                        Status::Fails => false,
                        Status::Blocked(c) => c < pre_w.len() && apply_pushes(base, x + pend)[c as int].contains(list@[t]),
                    },
            ensures
                self.same_except_lists(old(self)),
                self.basic(),
                base == self.base@,
                k == self.law.nvars,
                prev == self.table@.update(cell as int, UNKNOWN),
                pre_w == apply_pushes(base, x),
                pre_w.len() == self.size(),
                list@ == pre_w[cell as int],
                watch_view(self.watch@) == apply_pushes(base, x + pend).update(cell as int, Seq::empty()),
                self.trail@ == trail_cells(x + pend),
                self.pushes_ok(pend),
                forall|t: int| 0 <= t < pend.len() ==> (#[trigger] pend[t]).0 != cell && self.table@[pend[t].0 as int] == UNKNOWN,
                ok ==> forall|t: int|
                    0 <= t < list@.len() ==> match #[trigger] instance_status(
                        self.lhs(),
                        self.rhs(),
                        k as nat,
                        self.n as int,
                        self.table@,
                        list@[t] as int,
                    ) {
                        Status::Holds => true,
                        Status::Fails => false,
                        Status::Blocked(c) => c < pre_w.len() && apply_pushes(base, x + pend)[c as int].contains(list@[t]),
                    },
                !ok ==> exists|inst: int|
                    0 <= inst < self.count() && #[trigger] instance_status(
                        self.lhs(),
                        self.rhs(),
                        self.law.nvars as nat,
                        self.n as int,
                        self.table@,
                        inst,
                    ) == Status::Fails,
            decreases list@.len() - j,
        {
            let inst = list[j];
            let i = inst as usize;
            proof {
                assert(pre_w[cell as int].contains(inst) ==> true);
                assert(list@[j as int] == inst);
                let c = cell as int;
                assert(base[c].len() >= 0);
                // instances on watch lists are numbered below the instance count
                lemma_list_entries_below(self, base, x, c, j as int);
                lemma_blocks(i as int, i + 1, k as int, self.count());
                assert(self.count() * k <= 4194304 * 256) by (nonlinear_arith)
                    requires
                        self.count() <= 4194304,
                        k <= 256,
                ;
                lemma_instance_valid(i as int, k as nat, self.n as int);
                assert(self.assigns@.subrange(i * k, i * k + k) == instance_assignment(i as int, k as nat, self.n as int));
            }
            let slice = vstd::slice::slice_subrange(self.assigns.as_slice(), i * k, i * k + k);
            let st = self.law.status(self.n, self.table.as_slice(), slice, &mut self.stack);
            let ghost pend0 = pend;
            let ghost ow = self.watch@;
            match st {
                Status::Holds => {},
                Status::Fails => {
                    ok = false;
                    assert(instance_status(self.lhs(), self.rhs(), self.law.nvars as nat, self.n as int, self.table@, i as int) == Status::Fails);
                    break;
                },
                Status::Blocked(next) => {
                    proof {
                        assert(next != cell);
                        lemma_apply_pushes_len(base, x + pend);
                    }
                    self.watch[next].push(inst);
                    self.trail.push(next as u32);
                    proof {
                        pend = pend.push((next, inst));
                        assert((x + pend).drop_last() =~= x + pend0);
                        assert((x + pend).last() == (next, inst));
                        let target = apply_pushes(base, x + pend).update(cell as int, Seq::empty());
                        let before = apply_pushes(base, x + pend0);
                        lemma_apply_pushes_len(base, x + pend0);
                        assert(apply_pushes(base, x + pend) == before.update(next as int, before[next as int].push(inst)));
                        assert forall|q: int| 0 <= q < self.size() implies #[trigger] watch_view(self.watch@)[q] == target[q] by {
                            assert(watch_view(ow)[q] == before.update(cell as int, Seq::empty())[q]);
                            if q == next {
                                assert(self.watch@[q]@ == ow[q]@.push(inst));
                            } else {
                                assert(self.watch@[q]@ == ow[q]@);
                            }
                        }
                        assert((x + pend0).push((next, inst)) =~= x + pend);
                        assert(trail_cells(x + pend) =~= trail_cells(x + pend0).push(next as u32));
                        lemma_apply_pushes_len(base, x + pend);
                        assert(watch_view(self.watch@) =~~= apply_pushes(base, x + pend).update(cell as int, Seq::empty()));
                    }
                },
            }
            proof {
                assert forall|t: int|
                    0 <= t < j + 1 implies match #[trigger] instance_status(
                        self.lhs(),
                        self.rhs(),
                        k as nat,
                        self.n as int,
                        self.table@,
                        list@[t] as int,
                    ) {
                        Status::Holds => true,
                        Status::Fails => false,
                        Status::Blocked(c) => c < pre_w.len() && apply_pushes(base, x + pend)[c as int].contains(list@[t]),
                    } by {
                    if let Status::Blocked(c) = instance_status(self.lhs(), self.rhs(), k as nat, self.n as int, self.table@, list@[t] as int) {
                        if t < j {
                            if pend.len() > pend0.len() {
                                lemma_contains_grows(base, x + pend0, seq![pend.last()], c as int, list@[t]);
                                assert((x + pend0) + seq![pend.last()] =~= x + pend);
                            } else {
                                assert(pend == pend0);
                            }
                        } else {
                            let z = x + pend;
                            assert(z.last() == (c as usize, list@[t]));
                            lemma_apply_pushes_len(base, z.drop_last());
                            let a = apply_pushes(base, z)[c as int];
                            assert(a[a.len() - 1] == list@[t]);
                        }
                    }
                }
            }
            j = j + 1;
        }
        let ghost ow2 = self.watch@;
        std::mem::swap(&mut self.watch[cell], &mut list);
        proof {
            lemma_apply_pushes_concat(base, x, pend);
            lemma_apply_pushes_untouched(pre_w, pend, cell as int);
            lemma_apply_pushes_len(base, x + pend);
            let target = apply_pushes(base, x + pend);
            assert forall|q: int| 0 <= q < self.size() implies #[trigger] watch_view(self.watch@)[q] == target[q] by {
                assert(watch_view(ow2)[q] == target.update(cell as int, Seq::empty())[q]);
                if q == cell {
                    assert(self.watch@[q]@ == list0);
                } else {
                    assert(self.watch@[q]@ == ow2[q]@);
                }
            }
            assert(watch_view(self.watch@) =~~= apply_pushes(base, x + pend));
            assert forall|t: int| 0 <= t < (x + pend).len() implies (#[trigger] (x + pend)[t]).0 < self.size()
                && ((x + pend)[t].1 as int) < self.count() by {
                if t < x.len() {
                    assert((x + pend)[t] == x[t]);
                } else {
                    assert((x + pend)[t] == pend[t - x.len()]);
                }
            }
            if ok {
                let table = self.table@;
                assert(extends(prev, table));
                assert(partial_table(prev, self.n as int)) by {
                    assert forall|q: int| 0 <= q < prev.len() implies (#[trigger] prev[q] < self.n || prev[q] == UNKNOWN) by {
                        if q != cell {
                            assert(prev[q] == table[q]);
                        }
                    }
                }
                assert forall|inst: int| 0 <= inst < self.count() implies match #[trigger] instance_status(
                    self.lhs(),
                    self.rhs(),
                    self.law.nvars as nat,
                    self.n as int,
                    table,
                    inst,
                ) {
                    Status::Holds => true,
                    Status::Fails => false,
                    Status::Blocked(c) => c < watch_view(self.watch@).len() && watch_view(self.watch@)[c as int].contains(inst as u32),
                } by {
                    lemma_instance_valid(inst, self.law.nvars as nat, self.n as int);
                    let a = instance_assignment(inst, self.law.nvars as nat, self.n as int);
                    lemma_status_extends(self.lhs(), self.rhs(), self.n as int, prev, table, a);
                    let ps = instance_status(self.lhs(), self.rhs(), self.law.nvars as nat, self.n as int, prev, inst);
                    assert(match ps {
                        Status::Holds => true,
                        Status::Fails => false,
                        Status::Blocked(c) => c < pre_w.len() && pre_w[c as int].contains(inst as u32),
                    });
                    if let Status::Blocked(c) = ps {
                        if c == cell {
                            assert(pre_w[cell as int].contains(inst as u32));
                            let t = choose|t: int| 0 <= t < list0.len() && list0[t] == inst as u32;
                            assert(inst < 4194304);
                            assert((inst as u32) as int == inst);
                            assert(list0[t] as int == inst);
                            assert(instance_status(self.lhs(), self.rhs(), k as nat, self.n as int, table, list0[t] as int) == instance_status(self.lhs(), self.rhs(), k as nat, self.n as int, table, inst));
                        } else {
                            assert(table[c as int] == prev[c as int]);
                            lemma_contains_grows(base, x, pend, c as int, inst as u32);
                        }
                    }
                }
            }
        }
        (ok, Ghost(pend))
    }

    /// Pops the pushes `y` made after the pushes `x`, restoring the watch lists and trail.
    fn undo_to(&mut self, mark: usize, Ghost(x): Ghost<Seq<(usize, u32)>>, Ghost(y): Ghost<Seq<(usize, u32)>>)
        requires
            old(self).basic(),
            watch_view(old(self).watch@) == apply_pushes(old(self).base@, x + y),
            old(self).trail@ == trail_cells(x + y),
            old(self).pushes_ok(x + y),
            mark == x.len(),
        ensures
            final(self).same_except_lists(old(self)),
            final(self).basic(),
            watch_view(final(self).watch@) == apply_pushes(final(self).base@, x),
            final(self).trail@ == trail_cells(x),
    {
        let ghost base = self.base@;
        let ghost mut t: int = y.len() as int;
        proof {
            assert(y.take(t) =~= y);
        }
        while self.trail.len() > mark
            invariant
                self.same_except_lists(old(self)),
                self.basic(),
                base == self.base@,
                0 <= t <= y.len(),
                mark == x.len(),
                self.pushes_ok(x + y),
                watch_view(self.watch@) == apply_pushes(base, x + y.take(t)),
                self.trail@ == trail_cells(x + y.take(t)),
            decreases self.trail@.len(),
        {
            let ghost z = x + y.take(t);
            assert(t > 0);
            assert(z.drop_last() =~= x + y.take(t - 1));
            assert(z.last() == y[t - 1]);
            assert((x + y)[x.len() + t - 1] == y[t - 1]);
            assert(y[t - 1].0 < self.size());
            assert(self.size() <= 256) by (nonlinear_arith)
                requires
                    self.size() == self.n * self.n,
                    self.n <= 16,
            ;
            assert(self.trail@.last() == (y[t - 1].0 as u32));
            let ghost ow = self.watch@;
            let c = self.trail.pop().unwrap() as usize;
            proof {
                assert(c == y[t - 1].0);
                assert forall|q: int| 0 <= q < z.drop_last().len() implies (#[trigger] z.drop_last()[q]).0 < base.len() by {
                    assert(z.drop_last()[q] == (x + y)[q]);
                }
                lemma_apply_pushes_len(base, z.drop_last());
            }
            self.watch[c].pop();
            proof {
                let prevw = apply_pushes(base, z.drop_last());
                assert(apply_pushes(base, z) == prevw.update(c as int, prevw[c as int].push(y[t - 1].1)));
                assert forall|q: int| 0 <= q < self.size() implies #[trigger] watch_view(self.watch@)[q] == prevw[q] by {
                    assert(watch_view(ow)[q] == apply_pushes(base, z)[q]);
                    if q == c {
                        assert(self.watch@[q]@ == ow[q]@.drop_last());
                        assert(prevw[q].push(y[t - 1].1).drop_last() =~= prevw[q]);
                    } else {
                        assert(self.watch@[q]@ == ow[q]@);
                    }
                }
                t = t - 1;
                assert(self.trail@ =~= trail_cells(x + y.take(t)));
                assert(watch_view(self.watch@) =~~= apply_pushes(base, x + y.take(t)));
            }
        }
        proof {
            assert(self.trail@.len() == (x + y.take(t)).len());
            assert(t == 0);
            assert(x + y.take(t) =~= x);
        }
    }
}

/// Entries of the watch list of cell `c` number instances below the count.
proof fn lemma_list_entries_below(s: &Search, base: Seq<Seq<u32>>, x: Seq<(usize, u32)>, c: int, j: int)
    requires
        s.basic(),
        base == s.base@,
        s.pushes_ok(x),
        0 <= c < s.size(),
        0 <= j < apply_pushes(base, x)[c].len(),
    ensures
        (apply_pushes(base, x)[c][j] as int) < s.count(),
    decreases x.len(),
{
    if x.len() > 0 {
        let prev = apply_pushes(base, x.drop_last());
        assert(s.pushes_ok(x.drop_last())) by {
            assert forall|q: int| 0 <= q < x.drop_last().len() implies (#[trigger] x.drop_last()[q]).0 < s.size()
                && (x.drop_last()[q].1 as int) < s.count() by {
                assert(x.drop_last()[q] == x[q]);
            }
        }
        lemma_apply_pushes_len(base, x.drop_last());
        assert(x.last() == x[x.len() - 1]);
        if x.last().0 as int == c && j == prev[c].len() {
        } else {
            lemma_list_entries_below(s, base, x.drop_last(), c, j);
        }
    }
}

proof fn lemma_measure_push(p: Seq<int>, l: nat, n: int)
    requires
        n >= 1,
        p.len() < l,
    ensures
        walk_code(p.push(n), l, n + 2) < walk_code(p, l, n + 2),
{
    let b = n + 2;
    let r = (l - p.len()) as nat;
    assert(p.push(n) =~= p + seq![n]);
    assert(p =~= p + Seq::<int>::empty());
    lemma_walk_code_prefix(p, seq![n], Seq::empty(), l, b);
    lemma_walk_code_empty(r, b);
    lemma_walk_code_empty((r - 1) as nat, b);
    assert(seq![n].drop_first() =~= Seq::<int>::empty());
    assert(walk_code(seq![n], r, b) == n * power(b, (r - 1) as nat) + walk_code(Seq::empty(), (r - 1) as nat, b));
    lemma_power_pos(b, (r - 1) as nat);
    assert(power(b, r) == b * power(b, (r - 1) as nat));
    assert(n * power(b, (r - 1) as nat) + power(b, (r - 1) as nat) - 1 < b * power(b, (r - 1) as nat) - 1) by (nonlinear_arith)
        requires
            b == n + 2,
            power(b, (r - 1) as nat) >= 1,
    ;
}

proof fn lemma_measure_bump(p: Seq<int>, a: int, l: nat, n: int)
    requires
        n >= 1,
        p.len() < l,
    ensures
        walk_code(p.push(a - 1), l, n + 2) < walk_code(p.push(a), l, n + 2),
{
    let b = n + 2;
    let r = (l - p.len()) as nat;
    assert(p.push(a - 1) =~= p + seq![a - 1]);
    assert(p.push(a) =~= p + seq![a]);
    lemma_walk_code_prefix(p, seq![a - 1], seq![a], l, b);
    assert(seq![a].drop_first() =~= Seq::<int>::empty());
    assert(seq![a - 1].drop_first() =~= Seq::<int>::empty());
    lemma_power_pos(b, (r - 1) as nat);
    assert((a - 1) * power(b, (r - 1) as nat) < a * power(b, (r - 1) as nat)) by (nonlinear_arith)
        requires
            power(b, (r - 1) as nat) >= 1,
    ;
}

proof fn lemma_measure_pop(p: Seq<int>, a: int, l: nat, n: int)
    requires
        n >= 1,
        p.len() + 2 <= l,
    ensures
        walk_code(p.push(a - 1), l, n + 2) < walk_code(p.push(a).push(0), l, n + 2),
{
    let b = n + 2;
    let r = (l - p.len()) as nat;
    assert(p.push(a - 1) =~= p + seq![a - 1]);
    assert(p.push(a).push(0) =~= p + seq![a, 0]);
    lemma_walk_code_prefix(p, seq![a - 1], seq![a, 0], l, b);
    assert(seq![a - 1].drop_first() =~= Seq::<int>::empty());
    assert(seq![a, 0].drop_first() =~= seq![0]);
    assert(seq![0].drop_first() =~= Seq::<int>::empty());
    lemma_walk_code_empty((r - 1) as nat, b);
    lemma_walk_code_empty((r - 2) as nat, b);
    lemma_power_pos(b, (r - 2) as nat);
    assert(power(b, (r - 1) as nat) == b * power(b, (r - 2) as nat));
    assert(walk_code(seq![0], (r - 1) as nat, b) == 0 * power(b, (r - 2) as nat) + walk_code(Seq::empty(), (r - 2) as nat, b));
    assert((a - 1) * power(b, (r - 1) as nat) + power(b, (r - 1) as nat) - 1 < a * power(b, (r - 1) as nat) + power(b, (r - 2) as nat) - 1) by (nonlinear_arith)
        requires
            power(b, (r - 2) as nat) >= 1,
    ;
}

proof fn lemma_digits_bounds(frames: Seq<Frame>, n: int)
    requires
        n >= 1,
        forall|j: int| 0 <= j < frames.len() ==> (#[trigger] frames[j]).value <= n,
    ensures
        forall|i: int| 0 <= i < walk_digits(frames, n).len() ==> 0 <= #[trigger] walk_digits(frames, n)[i] < n + 2,
{
}

/// On a table of one cell the walk holds at most one frame.
proof fn lemma_one_frame(frames: Seq<Frame>, size: nat)
    requires
        size == 1,
        forall|j: int| 0 <= j < frames.len() ==> (#[trigger] frames[j]).cell < size,
        forall|i: int, j: int| 0 <= i < j < frames.len() ==> frames[i].cell != frames[j].cell,
    ensures
        frames.len() <= 1,
{
    if frames.len() >= 2 {
        assert(frames[0].cell == 0 && frames[1].cell == 0);
    }
}

/// On a table of one cell the walk code is what is left of the first frame's values.
proof fn lemma_one_cell_code(frames: Seq<Frame>, n: int)
    requires
        frames.len() == 1,
    ensures
        walk_code(walk_digits(frames, n), 1, n + 2) == n - frames[0].value,
{
    let ds = walk_digits(frames, n);
    assert(power(n + 2, 0) == 1);
    assert(ds[0] == n - frames[0].value);
    assert(walk_code(ds.drop_first(), 0, n + 2) == 0);
}

/// Moving frame `d - 1` to its next value adds to the explored region
/// exactly the tables that follow the walk to that frame and take its old value.
proof fn lemma_explored_bump(frames: Seq<Frame>, d: int, m: Seq<u8>)
    requires
        1 <= d == frames.len(),
        frames[d - 1].value < 255,
    ensures
        ({
            let f = frames[d - 1];
            let g = frames.update(d - 1, Frame { cell: f.cell, value: (f.value + 1) as u8, mark: f.mark });
            explored(m, g, d) <==> explored(m, frames, d) || (agrees(m, frames, d - 1) && m[f.cell as int]
                == f.value)
        }),
{
    let f = frames[d - 1];
    let g = frames.update(d - 1, Frame { cell: f.cell, value: (f.value + 1) as u8, mark: f.mark });
    assert forall|j: int| 0 <= j <= d - 1 implies (#[trigger] agrees(m, g, j) <==> agrees(m, frames, j)) by {
        assert forall|i: int| 0 <= i < j implies g[i] == frames[i] by {}
    }
    if explored(m, g, d) {
        let j = choose|j: int| 0 <= j < d && agrees(m, g, j) && #[trigger] m[g[j].cell as int] < g[j].value;
        if j < d - 1 {
            assert(m[frames[j].cell as int] < frames[j].value);
        } else if m[f.cell as int] < f.value {
            assert(agrees(m, frames, j) && m[frames[j].cell as int] < frames[j].value);
        }
    }
    if explored(m, frames, d) {
        let j = choose|j: int| 0 <= j < d && agrees(m, frames, j) && #[trigger] m[frames[j].cell as int] < frames[j].value;
        assert(agrees(m, g, j) && m[g[j].cell as int] < g[j].value);
    }
    if agrees(m, frames, d - 1) && m[f.cell as int] == f.value {
        assert(agrees(m, g, d - 1) && m[g[d - 1].cell as int] < g[d - 1].value);
    }
}

/// A new frame with value 0 adds nothing to the explored region.
proof fn lemma_explored_push(frames: Seq<Frame>, f: Frame, m: Seq<u8>)
    requires
        f.value == 0,
    ensures
        explored(m, frames.push(f), frames.len() as int + 1) <==> explored(m, frames, frames.len() as int),
{
    let g = frames.push(f);
    let d = frames.len() as int;
    assert forall|j: int| 0 <= j <= d implies (#[trigger] agrees(m, g, j) <==> agrees(m, frames, j)) by {
        assert forall|i: int| 0 <= i < j implies g[i] == frames[i] by {}
    }
    if explored(m, g, d + 1) {
        let j = choose|j: int| 0 <= j < d + 1 && agrees(m, g, j) && #[trigger] m[g[j].cell as int] < g[j].value;
        assert(j < d);
        assert(m[frames[j].cell as int] < frames[j].value);
    }
    if explored(m, frames, d) {
        let j = choose|j: int| 0 <= j < d && agrees(m, frames, j) && #[trigger] m[frames[j].cell as int] < frames[j].value;
        assert(agrees(m, g, j) && m[g[j].cell as int] < g[j].value);
    }
}

/// With the last frame exhausted, dropping it loses nothing: the dropped
/// region is everything that follows the remaining frames.
proof fn lemma_explored_pop(frames: Seq<Frame>, m: Seq<u8>, n: int)
    requires
        frames.len() >= 1,
        frames.last().value == n,
        m[frames.last().cell as int] < n,
    ensures
        explored(m, frames, frames.len() as int) <==> explored(m, frames.drop_last(), frames.len() - 1) || agrees(
            m,
            frames,
            frames.len() - 1,
        ),
{
    let d = frames.len() as int;
    let g = frames.drop_last();
    assert forall|j: int| 0 <= j <= d - 1 implies (#[trigger] agrees(m, g, j) <==> agrees(m, frames, j)) by {
        assert forall|i: int| 0 <= i < j implies g[i] == frames[i] by {}
    }
    if explored(m, frames, d) {
        let j = choose|j: int| 0 <= j < d && agrees(m, frames, j) && #[trigger] m[frames[j].cell as int] < frames[j].value;
        if j < d - 1 {
            assert(agrees(m, g, j) && m[g[j].cell as int] < g[j].value);
        }
    }
    if explored(m, g, d - 1) {
        let j = choose|j: int| 0 <= j < d - 1 && agrees(m, g, j) && #[trigger] m[g[j].cell as int] < g[j].value;
        assert(agrees(m, frames, j) && m[frames[j].cell as int] < frames[j].value);
    }
    if agrees(m, frames, d - 1) {
        assert(m[frames[d - 1].cell as int] < frames[d - 1].value);
    }
}

proof fn lemma_concat_levels_pushes(levels: Seq<Seq<(usize, u32)>>, j: int, size: nat, count: int)
    requires
        0 <= j <= levels.len(),
        forall|q: int| 0 <= q < concat_levels(levels).len() ==> (#[trigger] concat_levels(levels)[q]).0 < size
            && (concat_levels(levels)[q].1 as int) < count,
    ensures
        concat_levels(levels.take(j)).len() <= concat_levels(levels).len(),
        concat_levels(levels) == concat_levels(levels.take(j)) + concat_levels(levels).subrange(
            concat_levels(levels.take(j)).len() as int,
            concat_levels(levels).len() as int,
        ),
        forall|q: int| 0 <= q < concat_levels(levels.take(j)).len() ==> (#[trigger] concat_levels(levels.take(j))[q]).0 < size
            && (concat_levels(levels.take(j))[q].1 as int) < count,
    decreases levels.len() - j,
{
    if j == levels.len() {
        assert(levels.take(j) =~= levels);
        assert(concat_levels(levels).subrange(concat_levels(levels).len() as int, concat_levels(levels).len() as int) =~= Seq::<(usize, u32)>::empty());
        assert(concat_levels(levels) + Seq::<(usize, u32)>::empty() =~= concat_levels(levels));
    } else {
        let short = levels.drop_last();
        assert(concat_levels(levels) == concat_levels(short) + levels.last());
        assert forall|q: int| 0 <= q < concat_levels(short).len() implies (#[trigger] concat_levels(short)[q]).0 < size
            && (concat_levels(short)[q].1 as int) < count by {
            assert(concat_levels(short)[q] == concat_levels(levels)[q]);
        }
        lemma_concat_levels_pushes(short, j, size, count);
        assert(short.take(j) =~= levels.take(j));
        let a = concat_levels(levels.take(j));
        assert(concat_levels(levels) =~= a + concat_levels(levels).subrange(a.len() as int, concat_levels(levels).len() as int));
    }
}

impl<'a> Search<'a> {
    /// The fields that the walk never changes.
    spec fn same_setting(&self, other: &Self) -> bool {
        &&& self.n == other.n
        &&& self.law == other.law
        &&& self.opts == other.opts
        &&& self.assigns == other.assigns
        &&& self.perms == other.perms
        &&& self.infeasible == other.infeasible
        &&& self.base == other.base
    }

    /// Takes back the value of the last frame, which every frame has.
    fn retract(&mut self)
        requires
            old(self).basic(),
            old(self).frames@.len() >= 1,
            old(self).walk_core(old(self).frames@.len() as int, old(self).frames@.len() as int),
            old(self).watched_upto(old(self).frames@.len() - 1),
        ensures
            final(self).basic(),
            final(self).walk_ok(old(self).frames@.len() as int, old(self).frames@.len() - 1),
            final(self).same_setting(old(self)),
            final(self).frames == old(self).frames,
            final(self).found == old(self).found,
            final(self).phase == old(self).phase,
            final(self).stats == old(self).stats,
    {
        let idx = self.filled - 1;
        let f = self.frames[idx];
        let ghost levels = self.levels@;
        let ghost d = self.frames@.len() as int;
        let ghost x = concat_levels(levels.drop_last());
        let ghost y = levels.last();
        proof {
            assert(concat_levels(levels) == x + y);
            assert(levels.take(d - 1) =~= levels.drop_last());
            assert(f.mark == x.len());
        }
        self.undo_to(f.mark, Ghost(x), Ghost(y));
        self.table.set(f.cell, UNKNOWN);
        self.filled = self.filled - 1;
        self.levels = Ghost(levels.drop_last());
        proof {
            let frames = self.frames@;
            lemma_table_after(frames, d - 1, self.size(), self.n as int);
            lemma_table_after(frames, d, self.size(), self.n as int);
            assert(!frame_cells(frames, d - 1).contains(f.cell as int)) by {
                if frame_cells(frames, d - 1).contains(f.cell as int) {
                    let i = choose|i: int| 0 <= i < d - 1 && #[trigger] frame_cells(frames, d - 1)[i] == f.cell as int;
                    assert(frames[i].cell != frames[d - 1].cell);
                }
            }
            assert(self.table@ =~= table_after(frames, d - 1, self.size()));
            assert(partial_table(self.table@, self.n as int));
            lemma_concat_levels_pushes(levels, d - 1, self.size(), self.count());
            assert forall|j: int| 0 <= j < d && j <= d - 1 implies (#[trigger] self.frames@[j]).mark == concat_levels(self.levels@.take(j)).len() by {
                assert(self.levels@.take(j) =~= levels.take(j));
            }
            if !self.infeasible {
                assert forall|j: int| 0 <= j <= d - 1 implies self.watched_at(
                    #[trigger] table_after(self.frames@, j, self.size()),
                    apply_pushes(self.base@, concat_levels(self.levels@.take(j))),
                ) by {
                    assert(self.levels@.take(j) =~= levels.take(j));
                }
            }
        }
    }

    /// Moves the unassigned last frame to its next value.
    fn bump_top(&mut self)
        requires
            old(self).basic(),
            old(self).frames@.len() >= 1,
            old(self).walk_ok(old(self).frames@.len() as int, old(self).frames@.len() - 1),
            old(self).frames@.last().value < old(self).n,
        ensures
            final(self).basic(),
            final(self).walk_ok(old(self).frames@.len() as int, old(self).frames@.len() - 1),
            final(self).same_setting(old(self)),
            final(self).frames@ == old(self).frames@.update(
                old(self).frames@.len() - 1,
                Frame {
                    cell: old(self).frames@.last().cell,
                    value: (old(self).frames@.last().value + 1) as u8,
                    mark: old(self).frames@.last().mark,
                },
            ),
            final(self).table == old(self).table,
            final(self).levels == old(self).levels,
            final(self).found == old(self).found,
            final(self).phase == old(self).phase,
            final(self).stats == old(self).stats,
    {
        let d = self.frames.len();
        let f = self.frames[d - 1];
        let ghost old_frames = self.frames@;
        self.frames.set(d - 1, Frame { cell: f.cell, value: f.value + 1, mark: f.mark });
        proof {
            lemma_frames_prefix(old_frames, self.frames@, d - 1, self.size());
            assert forall|j: int| 0 <= j <= d - 1 implies #[trigger] table_after(self.frames@, j, self.size())
                == table_after(old_frames, j, self.size()) by {
                lemma_frames_prefix(old_frames, self.frames@, j, self.size());
            }
        }
    }
}

impl<'a> Search<'a> {
    /// The last frame has run out of values: drop it and move its parent on.
    /// Returns `true` when the walk is over.
    #[verifier::rlimit(50)]
    fn step_exhausted(&mut self) -> (over: bool)
        requires
            old(self).basic(),
            old(self).walking(),
            old(self).frames@.last().value == old(self).n,
            old(self).size() <= 256,
        ensures
            final(self).basic(),
            final(self).same_setting(old(self)),
            final(self).found == old(self).found,
            final(self).stats == old(self).stats,
            over ==> final(self).inv() && final(self).phase == Phase::Done,
            old(self).frames@.len() == 1 ==> over,
            !over ==> final(self).walking() && walk_code(walk_digits(final(self).frames@, final(self).n as int), final(self).size(), final(self).n + 2)
                < walk_code(walk_digits(old(self).frames@, old(self).n as int), old(self).size(), old(self).n + 2),
    {
        let d = self.frames.len();
        let ghost fr = self.frames@;
        proof {
            lemma_cover(frame_cells(fr, d as int), self.size() as int);
        }
        self.frames.pop();
        proof {
            lemma_frames_prefix(fr, self.frames@, d - 1, self.size());
            assert forall|j: int| 0 <= j <= d - 1 implies #[trigger] table_after(self.frames@, j, self.size())
                == table_after(fr, j, self.size()) by {
                lemma_frames_prefix(fr, self.frames@, j, self.size());
            }
            assert forall|m: Seq<u8>| self.accepts(m) implies (explored(m, fr, d as int) <==> explored(m, self.frames@, d - 1) || agrees(m, fr, d - 1)) by {
                assert(fr.drop_last() == self.frames@);
                assert(m[fr.last().cell as int] < self.n);
                lemma_explored_pop(fr, m, self.n as int);
            }
        }
        if d == 1 {
            self.phase = Phase::Done;
            proof {
                assert(self.levels@ =~= Seq::<Seq<(usize, u32)>>::empty());
                assert forall|m: Seq<u8>| #[trigger] self.found@.contains(m) <==> self.accepts(m) by {
                    assert(agrees(m, fr, 0));
                }
            }
            return true;
        }
        self.retract();
        let ghost fr1 = self.frames@;
        self.bump_top();
        proof {
            assert forall|m: Seq<u8>| #[trigger] self.found@.contains(m) <==> self.accepts(m) && (explored(m, self.frames@, d - 1) || (false && m == self.table@)) by {
                lemma_explored_bump(fr1, d - 1, m);
                if agrees(m, fr, d - 1) {
                    assert(agrees(m, fr1, d - 2));
                }
                if agrees(m, fr1, d - 2) && m[fr1[d - 2].cell as int] == fr1[d - 2].value {
                    assert(agrees(m, fr, d - 1));
                }
            }
            let p = walk_digits(fr, self.n as int).drop_last().drop_last();
            let a = self.n - fr[d - 2].value;
            assert(walk_digits(fr, self.n as int) =~= p.push(a).push(0));
            assert(walk_digits(self.frames@, self.n as int) =~= p.push(a - 1));
            lemma_measure_pop(p, a, self.size(), self.n as int);
        }
        false
    }

    /// Tries the current value of the last frame: returns the table when it
    /// completes an accepted table, otherwise moves the walk on.
    #[verifier::rlimit(80)]
    fn step_try(&mut self) -> (r: Option<Vec<u8>>)
        requires
            old(self).basic(),
            old(self).walking(),
            old(self).frames@.last().value < old(self).n,
            old(self).size() <= 256,
            old(self).size() >= 1,
        ensures
            final(self).basic(),
            final(self).same_setting(old(self)),
            final(self).stats.nodes == saturated(old(self).stats.nodes + 1),
            match r {
                Some(t) => {
                    &&& final(self).inv()
                    &&& final(self).frames == old(self).frames
                    &&& final(self).phase == Phase::AtLeaf
                    &&& final(self).found@ == old(self).found@.push(t@)
                    &&& final(self).accepts(t@)
                    &&& !old(self).found@.contains(t@)
                    &&& final(self).stats.leaves == saturated(old(self).stats.leaves + 1)
                },
                None => {
                    &&& final(self).walking()
                    &&& final(self).found == old(self).found
                    &&& final(self).stats.leaves == old(self).stats.leaves
                    &&& walk_code(walk_digits(final(self).frames@, final(self).n as int), final(self).size(), final(self).n + 2)
                        < walk_code(walk_digits(old(self).frames@, old(self).n as int), old(self).size(), old(self).n + 2)
                },
            },
    {
        let d = self.frames.len();
        let top = self.frames[d - 1];
        let ghost fr = self.frames@;
        proof {
            lemma_cover(frame_cells(fr, d as int), self.size() as int);
            lemma_digits_bounds(fr, self.n as int);
        }
        self.stats.nodes = self.stats.nodes.saturating_add(1);
        let ghost t_prev = self.table@;
        self.table.set(top.cell, top.value);
        self.filled = self.filled + 1;
        let ghost levels0 = self.levels@;
        proof {
            lemma_table_after(fr, d as int - 1, self.size(), self.n as int);
            lemma_table_after(fr, d as int, self.size(), self.n as int);
            assert(!frame_cells(fr, d - 1).contains(top.cell as int)) by {
                if frame_cells(fr, d - 1).contains(top.cell as int) {
                    let i = choose|i: int| 0 <= i < d - 1 && #[trigger] frame_cells(fr, d - 1)[i] == top.cell as int;
                    assert(fr[i].cell != fr[d - 1].cell);
                }
            }
            assert(self.table@ == table_after(fr, d as int, self.size()));
            assert(self.table@.update(top.cell as int, UNKNOWN) =~= t_prev);
            assert(levels0.take(d - 1) =~= levels0);
            assert(self.watched_at(t_prev, watch_view(self.watch@)));
        }
        let (prop_ok, Ghost(pend)) = self.propagate(top.cell, Ghost(concat_levels(levels0)));
        self.levels = Ghost(levels0.push(pend));
        proof {
            let lv = self.levels@;
            assert(lv.drop_last() =~= levels0);
            assert(concat_levels(lv) == concat_levels(levels0) + pend);
            assert(lv.take(d as int) =~= lv);
            assert forall|j: int| 0 <= j <= d - 1 implies #[trigger] lv.take(j) == levels0.take(j) by {
                assert(lv.take(j) =~= levels0.take(j));
            }
            assert(self.walk_core(d as int, d as int));
            assert(self.watched_upto(d - 1));
        }
        let ok = prop_ok && self.lex_leader_so_far();
        let ghost tt = self.table@;
        proof {
            // nothing accepted follows the walk through this value when it is pruned
            if !ok {
                assert forall|m: Seq<u8>| self.accepts(m) implies !agrees(m, fr, d as int) by {
                    if agrees(m, fr, d as int) {
                        assert(extends(tt, m));
                        if !prop_ok {
                            let inst = choose|inst: int|
                                0 <= inst < self.count() && #[trigger] instance_status(
                                    self.lhs(),
                                    self.rhs(),
                                    self.law.nvars as nat,
                                    self.n as int,
                                    tt,
                                    inst,
                                ) == Status::Fails;
                            lemma_prune_law(self.lhs(), self.rhs(), self.law.nvars as nat, self.n as int, tt, inst, m);
                        } else {
                            let j = choose|j: int|
                                0 <= j < self.perms@.len() && relabelling_smaller(
                                    tt,
                                    (#[trigger] self.perms@[j]).sigma@,
                                    self.perms@[j].source@,
                                    0,
                                );
                            lemma_prune_leader(self.perms@, self.n as int, tt, j, m);
                        }
                    }
                }
            }
        }
        if ok {
            if self.filled == self.table.len() {
                self.stats.leaves = self.stats.leaves.saturating_add(1);
                self.phase = Phase::AtLeaf;
                let t = self.table.clone();
                proof {
                    assert(t@ == tt);
                    assert forall|c: int| 0 <= c < self.size() implies #[trigger] tt[c] < self.n by {
                        assert(frame_cells(fr, d as int).len() == self.size());
                        assert(frame_cells(fr, d as int).contains(c));
                        let i = choose|i: int| 0 <= i < d && #[trigger] frame_cells(fr, d as int)[i] == c;
                        assert(tt[fr[i].cell as int] == fr[i].value);
                    }
                    assert(complete_table(tt, self.n as int));
                    lemma_complete_holds(self.lhs(), self.rhs(), self.law.nvars as nat, self.n as int, tt, watch_view(self.watch@));
                    if self.opts.symmetry {
                        lemma_leader_complete(self.perms@, self.n as int, tt);
                    }
                    assert(self.accepts(tt));
                    assert(!explored(tt, fr, d as int)) by {
                        if explored(tt, fr, d as int) {
                            let j = choose|j: int| 0 <= j < d && agrees(tt, fr, j) && #[trigger] tt[fr[j].cell as int] < fr[j].value;
                        }
                    }
                    assert(!self.found@.contains(tt));
                    self.found@ = self.found@.push(tt);
                    assert forall|m: Seq<u8>| #[trigger] self.found@.contains(m) <==> self.accepts(m) && (explored(m, self.frames@, d as int) || (true && m == self.table@)) by {
                        if m == tt {
                            assert(self.found@[self.found@.len() - 1] == tt);
                        }
                        if self.found@.contains(m) && m != tt {
                            let j = choose|j: int| 0 <= j < self.found@.len() && self.found@[j] == m;
                            assert(old(self).found@[j] == m);
                        }
                        if old(self).found@.contains(m) {
                            let j = choose|j: int| 0 <= j < old(self).found@.len() && old(self).found@[j] == m;
                            assert(self.found@[j] == m);
                        }
                    }
                    assert forall|j: int| 0 <= j < self.found@.len() implies self.accepts(#[trigger] self.found@[j]) by {
                        if j < old(self).found@.len() {
                            assert(self.found@[j] == old(self).found@[j]);
                        }
                    }
                }
                return Some(t);
            }
            proof {
                assert(frame_cells(fr, d as int).len() < self.size());
                let c = choose|c: int| 0 <= c < self.size() && !#[trigger] frame_cells(fr, d as int).contains(c);
                assert(self.table@[c] == UNKNOWN);
            }
            let cell = self.pick_cell();
            let mark = self.trail.len();
            self.frames.push(Frame { cell, value: 0, mark });
            proof {
                let nf = self.frames@;
                lemma_frames_prefix(fr, nf, d as int, self.size());
                assert forall|j: int| 0 <= j <= d implies #[trigger] table_after(nf, j, self.size())
                    == table_after(fr, j, self.size()) by {
                    lemma_frames_prefix(fr, nf, j, self.size());
                }
                assert forall|i: int| 0 <= i < d implies nf[i].cell != cell by {
                    assert(tt[fr[i].cell as int] == fr[i].value);
                }
                assert(self.levels@.take(d as int) =~= self.levels@);
                assert forall|m: Seq<u8>| #[trigger] self.found@.contains(m) <==> self.accepts(m) && (explored(m, nf, d + 1) || (false && m == self.table@)) by {
                    lemma_explored_push(fr, Frame { cell, value: 0, mark }, m);
                }
                let p = walk_digits(fr, self.n as int);
                assert(walk_digits(nf, self.n as int) =~= p.push(self.n as int));
                lemma_measure_push(p, self.size(), self.n as int);
            }
        } else {
            self.retract();
            self.bump_top();
            proof {
                assert forall|m: Seq<u8>| #[trigger] self.found@.contains(m) <==> self.accepts(m) && (explored(m, self.frames@, d as int) || (false && m == self.table@)) by {
                    lemma_explored_bump(fr, d as int, m);
                    if agrees(m, fr, d - 1) && m[fr[d - 1].cell as int] == fr[d - 1].value {
                        assert(agrees(m, fr, d as int));
                    }
                }
                let p = walk_digits(fr, self.n as int).drop_last();
                let a = self.n - fr[d - 1].value;
                assert(walk_digits(fr, self.n as int) =~= p.push(a));
                assert(walk_digits(self.frames@, self.n as int) =~= p.push(a - 1));
                lemma_measure_bump(p, a, self.size(), self.n as int);
            }
        }
        None
    }
}

impl<'a> Search<'a> {
    /// Between steps of the walk: the last frame holds the value to try next.
    spec fn walking(&self) -> bool {
        let d = self.frames@.len() as int;
        &&& d >= 1
        &&& !self.infeasible
        &&& self.walk_ok(d, d - 1)
        &&& self.found_ok(d, false)
    }

    /// The found tables are distinct accepted tables.
    pub open spec fn found_sound(&self) -> bool {
        &&& self.found().no_duplicates()
        &&& forall|j: int| 0 <= j < self.found().len() ==> self.accepts(#[trigger] self.found()[j])
    }

    /// A law refuted on the empty table makes the search infeasible.
    proof fn lemma_refuted_infeasible(&self)
        requires
            self.basic(),
            refuted_on_empty(*self.law, self.n as int),
        ensures
            self.infeasible,
    {
        let k = self.law.nvars as nat;
        let n = self.n as int;
        let a = choose|a: Seq<u8>|
            valid_assignment(a, k as int, n) && #[trigger] status_of(self.lhs(), self.rhs(), n, empty_table((n * n) as nat), a)
                == Status::Fails;
        lemma_instance_of(a, k, n);
        let inst = crate::eval::odometer_value(a, n);
        assert(instance_status(self.lhs(), self.rhs(), k, n, empty_table(self.size()), inst) == Status::Fails);
    }

    proof fn lemma_inv_sound(&self)
        requires
            self.inv(),
        ensures
            self.found_sound(),
    {
    }

    /// No table is accepted when some instance fails on the empty table.
    proof fn lemma_infeasible(&self, m: Seq<u8>)
        requires
            self.basic(),
            self.infeasible,
        ensures
            !self.accepts(m),
    {
        if self.accepts(m) {
            let empty = empty_table(self.size());
            let inst = choose|inst: int|
                0 <= inst < self.count() && #[trigger] instance_status(
                    self.lhs(),
                    self.rhs(),
                    self.law.nvars as nat,
                    self.n as int,
                    empty,
                    inst,
                ) == Status::Fails;
            assert(partial_table(empty, self.n as int));
            assert(extends(empty, m));
            lemma_prune_law(self.lhs(), self.rhs(), self.law.nvars as nat, self.n as int, empty, inst, m);
        }
    }

    /// Finds the next accepted table of the walk, or `None` once every
    /// accepted table has been returned.
    pub fn next_model(&mut self) -> (r: Option<Vec<u8>>)
        requires
            old(self).inv(),
        ensures
            final(self).inv(),
            final(self).found_sound(),
            final(self).compiled() == old(self).compiled(),
            final(self).order() == old(self).order(),
            final(self).options() == old(self).options(),
            final(self).counters().nodes >= old(self).counters().nodes,
            refuted_on_empty(old(self).compiled(), old(self).order() as int) ==> r is None && final(self).counters()
                == old(self).counters(),
            old(self).order() == 1 && old(self).fresh() && !refuted_on_empty(old(self).compiled(), 1)
                ==> final(self).counters().nodes == saturated(old(self).counters().nodes + 1),
            old(self).order() == 1 && !old(self).fresh() ==> final(self).counters().nodes == old(self).counters().nodes,
            !final(self).fresh(),
            final(self).counters().nodes + final(self).remaining() <= old(self).counters().nodes + old(self).remaining(),
            r is Some ==> final(self).remaining() < old(self).remaining(),
            match r {
                Some(t) => {
                    &&& final(self).found() == old(self).found().push(t@)
                    &&& final(self).accepts(t@)
                    &&& !old(self).found().contains(t@)
                    &&& final(self).counters().leaves == saturated(old(self).counters().leaves + 1)
                },
                None => {
                    &&& final(self).found() == old(self).found()
                    &&& final(self).exhausted()
                    &&& forall|m: Seq<u8>| final(self).accepts(m) ==> #[trigger] final(self).found().contains(m)
                    &&& final(self).counters().leaves == old(self).counters().leaves
                },
            },
    {
        proof {
            assert(self.size() <= 256) by (nonlinear_arith)
                requires
                    self.size() == self.n * self.n,
                    self.n <= 16,
            ;
            assert(self.size() >= 1) by (nonlinear_arith)
                requires
                    self.size() == self.n * self.n,
                    self.n >= 1,
            ;
        }
        proof {
            if refuted_on_empty(*self.law, self.n as int) {
                self.lemma_refuted_infeasible();
            }
            assert(self.fresh() <==> self.phase == Phase::Start);
            if self.n == 1 {
                assert(self.size() == 1) by (nonlinear_arith)
                    requires
                        self.n == 1,
                        self.size() == self.n * self.n,
                ;
            }
        }
        if self.phase == Phase::Done {
            return None;
        }
        if self.phase == Phase::Start {
            if self.infeasible {
                self.phase = Phase::Done;
                proof {
                    assert forall|m: Seq<u8>| #[trigger] self.found@.contains(m) <==> self.accepts(m) by {
                        self.lemma_infeasible(m);
                    }
                    lemma_power_pos(self.n + 2, self.size());
                }
                return None;
            }
            proof {
                assert(self.table@[0] == UNKNOWN);
            }
            let cell = self.pick_cell();
            let mark = self.trail.len();
            let ghost f0 = self.frames@;
            self.frames.push(Frame { cell, value: 0, mark });
            proof {
                lemma_frames_prefix(f0, self.frames@, 0, self.size());
                assert(self.levels@.take(0) =~= self.levels@);
                assert(walk_digits(f0, self.n as int) =~= Seq::<int>::empty());
                assert(walk_digits(self.frames@, self.n as int) =~= Seq::<int>::empty().push(self.n as int));
                lemma_measure_push(Seq::empty(), self.size(), self.n as int);
                lemma_walk_code_empty(self.size(), self.n + 2);
                assert forall|m: Seq<u8>| #[trigger] self.found@.contains(m) <==> self.accepts(m) && (explored(m, self.frames@, 1) || (false && m == self.table@)) by {
                    if explored(m, self.frames@, 1) {
                        let j = choose|j: int| 0 <= j < 1 && agrees(m, self.frames@, j) && #[trigger] m[self.frames@[j].cell as int] < self.frames@[j].value;
                    }
                }
            }
        } else {
            proof {
                let d = self.frames@.len() as int;
                assert(self.walk_core(d, d) && self.watched_upto(d - 1));
            }
            let ghost t0 = self.table@;
            let ghost fr0 = self.frames@;
            self.retract();
            self.bump_top();
            proof {
                let d = fr0.len() as int;
                lemma_table_after(fr0, d, self.size(), self.n as int);
                assert forall|m: Seq<u8>| #[trigger] self.found@.contains(m) <==> self.accepts(m) && (explored(m, self.frames@, d) || (false && m == self.table@)) by {
                    lemma_explored_bump(fr0, d, m);
                    if self.accepts(m) && agrees(m, fr0, d - 1) && m[fr0[d - 1].cell as int] == fr0[d - 1].value {
                        assert(agrees(m, fr0, d));
                        assert(extends(t0, m));
                        assert(m =~= t0);
                    }
                    if m == t0 {
                        assert(agrees(m, fr0, d));
                    }
                }
                let p = walk_digits(fr0, self.n as int).drop_last();
                let a = self.n - fr0[d - 1].value;
                assert(walk_digits(fr0, self.n as int) =~= p.push(a));
                assert(walk_digits(self.frames@, self.n as int) =~= p.push(a - 1));
                lemma_cover(frame_cells(fr0, d), self.size() as int);
                lemma_measure_bump(p, a, self.size(), self.n as int);
                if self.n == 1 {
                    lemma_one_frame(self.frames@, self.size());
                }
            }
        }
        loop
            invariant
                self.basic(),
                self.same_setting(old(self)),
                self.walking(),
                self.found@ == old(self).found@,
                self.stats.leaves == old(self).stats.leaves,
                self.stats.nodes >= old(self).stats.nodes,
                !refuted_on_empty(old(self).compiled(), old(self).order() as int),
                old(self).fresh() <==> old(self).phase == Phase::Start,
                self.n == 1 ==> self.frames@.len() == 1,
                self.n == 1 && old(self).phase == Phase::Start ==> self.stats.nodes == saturated(
                    old(self).stats.nodes + self.frames@[0].value,
                ),
                self.n == 1 && old(self).phase != Phase::Start ==> self.stats.nodes == old(self).stats.nodes
                    && self.frames@[0].value == 1,
                self.size() <= 256,
                self.size() >= 1,
                self.n == 1 ==> self.size() == 1,
                walk_code(walk_digits(self.frames@, self.n as int), self.size(), self.n + 2) < old(self).remaining(),
                self.stats.nodes + walk_code(walk_digits(self.frames@, self.n as int), self.size(), self.n + 2) + 1
                    <= old(self).stats.nodes + old(self).remaining(),
            decreases walk_code(walk_digits(self.frames@, self.n as int), self.size(), self.n + 2),
        {
            let d = self.frames.len();
            let top = self.frames[d - 1];
            let ghost before = walk_code(walk_digits(self.frames@, self.n as int), self.size(), self.n + 2);
            proof {
                lemma_digits_bounds(self.frames@, self.n as int);
                lemma_walk_code_nonneg(walk_digits(self.frames@, self.n as int), self.size(), self.n + 2);
            }
            if top.value as usize == self.n {
                if self.step_exhausted() {
                    return None;
                }
                assert(walk_code(walk_digits(self.frames@, self.n as int), self.size(), self.n + 2) < before);
                proof {
                    lemma_digits_bounds(self.frames@, self.n as int);
                    lemma_walk_code_nonneg(walk_digits(self.frames@, self.n as int), self.size(), self.n + 2);
                    if self.n == 1 {
                        lemma_one_frame(self.frames@, self.size());
                    }
                }
            } else {
                let ghost old_frames = self.frames@;
                let r = self.step_try();
                match r {
                    Some(_) => {
                        return r;
                    },
                    None => {},
                }
                assert(walk_code(walk_digits(self.frames@, self.n as int), self.size(), self.n + 2) < before);
                proof {
                    if self.n == 1 {
                        lemma_one_frame(self.frames@, self.size());
                        assert(self.frames@.len() >= 1);
                        lemma_one_cell_code(self.frames@, 1);
                        lemma_one_cell_code(old_frames, 1);
                    }
                    lemma_digits_bounds(self.frames@, self.n as int);
                    lemma_walk_code_nonneg(walk_digits(self.frames@, self.n as int), self.size(), self.n + 2);
                }
            }
        }
    }
}

/// The tables a search with these parameters accepts.
pub open spec fn accepted_tables(lhs: Term, rhs: Term, k: nat, n: int, symmetry: bool) -> Set<Seq<u8>> {
    Set::new(|m: Seq<u8>| accepted(lhs, rhs, k, n, symmetry, m))
}

proof fn lemma_walk_code_bound(ds: Seq<int>, l: nat, b: int)
    requires
        b >= 2,
        forall|i: int| 0 <= i < ds.len() ==> 0 <= #[trigger] ds[i] < b,
    ensures
        walk_code(ds, l, b) <= power(b, l) - 1,
    decreases l,
{
    if l > 0 {
        let rest = if ds.len() > 0 { ds.drop_first() } else { ds };
        assert forall|i: int| 0 <= i < rest.len() implies 0 <= #[trigger] rest[i] < b by {
            if ds.len() > 0 {
                assert(rest[i] == ds[i + 1]);
            }
        }
        lemma_walk_code_bound(rest, (l - 1) as nat, b);
        lemma_power_pos(b, (l - 1) as nat);
        let h = if ds.len() > 0 { ds[0] } else { b - 1 };
        assert(h * power(b, (l - 1) as nat) + power(b, (l - 1) as nat) - 1 <= b * power(b, (l - 1) as nat) - 1) by (nonlinear_arith)
            requires
                h <= b - 1,
                power(b, (l - 1) as nat) >= 1,
        ;
    }
}

impl<'a> Search<'a> {
    /// How far the walk still has to go: it drops with every table found.
    pub closed spec fn remaining(&self) -> int {
        match self.phase {
            Phase::Start => power(self.n + 2, self.size()),
            Phase::AtLeaf => walk_code(walk_digits(self.frames@, self.n as int), self.size(), self.n + 2),
            Phase::Done => 0,
        }
    }

    pub proof fn lemma_remaining(&self)
        requires
            self.inv(),
        ensures
            self.remaining() >= 0,
            self.exhausted() ==> self.remaining() == 0,
    {
        match self.phase {
            Phase::Start => {
                lemma_power_pos(self.n + 2, self.size());
            },
            Phase::AtLeaf => {
                lemma_digits_bounds(self.frames@, self.n as int);
                lemma_walk_code_nonneg(walk_digits(self.frames@, self.n as int), self.size(), self.n + 2);
            },
            Phase::Done => {},
        }
    }

    /// The statistics so far.
    pub fn stats(&self) -> (st: Stats)
        ensures
            st == self.counters(),
    {
        self.stats
    }

    /// Goes back to the start of the walk, forgetting what was found.
    pub fn rewind(&mut self)
        requires
            old(self).inv(),
        ensures
            final(self).inv(),
            final(self).fresh(),
            final(self).compiled() == old(self).compiled(),
            final(self).order() == old(self).order(),
            final(self).options() == old(self).options(),
            final(self).counters() == old(self).counters(),
    {
        if self.phase == Phase::AtLeaf {
            while self.frames.len() > 0
                invariant
                    self.basic(),
                    self.same_setting(old(self)),
                    self.stats == old(self).stats,
                    !self.infeasible,
                    self.walk_ok(self.frames@.len() as int, self.frames@.len() as int),
                decreases self.frames@.len(),
            {
                let ghost fr = self.frames@;
                let ghost d = fr.len() as int;
                self.retract();
                self.frames.pop();
                proof {
                    lemma_frames_prefix(fr, self.frames@, d - 1, self.size());
                    assert forall|j: int| 0 <= j <= d - 1 implies #[trigger] table_after(self.frames@, j, self.size())
                        == table_after(fr, j, self.size()) by {
                        lemma_frames_prefix(fr, self.frames@, j, self.size());
                    }
                }
            }
        }
        self.phase = Phase::Start;
        self.found = Ghost(Seq::empty());
        proof {
            assert(self.frames@.len() == 0);
        }
    }
}

/// A call of a visitor like `F` on `table` may return `r`.
pub open spec fn visit_returned<F: FnMut(&[u8]) -> Flow>(table: Seq<u8>, r: Flow) -> bool {
    exists|f: F, t: &[u8]| t@ == table && #[trigger] call_ensures(f, (t,), r)
}

/// `rets` holds what each call of the visitor returned: the `k`-th call got
/// `tables[k]`, every call but the last returned `Continue`, and the walk
/// ended with `Stop` exactly when the last call returned it.
pub open spec fn visits_made<F: FnMut(&[u8]) -> Flow>(rets: Seq<Flow>, tables: Seq<Seq<u8>>, flow: Flow) -> bool {
    &&& rets.len() == tables.len()
    &&& forall|k: int| 0 <= k < rets.len() ==> visit_returned::<F>(tables[k], #[trigger] rets[k])
    &&& forall|k: int| 0 <= k < rets.len() - 1 ==> #[trigger] rets[k] == Flow::Continue
    &&& (flow == Flow::Stop <==> (rets.len() > 0 && rets.last() == Flow::Stop))
}

impl<'a> Search<'a> {
    /// Enumerates models from the start of the walk, calling `visit` with each
    /// complete row-major table. Returns [`Flow::Stop`] if `visit` asked to stop.
    ///
    /// Afterwards `found()` lists the tables handed to `visit`, in order.
    pub fn run<F: FnMut(&[u8]) -> Flow>(&mut self, visit: &mut F) -> (flow: Flow)
        requires
            old(self).inv(),
            forall|f: F, t: &[u8]| call_requires(f, (t,)),
        ensures
            final(self).inv(),
            final(self).found_sound(),
            final(self).compiled() == old(self).compiled(),
            final(self).order() == old(self).order(),
            final(self).options() == old(self).options(),
            final(self).counters().nodes >= old(self).counters().nodes,
            final(self).counters().leaves == saturated(old(self).counters().leaves + final(self).found().len()),
            exists|rets: Seq<Flow>| #[trigger] visits_made::<F>(rets, final(self).found(), flow),
            final(self).counters().nodes <= old(self).counters().nodes + power(
                old(self).order() + 2,
                (old(self).order() * old(self).order()) as nat,
            ),
            flow == Flow::Continue ==> forall|m: Seq<u8>| final(self).accepts(m) ==> #[trigger] final(self).found().contains(m),
            flow == Flow::Stop ==> final(self).found().len() >= 1,
            refuted_on_empty(old(self).compiled(), old(self).order() as int) ==> {
                &&& flow == Flow::Continue
                &&& final(self).found().len() == 0
                &&& final(self).counters().nodes == old(self).counters().nodes
            },
    {
        self.rewind();
        let ghost mut rets: Seq<Flow> = Seq::empty();
        proof {
            assert(self.remaining() == power(self.n + 2, self.size()));
        }
        loop
            invariant
                self.inv(),
                self.compiled() == old(self).compiled(),
                self.order() == old(self).order(),
                self.options() == old(self).options(),
                self.counters().nodes >= old(self).counters().nodes,
                self.counters().leaves == saturated(old(self).counters().leaves + self.found().len()),
                forall|f: F, t: &[u8]| call_requires(f, (t,)),
                rets.len() == self.found().len(),
                self.counters().nodes + self.remaining() <= old(self).counters().nodes + power(
                    old(self).order() + 2,
                    (old(self).order() * old(self).order()) as nat,
                ),
                forall|k: int| 0 <= k < rets.len() ==> visit_returned::<F>(self.found()[k], #[trigger] rets[k]),
                forall|k: int| 0 <= k < rets.len() ==> #[trigger] rets[k] == Flow::Continue,
                refuted_on_empty(old(self).compiled(), old(self).order() as int) ==> {
                    &&& self.found().len() == 0
                    &&& self.counters().nodes == old(self).counters().nodes
                },
            decreases self.remaining(),
        {
            proof {
                self.lemma_remaining();
            }
            let ghost before = self.found();
            let ghost v0 = *visit;
            match self.next_model() {
                Some(t) => {
                    proof {
                        self.lemma_remaining();
                        self.lemma_inv_sound();
                    }
                    let sl = t.as_slice();
                    let r = visit(sl);
                    proof {
                        assert(call_ensures(v0, (sl,), r));
                        assert(visit_returned::<F>(t@, r));
                        let old_rets = rets;
                        rets = rets.push(r);
                        assert forall|k: int| 0 <= k < rets.len() implies visit_returned::<F>(self.found()[k], #[trigger] rets[k]) by {
                            if k < old_rets.len() {
                                assert(rets[k] == old_rets[k]);
                                assert(self.found()[k] == before[k]);
                            }
                        }
                    }
                    if r == Flow::Stop {
                        proof {
                            assert(visits_made::<F>(rets, self.found(), Flow::Stop));
                        }
                        return Flow::Stop;
                    }
                    proof {
                        assert forall|k: int| 0 <= k < rets.len() implies #[trigger] rets[k] == Flow::Continue by {
                            if k < rets.len() - 1 {
                                assert(rets[k] == rets.drop_last()[k]);
                            }
                        }
                    }
                },
                None => {
                    proof {
                        self.lemma_inv_sound();
                        assert(visits_made::<F>(rets, self.found(), Flow::Continue));
                    }
                    return Flow::Continue;
                },
            }
        }
    }
}

/// Counts models of `law` of size `n`. With symmetry breaking on this is the
/// number of isomorphism classes; with it off, the number of labelled tables.
pub fn count_models(law: &CompiledLaw, n: usize, opts: Options) -> (stats: Stats)
    requires
        law.wf(),
        size_ok(law.nvars as nat, n as int),
    ensures
        accepted_tables(law.lhs.term(), law.rhs.term(), law.nvars as nat, n as int, opts.symmetry).finite(),
        stats.leaves == saturated(
            accepted_tables(law.lhs.term(), law.rhs.term(), law.nvars as nat, n as int, opts.symmetry).len() as int,
        ),
        refuted_on_empty(*law, n as int) ==> stats == (Stats { nodes: 0, leaves: 0 }),
        n == 1 && !refuted_on_empty(*law, 1) ==> stats.nodes == 1,
        stats.nodes <= power(n + 2, (n * n) as nat),
{
    let mut search = Search::new(law, n, opts);
    loop
        invariant
            search.inv(),
            search.compiled() == *law,
            search.order() == n,
            search.options() == opts,
            search.counters().leaves == saturated(search.found().len() as int),
            refuted_on_empty(*law, n as int) ==> search.counters() == (Stats { nodes: 0, leaves: 0 }),
            n == 1 && search.fresh() ==> search.counters().nodes == 0,
            search.counters().nodes + search.remaining() <= power(n + 2, (n * n) as nat),
            n == 1 && !search.fresh() && !refuted_on_empty(*law, 1) ==> search.counters().nodes == 1,
        ensures
            n == 1 && !refuted_on_empty(*law, 1) ==> search.counters().nodes == 1,
            search.counters().nodes <= power(n + 2, (n * n) as nat),
            forall|m: Seq<u8>| search.accepts(m) ==> #[trigger] search.found().contains(m),
        decreases search.remaining(),
    {
        proof {
            search.lemma_remaining();
        }
        match search.next_model() {
            Some(_) => {
                proof {
                    search.lemma_remaining();
                }
            },
            None => {
                break;
            },
        }
    }
    proof {
        search.lemma_inv_sound();
        let acc = accepted_tables(law.lhs.term(), law.rhs.term(), law.nvars as nat, n as int, opts.symmetry);
        assert(search.found().to_set() =~= acc) by {
            assert forall|m: Seq<u8>| search.found().to_set().contains(m) <==> acc.contains(m) by {
                if search.found().contains(m) {
                    let j = choose|j: int| 0 <= j < search.found().len() && search.found()[j] == m;
                    assert(search.accepts(search.found()[j]));
                }
            }
        }
        search.found().unique_seq_to_set();
        vstd::seq_lib::seq_to_set_is_finite(search.found());
    }
    search.stats
}

} // verus!
