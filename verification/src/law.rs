//! Terms and laws over a single binary operation, with their printed form.

use vstd::prelude::*;
use crate::text::{decimal, push_decimal, push_str};




verus! {

/// Laws with more distinct variables than this are rejected by the parser:
/// the solver materialises all `n^vars` ground instances.
pub const MAX_VARS: usize = 8;

/// A term over variables (numbered from 0) and a single binary operation.
#[derive(Debug, Hash, PartialOrd, Ord)]
pub enum Term {
    Var(u8),
    Op(Box<Term>, Box<Term>),
}

impl Term {
    /// Number of operation nodes.
    pub open spec fn op_count(self) -> nat
        decreases self,
    {
        match self {
            Term::Var(_) => 0,
            Term::Op(l, r) => 1 + l.op_count() + r.op_count(),
        }
    }

    /// The variables at the leaves, left to right.
    pub open spec fn leaves(self) -> Seq<u8>
        decreases self,
    {
        match self {
            Term::Var(v) => seq![v],
            Term::Op(l, r) => l.leaves() + r.leaves(),
        }
    }

    /// Whether variable `v` occurs in the term.
    pub open spec fn has_var(self, v: u8) -> bool
        decreases self,
    {
        match self {
            Term::Var(x) => x == v,
            Term::Op(l, r) => l.has_var(v) || r.has_var(v),
        }
    }

    /// Every variable of the term is below `k`.
    pub open spec fn vars_below(self, k: int) -> bool
        decreases self,
    {
        match self {
            Term::Var(x) => x < k,
            Term::Op(l, r) => l.vars_below(k) && r.vars_below(k),
        }
    }

    /// The largest variable of the term.
    pub open spec fn top_var(self) -> u8
        decreases self,
    {
        match self {
            Term::Var(x) => x,
            Term::Op(l, r) => if l.top_var() >= r.top_var() { l.top_var() } else { r.top_var() },
        }
    }

    /// The term with every variable `v` replaced by `map[v]`.
    pub open spec fn renamed(self, map: Seq<u8>) -> Term
        decreases self,
    {
        match self {
            Term::Var(x) => Term::Var(map[x as int]),
            Term::Op(l, r) => Term::Op(Box::new(l.renamed(map)), Box::new(r.renamed(map))),
        }
    }

    /// The term with every variable replaced by its position in `order`.
    pub open spec fn numbered(self, order: Seq<u8>) -> Term
        decreases self,
    {
        match self {
            Term::Var(x) => Term::Var(position_of(order, x) as u8),
            Term::Op(l, r) => Term::Op(Box::new(l.numbered(order)), Box::new(r.numbered(order))),
        }
    }

    pub fn op(l: Term, r: Term) -> (t: Term)
        ensures
            t == Term::Op(Box::new(l), Box::new(r)),
    {
        Term::Op(Box::new(l), Box::new(r))
    }

    /// Number of operation nodes.
    pub fn ops(&self) -> (k: usize)
        requires
            self.op_count() <= usize::MAX,
        ensures
            k == self.op_count(),
        decreases self,
    {
        match self {
            Term::Var(_) => 0,
            Term::Op(l, r) => 1 + l.ops() + r.ops(),
        }
    }

    pub fn contains_var(&self, v: u8) -> (b: bool)
        ensures
            b == self.has_var(v),
        decreases self,
    {
        match self {
            Term::Var(x) => *x == v,
            Term::Op(l, r) => l.contains_var(v) || r.contains_var(v),
        }
    }

    fn first_occurrences(&self, out: &mut Vec<u8>)
        ensures
            final(out)@ == first_occurrences_into(old(out)@, self.leaves()),
        decreases self,
    {
        match self {
            Term::Var(v) => {
                if !vec_contains(out, *v) {
                    out.push(*v);
                }
                assert(first_occurrences_into(old(out)@, seq![*v]) == first_occurrences_into(
                    if old(out)@.contains(*v) { old(out)@ } else { old(out)@.push(*v) },
                    seq![*v].drop_first(),
                ));
                assert(seq![*v].drop_first() =~= Seq::<u8>::empty());
            },
            Term::Op(l, r) => {
                l.first_occurrences(out);
                r.first_occurrences(out);
                proof {
                    lemma_first_occurrences_append(old(out)@, l.leaves(), r.leaves());
                }
            },
        }
    }

    fn rename(&self, map: &[u8]) -> (t: Term)
        requires
            self.vars_below(map@.len() as int),
        ensures
            t == self.renamed(map@),
        decreases self,
    {
        match self {
            Term::Var(v) => Term::Var(map[*v as usize]),
            Term::Op(l, r) => Term::op(l.rename(map), r.rename(map)),
        }
    }

    fn max_var(&self) -> (m: Option<u8>)
        ensures
            m == Some(self.top_var()),
        decreases self,
    {
        match self {
            Term::Var(v) => Some(*v),
            Term::Op(l, r) => {
                let a = l.max_var().unwrap();
                let b = r.max_var().unwrap();
                if a >= b { Some(a) } else { Some(b) }
            },
        }
    }

    fn write(&self, out: &mut String, names: &[String], top: bool)
        requires
            self.vars_below(names@.len() as int),
        ensures
            final(out)@ == old(out)@ + term_text(*self, names_view(names@), top),
        decreases self,
    {
        match self {
            Term::Var(v) => {
                push_str(out, names[*v as usize].as_str());
            },
            Term::Op(l, r) => {
                if !top {
                    push_str(out, "(");
                }
                l.write(out, names, false);
                push_str(out, " ◇ ");
                r.write(out, names, false);
                if !top {
                    push_str(out, ")");
                }
                assert(final(out)@ =~= old(out)@ + term_text(*self, names_view(names@), top));
            },
        }
    }
}

impl Clone for Term {
    fn clone(&self) -> (t: Term)
        ensures
            t == *self,
        decreases self,
    {
        match self {
            Term::Var(v) => Term::Var(*v),
            Term::Op(l, r) => Term::op((**l).clone(), (**r).clone()),
        }
    }
}

impl PartialEq for Term {
    fn eq(&self, other: &Term) -> (b: bool)
        decreases self,
    {
        match (self, other) {
            (Term::Var(a), Term::Var(b)) => *a == *b,
            (Term::Op(l1, r1), Term::Op(l2, r2)) => (**l1).eq(&**l2) && (**r1).eq(&**r2),
            _ => false,
        }
    }
}

impl vstd::std_specs::cmp::PartialEqSpecImpl for Term {
    open spec fn obeys_eq_spec() -> bool {
        true
    }

    open spec fn eq_spec(&self, other: &Term) -> bool {
        *self == *other
    }
}

impl Eq for Term {}

/// Whether `v` is an element of `s`.
pub fn vec_contains(s: &Vec<u8>, v: u8) -> (b: bool)
    ensures
        b == s@.contains(v),
{
    let mut i: usize = 0;
    while i < s.len()
        invariant
            i <= s.len(),
            forall|j: int| 0 <= j < i ==> s@[j] != v,
        decreases s.len() - i,
    {
        if s[i] == v {
            assert(s@[i as int] == v);
            return true;
        }
        i = i + 1;
    }
    false
}

/// Appends to `acc` each element of `s` that `acc` does not hold yet.
pub open spec fn first_occurrences_into(acc: Seq<u8>, s: Seq<u8>) -> Seq<u8>
    decreases s.len(),
{
    if s.len() == 0 {
        acc
    } else {
        first_occurrences_into(
            if acc.contains(s[0]) { acc } else { acc.push(s[0]) },
            s.drop_first(),
        )
    }
}

/// The distinct variables of a law in order of first occurrence, left side first.
pub open spec fn var_order(lhs: Term, rhs: Term) -> Seq<u8> {
    first_occurrences_into(Seq::empty(), lhs.leaves() + rhs.leaves())
}

/// Index of the first occurrence of `v` in `s`.
pub open spec fn position_of(s: Seq<u8>, v: u8) -> int
    decreases s.len(),
{
    if s.len() == 0 {
        0
    } else if s[0] == v {
        0
    } else {
        1 + position_of(s.drop_first(), v)
    }
}

pub proof fn lemma_first_occurrences_append(acc: Seq<u8>, a: Seq<u8>, b: Seq<u8>)
    ensures
        first_occurrences_into(first_occurrences_into(acc, a), b) == first_occurrences_into(
            acc,
            a + b,
        ),
    decreases a.len(),
{
    if a.len() == 0 {
        assert(a + b =~= b);
    } else {
        let acc2 = if acc.contains(a[0]) { acc } else { acc.push(a[0]) };
        lemma_first_occurrences_append(acc2, a.drop_first(), b);
        assert((a + b).drop_first() =~= a.drop_first() + b);
        assert((a + b)[0] == a[0]);
    }
}

pub proof fn lemma_contains_concat(a: Seq<u8>, b: Seq<u8>, x: u8)
    ensures
        (a + b).contains(x) <==> (a.contains(x) || b.contains(x)),
{
    if a.contains(x) {
        let k = choose|k: int| 0 <= k < a.len() && a[k] == x;
        assert((a + b)[k] == x);
    }
    if b.contains(x) {
        let k = choose|k: int| 0 <= k < b.len() && b[k] == x;
        assert((a + b)[k + a.len()] == x);
    }
    if (a + b).contains(x) {
        let k = choose|k: int| 0 <= k < (a + b).len() && (a + b)[k] == x;
        if k < a.len() {
            assert(a[k] == x);
        } else {
            assert(b[k - a.len()] == x);
        }
    }
}

pub proof fn lemma_contains_first(s: Seq<u8>, x: u8)
    requires
        s.len() > 0,
    ensures
        s.contains(x) <==> (s[0] == x || s.drop_first().contains(x)),
{
    assert(s =~= seq![s[0]] + s.drop_first());
    lemma_contains_concat(seq![s[0]], s.drop_first(), x);
    assert(seq![s[0]].contains(x) <==> s[0] == x) by {
        if seq![s[0]].contains(x) {
            let k = choose|k: int| 0 <= k < 1 && seq![s[0]][k] == x;
        }
        if s[0] == x {
            assert(seq![s[0]][0] == x);
        }
    }
}

pub proof fn lemma_first_occurrences_props(acc: Seq<u8>, s: Seq<u8>)
    requires
        acc.no_duplicates(),
    ensures
        first_occurrences_into(acc, s).no_duplicates(),
        forall|x: u8| #[trigger]
            first_occurrences_into(acc, s).contains(x) <==> (acc.contains(x) || s.contains(x)),
        first_occurrences_into(acc, s).len() >= acc.len(),
        first_occurrences_into(acc, s).subrange(0, acc.len() as int) == acc,
    decreases s.len(),
{
    if s.len() > 0 {
        let acc2 = if acc.contains(s[0]) { acc } else { acc.push(s[0]) };
        lemma_first_occurrences_props(acc2, s.drop_first());
        assert forall|x: u8| #[trigger]
            first_occurrences_into(acc, s).contains(x) <==> (acc.contains(x) || s.contains(x)) by {
            lemma_contains_first(s, x);
            if !acc.contains(s[0]) {
                lemma_contains_concat(acc, seq![s[0]], x);
                assert(acc.push(s[0]) =~= acc + seq![s[0]]);
                assert(seq![s[0]].contains(x) <==> s[0] == x) by {
                    if seq![s[0]].contains(x) {
                        let k = choose|k: int| 0 <= k < 1 && seq![s[0]][k] == x;
                    }
                    if s[0] == x {
                        assert(seq![s[0]][0] == x);
                    }
                }
            }
        }
        let r = first_occurrences_into(acc, s);
        assert(r.subrange(0, acc2.len() as int) == acc2);
        assert(r.subrange(0, acc.len() as int) =~= acc2.subrange(0, acc.len() as int));
    } else {
        assert(acc.subrange(0, acc.len() as int) =~= acc);
    }
}

pub proof fn lemma_position_of(s: Seq<u8>, i: int)
    requires
        s.no_duplicates(),
        0 <= i < s.len(),
    ensures
        position_of(s, s[i]) == i,
    decreases s.len(),
{
    if i > 0 {
        assert(s[0] != s[i]);
        lemma_position_of(s.drop_first(), i - 1);
        assert(s.drop_first()[i - 1] == s[i]);
    }
}

pub proof fn lemma_position_of_bound(s: Seq<u8>, v: u8)
    requires
        s.contains(v),
    ensures
        0 <= position_of(s, v) < s.len(),
        s[position_of(s, v)] == v,
    decreases s.len(),
{
    if s[0] != v {
        let k = choose|k: int| 0 <= k < s.len() && s[k] == v;
        assert(s.drop_first()[k - 1] == v);
        lemma_position_of_bound(s.drop_first(), v);
    }
}

/// A sequence of distinct bytes has at most 256 elements.
pub proof fn lemma_distinct_bytes_len(s: Seq<u8>)
    requires
        s.no_duplicates(),
    ensures
        s.len() <= 256,
{
    let full = Set::<u8>::new(|x: u8| true);
    let range = vstd::set_lib::set_int_range(0, 256);
    let f = |i: int| i as u8;
    assert(range.map(f) =~= full) by {
        assert forall|x: u8| full.contains(x) implies range.map(f).contains(x) by {
            assert(range.contains(x as int));
            assert(f(x as int) == x);
        }
    }
    vstd::set_lib::lemma_int_range(0, 256);
    vstd::set_lib::lemma_map_size_bound(range, full, f);
    s.unique_seq_to_set();
    vstd::set_lib::lemma_len_subset(s.to_set(), full);
}

pub proof fn lemma_leaves_vars(t: Term, k: int)
    ensures
        t.vars_below(k) <==> (forall|i: int| 0 <= i < t.leaves().len() ==> t.leaves()[i] < k),
        forall|v: u8| #[trigger] t.has_var(v) <==> t.leaves().contains(v),
        t.leaves().len() >= 1,
    decreases t,
{
    match t {
        Term::Var(x) => {
            assert(t.leaves()[0] == x);
        },
        Term::Op(l, r) => {
            lemma_leaves_vars(*l, k);
            lemma_leaves_vars(*r, k);
            let (a, b) = (l.leaves(), r.leaves());
            assert(t.leaves() == a + b);
            if t.vars_below(k) {
                assert forall|i: int| 0 <= i < t.leaves().len() implies t.leaves()[i] < k by {
                    if i < a.len() {
                        assert(t.leaves()[i] == a[i]);
                    } else {
                        assert(t.leaves()[i] == b[i - a.len()]);
                    }
                }
            }
            if forall|i: int| 0 <= i < t.leaves().len() ==> t.leaves()[i] < k {
                assert forall|i: int| 0 <= i < a.len() implies a[i] < k by {
                    assert(t.leaves()[i] == a[i]);
                }
                assert forall|i: int| 0 <= i < b.len() implies b[i] < k by {
                    assert(t.leaves()[i + a.len()] == b[i]);
                }
            }
            assert forall|v: u8| #[trigger] t.has_var(v) <==> t.leaves().contains(v) by {
                lemma_contains_concat(a, b, v);
                assert(l.has_var(v) <==> a.contains(v));
                assert(r.has_var(v) <==> b.contains(v));
            }
        },
    }
}

pub proof fn lemma_top_var(t: Term)
    ensures
        t.vars_below(t.top_var() + 1),
    decreases t,
{
    match t {
        Term::Var(_) => {},
        Term::Op(l, r) => {
            lemma_top_var(*l);
            lemma_top_var(*r);
            lemma_vars_below_mono(*l, l.top_var() + 1, t.top_var() + 1);
            lemma_vars_below_mono(*r, r.top_var() + 1, t.top_var() + 1);
        },
    }
}

pub proof fn lemma_vars_below_mono(t: Term, j: int, k: int)
    requires
        t.vars_below(j),
        j <= k,
    ensures
        t.vars_below(k),
    decreases t,
{
    match t {
        Term::Var(_) => {},
        Term::Op(l, r) => {
            lemma_vars_below_mono(*l, j, k);
            lemma_vars_below_mono(*r, j, k);
        },
    }
}

/// Renaming through a table that sends each occurring variable to its position
/// in `order` is numbering by `order`.
pub proof fn lemma_renamed_numbered(t: Term, map: Seq<u8>, order: Seq<u8>)
    requires
        forall|v: u8| #[trigger] t.has_var(v) ==> v < map.len() && map[v as int] == position_of(order, v) as u8,
    ensures
        t.renamed(map) == t.numbered(order),
    decreases t,
{
    match t {
        Term::Var(x) => {
            assert(t.has_var(x));
        },
        Term::Op(l, r) => {
            assert forall|v: u8| #[trigger] l.has_var(v) implies v < map.len() && map[v as int] == position_of(order, v) as u8 by {
                assert(t.has_var(v));
            }
            assert forall|v: u8| #[trigger] r.has_var(v) implies v < map.len() && map[v as int] == position_of(order, v) as u8 by {
                assert(t.has_var(v));
            }
            lemma_renamed_numbered(*l, map, order);
            lemma_renamed_numbered(*r, map, order);
        },
    }
}

/// Numbering by an order that holds every variable of `t` gives variables below its length.
pub proof fn lemma_numbered_vars(t: Term, order: Seq<u8>)
    requires
        order.len() <= 256,
        forall|v: u8| #[trigger] t.has_var(v) ==> order.contains(v),
    ensures
        t.numbered(order).vars_below(order.len() as int),
    decreases t,
{
    match t {
        Term::Var(x) => {
            assert(t.has_var(x));
            lemma_position_of_bound(order, x);
        },
        Term::Op(l, r) => {
            assert forall|v: u8| #[trigger] l.has_var(v) implies order.contains(v) by {
                assert(t.has_var(v));
            }
            assert forall|v: u8| #[trigger] r.has_var(v) implies order.contains(v) by {
                assert(t.has_var(v));
            }
            lemma_numbered_vars(*l, order);
            lemma_numbered_vars(*r, order);
        },
    }
}

/// Name `i` in the default naming scheme: x, y, z, w, u, v, r, s, then v8, v9, ...
pub open spec fn default_name(i: nat) -> Seq<char> {
    if i == 0 { "x"@ } else if i == 1 { "y"@ } else if i == 2 { "z"@ } else if i == 3 { "w"@ }
    else if i == 4 { "u"@ } else if i == 5 { "v"@ } else if i == 6 { "r"@ } else if i == 7 { "s"@ }
    else { "v"@ + decimal(i) }
}

/// The default names of the first `k` variables.
pub open spec fn default_names(k: nat) -> Seq<Seq<char>> {
    Seq::new(k, |i: int| default_name(i as nat))
}

fn default_name_string(i: usize) -> (s: String)
    ensures
        s@ == default_name(i as nat),
{
    let mut s = String::new();
    if i == 0 { push_str(&mut s, "x"); }
    else if i == 1 { push_str(&mut s, "y"); }
    else if i == 2 { push_str(&mut s, "z"); }
    else if i == 3 { push_str(&mut s, "w"); }
    else if i == 4 { push_str(&mut s, "u"); }
    else if i == 5 { push_str(&mut s, "v"); }
    else if i == 6 { push_str(&mut s, "r"); }
    else if i == 7 { push_str(&mut s, "s"); }
    else {
        push_str(&mut s, "v");
        push_decimal(&mut s, i as u64);
    }
    assert(s@ =~= default_name(i as nat));
    s
}

/// The characters of each name.
pub open spec fn names_view(names: Seq<String>) -> Seq<Seq<char>> {
    names.map_values(|s: String| s@)
}

/// The printed form of a term: operations as ` ◇ `, every operation but the
/// outermost in parentheses.
pub open spec fn term_text(t: Term, names: Seq<Seq<char>>, top: bool) -> Seq<char>
    decreases t,
{
    match t {
        Term::Var(v) => names[v as int],
        Term::Op(l, r) => {
            let inner = term_text(*l, names, false) + " ◇ "@ + term_text(*r, names, false);
            if top { inner } else { "("@ + inner + ")"@ }
        },
    }
}

/// The printed form of a law with these sides and names: `lhs = rhs`.
pub open spec fn law_text(lhs: Term, rhs: Term, names: Seq<Seq<char>>) -> Seq<char> {
    term_text(lhs, names, true) + " = "@ + term_text(rhs, names, true)
}

/// An equational law `lhs = rhs`, universally quantified over its variables.
///
/// Variables are numbered `0..nvars` in order of first occurrence (left side
/// first), so two laws that differ only by variable names compare equal.
#[derive(Debug)]
pub struct Law {
    pub lhs: Term,
    pub rhs: Term,
    pub nvars: usize,
    pub names: Vec<String>,
}

impl Law {
    /// The names used when printing, in variable-number order.
    pub open spec fn names_seq(&self) -> Seq<Seq<char>> {
        names_view(self.names@)
    }

    /// Both sides use only variables below `nvars`, and each variable has a name.
    pub open spec fn wf(&self) -> bool {
        &&& self.lhs.vars_below(self.nvars as int)
        &&& self.rhs.vars_below(self.nvars as int)
        &&& self.nvars <= 256
        &&& self.names_seq().len() == self.nvars
    }

    /// The printed form `lhs = rhs`.
    pub open spec fn text(&self) -> Seq<char> {
        law_text(self.lhs, self.rhs, self.names_seq())
    }

    /// Builds a law from two terms, renumbering variables by first occurrence.
    pub fn new(lhs: Term, rhs: Term) -> (law: Law)
        ensures
            law.lhs == lhs.numbered(var_order(lhs, rhs)),
            law.rhs == rhs.numbered(var_order(lhs, rhs)),
            law.nvars == var_order(lhs, rhs).len(),
            law.names_seq() == default_names(law.nvars as nat),
            law.wf(),
    {
        let ghost order_spec = var_order(lhs, rhs);
        let mut order: Vec<u8> = Vec::new();
        lhs.first_occurrences(&mut order);
        rhs.first_occurrences(&mut order);
        proof {
            lemma_first_occurrences_append(Seq::empty(), lhs.leaves(), rhs.leaves());
            lemma_first_occurrences_props(Seq::empty(), lhs.leaves() + rhs.leaves());
            lemma_distinct_bytes_len(order@);
            lemma_leaves_vars(lhs, 0);
            lemma_leaves_vars(rhs, 0);
            lemma_top_var(lhs);
            lemma_top_var(rhs);
        }
        let a = lhs.max_var().unwrap();
        let b = rhs.max_var().unwrap();
        let top = if a >= b { a } else { b };
        let size: usize = top as usize + 1;
        proof {
            lemma_vars_below_mono(lhs, a + 1, size as int);
            lemma_vars_below_mono(rhs, b + 1, size as int);
            lemma_leaves_vars(lhs, size as int);
            lemma_leaves_vars(rhs, size as int);
            assert forall|v: u8| #[trigger] order_spec.contains(v) implies v < size by {
                lemma_contains_concat(lhs.leaves(), rhs.leaves(), v);
                if lhs.leaves().contains(v) {
                    let k = choose|k: int| 0 <= k < lhs.leaves().len() && lhs.leaves()[k] == v;
                } else {
                    let k = choose|k: int| 0 <= k < rhs.leaves().len() && rhs.leaves()[k] == v;
                }
            }
        }
        let mut map: Vec<u8> = vec![0u8; size];
        let mut i: usize = 0;
        while i < order.len()
            invariant
                order@ == order_spec,
                order_spec.no_duplicates(),
                order_spec.len() <= 256,
                map@.len() == size,
                i <= order.len(),
                forall|v: u8| #[trigger] order_spec.contains(v) ==> v < size,
                forall|j: int| 0 <= j < i ==> #[trigger] map@[order_spec[j] as int] == j as u8,
            decreases order.len() - i,
        {
            let ghost old_map = map@;
            assert(order_spec.contains(order_spec[i as int]));
            map.set(order[i] as usize, i as u8);
            assert forall|j: int| 0 <= j < i + 1 implies #[trigger] map@[order_spec[j] as int] == j as u8 by {
                if j < i {
                    assert(order_spec.contains(order_spec[j]));
                    assert(order_spec[j] != order_spec[i as int]);
                    assert(map@[order_spec[j] as int] == old_map[order_spec[j] as int]);
                }
            }
            i = i + 1;
        }
        proof {
            assert forall|v: u8| #[trigger] lhs.has_var(v) implies
                order_spec.contains(v) && v < map@.len() && map@[v as int] == position_of(order_spec, v) as u8 by {
                lemma_contains_concat(lhs.leaves(), rhs.leaves(), v);
                lemma_position_of_bound(order_spec, v);
                let p = position_of(order_spec, v);
                assert(map@[order_spec[p] as int] == p as u8);
            }
            assert forall|v: u8| #[trigger] rhs.has_var(v) implies
                order_spec.contains(v) && v < map@.len() && map@[v as int] == position_of(order_spec, v) as u8 by {
                lemma_contains_concat(lhs.leaves(), rhs.leaves(), v);
                lemma_position_of_bound(order_spec, v);
                let p = position_of(order_spec, v);
                assert(map@[order_spec[p] as int] == p as u8);
            }
            lemma_renamed_numbered(lhs, map@, order_spec);
            lemma_renamed_numbered(rhs, map@, order_spec);
            lemma_numbered_vars(lhs, order_spec);
            lemma_numbered_vars(rhs, order_spec);
        }
        let mut names: Vec<String> = Vec::new();
        let mut k: usize = 0;
        while k < order.len()
            invariant
                k <= order.len(),
                names@.len() == k,
                forall|j: int| 0 <= j < k ==> #[trigger] names@[j]@ == default_name(j as nat),
            decreases order.len() - k,
        {
            names.push(default_name_string(k));
            k = k + 1;
        }
        let law = Law {
            lhs: lhs.rename(map.as_slice()),
            rhs: rhs.rename(map.as_slice()),
            nvars: order.len(),
            names,
        };
        assert(law.names_seq() =~= default_names(law.nvars as nat));
        law
    }

    /// The same law with its two sides exchanged (and variables renumbered).
    pub fn swapped(&self) -> (law: Law)
        ensures
            law.lhs == self.rhs.numbered(var_order(self.rhs, self.lhs)),
            law.rhs == self.lhs.numbered(var_order(self.rhs, self.lhs)),
            law.nvars == var_order(self.rhs, self.lhs).len(),
            law.names_seq() == default_names(law.nvars as nat),
            law.wf(),
    {
        Law::new(self.rhs.clone(), self.lhs.clone())
    }

    /// Total number of operations on both sides.
    pub fn ops(&self) -> (k: usize)
        requires
            self.lhs.op_count() + self.rhs.op_count() <= usize::MAX,
        ensures
            k == self.lhs.op_count() + self.rhs.op_count(),
    {
        self.lhs.ops() + self.rhs.ops()
    }

    /// True when both sides are syntactically identical, so every magma satisfies it.
    pub fn is_trivial(&self) -> (b: bool)
        ensures
            b == (self.lhs == self.rhs),
    {
        self.lhs == self.rhs
    }

    /// Variable names used when printing, in variable-number order.
    pub fn names(&self) -> (names: &[String])
        ensures
            names_view(names@) == self.names_seq(),
    {
        self.names.as_slice()
    }

    /// The printed form, e.g. `x ◇ (y ◇ z) = (x ◇ y) ◇ z`.
    pub fn to_string(&self) -> (s: String)
        requires
            self.wf(),
        ensures
            s@ == self.text(),
    {
        let mut out = String::new();
        proof {
            assert(self.names@.len() == self.names_seq().len());
        }
        self.lhs.write(&mut out, self.names.as_slice(), true);
        push_str(&mut out, " = ");
        self.rhs.write(&mut out, self.names.as_slice(), true);
        assert(out@ =~= self.text());
        out
    }
}

impl Clone for Law {
    fn clone(&self) -> (law: Law)
        ensures
            law.lhs == self.lhs,
            law.rhs == self.rhs,
            law.nvars == self.nvars,
            law.names_seq() == self.names_seq(),
    {
        let mut names: Vec<String> = Vec::new();
        let mut i: usize = 0;
        while i < self.names.len()
            invariant
                i <= self.names@.len(),
                names@.len() == i,
                forall|j: int| 0 <= j < i ==> #[trigger] names@[j]@ == self.names@[j]@,
            decreases self.names@.len() - i,
        {
            names.push(self.names[i].clone());
            i = i + 1;
        }
        let law = Law { lhs: self.lhs.clone(), rhs: self.rhs.clone(), nvars: self.nvars, names };
        assert(law.names_seq() =~= self.names_seq());
        law
    }
}

impl PartialEq for Law {
    fn eq(&self, other: &Law) -> (b: bool) {
        self.lhs == other.lhs && self.rhs == other.rhs
    }
}

impl vstd::std_specs::cmp::PartialEqSpecImpl for Law {
    open spec fn obeys_eq_spec() -> bool {
        true
    }

    open spec fn eq_spec(&self, other: &Law) -> bool {
        self.lhs == other.lhs && self.rhs == other.rhs
    }
}

impl Eq for Law {}

/// Whether `c` is alphabetic: what `char::is_alphabetic` returns.
pub uninterp spec fn alphabetic(c: char) -> bool;

/// Whether `c` is alphanumeric: what `char::is_alphanumeric` returns.
pub uninterp spec fn alphanumeric(c: char) -> bool;

/// `char::is_alphabetic`; its result is named [`alphabetic`].
#[verifier::external_body]
fn is_alphabetic(c: char) -> (b: bool)
    ensures
        b == alphabetic(c),
{
    c.is_alphabetic()
}

/// `char::is_alphanumeric`; its result is named [`alphanumeric`].
#[verifier::external_body]
fn is_alphanumeric(c: char) -> (b: bool)
    ensures
        b == alphanumeric(c),
{
    c.is_alphanumeric()
}

/// `c` is an ASCII character.
pub open spec fn ascii(c: char) -> bool {
    (c as u32) < 0x80
}

/// White space as `char::is_whitespace` reads it, the Unicode `White_Space`
/// property: in ASCII the space and `\t` to `\r`, beyond ASCII next line,
/// no-break space, ogham space mark, the spaces U+2000 to U+200A, the line
/// and paragraph separators, narrow no-break space, medium mathematical
/// space and ideographic space.
pub open spec fn space_char(c: char) -> bool {
    if ascii(c) {
        c == ' ' || ('\t' <= c && c <= '\r')
    } else {
        wide_space(c)
    }
}

/// The `White_Space` characters beyond ASCII.
#[verifier::opaque]
pub open spec fn wide_space(c: char) -> bool {
    ||| c == '\u{85}'
    ||| c == '\u{a0}'
    ||| c == '\u{1680}'
    ||| ('\u{2000}' <= c && c <= '\u{200a}')
    ||| c == '\u{2028}'
    ||| c == '\u{2029}'
    ||| c == '\u{202f}'
    ||| c == '\u{205f}'
    ||| c == '\u{3000}'
}

/// A letter as `char::is_alphabetic` reads it: in ASCII `a` to `z` and `A`
/// to `Z`, beyond ASCII the Unicode `Alphabetic` property.
pub open spec fn letter(c: char) -> bool {
    if ascii(c) {
        ('a' <= c && c <= 'z') || ('A' <= c && c <= 'Z')
    } else {
        alphabetic(c)
    }
}

/// A letter or digit as `char::is_alphanumeric` reads it: in ASCII the
/// letters and `0` to `9`, beyond ASCII what the Unicode tables say.
pub open spec fn letter_or_digit(c: char) -> bool {
    if ascii(c) {
        letter(c) || ('0' <= c && c <= '9')
    } else {
        alphanumeric(c)
    }
}

/// White space, answered directly for ASCII.
fn is_space(c: char) -> (b: bool)
    ensures
        b == space_char(c),
{
    reveal(wide_space);
    if (c as u32) < 0x80 {
        c == ' ' || ('\t' <= c && c <= '\r')
    } else {
        c == '\u{85}' || c == '\u{a0}' || c == '\u{1680}' || ('\u{2000}' <= c && c <= '\u{200a}') || c == '\u{2028}'
            || c == '\u{2029}' || c == '\u{202f}' || c == '\u{205f}' || c == '\u{3000}'
    }
}

/// A letter, answered directly for ASCII.
fn is_letter(c: char) -> (b: bool)
    ensures
        b == letter(c),
{
    if (c as u32) < 0x80 {
        ('a' <= c && c <= 'z') || ('A' <= c && c <= 'Z')
    } else {
        is_alphabetic(c)
    }
}

/// A letter or digit, answered directly for ASCII.
fn is_letter_or_digit(c: char) -> (b: bool)
    ensures
        b == letter_or_digit(c),
{
    if (c as u32) < 0x80 {
        ('a' <= c && c <= 'z') || ('A' <= c && c <= 'Z') || ('0' <= c && c <= '9')
    } else {
        is_alphanumeric(c)
    }
}

/// Number of bytes of `c` in UTF-8.
pub open spec fn utf8_width(c: char) -> nat {
    if (c as u32) < 0x80 {
        1
    } else if (c as u32) < 0x800 {
        2
    } else if (c as u32) < 0x10000 {
        3
    } else {
        4
    }
}

/// Number of bytes of `s` in UTF-8.
pub open spec fn byte_len(s: Seq<char>) -> nat
    decreases s.len(),
{
    if s.len() == 0 {
        0
    } else {
        byte_len(s.drop_last()) + utf8_width(s.last())
    }
}

fn utf8_len(c: char) -> (w: usize)
    ensures
        w == utf8_width(c),
{
    let v = c as u32;
    if v < 0x80 {
        1
    } else if v < 0x800 {
        2
    } else if v < 0x10000 {
        3
    } else {
        4
    }
}

/// The characters of a string slice, in order.
pub fn chars_of(s: &str) -> (v: Vec<char>)
    ensures
        v@ == s@,
{
    let mut v: Vec<char> = Vec::new();
    for c in it: s.chars()
        invariant
            v@ == it.seq().take(it.index() as int),
    {
        v.push(c);
    }
    proof {
        broadcast use vstd::string::group_string_axioms;
    }
    assert(v@ =~= s@);
    v
}

/// A token of the law notation.
pub enum Lexeme {
    Ident(Seq<char>),
    LParen,
    RParen,
    Op,
    Eq,
}

/// One of the accepted symbols for the operation.
pub open spec fn is_op_char(c: char) -> bool {
    c == '◇' || c == '*' || c == '∘' || c == '·'
}

/// A character that may start a variable name.
pub open spec fn ident_start(c: char) -> bool {
    letter(c) || c == '_'
}

/// A character that may continue a variable name.
pub open spec fn ident_char(c: char) -> bool {
    letter_or_digit(c) || c == '_' || c == '\''
}

/// Number of name characters starting at position `i`.
pub open spec fn ident_len(cs: Seq<char>, i: int) -> nat
    decreases cs.len() - i,
{
    if 0 <= i < cs.len() && ident_char(cs[i]) {
        1 + ident_len(cs, i + 1)
    } else {
        0
    }
}

/// Tokens with their byte offsets: `acc` followed by the tokens of the
/// characters from position `i` on, or the first character that is no token.
pub open spec fn lex_from(cs: Seq<char>, i: nat, acc: Seq<(Lexeme, nat)>) -> Result<Seq<(Lexeme, nat)>, (Seq<char>, nat)>
    decreases chars_left(cs, i),
{
    if i >= cs.len() {
        Ok(acc)
    } else {
        let c = cs[i as int];
        let off = byte_len(cs.take(i as int));
        if c == '(' {
            lex_from(cs, i + 1, acc.push((Lexeme::LParen, off)))
        } else if c == ')' {
            lex_from(cs, i + 1, acc.push((Lexeme::RParen, off)))
        } else if c == '=' {
            lex_from(cs, i + 1, acc.push((Lexeme::Eq, off)))
        } else if is_op_char(c) {
            lex_from(cs, i + 1, acc.push((Lexeme::Op, off)))
        } else if space_char(c) {
            lex_from(cs, i + 1, acc)
        } else if ident_start(c) {
            let j = i + 1 + ident_len(cs, (i + 1) as int);
            lex_from(cs, j, acc.push((Lexeme::Ident(cs.subrange(i as int, j as int)), off)))
        } else {
            Err(("unexpected character '"@ + seq![c] + "'"@, off))
        }
    }
}

/// Characters left from position `i` on.
pub open spec fn chars_left(cs: Seq<char>, i: nat) -> nat {
    if i <= cs.len() {
        (cs.len() - i) as nat
    } else {
        0
    }
}

/// The tokens of `cs`, or the first character that is no token.
pub open spec fn lex(cs: Seq<char>) -> Result<Seq<(Lexeme, nat)>, (Seq<char>, nat)> {
    lex_from(cs, 0, Seq::empty())
}

/// Byte offset of token `pos`, or `end` past the last token.
pub open spec fn offset_at(toks: Seq<(Lexeme, nat)>, end: nat, pos: int) -> nat {
    if 0 <= pos < toks.len() {
        toks[pos].1
    } else {
        end
    }
}

/// Index of `name` in `names`, or -1.
pub open spec fn name_index(names: Seq<Seq<char>>, name: Seq<char>) -> int
    decreases names.len(),
{
    if names.len() == 0 {
        -1
    } else if names[0] == name {
        0
    } else {
        let r = name_index(names.drop_first(), name);
        if r < 0 {
            -1
        } else {
            r + 1
        }
    }
}

/// Tokens left from `pos` on.
pub open spec fn tokens_left(toks: Seq<(Lexeme, nat)>, pos: nat) -> nat {
    if pos <= toks.len() {
        (toks.len() - pos) as nat
    } else {
        0
    }
}

/// Message for a law with too many variables.
pub open spec fn too_many_vars() -> Seq<char> {
    "more than "@ + decimal(MAX_VARS as nat) + " distinct variables"@
}

/// A factor (a variable or a parenthesised term) at `pos`: the term, how many
/// tokens it uses, and the variable names known afterwards (a new name is
/// numbered next); or the message and byte offset of the error.
pub open spec fn parse_factor(toks: Seq<(Lexeme, nat)>, end: nat, pos: nat, names: Seq<Seq<char>>) -> Result<
    (Term, nat, Seq<Seq<char>>),
    (Seq<char>, nat),
>
    decreases tokens_left(toks, pos), 0nat,
{
    if pos >= toks.len() {
        Err(("unexpected end of input, expected a term"@, end))
    } else {
        match toks[pos as int].0 {
            Lexeme::Ident(name) => {
                let i = name_index(names, name);
                if i >= 0 {
                    Ok((Term::Var(i as u8), 1, names))
                } else if names.len() == MAX_VARS {
                    Err((too_many_vars(), toks[pos as int].1))
                } else {
                    Ok((Term::Var(names.len() as u8), 1, names.push(name)))
                }
            },
            Lexeme::LParen => match parse_term(toks, end, pos + 1, names) {
                Err(e) => Err(e),
                Ok((t, u, nm)) => {
                    let p = pos + 1 + u;
                    if p < toks.len() && toks[p as int].0 is RParen {
                        Ok((t, u + 2, nm))
                    } else {
                        Err(("expected ')'"@, offset_at(toks, end, p as int)))
                    }
                },
            },
            Lexeme::RParen => Err(("unexpected ')'"@, toks[pos as int].1)),
            Lexeme::Op => Err(("operator is missing its left operand"@, toks[pos as int].1)),
            Lexeme::Eq => Err(("'=' is missing a term on its left"@, toks[pos as int].1)),
        }
    }
}

/// A term at `pos`: factors joined by the operation, associating to the left.
pub open spec fn parse_term(toks: Seq<(Lexeme, nat)>, end: nat, pos: nat, names: Seq<Seq<char>>) -> Result<
    (Term, nat, Seq<Seq<char>>),
    (Seq<char>, nat),
>
    decreases tokens_left(toks, pos), 2nat,
{
    match parse_factor(toks, end, pos, names) {
        Err(e) => Err(e),
        Ok((t, u, nm)) => match parse_rest(toks, end, pos + u, nm, t) {
            Err(e) => Err(e),
            Ok((t2, u2, nm2)) => Ok((t2, u + u2, nm2)),
        },
    }
}

/// The rest of a term after `acc`: each `◇ factor` extends it on the right.
pub open spec fn parse_rest(toks: Seq<(Lexeme, nat)>, end: nat, pos: nat, names: Seq<Seq<char>>, acc: Term) -> Result<
    (Term, nat, Seq<Seq<char>>),
    (Seq<char>, nat),
>
    decreases tokens_left(toks, pos), 1nat,
{
    if pos < toks.len() && toks[pos as int].0 is Op {
        match parse_factor(toks, end, pos + 1, names) {
            Err(e) => Err(e),
            Ok((r, u, nm)) => match parse_rest(
                toks,
                end,
                pos + 1 + u,
                nm,
                Term::Op(Box::new(acc), Box::new(r)),
            ) {
                Err(e) => Err(e),
                Ok((t2, u2, nm2)) => Ok((t2, 1 + u + u2, nm2)),
            },
        }
    } else {
        Ok((acc, 0, names))
    }
}

/// A law `term = term` in the notation: both sides and the variable names in
/// order of first occurrence; or the message and byte offset of the error.
pub open spec fn parse_law_chars(cs: Seq<char>) -> Result<(Term, Term, Seq<Seq<char>>), (Seq<char>, nat)> {
    let end = byte_len(cs);
    match lex(cs) {
        Err(e) => Err(e),
        Ok(toks) => match parse_term(toks, end, 0, Seq::empty()) {
            Err(e) => Err(e),
            Ok((lhs, u, nm)) => if !(u < toks.len() && toks[u as int].0 is Eq) {
                Err(("expected '='"@, offset_at(toks, end, u as int)))
            } else {
                match parse_term(toks, end, u + 1, nm) {
                    Err(e) => Err(e),
                    Ok((rhs, u2, nm2)) => {
                        let p = (u + 1 + u2) as int;
                        if p != toks.len() {
                            Err(("unexpected trailing input"@, offset_at(toks, end, p)))
                        } else {
                            Ok((lhs, rhs, nm2))
                        }
                    },
                }
            },
        },
    }
}

proof fn lemma_byte_len_step(s: Seq<char>, i: int)
    requires
        0 <= i < s.len(),
    ensures
        byte_len(s.take(i + 1)) == byte_len(s.take(i)) + utf8_width(s[i]),
{
    assert(s.take(i + 1).drop_last() =~= s.take(i));
}

proof fn lemma_byte_len_prefix(s: Seq<char>, i: int, j: int)
    requires
        0 <= i <= j <= s.len(),
    ensures
        byte_len(s.take(i)) <= byte_len(s.take(j)),
    decreases j - i,
{
    if i < j {
        lemma_byte_len_prefix(s, i, j - 1);
        lemma_byte_len_step(s, j - 1);
    }
}

proof fn lemma_byte_len_bound(s: Seq<char>, i: int)
    requires
        0 <= i <= s.len(),
    ensures
        byte_len(s.take(i)) <= byte_len(s),
{
    lemma_byte_len_prefix(s, i, s.len() as int);
    assert(s.take(s.len() as int) =~= s);
}

/// A syntax error with the byte offset where it was detected.
#[derive(Clone, Debug, PartialEq, Eq)]
pub struct ParseError {
    pub message: String,
    /// Byte offset into the input where the problem was detected.
    pub offset: usize,
}

/// `message (at byte offset)`.
pub open spec fn error_text(message: Seq<char>, offset: nat) -> Seq<char> {
    message + " (at byte "@ + decimal(offset) + ")"@
}

impl ParseError {
    /// The message followed by the byte offset, e.g. `expected '=' (at byte 5)`.
    pub fn to_string(&self) -> (s: String)
        ensures
            s@ == error_text(self.message@, self.offset as nat),
    {
        let mut s = String::new();
        push_str(&mut s, self.message.as_str());
        push_str(&mut s, " (at byte ");
        push_decimal(&mut s, self.offset as u64);
        push_str(&mut s, ")");
        assert(s@ =~= error_text(self.message@, self.offset as nat));
        s
    }
}

enum Tok {
    Ident(Vec<char>),
    LParen,
    RParen,
    Op,
    Eq,
}

spec fn lexeme_of(t: Tok) -> Lexeme {
    match t {
        Tok::Ident(v) => Lexeme::Ident(v@),
        Tok::LParen => Lexeme::LParen,
        Tok::RParen => Lexeme::RParen,
        Tok::Op => Lexeme::Op,
        Tok::Eq => Lexeme::Eq,
    }
}

spec fn toks_view(s: Seq<(Tok, usize)>) -> Seq<(Lexeme, nat)> {
    s.map_values(|p: (Tok, usize)| (lexeme_of(p.0), p.1 as nat))
}

fn push_message(message: &str, offset: usize) -> (e: ParseError)
    ensures
        e.message@ == message@,
        e.offset == offset,
{
    ParseError { message: String::from_str(message), offset }
}

/// The tokens of `cs` with their byte offsets, and the byte length of `cs`.
fn tokenize(cs: &Vec<char>) -> (r: Result<(Vec<(Tok, usize)>, usize), ParseError>)
    requires
        byte_len(cs@) <= usize::MAX,
    ensures
        match r {
            Ok((toks, end)) => lex(cs@) == Ok::<_, (Seq<char>, nat)>(toks_view(toks@)) && end == byte_len(cs@),
            Err(e) => lex(cs@) == Err::<Seq<(Lexeme, nat)>, _>((e.message@, e.offset as nat)),
        },
{
    let mut toks: Vec<(Tok, usize)> = Vec::new();
    let mut i: usize = 0;
    let mut off: usize = 0;
    let len = cs.len();
    assert(toks_view(toks@) =~= Seq::<(Lexeme, nat)>::empty());
    assert(cs@.take(0) =~= Seq::<char>::empty());
    while i < len
        invariant
            i <= len,
            len == cs@.len(),
            byte_len(cs@) <= usize::MAX,
            off == byte_len(cs@.take(i as int)),
            lex_from(cs@, i as nat, toks_view(toks@)) == lex(cs@),
        decreases len - i,
    {
        let c = cs[i];
        proof {
            lemma_byte_len_step(cs@, i as int);
            lemma_byte_len_bound(cs@, i + 1);
        }
        let w = utf8_len(c);
        let ghost before = toks@;
        if c == '(' {
            toks.push((Tok::LParen, off));
        } else if c == ')' {
            toks.push((Tok::RParen, off));
        } else if c == '=' {
            toks.push((Tok::Eq, off));
        } else if c == '◇' || c == '*' || c == '∘' || c == '·' {
            toks.push((Tok::Op, off));
        } else if is_space(c) {
        } else if is_letter(c) || c == '_' {
            let start = off;
            let mut name: Vec<char> = Vec::new();
            name.push(c);
            let mut j: usize = i + 1;
            let mut o: usize = off + w;
            while j < len
                invariant_except_break
                    i < j <= len,
                    len == cs@.len(),
                    byte_len(cs@) <= usize::MAX,
                    o == byte_len(cs@.take(j as int)),
                    name@ == cs@.subrange(i as int, j as int),
                    ident_len(cs@, i + 1) == (j - (i + 1)) + ident_len(cs@, j as int),
                ensures
                    i < j <= len,
                    o == byte_len(cs@.take(j as int)),
                    name@ == cs@.subrange(i as int, j as int),
                    ident_len(cs@, i + 1) == j - (i + 1),
                decreases len - j,
            {
                let d = cs[j];
                if is_letter_or_digit(d) || d == '_' || d == '\'' {
                    proof {
                        lemma_byte_len_step(cs@, j as int);
                        lemma_byte_len_bound(cs@, j + 1);
                    }
                    name.push(d);
                    o = o + utf8_len(d);
                    j = j + 1;
                    assert(name@ =~= cs@.subrange(i as int, j as int));
                } else {
                    break;
                }
            }
            toks.push((Tok::Ident(name), start));
            proof {
                assert(toks_view(toks@) =~= toks_view(before).push((Lexeme::Ident(cs@.subrange(i as int, j as int)), start as nat)));
            }
            i = j;
            off = o;
            continue;
        } else {
            let mut message = String::from_str("unexpected character '");
            crate::text::push_char(&mut message, c);
            push_str(&mut message, "'");
            assert(message@ =~= "unexpected character '"@ + seq![c] + "'"@);
            return Err(ParseError { message, offset: off });
        }
        proof {
            if toks@.len() > before.len() {
                assert(toks_view(toks@) =~= toks_view(before).push(toks_view(toks@).last()));
            } else {
                assert(toks@ == before);
            }
        }
        i = i + 1;
        off = off + w;
    }
    proof {
        lemma_byte_len_bound(cs@, len as int);
        assert(cs@.take(len as int) =~= cs@);
    }
    Ok((toks, off))
}

/// `name_index` finds the first position holding `name`.
pub proof fn lemma_name_index(names: Seq<Seq<char>>, name: Seq<char>)
    ensures
        -1 <= name_index(names, name) < names.len(),
        name_index(names, name) == -1 <==> !names.contains(name),
        name_index(names, name) >= 0 ==> names[name_index(names, name)] == name && forall|j: int|
            0 <= j < name_index(names, name) ==> names[j] != name,
    decreases names.len(),
{
    if names.len() > 0 {
        let rest = names.drop_first();
        lemma_name_index(rest, name);
        if names[0] != name {
            if names.contains(name) {
                let k = choose|k: int| 0 <= k < names.len() && names[k] == name;
                assert(rest[k - 1] == name);
            }
            if rest.contains(name) {
                let k = choose|k: int| 0 <= k < rest.len() && rest[k] == name;
                assert(names[k + 1] == name);
            }
            let r = name_index(rest, name);
            if r >= 0 {
                assert forall|j: int| 0 <= j < r + 1 implies names[j] != name by {
                    if j > 0 {
                        assert(names[j] == rest[j - 1]);
                    }
                }
            }
        } else {
            assert(names.contains(name)) by {
                assert(names[0] == name);
            }
        }
    }
}

spec fn names_of(v: Seq<Vec<char>>) -> Seq<Seq<char>> {
    v.map_values(|x: Vec<char>| x@)
}

fn same_chars(a: &Vec<char>, b: &Vec<char>) -> (r: bool)
    ensures
        r == (a@ == b@),
{
    if a.len() != b.len() {
        return false;
    }
    let mut i: usize = 0;
    while i < a.len()
        invariant
            i <= a@.len(),
            a@.len() == b@.len(),
            forall|j: int| 0 <= j < i ==> a@[j] == b@[j],
        decreases a@.len() - i,
    {
        if a[i] != b[i] {
            return false;
        }
        i = i + 1;
    }
    assert(a@ =~= b@);
    true
}

fn find_name(names: &Vec<Vec<char>>, name: &Vec<char>) -> (r: Option<usize>)
    ensures
        match r {
            Some(i) => i == name_index(names_of(names@), name@) && i < names@.len(),
            None => name_index(names_of(names@), name@) == -1,
        },
{
    let mut i: usize = 0;
    while i < names.len()
        invariant
            i <= names@.len(),
            forall|j: int| 0 <= j < i ==> names_of(names@)[j] != name@,
        decreases names@.len() - i,
    {
        if same_chars(&names[i], name) {
            proof {
                lemma_name_index(names_of(names@), name@);
                let k = name_index(names_of(names@), name@);
                assert(names_of(names@)[i as int] == name@);
                assert(names_of(names@).contains(name@));
                if k < i {
                    assert(names_of(names@)[k] == name@);
                }
            }
            return Some(i);
        }
        i = i + 1;
    }
    proof {
        lemma_name_index(names_of(names@), name@);
        if names_of(names@).contains(name@) {
            let k = choose|k: int| 0 <= k < names_of(names@).len() && names_of(names@)[k] == name@;
        }
    }
    None
}

fn string_of(v: &Vec<char>) -> (s: String)
    ensures
        s@ == v@,
{
    let mut s = String::new();
    let mut i: usize = 0;
    while i < v.len()
        invariant
            i <= v@.len(),
            s@ == v@.take(i as int),
        decreases v@.len() - i,
    {
        crate::text::push_char(&mut s, v[i]);
        i = i + 1;
        assert(s@ =~= v@.take(i as int));
    }
    assert(v@.take(v@.len() as int) =~= v@);
    s
}

/// The consumed count of a parse result, shifted by `d`.
spec fn shifted(
    r: Result<(Term, nat, Seq<Seq<char>>), (Seq<char>, nat)>,
    d: nat,
) -> Result<(Term, nat, Seq<Seq<char>>), (Seq<char>, nat)> {
    match r {
        Ok((t, u, nm)) => Ok((t, u + d, nm)),
        Err(e) => Err(e),
    }
}

struct Parser {
    toks: Vec<(Tok, usize)>,
    pos: usize,
    end: usize,
    names: Vec<Vec<char>>,
}

impl Parser {
    spec fn tv(&self) -> Seq<(Lexeme, nat)> {
        toks_view(self.toks@)
    }

    spec fn nv(&self) -> Seq<Seq<char>> {
        names_of(self.names@)
    }

    fn offset(&self) -> (o: usize)
        ensures
            o == offset_at(self.tv(), self.end as nat, self.pos as int),
    {
        if self.pos < self.toks.len() {
            self.toks[self.pos].1
        } else {
            self.end
        }
    }

    fn error(&self, message: &str) -> (e: ParseError)
        ensures
            e.message@ == message@,
            e.offset == offset_at(self.tv(), self.end as nat, self.pos as int),
    {
        push_message(message, self.offset())
    }

    fn at_op(&self) -> (b: bool)
        ensures
            b == (self.pos < self.tv().len() && self.tv()[self.pos as int].0 is Op),
    {
        if self.pos < self.toks.len() {
            match &self.toks[self.pos].0 {
                Tok::Op => true,
                _ => false,
            }
        } else {
            false
        }
    }

    fn at_eq(&self) -> (b: bool)
        ensures
            b == (self.pos < self.tv().len() && self.tv()[self.pos as int].0 is Eq),
    {
        if self.pos < self.toks.len() {
            match &self.toks[self.pos].0 {
                Tok::Eq => true,
                _ => false,
            }
        } else {
            false
        }
    }

    fn at_rparen(&self) -> (b: bool)
        ensures
            b == (self.pos < self.tv().len() && self.tv()[self.pos as int].0 is RParen),
    {
        if self.pos < self.toks.len() {
            match &self.toks[self.pos].0 {
                Tok::RParen => true,
                _ => false,
            }
        } else {
            false
        }
    }

    // term := factor (OP factor)*, left associative like ETP's `infixl ◇`.
    fn term(&mut self) -> (r: Result<Term, ParseError>)
        requires
            old(self).pos <= old(self).toks@.len(),
            old(self).toks@.len() <= usize::MAX,
            old(self).names@.len() <= MAX_VARS,
        ensures
            final(self).toks@ == old(self).toks@,
            final(self).end == old(self).end,
            match r {
                Ok(t) => {
                    &&& parse_term(old(self).tv(), old(self).end as nat, old(self).pos as nat, old(self).nv())
                        == Ok::<_, (Seq<char>, nat)>((t, (final(self).pos - old(self).pos) as nat, final(self).nv()))
                    &&& old(self).pos < final(self).pos <= final(self).toks@.len()
                    &&& old(self).names@.len() <= final(self).names@.len() <= MAX_VARS
                    &&& t.vars_below(final(self).names@.len() as int)
                },
                Err(e) => parse_term(old(self).tv(), old(self).end as nat, old(self).pos as nat, old(self).nv())
                    == Err::<(Term, nat, Seq<Seq<char>>), _>((e.message@, e.offset as nat)),
            },
        decreases tokens_left(toks_view(old(self).toks@), old(self).pos as nat), 2nat,
    {
        let ghost v = self.tv();
        let ghost t0 = self.toks@;
        let ghost e = self.end as nat;
        let ghost p0 = self.pos as nat;
        let ghost n0 = self.nv();
        assert(v.len() == t0.len());
        let mut acc = match self.factor() {
            Ok(t) => t,
            Err(err) => return Err(err),
        };
        let ghost p1 = self.pos as nat;
        let ghost n1 = self.nv();
        let ghost acc1 = acc;
        let ghost k1 = self.names@.len();
        while self.at_op()
            invariant
                self.toks@ == t0,
                t0 == old(self).toks@,
                p0 == old(self).pos,
                e == old(self).end,
                n0 == names_of(old(self).names@),
                v == toks_view(t0),
                v.len() == t0.len(),
                t0.len() <= usize::MAX,
                self.end == e,
                p0 < p1 <= self.pos <= self.toks@.len(),
                k1 <= self.names@.len() <= MAX_VARS,
                acc.vars_below(self.names@.len() as int),
                parse_rest(v, e, p1, n1, acc1) == shifted(
                    parse_rest(v, e, self.pos as nat, self.nv(), acc),
                    (self.pos - p1) as nat,
                ),
                parse_term(v, e, p0, n0) == shifted(parse_rest(v, e, p1, n1, acc1), (p1 - p0) as nat),
            decreases self.toks@.len() - self.pos,
        {
            let ghost pp = self.pos as nat;
            let ghost nn = self.nv();
            let ghost aa = acc;
            self.pos = self.pos + 1;
            let rhs = match self.factor() {
                Ok(t) => t,
                Err(err) => {
                    proof {
                        assert(parse_rest(v, e, pp, nn, aa) == Err::<(Term, nat, Seq<Seq<char>>), _>(
                            (err.message@, err.offset as nat),
                        ));
                        assert(parse_rest(v, e, p1, n1, acc1) == Err::<(Term, nat, Seq<Seq<char>>), _>(
                            (err.message@, err.offset as nat),
                        ));
                    }
                    return Err(err);
                },
            };
            proof {
                lemma_vars_below_mono(acc, nn.len() as int, self.names@.len() as int);
            }
            acc = Term::op(acc, rhs);
        }
        Ok(acc)
    }

    fn factor(&mut self) -> (r: Result<Term, ParseError>)
        requires
            old(self).pos <= old(self).toks@.len(),
            old(self).toks@.len() <= usize::MAX,
            old(self).names@.len() <= MAX_VARS,
        ensures
            final(self).toks@ == old(self).toks@,
            final(self).end == old(self).end,
            match r {
                Ok(t) => {
                    &&& parse_factor(old(self).tv(), old(self).end as nat, old(self).pos as nat, old(self).nv())
                        == Ok::<_, (Seq<char>, nat)>((t, (final(self).pos - old(self).pos) as nat, final(self).nv()))
                    &&& old(self).pos < final(self).pos <= final(self).toks@.len()
                    &&& old(self).names@.len() <= final(self).names@.len() <= MAX_VARS
                    &&& t.vars_below(final(self).names@.len() as int)
                },
                Err(e) => parse_factor(old(self).tv(), old(self).end as nat, old(self).pos as nat, old(self).nv())
                    == Err::<(Term, nat, Seq<Seq<char>>), _>((e.message@, e.offset as nat)),
            },
        decreases tokens_left(toks_view(old(self).toks@), old(self).pos as nat), 0nat,
    {
        if self.pos >= self.toks.len() {
            return Err(self.error("unexpected end of input, expected a term"));
        }
        let ghost names0 = self.nv();
        match &self.toks[self.pos].0 {
            Tok::Ident(name) => {
                let name = name.clone();
                assert(name@ =~= self.tv()[self.pos as int].0->Ident_0);
                let at = self.toks[self.pos].1;
                self.pos = self.pos + 1;
                let idx = match find_name(&self.names, &name) {
                    Some(i) => i,
                    None => {
                        if self.names.len() == MAX_VARS {
                            let mut message = String::from_str("more than ");
                            push_decimal(&mut message, MAX_VARS as u64);
                            push_str(&mut message, " distinct variables");
                            return Err(ParseError { message, offset: at });
                        }
                        self.names.push(name);
                        proof {
                            assert(self.nv() =~= names0.push(name@));
                        }
                        self.names.len() - 1
                    },
                };
                Ok(Term::Var(idx as u8))
            },
            Tok::LParen => {
                self.pos = self.pos + 1;
                let t = match self.term() {
                    Ok(t) => t,
                    Err(err) => return Err(err),
                };
                if !self.at_rparen() {
                    return Err(self.error("expected ')'"));
                }
                self.pos = self.pos + 1;
                Ok(t)
            },
            Tok::RParen => Err(self.error("unexpected ')'")),
            Tok::Op => Err(self.error("operator is missing its left operand")),
            Tok::Eq => Err(self.error("'=' is missing a term on its left")),
        }
    }
}

fn strings_of(names: &Vec<Vec<char>>) -> (out: Vec<String>)
    ensures
        names_view(out@) == names_of(names@),
{
    let mut out: Vec<String> = Vec::new();
    let mut i: usize = 0;
    while i < names.len()
        invariant
            i <= names@.len(),
            out@.len() == i,
            forall|j: int| 0 <= j < i ==> #[trigger] out@[j]@ == names@[j]@,
        decreases names@.len() - i,
    {
        out.push(string_of(&names[i]));
        i = i + 1;
    }
    assert(names_view(out@) =~= names_of(names@));
    out
}

/// Parses a law from its characters.
fn parse_chars(cs: &Vec<char>) -> (r: Result<Law, ParseError>)
    requires
        byte_len(cs@) <= usize::MAX,
    ensures
        match r {
            Ok(law) => {
                &&& parse_law_chars(cs@) == Ok::<_, (Seq<char>, nat)>((law.lhs, law.rhs, law.names_seq()))
                &&& law.nvars == law.names_seq().len()
                &&& law.wf()
            },
            Err(e) => parse_law_chars(cs@) == Err::<(Term, Term, Seq<Seq<char>>), _>((e.message@, e.offset as nat)),
        },
{
    let (toks, end) = match tokenize(cs) {
        Ok(x) => x,
        Err(e) => return Err(e),
    };
    let ghost v = toks_view(toks@);
    let len = toks.len();
    let mut p = Parser { toks, pos: 0, end, names: Vec::new() };
    assert(p.nv() =~= Seq::<Seq<char>>::empty());
    assert(p.tv() == v);
    let lhs = match p.term() {
        Ok(t) => t,
        Err(e) => return Err(e),
    };
    if !p.at_eq() {
        return Err(p.error("expected '='"));
    }
    p.pos = p.pos + 1;
    let ghost k1 = p.names@.len();
    let rhs = match p.term() {
        Ok(t) => t,
        Err(e) => return Err(e),
    };
    if p.pos != len {
        return Err(p.error("unexpected trailing input"));
    }
    let nvars = p.names.len();
    let names = strings_of(&p.names);
    proof {
        lemma_vars_below_mono(lhs, k1 as int, nvars as int);
    }
    Ok(Law { lhs, rhs, nvars, names })
}

/// Parses a law in ETP notation, e.g. `x ◇ (y ◇ z) = (x ◇ y) ◇ z`.
///
/// `◇`, `*`, `∘` and `·` are all accepted as the operation symbol. Chains
/// without parentheses associate to the left, matching ETP's Lean notation.
/// Variables are numbered by first occurrence and keep their names.
pub fn parse_law(input: &str) -> (r: Result<Law, ParseError>)
    requires
        byte_len(input@) <= usize::MAX,
    ensures
        match r {
            Ok(law) => {
                &&& parse_law_chars(input@) == Ok::<_, (Seq<char>, nat)>((law.lhs, law.rhs, law.names_seq()))
                &&& law.nvars == law.names_seq().len()
                &&& law.wf()
            },
            Err(e) => parse_law_chars(input@) == Err::<(Term, Term, Seq<Seq<char>>), _>((e.message@, e.offset as nat)),
        },
{
    let cs = chars_of(input);
    parse_chars(&cs)
}

proof fn lemma_byte_len_concat(x: Seq<char>, y: Seq<char>)
    ensures
        byte_len(x + y) == byte_len(x) + byte_len(y),
    decreases y.len(),
{
    if y.len() > 0 {
        lemma_byte_len_concat(x, y.drop_last());
        assert((x + y).drop_last() =~= x + y.drop_last());
    } else {
        assert(x + y =~= x);
    }
}

proof fn lemma_byte_len_subrange(s: Seq<char>, a: int, b: int)
    requires
        0 <= a <= b <= s.len(),
    ensures
        byte_len(s.subrange(a, b)) <= byte_len(s),
{
    lemma_byte_len_concat(s.take(a), s.subrange(a, b));
    assert(s.take(a) + s.subrange(a, b) =~= s.take(b));
    lemma_byte_len_bound(s, b);
}

/// Number of characters before the next line feed at or after `i`.
pub open spec fn line_len(text: Seq<char>, i: int) -> nat
    decreases text.len() - i,
{
    if 0 <= i < text.len() && text[i] != '\n' {
        1 + line_len(text, i + 1)
    } else {
        0
    }
}

/// The lines of `text` from position `i` on, as `str::lines` splits them:
/// at each line feed, dropping a carriage return just before it; a final
/// line feed does not start another line.
pub open spec fn lines_from(text: Seq<char>, i: nat) -> Seq<Seq<char>>
    decreases chars_left(text, i),
{
    if i >= text.len() {
        Seq::empty()
    } else {
        let j = i + line_len(text, i as int);
        let raw = text.subrange(i as int, j as int);
        let line = if j < text.len() && raw.len() > 0 && raw.last() == '\r' {
            raw.drop_last()
        } else {
            raw
        };
        seq![line] + lines_from(text, j + 1)
    }
}

/// Number of characters before the first `#`.
pub open spec fn before_hash_len(s: Seq<char>, i: int) -> nat
    decreases s.len() - i,
{
    if 0 <= i < s.len() && s[i] != '#' {
        1 + before_hash_len(s, i + 1)
    } else {
        0
    }
}

/// Number of leading white-space characters from position `i`.
pub open spec fn leading_space(s: Seq<char>, i: int) -> nat
    decreases s.len() - i,
{
    if 0 <= i < s.len() && space_char(s[i]) {
        1 + leading_space(s, i + 1)
    } else {
        0
    }
}

/// Number of trailing white-space characters before position `j`.
pub open spec fn trailing_space(s: Seq<char>, j: int) -> nat
    decreases j,
{
    if 0 < j <= s.len() && space_char(s[j - 1]) {
        1 + trailing_space(s, j - 1)
    } else {
        0
    }
}

/// `s` without leading and trailing white space.
pub open spec fn trimmed(s: Seq<char>) -> Seq<char> {
    let a = leading_space(s, 0);
    if a >= s.len() {
        Seq::empty()
    } else {
        s.subrange(a as int, s.len() - trailing_space(s, s.len() as int))
    }
}

/// The law text of a line: what precedes the first `#`, trimmed.
pub open spec fn line_content(line: Seq<char>) -> Seq<char> {
    trimmed(line.take(before_hash_len(line, 0) as int))
}

/// The laws of lines `k..` appended to `acc`, or the first error, tagged
/// with its 1-based line number.
pub open spec fn laws_from(lines: Seq<Seq<char>>, k: nat, acc: Seq<(Term, Term, Seq<Seq<char>>)>) -> Result<
    Seq<(Term, Term, Seq<Seq<char>>)>,
    Seq<char>,
>
    decreases lines.len() - k,
{
    if k >= lines.len() {
        Ok(acc)
    } else {
        let c = line_content(lines[k as int]);
        if c.len() == 0 {
            laws_from(lines, k + 1, acc)
        } else {
            match parse_law_chars(c) {
                Ok(x) => laws_from(lines, k + 1, acc.push(x)),
                Err((m, o)) => Err("line "@ + decimal(k + 1) + ": "@ + error_text(m, o)),
            }
        }
    }
}

/// The laws of a law list, or the first error.
pub open spec fn law_list(text: Seq<char>) -> Result<Seq<(Term, Term, Seq<Seq<char>>)>, Seq<char>> {
    laws_from(lines_from(text, 0), 0, Seq::empty())
}

/// The law text of the line in `cs[a..b]`: start and end positions.
fn content_range(cs: &Vec<char>, a: usize, b: usize) -> (r: (usize, usize))
    requires
        a <= b <= cs@.len(),
    ensures
        a <= r.0 <= r.1 <= b,
        cs@.subrange(r.0 as int, r.1 as int) == line_content(cs@.subrange(a as int, b as int)),
{
    let ghost line = cs@.subrange(a as int, b as int);
    let mut h: usize = a;
    while h < b && cs[h] != '#'
        invariant
            a <= h <= b <= cs@.len(),
            line == cs@.subrange(a as int, b as int),
            before_hash_len(line, 0) == (h - a) + before_hash_len(line, h - a),
        decreases b - h,
    {
        h = h + 1;
    }
    let ghost part = line.take(before_hash_len(line, 0) as int);
    assert(part =~= cs@.subrange(a as int, h as int));
    let mut s: usize = a;
    while s < h && is_space(cs[s])
        invariant
            a <= s <= h <= b <= cs@.len(),
            part == cs@.subrange(a as int, h as int),
            leading_space(part, 0) == (s - a) + leading_space(part, s - a),
        decreases h - s,
    {
        s = s + 1;
    }
    if s >= h {
        assert(leading_space(part, 0) >= part.len());
        return (s, s);
    }
    let mut e: usize = h;
    while e > s && is_space(cs[e - 1])
        invariant
            a <= s < h <= b <= cs@.len(),
            s < e <= h,
            part == cs@.subrange(a as int, h as int),
            leading_space(part, 0) == s - a,
            !space_char(cs@[s as int]),
            trailing_space(part, part.len() as int) == (h - e) + trailing_space(part, e - a),
        decreases e,
    {
        e = e - 1;
    }
    proof {
        assert(e > s);
        assert(part[e - a - 1] == cs@[e - 1]);
        assert(trailing_space(part, e - a) == 0);
        assert(leading_space(part, 0) < part.len());
    }
    assert(cs@.subrange(s as int, e as int) =~= trimmed(part));
    (s, e)
}

/// Parses a law list: one law per line, blank lines and `#` comments ignored.
/// An error names its 1-based line number.
pub fn parse_law_list(text: &str) -> (r: Result<Vec<Law>, String>)
    requires
        byte_len(text@) <= usize::MAX,
    ensures
        match law_list(text@) {
            Ok(parsed) => r matches Ok(laws) && laws@.len() == parsed.len() && forall|i: int|
                0 <= i < parsed.len() ==> {
                    &&& parsed[i] == (#[trigger] laws@[i].lhs, laws@[i].rhs, laws@[i].names_seq())
                    &&& laws@[i].nvars == laws@[i].names_seq().len()
                    &&& laws@[i].wf()
                },
            Err(m) => r matches Err(e) && e@ == m,
        },
{
    let cs = chars_of(text);
    let len = cs.len();
    let mut laws: Vec<Law> = Vec::new();
    let ghost parsed: Seq<(Term, Term, Seq<Seq<char>>)> = Seq::empty();
    let ghost all = lines_from(cs@, 0);
    let mut i: usize = 0;
    let mut lineno: usize = 0;
    while i < len
        invariant
            i <= len,
            len == cs@.len(),
            cs@ == text@,
            byte_len(cs@) <= usize::MAX,
            lineno <= i,
            lineno <= all.len(),
            all == lines_from(cs@, 0),
            all == all.take(lineno as int) + lines_from(cs@, i as nat),
            laws_from(all, lineno as nat, parsed) == law_list(text@),
            laws@.len() == parsed.len(),
            forall|k: int|
                0 <= k < parsed.len() ==> {
                    &&& parsed[k] == (#[trigger] laws@[k].lhs, laws@[k].rhs, laws@[k].names_seq())
                    &&& laws@[k].nvars == laws@[k].names_seq().len()
                    &&& laws@[k].wf()
                },
        decreases len - i,
    {
        let mut j: usize = i;
        while j < len && cs[j] != '\n'
            invariant
                i <= j <= len,
                len == cs@.len(),
                line_len(cs@, i as int) == (j - i) + line_len(cs@, j as int),
            decreases len - j,
        {
            j = j + 1;
        }
        let mut b = j;
        if j < len && b > i && cs[b - 1] == '\r' {
            b = b - 1;
        }
        let ghost raw = cs@.subrange(i as int, j as int);
        proof {
            assert(lines_from(cs@, i as nat) == seq![cs@.subrange(i as int, b as int)] + lines_from(cs@, (j + 1) as nat)) by {
                if b < j {
                    assert(raw.drop_last() =~= cs@.subrange(i as int, b as int));
                }
            }
            assert(all[lineno as int] == cs@.subrange(i as int, b as int)) by {
                assert(all[lineno as int] == (all.take(lineno as int) + lines_from(cs@, i as nat))[lineno as int]);
            }
            assert(all == all.take(lineno + 1) + lines_from(cs@, (j + 1) as nat)) by {
                assert(all.take(lineno + 1) =~= all.take(lineno as int).push(all[lineno as int]));
                assert(all =~= all.take(lineno + 1) + lines_from(cs@, (j + 1) as nat));
            }
        }
        let (s, e) = content_range(&cs, i, b);
        if s < e {
            let mut content: Vec<char> = Vec::new();
            let mut q: usize = s;
            while q < e
                invariant
                    s <= q <= e <= cs@.len(),
                    content@ == cs@.subrange(s as int, q as int),
                decreases e - q,
            {
                content.push(cs[q]);
                q = q + 1;
                assert(content@ =~= cs@.subrange(s as int, q as int));
            }
            proof {
                lemma_byte_len_subrange(cs@, s as int, e as int);
            }
            match parse_chars(&content) {
                Ok(law) => {
                    proof {
                        parsed = parsed.push((law.lhs, law.rhs, law.names_seq()));
                    }
                    laws.push(law);
                },
                Err(err) => {
                    let mut msg = String::from_str("line ");
                    push_decimal(&mut msg, (lineno + 1) as u64);
                    push_str(&mut msg, ": ");
                    let t = err.to_string();
                    push_str(&mut msg, t.as_str());
                    assert(msg@ =~= "line "@ + decimal((lineno + 1) as nat) + ": "@ + error_text(err.message@, err.offset as nat));
                    return Err(msg);
                },
            }
        }
        lineno = lineno + 1;
        i = if j < len { j + 1 } else { len };
    }
    proof {
        assert(lines_from(cs@, i as nat) == Seq::<Seq<char>>::empty());
        assert(all =~= all.take(lineno as int));
    }
    Ok(laws)
}

/// Every `Op(l, r)` with `l` from `ls` and `r` from `rs`, `ls` outermost.
pub open spec fn combine(ls: Seq<Term>, rs: Seq<Term>) -> Seq<Term>
    decreases ls.len(),
{
    if ls.len() == 0 {
        Seq::empty()
    } else {
        combine(ls.drop_last(), rs) + rs.map_values(|r: Term| Term::Op(Box::new(ls.last()), Box::new(r)))
    }
}

/// Tree shapes with `ops` operations whose left subtree has at least `left`
/// operations, by size of the left subtree.
pub open spec fn shapes_from(ops: nat, left: nat) -> Seq<Term>
    decreases ops, ops + 1 - left,
{
    if left >= ops {
        Seq::empty()
    } else {
        combine(shapes_of(left), shapes_of((ops - 1 - left) as nat)) + shapes_from(ops, left + 1)
    }
}

/// All tree shapes with `ops` operations (leaves are variable 0), ordered
/// by the size of the left subtree, then the left shape, then the right.
pub open spec fn shapes_of(ops: nat) -> Seq<Term>
    decreases ops, ops + 2,
{
    if ops == 0 {
        seq![Term::Var(0)]
    } else {
        shapes_from(ops, 0)
    }
}

/// The shape with its leaves, left to right, taken from `pattern` from position `start` on.
pub open spec fn fill_spec(shape: Term, pattern: Seq<u8>, start: int) -> Term
    decreases shape,
{
    match shape {
        Term::Var(_) => Term::Var(pattern[start]),
        Term::Op(l, r) => Term::Op(
            Box::new(fill_spec(*l, pattern, start)),
            Box::new(fill_spec(*r, pattern, start + l.leaves().len())),
        ),
    }
}

/// Largest next value of a variable pattern after `prefix` whose largest value is `max`.
pub open spec fn pattern_limit(prefix: Seq<u8>, max: u8) -> nat {
    if prefix.len() == 0 {
        0
    } else if max + 1 < MAX_VARS - 1 {
        (max + 1) as nat
    } else {
        (MAX_VARS - 1) as nat
    }
}

/// Variable patterns of length `len` extending `prefix` (restricted growth
/// strings: each value at most one above the largest before it, and below
/// [`MAX_VARS`]), in lexicographic order.
pub open spec fn patterns_of(len: nat, prefix: Seq<u8>, max: u8) -> Seq<Seq<u8>>
    decreases len - prefix.len(), 10nat,
{
    if prefix.len() >= len {
        seq![prefix]
    } else {
        patterns_with(len, prefix, max, 0)
    }
}

/// The patterns of [`patterns_of`] whose next value is at least `v`.
pub open spec fn patterns_with(len: nat, prefix: Seq<u8>, max: u8, v: nat) -> Seq<Seq<u8>>
    decreases len - prefix.len(), 9 - v,
{
    if prefix.len() >= len || v > pattern_limit(prefix, max) || v >= 9 {
        Seq::empty()
    } else {
        patterns_of(len, prefix.push(v as u8), if v > max { v as u8 } else { max }) + patterns_with(
            len,
            prefix,
            max,
            v + 1,
        )
    }
}

fn combine_into(ls: &Vec<Term>, rs: &Vec<Term>, out: &mut Vec<Term>)
    ensures
        final(out)@ == old(out)@ + combine(ls@, rs@),
{
    let mut i: usize = 0;
    while i < ls.len()
        invariant
            i <= ls@.len(),
            out@ == old(out)@ + combine(ls@.take(i as int), rs@),
        decreases ls@.len() - i,
    {
        let ghost mid = out@;
        let mut j: usize = 0;
        while j < rs.len()
            invariant
                i < ls@.len(),
                j <= rs@.len(),
                out@ == mid + rs@.take(j as int).map_values(|r: Term| Term::Op(Box::new(ls@[i as int]), Box::new(r))),
            decreases rs@.len() - j,
        {
            out.push(Term::op(ls[i].clone(), rs[j].clone()));
            j = j + 1;
            assert(out@ =~= mid + rs@.take(j as int).map_values(|r: Term| Term::Op(Box::new(ls@[i as int]), Box::new(r))));
        }
        i = i + 1;
        proof {
            let t = ls@.take(i as int);
            assert(t.drop_last() =~= ls@.take(i - 1));
            assert(rs@.take(rs@.len() as int) =~= rs@);
        }
        assert(out@ =~= old(out)@ + combine(ls@.take(i as int), rs@));
    }
    assert(ls@.take(ls@.len() as int) =~= ls@);
}

/// Tree shapes with `ops` operations, in the order of [`shapes_of`].
fn shapes(ops: usize) -> (out: Vec<Term>)
    ensures
        out@ == shapes_of(ops as nat),
    decreases ops,
{
    if ops == 0 {
        let mut v: Vec<Term> = Vec::new();
        v.push(Term::Var(0));
        assert(v@ =~= seq![Term::Var(0)]);
        return v;
    }
    let mut out: Vec<Term> = Vec::new();
    let mut left: usize = 0;
    while left < ops
        invariant
            0 < ops,
            left <= ops,
            out@ + shapes_from(ops as nat, left as nat) == shapes_of(ops as nat),
        decreases ops - left,
    {
        let ls = shapes(left);
        let rs = shapes(ops - 1 - left);
        let ghost before = out@;
        combine_into(&ls, &rs, &mut out);
        proof {
            assert(shapes_from(ops as nat, left as nat) == combine(shapes_of(left as nat), shapes_of((ops - 1 - left) as nat))
                + shapes_from(ops as nat, (left + 1) as nat));
            assert(out@ + shapes_from(ops as nat, (left + 1) as nat) =~= before + shapes_from(ops as nat, left as nat));
        }
        left = left + 1;
    }
    assert(out@ =~= shapes_of(ops as nat));
    out
}

/// Fills the leaves of `shape` from `pattern`, starting at `*next`.
fn fill(shape: &Term, pattern: &Vec<u8>, next: &mut usize) -> (t: Term)
    requires
        *old(next) + shape.leaves().len() <= pattern@.len(),
        pattern@.len() <= usize::MAX,
    ensures
        t == fill_spec(*shape, pattern@, *old(next) as int),
        *final(next) == *old(next) + shape.leaves().len(),
    decreases shape,
{
    match shape {
        Term::Var(_) => {
            let t = Term::Var(pattern[*next]);
            *next = *next + 1;
            t
        },
        Term::Op(l, r) => {
            let l2 = fill(l, pattern, next);
            let r2 = fill(r, pattern, next);
            Term::op(l2, r2)
        },
    }
}

spec fn views_of(v: Seq<Vec<u8>>) -> Seq<Seq<u8>> {
    v.map_values(|x: Vec<u8>| x@)
}

// Restricted growth strings: variable patterns up to renaming.
fn patterns(len: usize, prefix: &mut Vec<u8>, max: u8, out: &mut Vec<Vec<u8>>)
    requires
        old(prefix)@.len() <= len,
        max < MAX_VARS,
    ensures
        final(prefix)@ == old(prefix)@,
        views_of(final(out)@) == views_of(old(out)@) + patterns_of(len as nat, old(prefix)@, max),
    decreases len - old(prefix)@.len(), 10nat,
{
    if prefix.len() == len {
        out.push(prefix.clone());
        proof {
            assert(out@.last()@ =~= prefix@);
            assert(views_of(out@) =~= views_of(old(out)@) + seq![prefix@]);
        }
        return;
    }
    let limit: u8 = if prefix.len() == 0 {
        0
    } else if max + 1 < (MAX_VARS as u8) - 1 {
        max + 1
    } else {
        (MAX_VARS as u8) - 1
    };
    let mut v: u8 = 0;
    while v <= limit
        invariant
            prefix@ == old(prefix)@,
            prefix@.len() < len,
            max < MAX_VARS,
            limit == pattern_limit(prefix@, max),
            limit < 9,
            v <= limit + 1,
            views_of(out@) + patterns_with(len as nat, prefix@, max, v as nat) == views_of(old(out)@)
                + patterns_of(len as nat, old(prefix)@, max),
        decreases limit + 1 - v,
    {
        let ghost before = views_of(out@);
        prefix.push(v);
        let m2 = if v > max { v } else { max };
        patterns(len, prefix, m2, out);
        prefix.pop();
        proof {
            assert(prefix@ =~= old(prefix)@);
        }
        v = v + 1;
    }
}

proof fn lemma_combine_leaves(ls: Seq<Term>, rs: Seq<Term>, a: nat, b: nat)
    requires
        forall|i: int| 0 <= i < ls.len() ==> (#[trigger] ls[i]).leaves().len() == a,
        forall|i: int| 0 <= i < rs.len() ==> (#[trigger] rs[i]).leaves().len() == b,
    ensures
        forall|i: int| 0 <= i < combine(ls, rs).len() ==> (#[trigger] combine(ls, rs)[i]).leaves().len() == a + b,
    decreases ls.len(),
{
    if ls.len() > 0 {
        let init = ls.drop_last();
        lemma_combine_leaves(init, rs, a, b);
        let m = rs.map_values(|r: Term| Term::Op(Box::new(ls.last()), Box::new(r)));
        assert(ls.last().leaves().len() == a);
        assert forall|i: int| 0 <= i < combine(ls, rs).len() implies (#[trigger] combine(ls, rs)[i]).leaves().len() == a + b by {
            let c0 = combine(init, rs);
            if i < c0.len() {
                assert(combine(ls, rs)[i] == c0[i]);
            } else {
                assert(combine(ls, rs)[i] == m[i - c0.len()]);
                assert(rs[i - c0.len()].leaves().len() == b);
            }
        }
    }
}

/// Every shape with `ops` operations has `ops + 1` leaves.
proof fn lemma_shapes_leaves(ops: nat)
    ensures
        forall|i: int| 0 <= i < shapes_of(ops).len() ==> (#[trigger] shapes_of(ops)[i]).leaves().len() == ops + 1,
    decreases ops, ops + 2,
{
    if ops > 0 {
        lemma_shapes_from_leaves(ops, 0);
        assert(shapes_of(ops) == shapes_from(ops, 0));
    } else {
        assert(shapes_of(0) =~= seq![Term::Var(0)]);
        assert(shapes_of(0)[0].leaves() =~= seq![0u8]);
    }
}

proof fn lemma_shapes_from_leaves(ops: nat, left: nat)
    requires
        ops > 0,
    ensures
        forall|i: int| 0 <= i < shapes_from(ops, left).len() ==> (#[trigger] shapes_from(ops, left)[i]).leaves().len()
            == ops + 1,
    decreases ops, ops + 1 - left,
{
    if left < ops {
        lemma_shapes_leaves(left);
        lemma_shapes_leaves((ops - 1 - left) as nat);
        lemma_combine_leaves(shapes_of(left), shapes_of((ops - 1 - left) as nat), left + 1, (ops - left) as nat);
        lemma_shapes_from_leaves(ops, left + 1);
        let c = combine(shapes_of(left), shapes_of((ops - 1 - left) as nat));
        let rest = shapes_from(ops, left + 1);
        assert forall|i: int| 0 <= i < shapes_from(ops, left).len() implies (#[trigger] shapes_from(ops, left)[i]).leaves().len()
            == ops + 1 by {
            if i < c.len() {
                assert(shapes_from(ops, left)[i] == c[i]);
            } else {
                assert(shapes_from(ops, left)[i] == rest[i - c.len()]);
            }
        }
    }
}

/// Every pattern of [`patterns_of`] has length `len`.
proof fn lemma_patterns_len(len: nat, prefix: Seq<u8>, max: u8)
    requires
        prefix.len() <= len,
    ensures
        forall|i: int| 0 <= i < patterns_of(len, prefix, max).len() ==> (#[trigger] patterns_of(len, prefix, max)[i]).len()
            == len,
    decreases len - prefix.len(), 10nat,
{
    if prefix.len() < len {
        lemma_patterns_with_len(len, prefix, max, 0);
        assert(patterns_of(len, prefix, max) == patterns_with(len, prefix, max, 0));
    } else {
        assert(patterns_of(len, prefix, max) =~= seq![prefix]);
    }
}

proof fn lemma_patterns_with_len(len: nat, prefix: Seq<u8>, max: u8, v: nat)
    requires
        prefix.len() < len,
    ensures
        forall|i: int| 0 <= i < patterns_with(len, prefix, max, v).len() ==> (#[trigger] patterns_with(
            len,
            prefix,
            max,
            v,
        )[i]).len() == len,
    decreases len - prefix.len(), 9 - v,
{
    if !(v > pattern_limit(prefix, max) || v >= 9) {
        let m2 = if v > max { v as u8 } else { max };
        lemma_patterns_len(len, prefix.push(v as u8), m2);
        lemma_patterns_with_len(len, prefix, max, v + 1);
        let a = patterns_of(len, prefix.push(v as u8), m2);
        let b = patterns_with(len, prefix, max, v + 1);
        assert forall|i: int| 0 <= i < patterns_with(len, prefix, max, v).len() implies (#[trigger] patterns_with(
            len,
            prefix,
            max,
            v,
        )[i]).len() == len by {
            if i < a.len() {
                assert(patterns_with(len, prefix, max, v)[i] == a[i]);
            } else {
                assert(patterns_with(len, prefix, max, v)[i] == b[i - a.len()]);
            }
        }
    }
}

/// Derived order on terms: variables before operations, variables by number,
/// operations by left then right operand.
pub open spec fn term_lt(a: Term, b: Term) -> bool
    decreases a,
{
    match (a, b) {
        (Term::Var(x), Term::Var(y)) => x < y,
        (Term::Var(_), Term::Op(_, _)) => true,
        (Term::Op(_, _), Term::Var(_)) => false,
        (Term::Op(l1, r1), Term::Op(l2, r2)) => term_lt(*l1, *l2) || (*l1 == *l2 && term_lt(*r1, *r2)),
    }
}

/// Lexicographic order on pairs of terms.
pub open spec fn pair_lt(a: (Term, Term), b: (Term, Term)) -> bool {
    term_lt(a.0, b.0) || (a.0 == b.0 && term_lt(a.1, b.1))
}

/// The smaller of a law's two orientations, which identifies it up to
/// renaming and swapping sides.
pub open spec fn law_key(l: Term, r: Term) -> (Term, Term) {
    let o = var_order(r, l);
    let sw = (r.numbered(o), l.numbered(o));
    if pair_lt(sw, (l, r)) {
        sw
    } else {
        (l, r)
    }
}

/// The law built from shapes `ls`, `rs` filled with `pat`, tagged with its operation count.
pub open spec fn candidate(ls: Term, rs: Term, pat: Seq<u8>, total: nat) -> (Term, Term, nat) {
    let fl = fill_spec(ls, pat, 0);
    let fr = fill_spec(rs, pat, ls.leaves().len() as int);
    let o = var_order(fl, fr);
    (fl.numbered(o), fr.numbered(o), total)
}

pub open spec fn stream_pats(ls: Term, rs: Term, pats: Seq<Seq<u8>>, total: nat) -> Seq<(Term, Term, nat)> {
    pats.map_values(|p: Seq<u8>| candidate(ls, rs, p, total))
}

pub open spec fn stream_rs(ls: Term, rss: Seq<Term>, pats: Seq<Seq<u8>>, total: nat) -> Seq<(Term, Term, nat)>
    decreases rss.len(),
{
    if rss.len() == 0 {
        Seq::empty()
    } else {
        stream_rs(ls, rss.drop_last(), pats, total) + stream_pats(ls, rss.last(), pats, total)
    }
}

pub open spec fn stream_ls(lss: Seq<Term>, rss: Seq<Term>, pats: Seq<Seq<u8>>, total: nat) -> Seq<(Term, Term, nat)>
    decreases lss.len(),
{
    if lss.len() == 0 {
        Seq::empty()
    } else {
        stream_ls(lss.drop_last(), rss, pats, total) + stream_rs(lss.last(), rss, pats, total)
    }
}

/// Candidate laws with `total` operations and `left` of them on the left.
pub open spec fn stream_left(total: nat, left: nat) -> Seq<(Term, Term, nat)> {
    stream_ls(shapes_of(left), shapes_of((total - left) as nat), patterns_of(total + 2, Seq::empty(), 0), total)
}

/// Candidate laws with `total` operations and fewer than `j` on the left.
pub open spec fn stream_total(total: nat, j: nat) -> Seq<(Term, Term, nat)>
    decreases j,
{
    if j == 0 {
        Seq::empty()
    } else {
        stream_total(total, (j - 1) as nat) + stream_left(total, (j - 1) as nat)
    }
}

/// Candidate laws with fewer than `t` operations, in generation order.
pub open spec fn stream_upto(t: nat) -> Seq<(Term, Term, nat)>
    decreases t,
{
    if t == 0 {
        Seq::empty()
    } else {
        let u = (t - 1) as nat;
        stream_upto(u) + stream_total(u, u / 2 + 1)
    }
}

/// Keeps a candidate unless it is trivial with operations, or a law equal
/// to it up to renaming and swapping was kept before.
pub open spec fn dedup_step(st: (Seq<(Term, Term)>, Seq<(Term, Term)>), c: (Term, Term, nat)) -> (
    Seq<(Term, Term)>,
    Seq<(Term, Term)>,
) {
    if c.0 == c.1 && c.2 > 0 {
        st
    } else {
        let k = law_key(c.0, c.1);
        if st.0.contains(k) {
            st
        } else {
            (st.0.push(k), st.1.push((c.0, c.1)))
        }
    }
}

pub open spec fn dedup_all(st: (Seq<(Term, Term)>, Seq<(Term, Term)>), cs: Seq<(Term, Term, nat)>) -> (
    Seq<(Term, Term)>,
    Seq<(Term, Term)>,
)
    decreases cs.len(),
{
    if cs.len() == 0 {
        st
    } else {
        dedup_step(dedup_all(st, cs.drop_last()), cs.last())
    }
}

/// The laws `generate_laws(max_ops)` lists, as pairs of sides.
pub open spec fn generated(max_ops: nat) -> Seq<(Term, Term)> {
    dedup_all((Seq::empty(), Seq::empty()), stream_upto(max_ops + 1)).1
}

proof fn lemma_dedup_push(st: (Seq<(Term, Term)>, Seq<(Term, Term)>), cs: Seq<(Term, Term, nat)>, c: (Term, Term, nat))
    ensures
        dedup_all(st, cs.push(c)) == dedup_step(dedup_all(st, cs), c),
{
    assert(cs.push(c).drop_last() =~= cs);
}

fn term_less(a: &Term, b: &Term) -> (r: bool)
    ensures
        r == term_lt(*a, *b),
    decreases a,
{
    match (a, b) {
        (Term::Var(x), Term::Var(y)) => *x < *y,
        (Term::Var(_), Term::Op(_, _)) => true,
        (Term::Op(_, _), Term::Var(_)) => false,
        (Term::Op(l1, r1), Term::Op(l2, r2)) => term_less(l1, l2) || (**l1 == **l2 && term_less(r1, r2)),
    }
}

fn key_seen(seen: &Vec<(Term, Term)>, k: &(Term, Term)) -> (r: bool)
    ensures
        r == seen@.contains(*k),
{
    let mut i: usize = 0;
    while i < seen.len()
        invariant
            i <= seen@.len(),
            forall|j: int| 0 <= j < i ==> seen@[j] != *k,
        decreases seen@.len() - i,
    {
        if seen[i].0 == k.0 && seen[i].1 == k.1 {
            assert(seen@[i as int] == *k);
            return true;
        }
        i = i + 1;
    }
    false
}

/// Enumerates laws with at most `max_ops` operations in the order the
/// Equational Theories Project uses to build its list: by total operation
/// count, then by operations on the left side, then by tree shape, then by
/// variable pattern. Laws equal up to renaming or swapping sides appear once,
/// and trivial laws other than `x = x` are dropped.
pub fn generate_laws(max_ops: usize) -> (out: Vec<Law>)
    requires
        max_ops < usize::MAX - 2,
    ensures
        out@.len() == generated(max_ops as nat).len(),
        forall|i: int|
            0 <= i < out@.len() ==> {
                &&& (#[trigger] out@[i]).lhs == generated(max_ops as nat)[i].0
                &&& out@[i].rhs == generated(max_ops as nat)[i].1
                &&& out@[i].wf()
                &&& out@[i].names_seq() == default_names(out@[i].nvars as nat)
            },
{
    let mut seen: Vec<(Term, Term)> = Vec::new();
    let mut out: Vec<Law> = Vec::new();
    let ghost init: (Seq<(Term, Term)>, Seq<(Term, Term)>) = (Seq::empty(), Seq::empty());
    let ghost mut done: Seq<(Term, Term, nat)> = Seq::empty();
    let mut total: usize = 0;
    while total <= max_ops
        invariant
            total <= max_ops + 1,
            max_ops < usize::MAX - 2,
            done == stream_upto(total as nat),
            seen@ == dedup_all(init, done).0,
            out@.len() == dedup_all(init, done).1.len(),
            forall|i: int|
                0 <= i < out@.len() ==> {
                    &&& (#[trigger] out@[i]).lhs == dedup_all(init, done).1[i].0
                    &&& out@[i].rhs == dedup_all(init, done).1[i].1
                    &&& out@[i].wf()
                    &&& out@[i].names_seq() == default_names(out@[i].nvars as nat)
                },
        decreases max_ops + 1 - total,
    {
        let mut pats: Vec<Vec<u8>> = Vec::new();
        let mut prefix: Vec<u8> = Vec::new();
        patterns(total + 2, &mut prefix, 0, &mut pats);
        proof {
            assert(views_of(pats@) =~= patterns_of((total + 2) as nat, Seq::empty(), 0));
            lemma_patterns_len((total + 2) as nat, Seq::empty(), 0);
            assert forall|i: int| 0 <= i < pats@.len() implies (#[trigger] pats@[i])@.len() == total + 2 by {
                assert(views_of(pats@)[i] == pats@[i]@);
            }
        }
        let ghost base_total = done;
        let mut left: usize = 0;
        while left <= total / 2
            invariant
                total <= max_ops,
                max_ops < usize::MAX - 2,
                left <= total / 2 + 1,
                views_of(pats@) == patterns_of((total + 2) as nat, Seq::empty(), 0),
                forall|i: int| 0 <= i < pats@.len() ==> (#[trigger] pats@[i])@.len() == total + 2,
                base_total == stream_upto(total as nat),
                done == base_total + stream_total(total as nat, left as nat),
                seen@ == dedup_all(init, done).0,
                out@.len() == dedup_all(init, done).1.len(),
                forall|i: int|
                    0 <= i < out@.len() ==> {
                        &&& (#[trigger] out@[i]).lhs == dedup_all(init, done).1[i].0
                        &&& out@[i].rhs == dedup_all(init, done).1[i].1
                        &&& out@[i].wf()
                        &&& out@[i].names_seq() == default_names(out@[i].nvars as nat)
                    },
            decreases total / 2 + 1 - left,
        {
            let rshapes = shapes(total - left);
            let lshapes = shapes(left);
            proof {
                lemma_shapes_leaves(left as nat);
                lemma_shapes_leaves((total - left) as nat);
            }
            let ghost base_left = done;
            let mut i: usize = 0;
            while i < lshapes.len()
                invariant
                    total <= max_ops,
                    max_ops < usize::MAX - 2,
                    left <= total / 2,
                    views_of(pats@) == patterns_of((total + 2) as nat, Seq::empty(), 0),
                    forall|q: int| 0 <= q < pats@.len() ==> (#[trigger] pats@[q])@.len() == total + 2,
                    lshapes@ == shapes_of(left as nat),
                    rshapes@ == shapes_of((total - left) as nat),
                    forall|q: int| 0 <= q < lshapes@.len() ==> (#[trigger] lshapes@[q]).leaves().len() == left + 1,
                    forall|q: int| 0 <= q < rshapes@.len() ==> (#[trigger] rshapes@[q]).leaves().len() == total - left + 1,
                    i <= lshapes@.len(),
                    done == base_left + stream_ls(lshapes@.take(i as int), rshapes@, views_of(pats@), total as nat),
                    seen@ == dedup_all(init, done).0,
                    out@.len() == dedup_all(init, done).1.len(),
                    forall|q: int|
                        0 <= q < out@.len() ==> {
                            &&& (#[trigger] out@[q]).lhs == dedup_all(init, done).1[q].0
                            &&& out@[q].rhs == dedup_all(init, done).1[q].1
                            &&& out@[q].wf()
                            &&& out@[q].names_seq() == default_names(out@[q].nvars as nat)
                        },
                decreases lshapes@.len() - i,
            {
                let ghost base_ls = done;
                let mut j: usize = 0;
                while j < rshapes.len()
                    invariant
                        total <= max_ops,
                        max_ops < usize::MAX - 2,
                        views_of(pats@) == patterns_of((total + 2) as nat, Seq::empty(), 0),
                        forall|q: int| 0 <= q < pats@.len() ==> (#[trigger] pats@[q])@.len() == total + 2,
                        i < lshapes@.len(),
                        lshapes@[i as int].leaves().len() == left + 1,
                        forall|q: int| 0 <= q < rshapes@.len() ==> (#[trigger] rshapes@[q]).leaves().len() == total - left + 1,
                        left <= total,
                        j <= rshapes@.len(),
                        done == base_ls + stream_rs(lshapes@[i as int], rshapes@.take(j as int), views_of(pats@), total as nat),
                        seen@ == dedup_all(init, done).0,
                        out@.len() == dedup_all(init, done).1.len(),
                        forall|q: int|
                            0 <= q < out@.len() ==> {
                                &&& (#[trigger] out@[q]).lhs == dedup_all(init, done).1[q].0
                                &&& out@[q].rhs == dedup_all(init, done).1[q].1
                                &&& out@[q].wf()
                                &&& out@[q].names_seq() == default_names(out@[q].nvars as nat)
                            },
                    decreases rshapes@.len() - j,
                {
                    let ghost base_rs = done;
                    let ls = &lshapes[i];
                    let rs = &rshapes[j];
                    let mut k: usize = 0;
                    while k < pats.len()
                        invariant
                            total <= max_ops,
                            max_ops < usize::MAX - 2,
                            forall|q: int| 0 <= q < pats@.len() ==> (#[trigger] pats@[q])@.len() == total + 2,
                            ls.leaves().len() == left + 1,
                            rs.leaves().len() == total - left + 1,
                            left <= total,
                            k <= pats@.len(),
                            done == base_rs + stream_pats(*ls, *rs, views_of(pats@).take(k as int), total as nat),
                            seen@ == dedup_all(init, done).0,
                            out@.len() == dedup_all(init, done).1.len(),
                            forall|q: int|
                                0 <= q < out@.len() ==> {
                                    &&& (#[trigger] out@[q]).lhs == dedup_all(init, done).1[q].0
                                    &&& out@[q].rhs == dedup_all(init, done).1[q].1
                                    &&& out@[q].wf()
                                    &&& out@[q].names_seq() == default_names(out@[q].nvars as nat)
                                },
                        decreases pats@.len() - k,
                    {
                        let pat = &pats[k];
                        let plen = pat.len();
                        let mut next: usize = 0;
                        let lhs = fill(ls, pat, &mut next);
                        let rhs = fill(rs, pat, &mut next);
                        let law = Law::new(lhs, rhs);
                        let ghost c = candidate(*ls, *rs, pat@, total as nat);
                        let ghost prev = done;
                        proof {
                            assert(views_of(pats@)[k as int] == pat@);
                            done = done.push(c);
                            lemma_dedup_push(init, prev, c);
                            assert(views_of(pats@).take(k + 1) =~= views_of(pats@).take(k as int).push(pat@));
                            assert(done =~= base_rs + stream_pats(*ls, *rs, views_of(pats@).take(k + 1), total as nat));
                        }
                        if law.is_trivial() && total > 0 {
                            k = k + 1;
                            continue;
                        }
                        let swapped = law.swapped();
                        let key = if term_less(&swapped.lhs, &law.lhs) || (swapped.lhs == law.lhs && term_less(
                            &swapped.rhs,
                            &law.rhs,
                        )) {
                            (swapped.lhs.clone(), swapped.rhs.clone())
                        } else {
                            (law.lhs.clone(), law.rhs.clone())
                        };
                        assert(key == law_key(law.lhs, law.rhs));
                        if !key_seen(&seen, &key) {
                            seen.push(key);
                            out.push(law);
                        }
                        k = k + 1;
                    }
                    proof {
                        assert(views_of(pats@).take(pats@.len() as int) =~= views_of(pats@));
                        let t = rshapes@.take(j + 1);
                        assert(t.drop_last() =~= rshapes@.take(j as int));
                        assert(done =~= base_ls + stream_rs(lshapes@[i as int], t, views_of(pats@), total as nat));
                    }
                    j = j + 1;
                }
                proof {
                    assert(rshapes@.take(rshapes@.len() as int) =~= rshapes@);
                    let t = lshapes@.take(i + 1);
                    assert(t.drop_last() =~= lshapes@.take(i as int));
                    assert(done =~= base_left + stream_ls(t, rshapes@, views_of(pats@), total as nat));
                }
                i = i + 1;
            }
            proof {
                assert(lshapes@.take(lshapes@.len() as int) =~= lshapes@);
                assert(done =~= base_total + stream_total(total as nat, (left + 1) as nat));
            }
            left = left + 1;
        }
        proof {
            assert(done =~= stream_upto((total + 1) as nat));
        }
        total = total + 1;
    }
    out
}

} // verus!
