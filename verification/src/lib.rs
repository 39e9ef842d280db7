//! Finite-counterexample search for implications between equational laws
//! over magmas.

pub mod agreement;
pub mod canonical;
pub mod cli;
pub mod complete;
pub mod eval;
pub mod generator;
pub mod implication;
pub mod law;
pub mod magma;
pub mod matrix;
pub mod naive;
pub mod round_trip;
pub mod search;
pub mod symmetry;
pub mod text;
pub mod verify;

pub use eval::CompiledLaw;
pub use law::{generate_laws, parse_law, parse_law_list, Law, ParseError, Term};
pub use magma::Magma;
pub use search::{count_models, Flow, Options, Search, Stats};

use vstd::prelude::*;
use crate::eval::{law_holds, power};
use crate::search::{accepted, capped_sum, saturated, check_size, sides_refuted_on_empty, size_message, size_ok};
use crate::verify::{lemma_holds_iff_satisfied, law_satisfied, verify_witness};

verus! {

/// Result of [`refute`].
#[derive(Clone, Debug)]
pub struct Refutation {
    /// The smallest counterexample found, already re-checked by [`verify`].
    pub witness: Option<Magma>,
    /// Largest size fully searched (equal to the witness size when found).
    pub searched_up_to: usize,
    pub nodes: u64,
}

/// A table of size `n` that a search for models of the hypothesis accepts and
/// that violates the conclusion.
pub open spec fn counterexample(hypothesis: &Law, conclusion: &Law, n: int, symmetry: bool, table: Seq<u8>) -> bool {
    &&& accepted(hypothesis.lhs, hypothesis.rhs, hypothesis.nvars as nat, n, symmetry, table)
    &&& !law_holds(conclusion.lhs, conclusion.rhs, conclusion.nvars as int, n, table)
}

/// Every size `1..=m` is searchable and holds no counterexample.
pub open spec fn none_up_to(hypothesis: &Law, conclusion: &Law, m: int, symmetry: bool) -> bool {
    &&& forall|n: int| 1 <= n <= m ==> #[trigger] size_ok(hypothesis.nvars as nat, n)
    &&& forall|n: int, table: Seq<u8>|
        1 <= n <= m ==> !#[trigger] counterexample(hypothesis, conclusion, n, symmetry, table)
}

/// Keeping only lex-leaders loses no counterexample: when some table of size
/// `n` satisfies the hypothesis and violates the conclusion, so does a lex-leader.
pub proof fn lemma_leaders_keep_counterexamples(hypothesis: &Law, conclusion: &Law, n: int, table: Seq<u8>)
    requires
        hypothesis.wf(),
        conclusion.wf(),
        counterexample(hypothesis, conclusion, n, false, table),
    ensures
        exists|t: Seq<u8>| #[trigger] counterexample(hypothesis, conclusion, n, true, t),
{
    crate::symmetry::lemma_class_has_leader(table, n);
    let sigma = choose|sigma: Seq<u8>|
        crate::search::is_permutation(sigma, n) && crate::search::is_lex_leader(
            #[trigger] crate::search::relabelled(table, sigma, n),
            n,
        );
    let t = crate::search::relabelled(table, sigma, n);
    crate::symmetry::lemma_relabel_complete(table, sigma, n);
    crate::symmetry::lemma_isomorphic_same_laws(
        hypothesis.lhs,
        hypothesis.rhs,
        hypothesis.nvars as nat,
        n as nat,
        table,
        sigma,
    );
    crate::symmetry::lemma_isomorphic_same_laws(
        conclusion.lhs,
        conclusion.rhs,
        conclusion.nvars as nat,
        n as nat,
        table,
        sigma,
    );
    assert(counterexample(hypothesis, conclusion, n, true, t));
}

/// A search up to size `m` that keeps only lex-leaders and finds no
/// counterexample shows that no table at all of those sizes is one.
pub proof fn lemma_none_among_all_tables(hypothesis: &Law, conclusion: &Law, m: int, symmetry: bool)
    requires
        hypothesis.wf(),
        conclusion.wf(),
        none_up_to(hypothesis, conclusion, m, symmetry),
    ensures
        none_up_to(hypothesis, conclusion, m, false),
{
    assert forall|n: int, table: Seq<u8>| 1 <= n <= m implies !#[trigger] counterexample(
        hypothesis,
        conclusion,
        n,
        false,
        table,
    ) by {
        if counterexample(hypothesis, conclusion, n, false, table) {
            lemma_leaders_keep_counterexamples(hypothesis, conclusion, n, table);
            let t = choose|t: Seq<u8>| #[trigger] counterexample(hypothesis, conclusion, n, true, t);
            if !symmetry {
                assert(counterexample(hypothesis, conclusion, n, symmetry, table));
            } else {
                assert(counterexample(hypothesis, conclusion, n, symmetry, t));
            }
        }
    }
}

/// `nodes` adds up, saturating, the cell assignments tried by the searches of
/// sizes `1..=searched`, given in `per`: a size at which the hypothesis is
/// refuted on the empty table tries none, size 1 otherwise tries its one
/// cell once, and size `n` tries at most `(n + 2)^(n²)`.
pub open spec fn search_nodes(hypothesis: &Law, per: Seq<int>, searched: int, nodes: int) -> bool {
    &&& per.len() == searched
    &&& nodes == capped_sum(per)
    &&& per.len() >= 1 && !sides_refuted_on_empty(hypothesis.lhs, hypothesis.rhs, hypothesis.nvars as nat, 1) ==> per[0]
        == 1
    &&& forall|i: int| 0 <= i < per.len() ==> #[trigger] per[i] <= power(i + 3, ((i + 1) * (i + 1)) as nat)
    &&& forall|i: int|
        0 <= i < per.len() ==> 0 <= #[trigger] per[i] && (sides_refuted_on_empty(
            hypothesis.lhs,
            hypothesis.rhs,
            hypothesis.nvars as nat,
            i + 1,
        ) ==> per[i] == 0)
}

/// Looks for a magma of size `1..=max_size` that satisfies `hypothesis` and
/// violates `conclusion`, smallest size first.
///
/// Errors if a size would need too many ground instances. The witness is
/// re-checked by the independent checker before it is returned, and `nodes`
/// adds up the cell assignments the searches tried.
pub fn refute(hypothesis: &Law, conclusion: &Law, max_size: usize, opts: Options) -> (r: Result<
    Refutation,
    String,
>)
    requires
        hypothesis.wf(),
        conclusion.wf(),
        forall|n: int| 1 <= n <= max_size && n <= 16 ==> #[trigger] power(n, conclusion.nvars as nat) <= usize::MAX,
    ensures
        match r {
            Err(e) => exists|n: int|
                1 <= n <= max_size && !size_ok(hypothesis.nvars as nat, n) && none_up_to(
                    hypothesis,
                    conclusion,
                    n - 1,
                    opts.symmetry,
                ) && #[trigger] size_message(hypothesis.nvars as nat, n) == e@,
            Ok(res) => (exists|per: Seq<int>| #[trigger] search_nodes(hypothesis, per, res.searched_up_to as int, res.nodes as int))
                && match res.witness {
                Some(w) => {
                    &&& 1 <= w.carrier() <= max_size
                    &&& res.searched_up_to == w.carrier()
                    &&& size_ok(hypothesis.nvars as nat, w.carrier() as int)
                    &&& counterexample(hypothesis, conclusion, w.carrier() as int, opts.symmetry, w.cells())
                    &&& law_satisfied(hypothesis.lhs, hypothesis.rhs, hypothesis.nvars as nat, w.carrier(), w.cells())
                    &&& !law_satisfied(conclusion.lhs, conclusion.rhs, conclusion.nvars as nat, w.carrier(), w.cells())
                    &&& none_up_to(hypothesis, conclusion, w.carrier() - 1, opts.symmetry)
                    &&& none_up_to(hypothesis, conclusion, w.carrier() - 1, false)
                },
                None => {
                    &&& res.searched_up_to == max_size
                    &&& none_up_to(hypothesis, conclusion, max_size as int, opts.symmetry)
                    &&& none_up_to(hypothesis, conclusion, max_size as int, false)
                },
            },
        },
{
    let h = CompiledLaw::new(hypothesis);
    let c = CompiledLaw::new(conclusion);
    let mut nodes: u64 = 0;
    let ghost mut per: Seq<int> = Seq::empty();
    let mut n: usize = 1;
    while n <= max_size
        invariant
            1 <= n <= 17,
            n <= max_size + 1,
            hypothesis.wf(),
            conclusion.wf(),
            h.lhs.term() == hypothesis.lhs,
            h.rhs.term() == hypothesis.rhs,
            h.nvars == hypothesis.nvars,
            h.wf(),
            c.lhs.term() == conclusion.lhs,
            c.rhs.term() == conclusion.rhs,
            c.nvars == conclusion.nvars,
            c.wf(),
            forall|m: int| 1 <= m <= max_size && m <= 16 ==> #[trigger] power(m, conclusion.nvars as nat) <= usize::MAX,
            none_up_to(hypothesis, conclusion, n - 1, opts.symmetry),
            search_nodes(hypothesis, per, n - 1, nodes as int),
        decreases max_size + 1 - n,
    {
        match check_size(&h, n) {
            Ok(()) => {},
            Err(e) => {
                return Err(e);
            },
        }
        let mut s = Search::new(&h, n, opts);
        let mut found: Option<Vec<u8>> = None;
        loop
            invariant_except_break
                found is None,
                forall|j: int| 0 <= j < s.found().len() ==> #[trigger] c.holds_on(n as int, s.found()[j]),
            invariant
                crate::search::refuted_on_empty(h, n as int) ==> s.counters().nodes == 0,
                n == 1 && s.fresh() ==> s.counters().nodes == 0,
                n == 1 && !s.fresh() && !crate::search::refuted_on_empty(h, 1) ==> s.counters().nodes == 1,
                s.counters().nodes + s.remaining() <= power(n + 2, (n * n) as nat),
                s.inv(),
                s.compiled() == h,
                s.order() == n,
                s.options() == opts,
                h.wf(),
                c.wf(),
                1 <= n <= 16,
            ensures
                !s.fresh(),
                s.counters().nodes <= power(n + 2, (n * n) as nat),
                match found {
                    Some(t) => s.accepts(t@) && !c.holds_on(n as int, t@),
                    None => forall|m: Seq<u8>| s.accepts(m) ==> #[trigger] c.holds_on(n as int, m),
                },
            decreases s.remaining(),
        {
            proof {
                s.lemma_remaining();
            }
            match s.next_model() {
                Some(t) => {
                    proof {
                        s.lemma_remaining();
                    }
                    if !c.holds_in(n, t.as_slice()) {
                        found = Some(t);
                        break;
                    }
                    proof {
                        assert forall|j: int| 0 <= j < s.found().len() implies #[trigger] c.holds_on(
                            n as int,
                            s.found()[j],
                        ) by {
                            if j == s.found().len() - 1 {
                                assert(s.found()[j] == t@);
                            }
                        }
                    }
                },
                None => {
                    proof {
                        s.lemma_remaining();
                        assert forall|m: Seq<u8>| s.accepts(m) implies #[trigger] c.holds_on(n as int, m) by {
                            assert(s.found().contains(m));
                            let j = choose|j: int| 0 <= j < s.found().len() && s.found()[j] == m;
                            assert(c.holds_on(n as int, s.found()[j]));
                        }
                    }
                    break;
                },
            }
        }
        let sn = s.stats().nodes;
        proof {
            let p0 = per;
            per = per.push(sn as int);
            assert(per.drop_last() =~= p0);
            assert forall|i: int| 0 <= i < per.len() implies #[trigger] per[i] <= power(i + 3, ((i + 1) * (i + 1)) as nat) by {
                if i < p0.len() {
                    assert(per[i] == p0[i]);
                }
            }
            assert forall|i: int|
                0 <= i < per.len() implies 0 <= #[trigger] per[i] && (sides_refuted_on_empty(
                hypothesis.lhs,
                hypothesis.rhs,
                hypothesis.nvars as nat,
                i + 1,
            ) ==> per[i] == 0) by {
                if i < p0.len() {
                    assert(per[i] == p0[i]);
                }
            }
        }
        nodes = nodes.saturating_add(sn);
        proof {
            assert(capped_sum(per) == saturated(capped_sum(per.drop_last()) + per.last()));
            assert(search_nodes(hypothesis, per, n as int, nodes as int));
        }
        match found {
            Some(table) => {
                let ghost t = table@;
                assert(n * n <= 256) by (nonlinear_arith)
                    requires
                        1 <= n <= 16,
                ;
                let witness = match Magma::new(n, table) {
                    Ok(w) => w,
                    Err(e) => {
                        return Err(e);
                    },
                };
                proof {
                    lemma_holds_iff_satisfied(hypothesis.lhs, hypothesis.rhs, hypothesis.nvars as nat, n as nat, t);
                    lemma_holds_iff_satisfied(conclusion.lhs, conclusion.rhs, conclusion.nvars as nat, n as nat, t);
                }
                match verify_witness(hypothesis, conclusion, &witness) {
                    Ok(_) => {},
                    Err(e) => {
                        let mut msg = String::from_str("internal error: solver produced a bad witness: ");
                        crate::text::push_str(&mut msg, e.as_str());
                        return Err(msg);
                    },
                }
                proof {
                    lemma_none_among_all_tables(hypothesis, conclusion, n - 1, opts.symmetry);
                }
                let res = Refutation { witness: Some(witness), searched_up_to: n, nodes };
                proof {
                    assert(search_nodes(hypothesis, per, res.searched_up_to as int, res.nodes as int));
                }
                return Ok(res);
            },
            None => {},
        }
        proof {
            assert forall|table: Seq<u8>| !#[trigger] counterexample(hypothesis, conclusion, n as int, opts.symmetry, table) by {
                if s.accepts(table) {
                    assert(c.holds_on(n as int, table));
                }
            }
        }
        n = n + 1;
    }
    proof {
        lemma_none_among_all_tables(hypothesis, conclusion, max_size as int, opts.symmetry);
    }
    let res = Refutation { witness: None, searched_up_to: max_size, nodes };
    proof {
        assert(search_nodes(hypothesis, per, res.searched_up_to as int, res.nodes as int));
    }
    Ok(res)
}

} // verus!
