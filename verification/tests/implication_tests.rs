use magmahunt::implication::{direct_proof, proof_table, transitive_closure, Proof};
use magmahunt::law::{parse_law, Law};

fn direct(h: &str, c: &str) -> Option<Proof> {
    direct_proof(&parse_law(h).unwrap(), &parse_law(c).unwrap())
}

#[test]
fn recognises_each_kind_of_direct_proof() {
    assert_eq!(direct("x◇y = y◇x", "b◇a = a◇b"), Some(Proof::Same));
    assert_eq!(direct("x = x◇x", "x◇x = x"), Some(Proof::Same));
    assert_eq!(
        direct("x◇y = y◇x", "x◇(y◇z) = x◇(y◇z)"),
        Some(Proof::TrivialConclusion)
    );
    assert_eq!(
        direct("x = y", "x◇y = y◇x"),
        Some(Proof::CollapsesToSingleton)
    );
    assert_eq!(
        direct("y◇z = x", "x◇y = y◇x"),
        Some(Proof::CollapsesToSingleton)
    );
    assert_eq!(
        direct("x◇y = y◇x", "(x◇x)◇y = y◇(x◇x)"),
        Some(Proof::Rewrite)
    );
    assert_eq!(direct("x = x◇x", "y◇z = (y◇z)◇(y◇z)"), Some(Proof::Rewrite));
    // Rewriting inside a context: z ◇ (x◇y) → z ◇ (y◇x).
    assert_eq!(
        direct("x◇y = y◇x", "z◇(x◇y) = z◇(y◇x)"),
        Some(Proof::Rewrite)
    );
}

#[test]
fn does_not_claim_non_implications() {
    assert_eq!(direct("x◇y = y◇x", "x◇(y◇z) = (x◇y)◇z"), None);
    // x = x◇y mentions x on both sides, so it does not collapse by that rule.
    assert_eq!(direct("x = x◇y", "x◇y = y◇x"), None);
    // Substitution must be consistent: x ↦ y◇y and x ↦ z clash.
    assert_eq!(direct("x◇x = x", "(y◇y)◇z = y◇y"), None);
    // Instances go from general to specific only.
    assert_eq!(direct("x = x◇x", "x = x◇y"), None);
    // Two rewrites are needed here, so a single step must not claim it.
    assert_eq!(direct("x◇x = x", "x◇y = (x◇x)◇(y◇y)"), None);
}

#[test]
fn closure_chains_proofs_across_rules() {
    let laws: Vec<Law> = ["x◇x = x", "x◇y = (x◇x)◇y", "x◇y = (x◇x)◇(y◇y)"]
        .iter()
        .map(|s| parse_law(s).unwrap())
        .collect();
    let t = proof_table(&laws);
    assert_eq!(t[1], Some(Proof::Rewrite));
    assert!(t.iter().step_by(4).all(|p| *p == Some(Proof::Same)));
    // Nothing proves the idempotence law back from the weaker ones.
    assert_eq!(t[3], None);
    assert_eq!(t[6], None);
}

#[test]
fn closure_on_a_synthetic_chain() {
    let r = Some(Proof::Rewrite);
    // 0 → 1 → 2 → 3, nothing else.
    let mut t = vec![None; 16];
    t[1] = r;
    t[4 + 2] = r;
    t[8 + 3] = r;
    transitive_closure(4, &mut t);
    assert_eq!(t[2], Some(Proof::Transitive));
    assert_eq!(t[3], Some(Proof::Transitive));
    assert_eq!(t[4 + 3], Some(Proof::Transitive));
    assert_eq!(t[4], None);
    assert_eq!(t[12], None);
    assert_eq!(t[1], r);
}

#[test]
fn closure_makes_cycles_reflexive() {
    let r = Some(Proof::Rewrite);
    // 0 → 1 → 0: both laws reach themselves through the other.
    let mut t = vec![None; 4];
    t[1] = r;
    t[2] = r;
    transitive_closure(2, &mut t);
    assert_eq!(t, vec![Some(Proof::Transitive), r, r, Some(Proof::Transitive)]);
}

#[test]
fn swapped_instance_is_a_rewrite() {
    // The conclusion is an instance of the hypothesis read right to left.
    assert_eq!(direct("x◇y = x", "y = y◇(z◇z)"), Some(Proof::Rewrite));
}

#[test]
fn rewrites_in_either_direction_inside_a_context_are_proven() {
    // Left to right: x ◇ y → x applied to the subterm z ◇ w under u ◇ _.
    assert_eq!(direct("x ◇ y = x", "u ◇ (z ◇ w) = u ◇ z"), Some(Proof::Rewrite));
    // Right to left: x → x ◇ y applied to the subterm z under u ◇ _.
    assert_eq!(direct("x ◇ y = x", "u ◇ z = u ◇ (z ◇ w)"), Some(Proof::Rewrite));
    // A rewrite in two places at once is not a single step.
    assert_eq!(direct("x ◇ y = y ◇ x", "(x ◇ y) ◇ (z ◇ w) = (y ◇ x) ◇ (w ◇ z)"), None);
}

