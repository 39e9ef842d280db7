use magmahunt::law::parse_law;
use magmahunt::magma::Magma;
use magmahunt::verify::{find_violation, satisfies, verify_witness};

#[test]
fn accepts_a_genuine_witness_and_reports_the_violating_assignment() {
    let comm = parse_law("x ◇ y = y ◇ x").unwrap();
    let assoc = parse_law("x ◇ (y ◇ z) = (x ◇ y) ◇ z").unwrap();
    // NOR-like table: commutative, not associative.
    let m = Magma::new(2, vec![1, 0, 0, 0]).unwrap();
    let values = verify_witness(&comm, &assoc, &m).unwrap();
    let (x, y, z) = (values[0], values[1], values[2]);
    assert_ne!(m.op(x, m.op(y, z)), m.op(m.op(x, y), z));
}

#[test]
fn rejects_witnesses_that_break_the_hypothesis_or_satisfy_the_conclusion() {
    let comm = parse_law("x ◇ y = y ◇ x").unwrap();
    let assoc = parse_law("x ◇ (y ◇ z) = (x ◇ y) ◇ z").unwrap();
    let left_projection = Magma::new(2, vec![0, 0, 1, 1]).unwrap();
    let err = verify_witness(&comm, &assoc, &left_projection).unwrap_err();
    assert!(err.contains("violates the hypothesis"), "{err}");
    let xor = Magma::new(2, vec![0, 1, 1, 0]).unwrap();
    let err = verify_witness(&comm, &assoc, &xor).unwrap_err();
    assert!(err.contains("satisfies the conclusion"), "{err}");
}

#[test]
fn trivial_magma_satisfies_everything() {
    let m = Magma::new(1, vec![0]).unwrap();
    for s in ["x = y", "x = y ◇ (z ◇ x)", "x ◇ y = y ◇ x"] {
        assert!(satisfies(&m, &parse_law(s).unwrap()));
    }
}

#[test]
fn violations_are_reported_in_counter_order() {
    let comm = parse_law("x ◇ y = y ◇ x").unwrap();
    let assoc = parse_law("x ◇ (y ◇ z) = (x ◇ y) ◇ z").unwrap();
    let left_projection = Magma::new(2, vec![0, 0, 1, 1]).unwrap();
    // The first variable turns fastest: (1, 0) comes before (0, 1).
    assert_eq!(find_violation(&comm, &left_projection), Some(vec![1, 0]));
    let nor = Magma::new(2, vec![1, 0, 0, 0]).unwrap();
    assert_eq!(find_violation(&assoc, &nor), Some(vec![1, 0, 0]));
    assert_eq!(find_violation(&comm, &nor), None);
    let err = verify_witness(&comm, &assoc, &left_projection).unwrap_err();
    assert_eq!(err, "witness violates the hypothesis x ◇ y = y ◇ x at [1, 0]");
    let xor = Magma::new(2, vec![0, 1, 1, 0]).unwrap();
    let err = verify_witness(&comm, &assoc, &xor).unwrap_err();
    assert_eq!(err, "witness satisfies the conclusion x ◇ (y ◇ z) = (x ◇ y) ◇ z");
}
