use magmahunt::law::{parse_law, Law, Term};
use magmahunt::{refute, Options};

#[test]
fn commutativity_does_not_imply_associativity() {
    let comm = parse_law("x ◇ y = y ◇ x").unwrap();
    let assoc = parse_law("x ◇ (y ◇ z) = (x ◇ y) ◇ z").unwrap();
    let result = refute(&comm, &assoc, 4, Options::default()).unwrap();
    let witness = result.witness.expect("commutativity does not imply associativity");
    assert_eq!(witness.size(), 2);
    assert!(magmahunt::verify::verify_witness(&comm, &assoc, &witness).is_ok());
}

#[test]
fn refute_reports_oversized_searches() {
    // Eight variables exceed the instance limit from size 7 on.
    let big = parse_law("a◇b◇c◇d◇e◇f◇g = h").unwrap();
    let assoc = parse_law("x ◇ (y ◇ z) = (x ◇ y) ◇ z").unwrap();
    let err = refute(&big, &assoc, 8, Options::default()).unwrap_err();
    assert_eq!(
        err,
        "a law with 8 variables has 5764801 ground instances at size 7; the limit is 4194304"
    );
}

#[test]
fn refute_with_zero_sizes_searches_nothing() {
    let comm = parse_law("x ◇ y = y ◇ x").unwrap();
    let r = refute(&comm, &comm, 0, Options::default()).unwrap();
    assert!(r.witness.is_none());
    assert_eq!(r.searched_up_to, 0);
    assert_eq!(r.nodes, 0);
}

#[test]
fn a_law_built_from_terms_can_be_refuted() {
    let h = Law::new(Term::op(Term::Var(0), Term::Var(0)), Term::Var(0));
    let c = Law::new(Term::op(Term::Var(0), Term::Var(1)), Term::op(Term::Var(1), Term::Var(0)));
    let r = refute(&h, &c, 3, Options::no_symmetry()).unwrap();
    let w = r.witness.unwrap();
    assert_eq!(w.size(), 2);
    assert_eq!(r.searched_up_to, 2);
}
