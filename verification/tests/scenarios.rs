use magmahunt::cli::parse_args;
use magmahunt::matrix::Matrix;
use magmahunt::{count_models, generate_laws, parse_law, parse_law_list, refute, CompiledLaw, Options};

#[test]
fn refuting_associativity_from_commutativity_prints_a_size_two_table() {
    let h = parse_law("x ◇ y = y ◇ x").unwrap();
    let c = parse_law("x ◇ (y ◇ z) = (x ◇ y) ◇ z").unwrap();
    let r = refute(&h, &c, 5, Options::default()).unwrap();
    let w = r.witness.expect("a counterexample");
    assert_eq!(w.size(), 2);
    assert!(w.to_string().starts_with("◇ | 0 1\n--+----\n0 |"), "{}", w.to_string());
}

#[test]
fn left_projection_has_no_counterexample_to_associativity_up_to_three() {
    let h = parse_law("x*y = x").unwrap();
    let c = parse_law("x*(y*z) = (x*y)*z").unwrap();
    let r = refute(&h, &c, 3, Options::default()).unwrap();
    assert!(r.witness.is_none());
    assert_eq!(r.searched_up_to, 3);
}

#[test]
fn a_malformed_hypothesis_and_a_malformed_size_are_reported() {
    assert!(parse_law("x ◇ = y").is_err());
    let args: Vec<String> = ["x = y", "x = x", "--max-size", "lots"].iter().map(|s| s.to_string()).collect();
    let err = parse_args(&args).err().expect("rejected");
    assert!(err.contains("non-negative integer"), "{err}");
}

#[test]
fn semigroups_of_size_three_counted_both_ways() {
    let assoc = CompiledLaw::new(&parse_law("x◇(y◇z) = (x◇y)◇z").unwrap());
    assert_eq!(count_models(&assoc, 3, Options::no_symmetry()).leaves, 113);
    assert_eq!(count_models(&assoc, 3, Options::default()).leaves, 24);
}

#[test]
fn matrix_of_three_laws_as_csv_and_witness_list() {
    let laws = parse_law_list("# test laws\nx ◇ y = y ◇ x\nx ◇ (y ◇ z) = (x ◇ y) ◇ z\nx ◇ y = x\n").unwrap();
    assert_eq!(laws.len(), 3);
    let matrix = Matrix::build(laws, 3, Options::default());
    assert_eq!(matrix.verify(), Ok(matrix.count(|c| matches!(c, magmahunt::matrix::Cell::Refuted(_)))));
    let csv = matrix.to_csv();
    let rows: Vec<&str> = csv.lines().collect();
    assert_eq!(rows.len(), 4);
    assert!(rows[1].starts_with("\"x ◇ y = y ◇ x\",implied,w"), "{csv}");
    assert!(rows[3].ends_with(",open,implied"), "{csv}");
    assert!(matrix.witnesses_text().starts_with("w0: size 2"), "{}", matrix.witnesses_text());
}

#[test]
fn the_first_three_generated_laws() {
    let text: Vec<String> = generate_laws(2).iter().take(3).map(|l| l.to_string()).collect();
    assert_eq!(text, ["x = x", "x = y", "x = x ◇ x"]);
}
