use magmahunt::law::{parse_law, Law};
use magmahunt::matrix::{Cell, Matrix, MatrixStats};
use magmahunt::Options;

fn laws(src: &[&str]) -> Vec<Law> {
    src.iter().map(|s| parse_law(s).unwrap()).collect()
}

#[test]
fn small_matrix_cells_csv_and_witnesses() {
    let m = Matrix::build(
        laws(&["x ◇ y = y ◇ x", "x ◇ (y ◇ z) = (x ◇ y) ◇ z", "x ◇ y = x"]),
        3,
        Options::default(),
    );
    assert!(matches!(m.cell(0, 0), Cell::Implied(_)));
    assert!(matches!(m.cell(0, 1), Cell::Refuted(_)));
    assert!(matches!(m.cell(2, 1), Cell::Open));
    assert!(matches!(m.cell(1, 2), Cell::Refuted(_)));
    let refuted = m.count(|c| matches!(c, Cell::Refuted(_)));
    assert_eq!(m.verify().unwrap(), refuted);
    let csv = m.to_csv();
    assert!(csv.starts_with("\"hypothesis \\ conclusion\",\"x ◇ y = y ◇ x\","));
    assert!(csv.contains("\"x ◇ y = x\",w"));
    assert!(csv.ends_with(",open,implied\n"));
    let text = m.witnesses_text();
    assert!(text.starts_with("w0: size 2, satisfies laws"));
    assert_eq!(m.stats.skipped_too_large, 0);
    assert!(m.stats.searches >= 1);
}

#[test]
fn verify_reports_a_bad_witness() {
    let mut m = Matrix::build(
        laws(&["x ◇ y = y ◇ x", "x ◇ (y ◇ z) = (x ◇ y) ◇ z"]),
        2,
        Options::default(),
    );
    assert!(matches!(m.cell(0, 1), Cell::Refuted(0)));
    // Mark the reverse implication as refuted by the same witness: it
    // satisfies associativity too, so the checker must reject it.
    m.cells[1 * 2 + 0] = Cell::Refuted(0);
    let err = m.verify().unwrap_err();
    assert!(err.starts_with("cell (2, 1) witness w0: "), "{err}");
}

#[test]
fn default_stats_are_zero() {
    let s = MatrixStats::default();
    assert_eq!((s.nodes, s.searches, s.skipped_too_large), (0, 0, 0));
}

#[test]
fn witnesses_come_in_size_order_and_each_refutes_a_cell() {
    let laws: Vec<Law> = [
        "x = x",
        "x ◇ y = y ◇ x",
        "x ◇ (y ◇ z) = (x ◇ y) ◇ z",
        "x ◇ y = x",
        "x = x ◇ x",
        "x = y ◇ (x ◇ y)",
    ]
    .iter()
    .map(|s| parse_law(s).unwrap())
    .collect();
    let m = laws.len();
    let matrix = Matrix::build(laws, 3, Options::default());
    for w in matrix.witnesses.windows(2) {
        assert!(w[0].size() <= w[1].size());
    }
    for id in 0..matrix.witnesses.len() {
        assert!((0..m * m).any(|p| matrix.cells[p] == Cell::Refuted(id)), "w{id} unused");
    }
    for a in 0..m {
        for b in 0..m {
            if matrix.cell(a, b) == Cell::Open {
                for w in &matrix.witnesses {
                    let sat = |l: &Law| magmahunt::verify::satisfies(w, l);
                    assert!(!(sat(&matrix.laws[a]) && !sat(&matrix.laws[b])));
                }
            }
        }
    }
}

#[test]
fn stats_count_one_search_per_open_row_and_size() {
    // Row "x = y" implies every law, so it is never searched; row "x = x"
    // keeps its open cell at size 1 (every 1-element magma satisfies x = y)
    // and loses it at size 2.
    let m = Matrix::build(laws(&["x = x", "x = y"]), 2, Options::default());
    assert!(matches!(m.cell(0, 1), Cell::Refuted(0)));
    assert!(matches!(m.cell(1, 0), Cell::Implied(_)));
    assert_eq!(m.stats.searches, 2);
    assert_eq!(m.stats.skipped_too_large, 0);
    assert!(m.stats.nodes >= 5);
}
