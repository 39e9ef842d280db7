use magmahunt::magma::Magma;

#[test]
fn validates_shape_and_entries() {
    assert!(Magma::new(2, vec![0, 1, 1, 0]).is_ok());
    assert!(Magma::new(2, vec![0, 1, 1]).is_err());
    assert!(Magma::new(2, vec![0, 1, 2, 0]).is_err());
    assert!(Magma::new(0, vec![]).is_err());
}

#[test]
fn renders_table_and_compact_form() {
    let m = Magma::new(2, vec![1, 0, 0, 0]).unwrap();
    assert_eq!(m.to_string(), "◇ | 0 1\n--+----\n0 | 1 0\n1 | 0 0\n");
    assert_eq!(m.compact(), "1 0|0 0");
    assert_eq!(m.op(0, 0), 1);
}

#[test]
fn construction_errors_name_the_problem() {
    assert_eq!(
        Magma::new(0, vec![]).unwrap_err(),
        "a magma needs at least one element"
    );
    assert_eq!(
        Magma::new(2, vec![0, 1, 1]).unwrap_err(),
        "expected 4 table entries for size 2, got 3"
    );
    assert_eq!(
        Magma::new(2, vec![0, 1, 2, 3]).unwrap_err(),
        "table entry 2 is not an element of a size-2 magma"
    );
}

#[test]
fn wide_labels_are_padded() {
    let n = 11;
    let table: Vec<u8> = (0..n * n).map(|i| (i % n) as u8).collect();
    let m = Magma::new(n, table.clone()).unwrap();
    let text = m.to_string();
    let lines: Vec<&str> = text.lines().collect();
    assert_eq!(lines.len(), 2 + n);
    assert!(lines[0].starts_with(" ◇ |  0  1"));
    assert_eq!(lines[1], format!("---+{}", "-".repeat(3 * n)));
    assert!(lines[2].starts_with(" 0 |  0  1  2"));
    assert!(lines[12].ends_with(" 9 10"));
    assert_eq!(m.size(), 11);
    assert_eq!(m.table(), &table[..]);
    assert_eq!(m.op(10, 3), 3);
    assert_eq!(m.compact().split('|').count(), 11);
}
