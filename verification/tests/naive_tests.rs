use magmahunt::law::parse_law;
use magmahunt::naive::{count_models, find_counterexample, for_each_table, refute, table_count};

#[test]
fn enumerates_every_table_exactly_once() {
    let mut seen = std::collections::HashSet::new();
    let visited = for_each_table(2, u64::MAX, &mut |t| {
        assert!(seen.insert(t.to_vec()));
        true
    });
    assert_eq!((visited, seen.len() as u64), (16, 16));
    assert_eq!(table_count(3), 19683);
    assert_eq!(table_count(10), u64::MAX);
}

#[test]
fn respects_the_limit_and_early_exit() {
    assert_eq!(for_each_table(3, 100, &mut |_| true), 100);
    let mut calls = 0;
    assert_eq!(
        for_each_table(3, u64::MAX, &mut |_| {
            calls += 1;
            calls < 7
        }),
        7
    );
}

#[test]
fn naive_counts_small_cases() {
    assert_eq!(count_models(&parse_law("x ◇ y = y ◇ x").unwrap(), 2), 8);
    assert_eq!(
        count_models(&parse_law("x ◇ (y ◇ z) = (x ◇ y) ◇ z").unwrap(), 2),
        8
    );
    assert_eq!(
        count_models(&parse_law("x = x ◇ x").unwrap(), 3),
        3u64.pow(6)
    );
}

#[test]
fn tables_come_in_odometer_order() {
    let mut order = Vec::new();
    for_each_table(2, 3, &mut |t| {
        order.push(t.to_vec());
        true
    });
    assert_eq!(order, vec![vec![0, 0, 0, 0], vec![1, 0, 0, 0], vec![0, 1, 0, 0]]);
    assert_eq!(for_each_table(0, 5, &mut |_| true), 1);
    assert_eq!(table_count(1), 1);
    assert_eq!(table_count(2), 16);
}

#[test]
fn naive_refutation_finds_the_first_table() {
    let comm = parse_law("x ◇ y = y ◇ x").unwrap();
    let assoc = parse_law("x ◇ (y ◇ z) = (x ◇ y) ◇ z").unwrap();
    let (found, visited) = find_counterexample(&comm, &assoc, 2);
    let m = found.unwrap();
    // The first commutative, non-associative table in odometer order.
    assert_eq!(m.table(), &[1, 0, 0, 0]);
    assert_eq!(visited, 2);
    let (none, visited) = find_counterexample(&comm, &assoc, 1);
    assert!(none.is_none());
    assert_eq!(visited, 1);
    let (w, total) = refute(&comm, &assoc, 3);
    assert_eq!(w.unwrap().size(), 2);
    assert_eq!(total, 3);
}

#[test]
fn labelled_search_counts_match_the_enumeration() {
    for src in [
        "x ◇ y = y ◇ x",
        "x = x ◇ x",
        "x ◇ (y ◇ x) = y",
        "x = (x ◇ y) ◇ x",
    ] {
        let law = parse_law(src).unwrap();
        let compiled = magmahunt::CompiledLaw::new(&law);
        for n in 1..=3 {
            let search = magmahunt::count_models(&compiled, n, magmahunt::Options::no_symmetry()).leaves;
            assert_eq!(search, count_models(&law, n), "{src} at size {n}");
        }
    }
}

#[test]
fn naive_refute_total_adds_up_the_sizes_examined() {
    let h = parse_law("x ◇ y = y ◇ x").unwrap();
    let c = parse_law("x ◇ (y ◇ z) = (x ◇ y) ◇ z").unwrap();
    let (w, total) = refute(&h, &c, 3);
    let w = w.expect("a counterexample");
    let size1 = find_counterexample(&h, &c, 1).1;
    let size2 = find_counterexample(&h, &c, 2).1;
    assert_eq!(w.size(), 2);
    assert_eq!(total, size1 + size2);
    assert_eq!(size1, 1);
}
