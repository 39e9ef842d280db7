use magmahunt::eval::{CompiledLaw, Status, UNKNOWN};
use magmahunt::law::parse_law;
use magmahunt::magma::Magma;
use magmahunt::naive::for_each_table;
use magmahunt::verify::satisfies;

#[test]
fn partial_evaluation_reports_the_first_missing_cell() {
    let law = CompiledLaw::new(&parse_law("(x ◇ y) ◇ z = x ◇ (y ◇ z)").unwrap());
    let n = 2;
    let mut table = vec![UNKNOWN; 4];
    let mut stack = Vec::new();
    // x=1, y=0, z=1: lhs needs cell (1,0) first.
    let assign = [1, 0, 1];
    assert_eq!(
        law.status(n, &table, &assign, &mut stack),
        Status::Blocked(2)
    );
    table[2] = 0; // 1◇0 = 0, lhs now needs (0,1)
    assert_eq!(
        law.status(n, &table, &assign, &mut stack),
        Status::Blocked(1)
    );
    table[1] = 1; // lhs = 1; rhs needs (0,1) = 1 then (1,1)
    assert_eq!(
        law.status(n, &table, &assign, &mut stack),
        Status::Blocked(3)
    );
    table[3] = 0;
    assert_eq!(law.status(n, &table, &assign, &mut stack), Status::Fails);
    table[3] = 1;
    assert_eq!(law.status(n, &table, &assign, &mut stack), Status::Holds);
}

#[test]
fn variable_only_laws_need_no_cells() {
    let law = CompiledLaw::new(&parse_law("x = y").unwrap());
    let table = [UNKNOWN; 9];
    let mut stack = Vec::new();
    assert_eq!(law.status(3, &table, &[2, 2], &mut stack), Status::Holds);
    assert_eq!(law.status(3, &table, &[2, 1], &mut stack), Status::Fails);
}

#[test]
fn holds_in_checks_every_assignment() {
    let comm = CompiledLaw::new(&parse_law("x◇y = y◇x").unwrap());
    // Only cell (2,1) differs from (1,2): a failure at the last assignments.
    let mut table = vec![0, 1, 2, 1, 1, 2, 2, 2, 2];
    assert!(comm.holds_in(3, &table));
    table[7] = 0;
    assert!(!comm.holds_in(3, &table));
    assert_eq!(comm.instance_count(3), 9);
}

#[test]
fn instance_count_saturates() {
    let law = CompiledLaw::new(&parse_law("a◇b◇c◇d◇e◇f◇g = h").unwrap());
    assert_eq!(law.instance_count(3), 6561);
    assert_eq!(law.instance_count(1), 1);
    assert_eq!(law.instance_count(16), 1u64 << 32);
}

#[test]
fn compiled_evaluation_agrees_with_the_brute_force_checker() {
    let laws = ["x ◇ (y ◇ z) = (x ◇ y) ◇ z", "x = x ◇ (y ◇ x)", "x ◇ y = y ◇ x"];
    for s in laws {
        let law = parse_law(s).unwrap();
        let compiled = CompiledLaw::new(&law);
        for_each_table(2, u64::MAX, &mut |t| {
            let m = Magma::new(2, t.to_vec()).unwrap();
            assert_eq!(compiled.holds_in(2, t), satisfies(&m, &law));
            true
        });
    }
}
