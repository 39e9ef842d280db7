use magmahunt::cli::{expect_positional, options, parse_args, parse_usize, Args};

fn strings(v: &[&str]) -> Vec<String> {
    v.iter().map(|s| s.to_string()).collect()
}

fn parsed(v: &[&str]) -> Args {
    match parse_args(&strings(v)) {
        Ok(a) => a,
        Err(e) => panic!("{v:?} rejected: {e}"),
    }
}

fn rejected(v: &[&str]) -> String {
    match parse_args(&strings(v)) {
        Ok(_) => panic!("{v:?} accepted"),
        Err(e) => e,
    }
}

#[test]
fn reads_numbers_like_str_parse() {
    assert_eq!(parse_usize("0"), Some(0));
    assert_eq!(parse_usize("42"), Some(42));
    assert_eq!(parse_usize("+7"), Some(7));
    assert_eq!(parse_usize("007"), Some(7));
    assert_eq!(parse_usize(""), None);
    assert_eq!(parse_usize("+"), None);
    assert_eq!(parse_usize("-1"), None);
    assert_eq!(parse_usize("++1"), None);
    assert_eq!(parse_usize("1 "), None);
    assert_eq!(parse_usize("lots"), None);
    assert_eq!(parse_usize(&usize::MAX.to_string()), Some(usize::MAX));
    assert_eq!(parse_usize(&format!("{}0", usize::MAX)), None);
    for s in ["0", "19", "+3", "x", "", "99999999999999999999999"] {
        assert_eq!(parse_usize(s), s.parse::<usize>().ok(), "{s:?}");
    }
}

#[test]
fn empty_command_line_has_the_defaults() {
    let a = parsed(&[]);
    assert!(a.positional.is_empty());
    assert_eq!(a.max_size, None);
    assert_eq!(a.size, None);
    assert_eq!(a.max_ops, None);
    assert_eq!(a.limit, None);
    assert_eq!(a.out_dir, None);
    assert!(a.symmetry);
}

#[test]
fn options_and_positionals_mix_in_any_order() {
    let a = parsed(&[
        "x = x",
        "--max-size",
        "5",
        "--no-symmetry",
        "y = y",
        "--out-dir",
        "out",
        "--size",
        "3",
        "--max-ops",
        "2",
        "--limit",
        "10",
    ]);
    assert_eq!(a.positional, strings(&["x = x", "y = y"]));
    assert_eq!(a.max_size, Some(5));
    assert_eq!(a.size, Some(3));
    assert_eq!(a.max_ops, Some(2));
    assert_eq!(a.limit, Some(10));
    assert_eq!(a.out_dir.as_deref(), Some("out"));
    assert!(!a.symmetry);
}

#[test]
fn a_repeated_option_keeps_its_last_value() {
    let a = parsed(&["--max-size", "2", "--max-size", "6"]);
    assert_eq!(a.max_size, Some(6));
}

#[test]
fn a_single_dash_is_a_positional_argument() {
    let a = parsed(&["-", "-x"]);
    assert_eq!(a.positional, strings(&["-", "-x"]));
}

#[test]
fn malformed_command_lines_are_rejected_with_a_message() {
    assert_eq!(rejected(&["--max-size"]), "--max-size needs a value");
    assert_eq!(
        rejected(&["--max-size", "lots"]),
        "--max-size expects a non-negative integer, got 'lots'"
    );
    assert_eq!(
        rejected(&["--size", "-3"]),
        "--size expects a non-negative integer, got '-3'"
    );
    assert_eq!(rejected(&["--limit"]), "--limit needs a value");
    assert_eq!(rejected(&["--max-ops", ""]), "--max-ops expects a non-negative integer, got ''");
    assert_eq!(rejected(&["--out-dir"]), "--out-dir needs a value");
    assert_eq!(rejected(&["x", "--frobnicate"]), "unknown option --frobnicate");
    assert_eq!(rejected(&["--"]), "unknown option --");
}

#[test]
fn the_first_error_is_reported() {
    assert_eq!(
        rejected(&["--bogus", "--max-size", "x"]),
        "unknown option --bogus"
    );
    assert_eq!(
        rejected(&["--max-size", "x", "--bogus"]),
        "--max-size expects a non-negative integer, got 'x'"
    );
}

#[test]
fn an_option_value_is_taken_verbatim() {
    let a = parsed(&["--out-dir", "--no-symmetry"]);
    assert_eq!(a.out_dir.as_deref(), Some("--no-symmetry"));
    assert!(a.symmetry);
}

#[test]
fn positional_count_is_checked() {
    let a = parsed(&["x = x"]);
    assert_eq!(expect_positional(&a, 1, "one law"), Ok(()));
    assert_eq!(
        expect_positional(&a, 2, "a hypothesis and a conclusion"),
        Err("expected a hypothesis and a conclusion".to_string())
    );
    assert_eq!(
        expect_positional(&a, 0, "no positional arguments"),
        Err("expected no positional arguments".to_string())
    );
}

#[test]
fn search_options_follow_the_symmetry_flag() {
    let on = options(&parsed(&[]));
    assert!(on.symmetry);
    assert!(on.most_constrained);
    let off = options(&parsed(&["--no-symmetry"]));
    assert!(!off.symmetry);
    assert!(off.most_constrained);
}
