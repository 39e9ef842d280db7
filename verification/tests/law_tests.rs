use magmahunt::law::{generate_laws, parse_law, parse_law_list, Law, Term};

fn v(i: u8) -> Term {
    Term::Var(i)
}

#[test]
fn parses_associativity_with_nested_parentheses() {
    let law = parse_law("x ◇ (y ◇ z) = (x ◇ y) ◇ z").unwrap();
    assert_eq!(law.lhs, Term::op(v(0), Term::op(v(1), v(2))));
    assert_eq!(law.rhs, Term::op(Term::op(v(0), v(1)), v(2)));
    assert_eq!(law.nvars, 3);
}

#[test]
fn redundant_parentheses_do_not_change_the_tree() {
    let a = parse_law("((x)) ◇ (((y ◇ z))) = ((x ◇ y))").unwrap();
    let b = parse_law("x ◇ (y ◇ z) = x ◇ y").unwrap();
    assert_eq!(a, b);
}

#[test]
fn unparenthesised_chains_associate_left() {
    let a = parse_law("x * y * z = x").unwrap();
    let b = parse_law("(x ◇ y) ◇ z = x").unwrap();
    assert_eq!(a, b);
}

#[test]
fn repeated_variables_share_an_index() {
    let law = parse_law("x ◇ x = (x ◇ y) ◇ x").unwrap();
    assert_eq!(law.nvars, 2);
    assert_eq!(law.lhs, Term::op(v(0), v(0)));
    assert_eq!(law.rhs, Term::op(Term::op(v(0), v(1)), v(0)));
}

#[test]
fn bare_variable_on_either_side() {
    let left = parse_law("x = y ◇ (x ◇ z)").unwrap();
    assert_eq!(left.lhs, v(0));
    assert_eq!(left.rhs.ops(), 2);
    let right = parse_law("y ◇ y = y").unwrap();
    assert_eq!(right.rhs, v(0));
    let both = parse_law("x = y").unwrap();
    assert_eq!((both.lhs, both.rhs, both.nvars), (v(0), v(1), 2));
}

#[test]
fn variable_names_are_irrelevant_but_preserved_for_display() {
    let a = parse_law("a*b = b*a").unwrap();
    let b = parse_law("x ◇ y = y ◇ x").unwrap();
    assert_eq!(a, b);
    assert_eq!(a.to_string(), "a ◇ b = b ◇ a");
}

#[test]
fn display_round_trips() {
    for src in [
        "x ◇ (y ◇ z) = (x ◇ y) ◇ z",
        "x = x ◇ x",
        "x = y",
        "((x ◇ y) ◇ z) ◇ w = x ◇ w",
    ] {
        let law = parse_law(src).unwrap();
        assert_eq!(law.to_string(), src);
        assert_eq!(parse_law(&law.to_string()).unwrap(), law);
    }
}

#[test]
fn rejects_malformed_input_with_positions() {
    let cases = [
        ("x ◇ y", "expected '='"),
        ("x ◇ (y = x", "expected ')'"),
        ("= x", "missing a term on its left"),
        ("x = ", "unexpected end of input"),
        ("x = y = z", "trailing input"),
        ("x ◇ ◇ y = x", "missing its left operand"),
        ("x + y = y", "unexpected character '+'"),
        ("x = y)", "trailing input"),
        ("", "unexpected end of input"),
    ];
    for (src, needle) in cases {
        let err = parse_law(src).unwrap_err();
        assert!(err.message.contains(needle), "{src:?}: got {}", err.to_string());
        assert!(err.offset <= src.len());
    }
    assert_eq!(parse_law("x + y = y").unwrap_err().offset, 2);
}

#[test]
fn rejects_too_many_variables() {
    let err = parse_law("a◇b◇c◇d◇e◇f◇g◇h = i").unwrap_err();
    assert!(err.message.contains("distinct variables"));
    assert!(parse_law("a◇b◇c◇d◇e◇f◇g = h").is_ok());
}

#[test]
fn law_list_skips_comments_and_reports_line_numbers() {
    let laws = parse_law_list("# header\nx = x\n\n  x◇y = y◇x  # commutativity\n").unwrap();
    assert_eq!(laws.len(), 2);
    let err = parse_law_list("x = x\nx ◇ = y\n").unwrap_err();
    assert!(err.starts_with("line 2:"), "{err}");
}

#[test]
fn generator_starts_like_the_etp_list() {
    let laws = generate_laws(2);
    let text: Vec<String> = laws.iter().take(9).map(|l| l.to_string()).collect();
    assert_eq!(
        text,
        [
            "x = x",
            "x = y",
            "x = x ◇ x",
            "x = x ◇ y",
            "x = y ◇ x",
            "x = y ◇ y",
            "x = y ◇ z",
            "x = x ◇ (x ◇ x)",
            "x = x ◇ (x ◇ y)",
        ]
    );
    assert!(laws.contains(&parse_law("x ◇ y = y ◇ x").unwrap()));
}

#[test]
fn generator_has_no_duplicates_up_to_renaming_and_swap() {
    let laws = generate_laws(3);
    for (i, a) in laws.iter().enumerate() {
        assert!(i == 0 || !a.is_trivial());
        for b in &laws[..i] {
            assert!(
                *a != *b && a.swapped() != *b,
                "{} duplicates {}",
                a.to_string(),
                b.to_string()
            );
        }
    }
    // 0 ops: 2 laws; 1 op: 5 laws; 2 ops: 30 with a bare side plus the
    // x◇y = z◇w patterns that survive swap/trivial removal.
    assert_eq!(laws.iter().filter(|l| l.ops() == 1).count(), 5);
    assert_eq!(
        laws.iter()
            .filter(|l| l.ops() == 2 && l.lhs.ops() == 0)
            .count(),
        30
    );
}

#[test]
fn parse_error_display_names_the_byte_offset() {
    let err = parse_law("x ◇ y").unwrap_err();
    assert_eq!(err.message, "expected '='");
    // "x ◇ y" is 7 bytes long: the error is at the end of the input.
    assert_eq!(err.offset, 7);
    assert_eq!(err.to_string(), "expected '=' (at byte 7)");
}

#[test]
fn offsets_count_bytes_not_characters() {
    // '◇' takes three bytes, so the '+' sits at byte 8.
    let err = parse_law("x ◇ y + z = x").unwrap_err();
    assert_eq!(err.message, "unexpected character '+'");
    assert_eq!(err.offset, 8);
}

#[test]
fn every_operator_symbol_is_accepted() {
    let a = parse_law("x ∘ y = y · x").unwrap();
    assert_eq!(a, parse_law("x ◇ y = y ◇ x").unwrap());
}

#[test]
fn names_with_primes_and_digits() {
    let law = parse_law("x' ◇ x1 = x1").unwrap();
    assert_eq!(law.nvars, 2);
    assert_eq!(law.names().len(), 2);
    assert_eq!(law.to_string(), "x' ◇ x1 = x1");
}

#[test]
fn law_new_renumbers_by_first_occurrence() {
    let law = Law::new(Term::op(v(5), v(2)), v(5));
    assert_eq!(law.lhs, Term::op(v(0), v(1)));
    assert_eq!(law.rhs, v(0));
    assert_eq!(law.nvars, 2);
    assert_eq!(law.to_string(), "x ◇ y = x");
    let swapped = law.swapped();
    assert_eq!(swapped.lhs, v(0));
    assert_eq!(swapped.rhs, Term::op(v(0), v(1)));
}

#[test]
fn law_list_reports_the_error_text() {
    let err = parse_law_list("x = x\r\n\r\n(x = y\n").unwrap_err();
    assert_eq!(err, "line 3: expected ')' (at byte 3)");
}

#[test]
fn trivial_and_operation_counts() {
    let law = parse_law("x ◇ (y ◇ z) = x ◇ (y ◇ z)").unwrap();
    assert!(law.is_trivial());
    assert_eq!(law.ops(), 4);
    assert!(law.lhs.contains_var(2));
    assert!(!law.lhs.contains_var(3));
}

#[test]
fn generator_counts_for_small_operation_bounds() {
    assert_eq!(generate_laws(0).len(), 2);
    assert_eq!(generate_laws(1).len(), 7);
}

#[test]
fn printed_laws_parse_back_to_themselves() {
    for src in [
        "x ◇ (y ◇ z) = (x ◇ y) ◇ z",
        "((a)) * b' = b' ∘ (a · _c1)",
        "α ◇ β = β ◇ α",
        "x\t◇\ny = y",
    ] {
        let law = parse_law(src).unwrap();
        let again = parse_law(&law.to_string()).unwrap();
        assert_eq!(again, law);
        assert_eq!(again.names(), law.names());
    }
    for law in generate_laws(3).iter().take(200) {
        let again = parse_law(&law.to_string()).unwrap();
        assert_eq!(&again, law);
        assert_eq!(again.to_string(), law.to_string());
    }
}

#[test]
fn white_space_and_names_follow_unicode() {
    // U+3000 (ideographic space) separates tokens; letters beyond ASCII make names.
    let law = parse_law("x\u{3000}◇ ŷ = ŷ").unwrap();
    assert_eq!(law.to_string(), "x ◇ ŷ = ŷ");
    assert!(parse_law("x ◇ y = y\u{0b}").is_ok());
    assert!(parse_law("x ◇ 1 = x").is_err());
}

#[test]
fn white_space_is_exactly_what_char_is_whitespace_says() {
    for code in 0u32..0x11_0000 {
        let Some(c) = char::from_u32(code) else { continue };
        let src = format!("x{c}= x");
        let parsed = parse_law(&src);
        if c.is_whitespace() {
            assert!(parsed.is_ok(), "U+{code:04X} is white space");
        } else if !(c.is_alphanumeric() || "_'()=◇*∘·".contains(c)) {
            assert!(parsed.is_err(), "U+{code:04X} is not white space");
        }
    }
}

#[test]
fn generated_laws_grow_in_operations_and_extend_each_other() {
    let three = generate_laws(3);
    let four = generate_laws(4);
    let mut last = 0;
    for law in &three {
        let (l, r) = (law.lhs.ops(), law.rhs.ops());
        assert!(l + r <= 3 && l <= r, "{}", law.to_string());
        assert!(l + r >= last);
        last = l + r;
    }
    assert!(four.len() >= three.len());
    for (a, b) in three.iter().zip(four.iter()) {
        assert_eq!(a, b);
    }
}

#[test]
fn generated_list_misses_no_small_law() {
    let listed = generate_laws(2);
    for text in [
        "x = x",
        "y = x",
        "y ◇ x = x",
        "x = y ◇ z",
        "z ◇ z = y",
        "x ◇ y = y ◇ x",
        "(y ◇ x) ◇ y = x",
        "w = (x ◇ y) ◇ z",
        "b ◇ a = a ◇ c",
        "x ◇ (x ◇ x) = x",
        "x ◇ y = z ◇ w",
    ] {
        let law = parse_law(text).unwrap();
        let swapped = law.swapped();
        assert!(
            listed.iter().any(|g| *g == law || *g == swapped),
            "{text} is not listed"
        );
    }
    let trivial = parse_law("x ◇ y = x ◇ y").unwrap();
    assert!(!listed.iter().any(|g| *g == trivial));
}
