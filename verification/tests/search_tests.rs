use magmahunt::eval::CompiledLaw;
use magmahunt::law::parse_law;
use magmahunt::search::{check_size, count_models, Flow, Options, Search};

fn compiled(s: &str) -> CompiledLaw {
    CompiledLaw::new(&parse_law(s).unwrap())
}

#[test]
fn every_labelled_magma_is_visited_once_without_symmetry() {
    let law = compiled("x = x");
    let mut seen = std::collections::HashSet::new();
    let mut search = Search::new(&law, 2, Options::no_symmetry());
    search.run(&mut |t: &[u8]| {
        assert!(seen.insert(t.to_vec()), "duplicate table {t:?}");
        Flow::Continue
    });
    assert_eq!(seen.len(), 16);
}

#[test]
fn row_major_and_most_constrained_orders_agree() {
    let law = compiled("x ◇ (y ◇ x) = y");
    for symmetry in [false, true] {
        let a = count_models(
            &law,
            3,
            Options {
                symmetry,
                most_constrained: true,
            },
        );
        let b = count_models(
            &law,
            3,
            Options {
                symmetry,
                most_constrained: false,
            },
        );
        assert_eq!(a.leaves, b.leaves);
    }
}

#[test]
fn stop_ends_the_search_immediately() {
    let law = compiled("x = x");
    let mut calls = 0;
    let mut search = Search::new(&law, 3, Options::default());
    let flow = search.run(&mut |_: &[u8]| {
        calls += 1;
        if calls == 5 {
            Flow::Stop
        } else {
            Flow::Continue
        }
    });
    assert_eq!(flow, Flow::Stop);
    assert_eq!(calls, 5);
}

#[test]
fn contradictory_laws_have_no_models_beyond_size_one() {
    let law = compiled("x = y");
    assert_eq!(count_models(&law, 1, Options::default()).leaves, 1);
    let stats = count_models(&law, 3, Options::default());
    assert_eq!((stats.leaves, stats.nodes), (0, 0));
}

#[test]
fn rejects_oversized_problems() {
    let law = compiled("a◇b◇c◇d◇e◇f◇g = h");
    assert!(check_size(&law, 7).is_err());
    assert!(check_size(&law, 3).is_ok());
    assert!(check_size(&law, 0).is_err());
}

#[test]
fn size_errors_explain_the_limit() {
    let law = compiled("a◇b◇c◇d◇e◇f◇g = h");
    assert_eq!(check_size(&law, 0).unwrap_err(), "size 0 is out of range (1..=16)");
    assert_eq!(check_size(&law, 17).unwrap_err(), "size 17 is out of range (1..=16)");
    assert_eq!(
        check_size(&law, 7).unwrap_err(),
        "a law with 8 variables has 5764801 ground instances at size 7; the limit is 4194304"
    );
}

#[test]
fn next_model_walks_and_rewind_restarts() {
    let law = compiled("x ◇ y = x");
    let mut search = Search::new(&law, 3, Options::no_symmetry());
    assert_eq!(search.next_model(), Some(vec![0, 0, 0, 1, 1, 1, 2, 2, 2]));
    assert_eq!(search.next_model(), None);
    assert_eq!(search.next_model(), None);
    search.rewind();
    assert_eq!(search.next_model(), Some(vec![0, 0, 0, 1, 1, 1, 2, 2, 2]));
    assert!(search.stats().leaves >= 2);
}

#[test]
fn run_reports_every_model_and_continue() {
    let law = compiled("x ◇ y = y ◇ x");
    let mut models = 0;
    let mut search = Search::new(&law, 2, Options::no_symmetry());
    let flow = search.run(&mut |_: &[u8]| {
        models += 1;
        Flow::Continue
    });
    assert_eq!(flow, Flow::Continue);
    assert_eq!(models, 8);
    assert_eq!(search.stats().leaves, 8);
}

#[test]
fn idempotent_magmas_of_size_three_up_to_isomorphism() {
    // Idempotent labelled magmas of size 3: 3^6 tables.
    let law = compiled("x = x ◇ x");
    assert_eq!(count_models(&law, 3, Options::no_symmetry()).leaves, 729);
}

#[test]
fn run_hands_each_model_to_visit_and_stops_when_asked() {
    let law = magmahunt::CompiledLaw::new(&magmahunt::parse_law("x = x").unwrap());
    let mut s = magmahunt::Search::new(&law, 3, magmahunt::Options::default());
    let mut calls = 0;
    let flow = s.run(&mut |_t: &[u8]| {
        calls += 1;
        if calls == 5 { magmahunt::Flow::Stop } else { magmahunt::Flow::Continue }
    });
    assert_eq!(flow, magmahunt::Flow::Stop);
    assert_eq!(calls, 5);
    assert_eq!(s.stats.leaves, 5);
}

#[test]
fn a_law_refuted_on_the_empty_table_tries_nothing() {
    let law = magmahunt::CompiledLaw::new(&magmahunt::parse_law("x = y").unwrap());
    let stats = magmahunt::count_models(&law, 3, magmahunt::Options::default());
    assert_eq!((stats.leaves, stats.nodes), (0, 0));
    let mut s = magmahunt::Search::new(&law, 2, magmahunt::Options::no_symmetry());
    let mut calls = 0;
    assert_eq!(s.run(&mut |_t: &[u8]| { calls += 1; magmahunt::Flow::Continue }), magmahunt::Flow::Continue);
    assert_eq!((calls, s.stats.nodes), (0, 0));
}
