use ayto::model::AytoError;
use ayto::season::Season;
use ayto::worldview::{checked_factorial, generate};

fn universe(n: usize) -> Vec<Vec<usize>> {
    let all = checked_factorial(n).unwrap();
    (0..all).map(|k| generate(n, k)).collect()
}

fn small<'a>(view: &'a Vec<Vec<usize>>) -> Season<'a> {
    Season::new(&vec!["A", "B", "C"], &vec!["x", "y", "z"], view).unwrap()
}

fn names(v: &[(&str, &str)]) -> Vec<(String, String)> {
    v.iter().map(|(a, b)| (a.to_string(), b.to_string())).collect()
}

#[test]
fn generate_known_ranks() {
    assert_eq!(generate(3, 0), vec![0, 1, 2]);
    assert_eq!(generate(3, 1), vec![1, 0, 2]);
    assert_eq!(generate(3, 5), vec![2, 1, 0]);
    assert_eq!(generate(0, 0), Vec::<usize>::new());
}

#[test]
fn generate_gives_distinct_bijections() {
    for n in 0..6 {
        let view = universe(n);
        assert_eq!(view.len(), checked_factorial(n).unwrap());
        for (i, p) in view.iter().enumerate() {
            let mut seen = vec![false; n];
            for &x in p {
                assert!(x < n);
                assert!(!seen[x]);
                seen[x] = true;
            }
            for q in view.iter().skip(i + 1) {
                assert_ne!(p, q);
            }
        }
    }
}

#[test]
fn factorial_values() {
    assert_eq!(checked_factorial(0), Some(1));
    assert_eq!(checked_factorial(5), Some(120));
    assert_eq!(checked_factorial(20), Some(2432902008176640000));
    assert_eq!(checked_factorial(21), None);
}

#[test]
fn new_rejects_mismatched_sizes() {
    let view = universe(3);
    let r = Season::new(&vec!["A", "B", "C"], &vec!["x", "y"], &view);
    assert!(matches!(r, Err(AytoError::SizeMismatch)));
}

#[test]
fn new_rejects_wrong_table() {
    let view = universe(2);
    let r = Season::new(&vec!["A", "B", "C"], &vec!["x", "y", "z"], &view);
    assert!(matches!(r, Err(AytoError::StructuralFailure)));
}

#[test]
fn fresh_season_is_uniform() {
    let view = universe(3);
    let s = small(&view);
    assert_eq!(s.num_worlds(), 6);
    assert_eq!(s.size(), 3);
    assert_eq!(s.turn(), 1);
    assert_eq!(s.total(), 6);
    for m in 0..3 {
        for f in 0..3 {
            assert_eq!(s.count(m, f), 2);
        }
    }
    assert!(s.known_couples().is_empty());
}

#[test]
fn ceremony_with_one_beam_keeps_single_fixed_points() {
    let view = universe(3);
    let mut s = small(&view);
    s.apply_ceremony(vec![("A", "x"), ("B", "y"), ("C", "z")], 1, true).unwrap();
    // Enumeration: the arrangements of three that agree with the identity on
    // exactly one position are the three transpositions.
    assert_eq!(s.num_worlds(), 3);
    assert_eq!(s.worlds(), vec![vec![1, 0, 2], vec![0, 2, 1], vec![2, 1, 0]]);
    assert_eq!(s.total(), 3);
    for m in 0..3 {
        for f in 0..3 {
            assert_eq!(s.count(m, f), 1);
        }
    }
    assert_eq!(s.found(), 0);
}

#[test]
fn refuted_truth_removes_its_couple() {
    let view = universe(3);
    let mut s = small(&view);
    s.apply_ceremony(vec![("A", "x"), ("B", "y"), ("C", "z")], 1, true).unwrap();
    s.apply_truth(("A", "x"), false, true).unwrap();
    assert_eq!(s.num_worlds(), 2);
    for w in s.worlds() {
        assert_ne!(w[0], 0);
    }
    assert!(!s.find_best_truth(None).unwrap().is_empty());
}

#[test]
fn contradiction_gives_empty_recommendations() {
    let view = universe(3);
    let mut s = small(&view);
    s.apply_ceremony(vec![("A", "x"), ("B", "y"), ("C", "z")], 1, true).unwrap();
    s.apply_truth(("A", "x"), false, true).unwrap();
    s.apply_truth(("A", "y"), false, true).unwrap();
    s.apply_truth(("A", "z"), false, true).unwrap();
    assert_eq!(s.num_worlds(), 0);
    for m in 0..3 {
        for f in 0..3 {
            assert_eq!(s.count(m, f), 0);
        }
    }
    assert_eq!(s.found(), 0);
    assert!(s.find_best_truth(None).unwrap().is_empty());
    assert_eq!(s.find_best_truth_impl(None), (vec![], usize::MAX));
    assert!(s.find_best_ceremony(false).unwrap().is_empty());
    assert!(s.find_best_ceremony(true).unwrap().is_empty());
    assert_eq!(s.find_best_ceremony_impl(false), (vec![], usize::MAX));
    assert_eq!(s.find_best_ceremony_impl(true), (vec![], usize::MAX));
}

#[test]
fn observations_never_grow_and_keep_the_truth() {
    let view = universe(4);
    let mut s = Season::new(&vec!["A", "B", "C", "D"], &vec!["w", "x", "y", "z"], &view).unwrap();
    let truth = vec![2usize, 0, 3, 1];
    let cols = ["w", "x", "y", "z"];
    let rows = ["A", "B", "C", "D"];
    let mut last = s.num_worlds();
    s.apply_ceremony(
        vec![("A", "w"), ("B", "x"), ("C", "y"), ("D", "z")],
        0,
        true,
    )
    .unwrap();
    assert!(s.num_worlds() <= last);
    last = s.num_worlds();
    for m in 0..4 {
        for f in 0..4 {
            s.apply_truth((rows[m], cols[f]), truth[m] == f, true).unwrap();
            assert!(s.num_worlds() <= last);
            assert!(s.num_worlds() > 0);
            assert!(s.worlds().contains(&truth));
            last = s.num_worlds();
        }
    }
    assert_eq!(s.worlds(), vec![truth]);
    assert_eq!(s.found(), 4);
}

#[test]
fn recalculate_is_idempotent() {
    let view = universe(4);
    let mut s = Season::new(&vec!["A", "B", "C", "D"], &vec!["w", "x", "y", "z"], &view).unwrap();
    s.apply_truth(("B", "y"), true, false).unwrap();
    s.recalculate();
    let first: Vec<usize> = (0..4).flat_map(|m| (0..4).map(move |f| (m, f))).map(|(m, f)| s.count(m, f)).collect();
    let found = s.found();
    s.recalculate();
    let second: Vec<usize> = (0..4).flat_map(|m| (0..4).map(move |f| (m, f))).map(|(m, f)| s.count(m, f)).collect();
    assert_eq!(first, second);
    assert_eq!(found, s.found());
    assert_eq!(s.total(), 6);
}

#[test]
fn rows_sum_to_pool() {
    let view = universe(4);
    let mut s = Season::new(&vec!["A", "B", "C", "D"], &vec!["w", "x", "y", "z"], &view).unwrap();
    s.apply_ceremony(vec![("A", "x"), ("B", "w"), ("C", "z"), ("D", "y")], 2, true).unwrap();
    assert!(s.num_worlds() > 0);
    for m in 0..4 {
        let sum: usize = (0..4).map(|f| s.count(m, f)).sum();
        assert_eq!(sum, s.total());
    }
    for f in 0..4 {
        let sum: usize = (0..4).map(|m| s.count(m, f)).sum();
        assert_eq!(sum, s.total());
    }
}

#[test]
fn new_rejects_table_with_repeats() {
    let mut view = universe(3);
    view[2] = vec![0, 0, 1];
    let r = Season::new(&vec!["A", "B", "C"], &vec!["x", "y", "z"], &view);
    assert!(matches!(r, Err(AytoError::StructuralFailure)));
}

#[test]
fn determined_couple_is_not_recommended() {
    let view = universe(3);
    let mut s = small(&view);
    s.apply_truth(("A", "x"), true, true).unwrap();
    assert_eq!(s.known_couples(), names(&[("A", "x")]));
    assert_eq!(s.found(), 1);
    assert_eq!(s.couple_score_of((0, 0)), 0);
    assert_eq!(s.couple_score_of((1, 1)), 1);
    let (best, score) = s.find_best_truth_impl(None);
    assert_eq!(score, 1);
    assert_eq!(best, vec![(1, 1), (1, 2), (2, 1), (2, 2)]);
    assert!(!best.contains(&(0, 0)));
    assert_eq!(
        s.find_best_truth(None).unwrap(),
        names(&[("B", "y"), ("B", "z"), ("C", "y"), ("C", "z")])
    );
}

#[test]
fn truth_recommendation_with_constraint() {
    let view = universe(3);
    let mut s = small(&view);
    s.apply_truth(("A", "x"), true, true).unwrap();
    let only = vec![("A", "x"), ("B", "z")];
    assert_eq!(s.find_best_truth(Some(&only)).unwrap(), names(&[("B", "z")]));
    let bad = vec![("A", "q")];
    assert_eq!(s.find_best_truth(Some(&bad)), Err(AytoError::UnknownIdentity));
}

#[test]
fn heuristic_ceremony_scores_expected_beams() {
    let view = universe(3);
    let s = small(&view);
    for k in 0..6 {
        assert_eq!(s.ceremony_score_of(k, true), 100);
    }
    let (best, score) = s.find_best_ceremony_impl(true);
    assert_eq!(score, 100);
    assert_eq!(best.len(), 6);
    assert!(score <= 100 * (0 + 1 + 2 + 3));
    assert_eq!(best[0], vec![(0, 0), (1, 1), (2, 2)]);
}

#[test]
fn minimax_ceremony_scores() {
    let view = universe(3);
    let s = small(&view);
    let (best, score) = s.find_best_ceremony_impl(false);
    assert_eq!(score, 2);
    assert_eq!(best.len(), 6);
    let named = s.find_best_ceremony(false).unwrap();
    assert_eq!(named[0], names(&[("A", "x"), ("B", "y"), ("C", "z")]));
}

#[test]
fn minimax_score_falls_as_pool_narrows() {
    let view = universe(4);
    let mut s = Season::new(&vec!["A", "B", "C", "D"], &vec!["w", "x", "y", "z"], &view).unwrap();
    let rows = ["A", "B", "C", "D"];
    let cols = ["w", "x", "y", "z"];
    let truth = [1usize, 3, 0, 2];
    let mut last = s.find_best_ceremony_impl(false).1;
    for m in 0..3 {
        s.apply_truth((rows[m], cols[truth[m]]), true, true).unwrap();
        let now = s.find_best_ceremony_impl(false).1;
        assert!(now <= last || now == usize::MAX);
        last = now;
    }
    assert_eq!(s.num_worlds(), 1);
    assert_eq!(s.find_best_ceremony_impl(false), (vec![], usize::MAX));
    assert_eq!(s.find_best_truth_impl(None), (vec![], usize::MAX));
}

#[test]
fn unknown_names_leave_state_unchanged() {
    let view = universe(3);
    let mut s = small(&view);
    assert_eq!(s.apply_truth(("Q", "x"), true, true), Err(AytoError::UnknownIdentity));
    assert_eq!(s.apply_truth(("A", "q"), true, true), Err(AytoError::UnknownIdentity));
    assert_eq!(
        s.apply_ceremony(vec![("A", "x"), ("B", "q")], 1, true),
        Err(AytoError::UnknownIdentity)
    );
    assert_eq!(s.num_worlds(), 6);
    assert_eq!(s.count(0, 0), 2);
}

#[test]
fn deferred_recalculation_keeps_old_matrix() {
    let view = universe(3);
    let mut s = small(&view);
    s.apply_truth(("A", "x"), true, false).unwrap();
    assert_eq!(s.num_worlds(), 2);
    assert_eq!(s.total(), 6);
    assert_eq!(s.count(0, 0), 2);
    s.recalculate();
    assert_eq!(s.total(), 2);
    assert_eq!(s.count(0, 0), 2);
    assert_eq!(s.count(0, 1), 0);
}

#[test]
fn partial_ceremony_places_named_rows() {
    let view = universe(3);
    let mut s = small(&view);
    // Only A is named: rows B and C match nothing, so one beam means A -> x.
    s.apply_ceremony(vec![("A", "x")], 1, true).unwrap();
    assert_eq!(s.num_worlds(), 2);
    assert_eq!(s.known_couples(), names(&[("A", "x")]));
}

#[test]
fn rounds_run_out() {
    let view = universe(3);
    let mut s = small(&view);
    assert_eq!(s.next_turn(), Ok(()));
    assert_eq!(s.next_turn(), Ok(()));
    assert_eq!(s.turn(), 3);
    assert_eq!(s.next_turn(), Err(AytoError::OutOfRounds));
    assert_eq!(s.turn(), 3);
    assert_eq!(s.next_turn(), Err(AytoError::OutOfRounds));
    assert_eq!(s.turn(), 3);
}

#[test]
fn single_world_has_nothing_to_ask() {
    let view = universe(3);
    let mut s = small(&view);
    s.apply_truth(("A", "x"), true, true).unwrap();
    s.apply_truth(("B", "y"), true, true).unwrap();
    assert_eq!(s.num_worlds(), 1);
    assert_eq!(s.find_best_truth_impl(None), (vec![], usize::MAX));
    assert!(s.find_best_truth(None).unwrap().is_empty());
}

#[test]
fn agreement_counts_common_prefix() {
    assert_eq!(ayto::season::mutators::agreement_of(&vec![0, 1, 2], &vec![0, 2, 2]), 2);
    assert_eq!(ayto::season::mutators::agreement_of(&vec![0, 1, 2], &vec![0]), 1);
}

#[test]
fn names_are_kept() {
    let view = universe(3);
    let s = small(&view);
    assert_eq!(s.row_names(), vec!["A".to_string(), "B".to_string(), "C".to_string()]);
    assert_eq!(s.column_names(), vec!["x".to_string(), "y".to_string(), "z".to_string()]);
}

#[test]
fn duplicate_is_independent() {
    let view = universe(3);
    let s = small(&view);
    let mut t = s.duplicate();
    t.apply_truth(("A", "x"), true, true).unwrap();
    assert_eq!(s.num_worlds(), 6);
    assert_eq!(t.num_worlds(), 2);
}

#[test]
fn spread_counts_each_beam() {
    let view = universe(3);
    let s = small(&view);
    let proposal = vec![("A", "x"), ("B", "y"), ("C", "z")];
    assert_eq!(s.spread(&proposal), Ok(vec![2, 3, 0, 1]));
    let bad = vec![("A", "x"), ("B", "q")];
    assert_eq!(s.spread(&bad), Err(AytoError::UnknownIdentity));
}
