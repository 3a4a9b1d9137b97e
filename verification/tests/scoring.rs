use std::collections::HashMap;

use rust_lotto_analyzer::logic::{
    check_picks_against_history, contains_before, contains_number, count_matches,
    count_number_frequency, frequency_table, is_exact, score_pick, win_stats, MatchResult,
};
use rust_lotto_analyzer::models::{Draw, DrawDate};

fn draw(id: i64, numbers: &[u8]) -> Draw {
    Draw {
        id,
        game: String::from("GRAND_LOTTO_6-55"),
        draw_date: DrawDate { year: 2020, month: 1, day: 1 },
        numbers: numbers.to_vec(),
    }
}

fn result(best_match: usize) -> MatchResult {
    MatchResult { pick: vec![], best_match, exact_match: false }
}

#[test]
fn frequency_counts_draws_per_number() {
    let draws = vec![draw(1, &[1, 2, 3]), draw(2, &[2, 3, 4])];
    let freq = count_number_frequency(&draws);
    let expected: HashMap<u8, usize> = HashMap::from([(1, 1), (2, 2), (3, 2), (4, 1)]);
    assert_eq!(freq, expected);
}

#[test]
fn frequency_has_no_entry_for_absent_numbers() {
    let draws = vec![draw(1, &[1, 2, 3]), draw(2, &[2, 3, 4])];
    let freq = count_number_frequency(&draws);
    assert_eq!(freq.get(&5), None);
    assert_eq!(freq.get(&0), None);
    assert_eq!(freq.len(), 4);
}

#[test]
fn frequency_counts_a_draw_once_per_number() {
    let draws = vec![draw(1, &[7, 7, 7, 8]), draw(2, &[7])];
    let freq = count_number_frequency(&draws);
    let expected: HashMap<u8, usize> = HashMap::from([(7, 2), (8, 1)]);
    assert_eq!(freq, expected);
}

#[test]
fn frequency_of_no_draws_is_empty() {
    assert!(count_number_frequency(&[]).is_empty());
    assert!(count_number_frequency(&[draw(1, &[])]).is_empty());
}

#[test]
fn frequency_is_agnostic_to_range() {
    let draws = vec![draw(1, &[0, 200, 255])];
    let freq = count_number_frequency(&draws);
    let expected: HashMap<u8, usize> = HashMap::from([(0, 1), (200, 1), (255, 1)]);
    assert_eq!(freq, expected);
}

#[test]
fn frequency_table_fills_absent_numbers_with_zero() {
    let draws = vec![draw(1, &[1, 2, 3]), draw(2, &[2, 3, 4]), draw(3, &[55, 56])];
    let freq = count_number_frequency(&draws);
    let table = frequency_table(&freq, 1, 55);
    assert_eq!(table.len(), 55);
    assert_eq!(&table[..5], &[1, 2, 2, 1, 0]);
    assert_eq!(table[54], 1);
    assert_eq!(table.iter().sum::<usize>(), 7);
    assert_eq!(frequency_table(&freq, 3, 3), vec![2]);
    assert_eq!(frequency_table(&freq, 4, 3), Vec::<usize>::new());
    assert_eq!(frequency_table(&freq, 0, 255).len(), 256);
}

#[test]
fn score_reports_full_match() {
    let draws = vec![draw(1, &[1, 2, 3, 4, 5, 6])];
    let results = check_picks_against_history(&[vec![1, 2, 3, 4, 5, 6]], &draws);
    assert_eq!(results.len(), 1);
    assert_eq!(results[0].pick, vec![1, 2, 3, 4, 5, 6]);
    assert_eq!(results[0].best_match, 6);
    assert!(results[0].exact_match);
}

#[test]
fn score_reports_partial_match() {
    let draws = vec![draw(1, &[1, 2, 3, 4, 5, 6])];
    let results = check_picks_against_history(&[vec![1, 2, 3, 4, 5, 7]], &draws);
    assert_eq!(results[0].best_match, 5);
    assert!(!results[0].exact_match);
}

#[test]
fn score_takes_the_best_draw() {
    let draws = vec![
        draw(1, &[10, 20, 30, 40, 50, 55]),
        draw(2, &[1, 2, 3, 40, 50, 55]),
        draw(3, &[1, 2, 3, 4, 50, 55]),
        draw(4, &[9, 8, 7, 6, 5, 4]),
    ];
    let result = score_pick(&[1, 2, 3, 4, 5, 6], &draws);
    assert_eq!(result, MatchResult { pick: vec![1, 2, 3, 4, 5, 6], best_match: 4, exact_match: false });
}

#[test]
fn score_ignores_order_for_exact_match() {
    let draws = vec![draw(1, &[7, 8, 9]), draw(2, &[6, 5, 4, 3, 2, 1])];
    let result = score_pick(&[1, 2, 3, 4, 5, 6], &draws);
    assert_eq!(result.best_match, 6);
    assert!(result.exact_match);
}

#[test]
fn score_needs_equal_length_for_exact_match() {
    let draws = vec![draw(1, &[1, 2, 3, 4, 5, 6, 7])];
    let result = score_pick(&[1, 2, 3, 4, 5, 6], &draws);
    assert_eq!(result.best_match, 6);
    assert!(!result.exact_match);
}

#[test]
fn score_against_empty_history() {
    let results = check_picks_against_history(&[vec![1, 2, 3], vec![]], &[]);
    assert_eq!(results.len(), 2);
    assert_eq!(results[0], MatchResult { pick: vec![1, 2, 3], best_match: 0, exact_match: false });
    assert_eq!(results[1], MatchResult { pick: vec![], best_match: 0, exact_match: false });
}

#[test]
fn score_of_no_picks_is_empty() {
    let draws = vec![draw(1, &[1, 2, 3, 4, 5, 6])];
    assert!(check_picks_against_history(&[], &draws).is_empty());
}

#[test]
fn score_keeps_the_order_of_the_picks() {
    let draws = vec![draw(1, &[1, 2, 3, 4, 5, 6])];
    let picks = vec![vec![1, 2, 3, 4, 5, 6], vec![1, 2, 3, 4, 5, 7], vec![11, 12, 13, 14, 15, 16]];
    let results = check_picks_against_history(&picks, &draws);
    let best: Vec<usize> = results.iter().map(|r| r.best_match).collect();
    assert_eq!(best, vec![6, 5, 0]);
    let exact: Vec<bool> = results.iter().map(|r| r.exact_match).collect();
    assert_eq!(exact, vec![true, false, false]);
    for (result, pick) in results.iter().zip(picks.iter()) {
        assert_eq!(&result.pick, pick);
    }
}

#[test]
fn count_matches_counts_pick_positions() {
    assert_eq!(count_matches(&[1, 2, 3], &[3, 2, 9]), 2);
    assert_eq!(count_matches(&[1, 1, 1], &[1]), 3);
    assert_eq!(count_matches(&[], &[1]), 0);
    assert_eq!(count_matches(&[1], &[]), 0);
}

#[test]
fn contains_looks_at_the_given_stretch() {
    assert!(contains_number(&[4, 5, 6], 6));
    assert!(!contains_number(&[4, 5, 6], 7));
    assert!(!contains_before(&[4, 5, 6], 2, 6));
    assert!(contains_before(&[4, 5, 6], 3, 6));
    assert!(!contains_before(&[4, 5, 6], 0, 4));
}

#[test]
fn is_exact_compares_as_sets_of_equal_length() {
    assert!(is_exact(&[1, 2, 3], &[3, 1, 2]));
    assert!(!is_exact(&[1, 2, 3], &[1, 2, 4]));
    assert!(!is_exact(&[1, 2], &[1, 2, 3]));
    assert!(is_exact(&[], &[]));
}

#[test]
fn win_stats_count_three_to_six() {
    let results: Vec<MatchResult> = [6, 6, 3, 2, 7, 0, 5, 3, 3].iter().map(|b| result(*b)).collect();
    let stats = win_stats(&results);
    let expected: HashMap<usize, usize> = HashMap::from([(6, 2), (5, 1), (4, 0), (3, 3)]);
    assert_eq!(stats, expected);
}

#[test]
fn win_stats_of_no_results_are_zero() {
    let stats = win_stats(&[]);
    let expected: HashMap<usize, usize> = HashMap::from([(6, 0), (5, 0), (4, 0), (3, 0)]);
    assert_eq!(stats, expected);
}
