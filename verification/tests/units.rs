//! Unit tests for the per-day helper functions.
use aoc2022::day02::{score_by_outcome, score_round};
use aoc2022::day03::{find_group_item, find_matching_item, to_priority};
use aoc2022::day06::find_unique;
use aoc2022::day08::Tree;
use aoc2022::day09::MoveInstruction;

#[test]
fn score_round_table() {
    assert_eq!(score_round("A Y"), 8);
    assert_eq!(score_round("B X"), 1);
    assert_eq!(score_round("C Z"), 6);
    assert_eq!(score_round("nonsense"), 0);
}

#[test]
fn score_by_outcome_table() {
    assert_eq!(score_by_outcome("A Y"), 4);
    assert_eq!(score_by_outcome("B X"), 1);
    assert_eq!(score_by_outcome("C Z"), 7);
    assert_eq!(score_by_outcome(""), 0);
}

#[test]
fn priorities_span_both_cases() {
    assert_eq!(to_priority(97), 1); // a
    assert_eq!(to_priority(122), 26); // z
    assert_eq!(to_priority(65), 27); // A
    assert_eq!(to_priority(90), 52); // Z
}

#[test]
fn matching_item_is_first_shared() {
    // priorities of "vJrwpWtwJgWr" against "hcsFMMfFFhFp": p = 16 is shared
    let first: Vec<u8> = vec![22, 36, 18, 23, 16, 49, 20, 23, 36, 7, 49, 18];
    let second: Vec<u8> = vec![8, 3, 19, 32, 39, 39, 6, 32, 32, 8, 32, 16];
    assert_eq!(find_matching_item(&(first, second)), 16);
    assert_eq!(find_matching_item(&(vec![1, 2], vec![3, 4])), 0);
}

#[test]
fn group_item_is_common_to_all_three() {
    let group = [
        (vec![1u8, 2, 18], vec![5u8]),
        (vec![18u8, 7], vec![9u8]),
        (vec![4u8], vec![18u8, 11]),
    ];
    assert_eq!(find_group_item(&group), 18);
}

#[test]
fn find_unique_counts_from_one() {
    assert_eq!(find_unique(4, "bvwbjplbgvbhsrlpgdmjqwftvncz"), "5".to_string());
    assert_eq!(find_unique(14, "nppdvjthqldpwncqszvftbrmjlhg"), "23".to_string());
    assert_eq!(find_unique(4, "aaa"), "0".to_string());
}

#[test]
fn move_instruction_from_letters() {
    assert_eq!(MoveInstruction::from_str("U"), Some(MoveInstruction::Up));
    assert_eq!(MoveInstruction::from_str("D"), Some(MoveInstruction::Down));
    assert_eq!(MoveInstruction::from_str("L"), Some(MoveInstruction::Left));
    assert_eq!(MoveInstruction::from_str("R"), Some(MoveInstruction::Right));
    assert_eq!(MoveInstruction::from_str("Q"), None);
    assert_eq!(MoveInstruction::from_str("UU"), None);
    assert_eq!(MoveInstruction::Up.to_vector(), (0, 1));
    assert_eq!(MoveInstruction::Left.to_vector(), (-1, 0));
}

#[test]
fn tree_score_matches_sample_best() {
    let forest: Vec<Vec<u8>> = vec![
        vec![3, 0, 3, 7, 3],
        vec![2, 5, 5, 1, 2],
        vec![6, 5, 3, 3, 2],
        vec![3, 3, 5, 4, 9],
        vec![3, 5, 3, 9, 0],
    ];
    // The published best spot: the height-5 tree in the middle of row 4.
    let tree = Tree::new(2, 3, forest[3][2]);
    assert_eq!(tree.score(&forest), 8);
    let edge = Tree::new(0, 0, forest[0][0]);
    assert_eq!(edge.score(&forest), 0);
}
