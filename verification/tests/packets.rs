//! Packet parsing and ordering tests.
use aoc2022::day13::{compare_packets, parse_packet, Day13, Packet};

#[test]
fn day13_parse_basic() {
    assert_eq!(
        parse_packet("[1,2,3]"),
        Packet::List(vec![Packet::Value(1), Packet::Value(2), Packet::Value(3)])
    );
}

#[test]
fn day13_parse_nested() {
    assert_eq!(
        parse_packet("[1,[2,3]]"),
        Packet::List(vec![
            Packet::Value(1),
            Packet::List(vec![Packet::Value(2), Packet::Value(3)])
        ])
    );
}

#[test]
fn day13_parse_nested2() {
    assert_eq!(
        parse_packet("[[2,3],1]"),
        Packet::List(vec![
            Packet::List(vec![Packet::Value(2), Packet::Value(3)]),
            Packet::Value(1)
        ])
    );
}

#[test]
fn day13_parse_empty() {
    assert_eq!(
        parse_packet("[[],1]"),
        Packet::List(vec![Packet::List(vec![]), Packet::Value(1)])
    );
}

#[test]
fn day13_parse_single() {
    assert_eq!(parse_packet("[1]"), Packet::List(vec![Packet::Value(1)]));
}

#[test]
fn day13_compare_true1() {
    assert!(compare_packets(
        &Packet::List(vec![
            Packet::List(vec![Packet::Value(1)]),
            Packet::List(vec![Packet::Value(2), Packet::Value(3), Packet::Value(4)])
        ]),
        &Packet::List(vec![Packet::List(vec![Packet::Value(1)]), Packet::Value(4)])
    )
    .unwrap());
}

#[test]
fn day13_compare_false1() {
    assert!(!compare_packets(
        &Packet::List(vec![Packet::Value(9)]),
        &Packet::List(vec![Packet::List(vec![
            Packet::Value(8),
            Packet::Value(7),
            Packet::Value(6)
        ])])
    )
    .unwrap());
}

#[test]
fn day13_parse_multi_digit() {
    assert_eq!(
        parse_packet("[10,25]"),
        Packet::List(vec![Packet::Value(10), Packet::Value(25)])
    );
}

#[test]
fn day13_compare_tie_is_none() {
    let a = parse_packet("[[2]]");
    let b = parse_packet("[2]");
    assert_eq!(compare_packets(&a, &b), None);
}

#[test]
fn day13_compare_shorter_first() {
    let a = parse_packet("[7,7,7]");
    let b = parse_packet("[7,7,7,7]");
    assert_eq!(compare_packets(&a, &b), Some(true));
    assert_eq!(compare_packets(&b, &a), Some(false));
}

#[test]
fn day13_sample_part_two() {
    let input = "[1,1,3,1,1]\n[1,1,5,1,1]\n\n[[1],[2,3,4]]\n[[1],4]\n\n[9]\n[[8,7,6]]\n\n[[4,4],4,4]\n[[4,4],4,4,4]\n\n[7,7,7,7]\n[7,7,7]\n\n[]\n[3]\n\n[[[]]]\n[[]]\n\n[1,[2,[3,[4,[5,6,7]]]],8,9]\n[1,[2,[3,[4,[5,6,0]]]],8,9]";
    assert_eq!(Day13::solve_part_two(input), "140".to_string());
    assert_eq!(
        Day13::solve(input, false),
        ("13".to_string(), "140".to_string())
    );
}

#[test]
fn day13_malformed_line_rejected() {
    assert_eq!(
        aoc2022::solve_day(13, "[1,2\n[3]", false),
        Err(aoc2022::SolveError::MalformedInput)
    );
}
