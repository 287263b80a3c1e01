//! The published sample inputs and answers, one test per scenario, plus the
//! edge cases of each day's entry points.
use aoc2022::day01::Day01;
use aoc2022::day02::Day02;
use aoc2022::day03::Day03;
use aoc2022::day04::Day04;
use aoc2022::day05::Day05;
use aoc2022::day06::Day06;
use aoc2022::day07::Day07;
use aoc2022::day08::Day08;
use aoc2022::day09::Day09;
use aoc2022::day10::Day10;
use aoc2022::day12::Day12;
use aoc2022::solve_day;
use aoc2022::SolveError;

#[test]
fn day01_sample_parts() {
    let input = "1000\n2000\n3000\n\n4000\n\n5000\n6000\n\n7000\n8000\n9000\n\n10000";
    assert_eq!(Day01::solve_part_one(input), "24000".to_string());
    assert_eq!(Day01::solve_part_two(input), "45000".to_string());
    assert_eq!(
        Day01::solve(input, true),
        ("0".to_string(), "45000".to_string())
    );
}

#[test]
fn day02_sample_part_two() {
    assert_eq!(Day02::solve_part_two("A Y\nB X\nC Z"), "12".to_string());
}

#[test]
fn day03_sample_parts() {
    let input = "vJrwpWtwJgWrhcsFMMfFFhFp\njqHRNqRjqzjGDLGLrsFMfFZSrLrFZsSL\nPmmdzqPrVvPwwTWBwg\nwMqvLMZHhHMvwLHjbvcjnnSBnvTQFn\nttgJtRGJQctTZtZT\nCrZsJsPPZsGzwwsLwLmpwMDw";
    assert_eq!(Day03::solve_part_one(input), "157".to_string());
    assert_eq!(Day03::solve_part_two(input), "70".to_string());
}

#[test]
fn day04_sample_parts() {
    let input = "2-4,6-8\n2-3,4-5\n5-7,7-9\n2-8,3-7\n6-6,4-6\n2-6,4-8";
    assert_eq!(Day04::solve_part_one(input), "2".to_string());
    assert_eq!(Day04::solve_part_two(input), "4".to_string());
}

#[test]
fn day05_sample_part_one() {
    let input = "                                   \n                                   \n                                   \n                                   \n                                   \n    [D]                            \n[N] [C]                            \n[Z] [M] [P]                        \n 1   2   3                         \n\nmove 1 from 2 to 1\nmove 3 from 1 to 3\nmove 2 from 2 to 1\nmove 1 from 1 to 2";
    assert_eq!(Day05::solve_part_one(input), "CMZ".to_string());
    assert_eq!(Day05::solve(input, false), ("CMZ".to_string(), "0".to_string()));
}

#[test]
fn day06_sample_parts() {
    assert_eq!(
        Day06::solve_part_one("mjqjpqmgbljsphdztnvjfqwrcgsmlb"),
        "7".to_string()
    );
    assert_eq!(
        Day06::solve_part_two("mjqjpqmgbljsphdztnvjfqwrcgsmlb"),
        "19".to_string()
    );
    assert_eq!(Day06::solve_part_one("bvwbjplbgvbhsrlpgdmjqwftvncz"), "5".to_string());
}

#[test]
fn day06_no_marker_reports_zero() {
    assert_eq!(Day06::solve_part_one("aaaaaaa"), "0".to_string());
}

#[test]
fn day07_sample_part_two() {
    let input = "$ cd /\n$ ls\ndir a\n14848514 b.txt\n8504156 c.dat\ndir d\n$ cd a\n$ ls\ndir e\n29116 f\n2557 g\n62596 h.lst\n$ cd e\n$ ls\n584 i\n$ cd ..\n$ cd ..\n$ cd d\n$ ls\n4060174 j\n8033020 d.log\n5626152 d.ext\n7214296 k";
    assert_eq!(Day07::solve_part_two(input), "24933642".to_string());
    assert_eq!(Day07::solve_part_one(input), "95437".to_string());
}

#[test]
fn day08_sample_part_one() {
    let input = "30373\n25512\n65332\n33549\n35390";
    assert_eq!(Day08::solve_part_one(input), "21".to_string());
}

#[test]
fn day09_sample_part_two() {
    let input = "R 4\nU 4\nL 3\nD 1\nR 4\nD 1\nL 5\nR 2";
    assert_eq!(Day09::solve_part_two(input), "1".to_string());
    let larger = "R 5\nU 8\nL 8\nD 3\nR 17\nD 10\nL 25\nU 20";
    assert_eq!(Day09::solve_part_two(larger), "36".to_string());
}

#[test]
fn day10_sample_screen() {
    let input = "addx 15\naddx -11\naddx 6\naddx -3\naddx 5\naddx -1\naddx -8\naddx 13\naddx 4\nnoop\naddx -1\naddx 5\naddx -1\naddx 5\naddx -1\naddx 5\naddx -1\naddx 5\naddx -1\naddx -35\naddx 1\naddx 24\naddx -19\naddx 1\naddx 16\naddx -11\nnoop\nnoop\naddx 21\naddx -15\nnoop\nnoop\naddx -3\naddx 9\naddx 1\naddx -3\naddx 8\naddx 1\naddx 5\nnoop\nnoop\nnoop\nnoop\nnoop\naddx -36\nnoop\naddx 1\naddx 7\nnoop\nnoop\nnoop\naddx 2\naddx 6\nnoop\nnoop\nnoop\nnoop\nnoop\naddx 1\nnoop\nnoop\naddx 7\naddx 1\nnoop\naddx -13\naddx 13\naddx 7\nnoop\naddx 1\naddx -33\nnoop\nnoop\nnoop\naddx 2\nnoop\nnoop\nnoop\naddx 8\nnoop\naddx -1\naddx 2\naddx 1\nnoop\naddx 17\naddx -9\naddx 1\naddx 1\naddx -3\naddx 11\nnoop\nnoop\naddx 1\nnoop\naddx 1\nnoop\nnoop\naddx -13\naddx -19\naddx 1\naddx 3\naddx 26\naddx -30\naddx 12\naddx -1\naddx 3\naddx 1\nnoop\nnoop\nnoop\naddx -9\naddx 18\naddx 1\naddx 2\nnoop\nnoop\naddx 9\nnoop\nnoop\nnoop\naddx -1\naddx 2\naddx -37\naddx 1\naddx 3\nnoop\naddx 15\naddx -21\naddx 22\naddx -6\naddx 1\nnoop\naddx 2\naddx 1\nnoop\naddx -10\nnoop\nnoop\naddx 20\naddx 1\naddx 2\naddx 2\naddx -6\naddx -11\nnoop\nnoop\nnoop";
    let screen = "\n##..##..##..##..##..##..##..##..##..##..\n###...###...###...###...###...###...###.\n####....####....####....####....####....\n#####.....#####.....#####.....#####.....\n######......######......######......####\n#######.......#######.......#######.....\n";
    assert_eq!(Day10::solve_part_two(input), screen.to_string());
}

#[test]
fn day12_sample_parts() {
    let input = "Sabqponm\nabcryxxl\naccszExk\nacctuvwj\nabdefghi";
    assert_eq!(Day12::solve_part_one(input), "31".to_string());
    assert_eq!(Day12::solve_part_two(input), "29".to_string());
}

#[test]
fn dispatcher_runs_every_day() {
    assert_eq!(
        solve_day(2, "A Y\nB X\nC Z", false),
        Ok(("15".to_string(), "12".to_string()))
    );
    assert_eq!(
        solve_day(2, "A Y\nB X\nC Z", true),
        Ok(("0".to_string(), "12".to_string()))
    );
    assert_eq!(solve_day(4, "", false), Ok(("0".to_string(), "0".to_string())));
}

#[test]
fn dispatcher_rejects_unknown_day() {
    assert_eq!(solve_day(0, "x", false), Err(SolveError::UnknownDay));
    assert_eq!(solve_day(14, "x", false), Err(SolveError::UnknownDay));
}

#[test]
fn dispatcher_rejects_malformed_input() {
    assert_eq!(solve_day(1, "abc", false), Err(SolveError::MalformedInput));
    assert_eq!(solve_day(2, "A Y\nQ Q", false), Err(SolveError::MalformedInput));
    assert_eq!(solve_day(4, "junk", false), Err(SolveError::MalformedInput));
    assert_eq!(solve_day(8, "12\n345", false), Err(SolveError::MalformedInput));
    assert_eq!(solve_day(9, "X 4", false), Err(SolveError::MalformedInput));
    assert_eq!(solve_day(12, "abc", false), Err(SolveError::MalformedInput));
}

#[test]
fn day07_exact_threshold_qualifies() {
    // The root totals 70000000, so 30000000 must be freed; the directory of
    // exactly that size qualifies.
    let input = "$ cd /\n$ ls\n40000000 big.img\ndir a\n$ cd a\n$ ls\n30000000 data.bin";
    assert_eq!(Day07::solve_part_two(input), "30000000".to_string());
}
