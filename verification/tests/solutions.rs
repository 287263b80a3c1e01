//! The per-day entry-point tests: empty input reports "0", the published
//! sample inputs give the published answers.
use aoc2022::day01::Day01;
use aoc2022::day02::Day02;
use aoc2022::day03::Day03;
use aoc2022::day04::Day04;
use aoc2022::day05::Day05;
use aoc2022::day06::Day06;
use aoc2022::day07::Day07;
use aoc2022::day08::Day08;
use aoc2022::day09::Day09;
use aoc2022::day10::Day10;
use aoc2022::day11::Day11;
use aoc2022::day12::Day12;
use aoc2022::day13::Day13;

#[test]
fn check_day01_part1_case1() {
    assert_eq!(Day01::solve_part_one(""), "0".to_string())
}

#[test]
fn check_day01_part2_case1() {
    assert_eq!(Day01::solve_part_two(""), "0".to_string())
}

#[test]
fn check_day01_both_case1() {
    assert_eq!(Day01::solve("", false), ("0".to_string(), "0".to_string()))
}

#[test]
fn check_day02_part1_case1() {
    let input = r"A Y
B X
C Z";
    assert_eq!(Day02::solve_part_one(input), "15".to_string())
}

#[test]
fn check_day02_part2_case1() {
    assert_eq!(Day02::solve_part_two(""), "0".to_string())
}

#[test]
fn check_day02_both_case1() {
    let input = r"A Y
B X
C Z";
    assert_eq!(
        Day02::solve(input, false),
        ("15".to_string(), "12".to_string())
    )
}

#[test]
fn check_day03_part1_case1() {
    assert_eq!(Day03::solve_part_one(""), "0".to_string())
}

#[test]
fn check_day03_part2_case1() {
    assert_eq!(Day03::solve_part_two(""), "0".to_string())
}

#[test]
fn check_day03_both_case1() {
    assert_eq!(Day03::solve("", false), ("0".to_string(), "0".to_string()))
}

#[test]
fn check_day04_part1_case1() {
    assert_eq!(Day04::solve_part_one(""), "0".to_string())
}

#[test]
fn check_day04_part2_case1() {
    assert_eq!(Day04::solve_part_two(""), "0".to_string())
}

#[test]
fn check_day04_both_case1() {
    let input = r"2-4,6-8
2-3,4-5
5-7,7-9
2-8,3-7
6-6,4-6
2-6,4-8";
    assert_eq!(
        Day04::solve(input, false),
        ("2".to_string(), "4".to_string())
    )
}

#[test]
fn check_day05_part1_case1() {
    assert_eq!(Day05::solve_part_one(""), "0".to_string())
}

#[test]
fn check_day05_part2_case1() {
    assert_eq!(Day05::solve_part_two(""), "0".to_string())
}

#[test]
fn check_day06_part1_case1() {
    assert_eq!(Day06::solve_part_one(""), "0".to_string())
}

#[test]
fn check_day06_part2_case1() {
    assert_eq!(Day06::solve_part_two(""), "0".to_string())
}

#[test]
fn check_day06_both_case1() {
    assert_eq!(Day06::solve("", false), ("0".to_string(), "0".to_string()))
}

#[test]
fn check_day07_part1_case1() {
    assert_eq!(
        Day07::solve_part_one(
            "$ cd /
        $ ls
        dir a
        14848514 b.txt
        8504156 c.dat
        dir d
        $ cd a
        $ ls
        dir e
        29116 f
        2557 g
        62596 h.lst
        $ cd e
        $ ls
        584 i
        $ cd ..
        $ cd ..
        $ cd d
        $ ls
        4060174 j
        8033020 d.log
        5626152 d.ext
        7214296 k"
        ),
        "95437".to_string()
    )
}

#[test]
fn check_day07_part2_case1() {
    assert_eq!(Day07::solve_part_two(""), "0".to_string())
}

#[test]
fn check_day07_both_case1() {
    assert_eq!(Day07::solve("", false), ("0".to_string(), "0".to_string()))
}

#[test]
fn check_day08_part1_case1() {
    assert_eq!(Day08::solve_part_one(""), "0".to_string())
}

#[test]
fn check_day08_part2_case1() {
    assert_eq!(
        Day08::solve_part_two(
            r"30373
25512
65332
33549
35390"
        ),
        "8".to_string()
    )
}

#[test]
fn check_day08_both_case1() {
    assert_eq!(Day08::solve("", false), ("0".to_string(), "0".to_string()))
}

#[test]
fn check_day09_part1_case1() {
    assert_eq!(
        Day09::solve_part_one(
            r"R 4
U 4
L 3
D 1
R 4
D 1
L 5
R 2"
        ),
        "13".to_string()
    )
}

#[test]
fn check_day09_part2_case1() {
    assert_eq!(Day09::solve_part_two(""), "0".to_string())
}

#[test]
fn check_day09_both_case1() {
    assert_eq!(Day09::solve("", false), ("0".to_string(), "0".to_string()))
}

#[test]
fn check_day10_part1_case1() {
    assert_eq!(
        Day10::solve_part_one(
            r"addx 15
addx -11
addx 6
addx -3
addx 5
addx -1
addx -8
addx 13
addx 4
noop
addx -1
addx 5
addx -1
addx 5
addx -1
addx 5
addx -1
addx 5
addx -1
addx -35
addx 1
addx 24
addx -19
addx 1
addx 16
addx -11
noop
noop
addx 21
addx -15
noop
noop
addx -3
addx 9
addx 1
addx -3
addx 8
addx 1
addx 5
noop
noop
noop
noop
noop
addx -36
noop
addx 1
addx 7
noop
noop
noop
addx 2
addx 6
noop
noop
noop
noop
noop
addx 1
noop
noop
addx 7
addx 1
noop
addx -13
addx 13
addx 7
noop
addx 1
addx -33
noop
noop
noop
addx 2
noop
noop
noop
addx 8
noop
addx -1
addx 2
addx 1
noop
addx 17
addx -9
addx 1
addx 1
addx -3
addx 11
noop
noop
addx 1
noop
addx 1
noop
noop
addx -13
addx -19
addx 1
addx 3
addx 26
addx -30
addx 12
addx -1
addx 3
addx 1
noop
noop
noop
addx -9
addx 18
addx 1
addx 2
noop
noop
addx 9
noop
noop
noop
addx -1
addx 2
addx -37
addx 1
addx 3
noop
addx 15
addx -21
addx 22
addx -6
addx 1
noop
addx 2
addx 1
noop
addx -10
noop
noop
addx 20
addx 1
addx 2
addx 2
addx -6
addx -11
noop
noop
noop"
        ),
        "13140".to_string()
    )
}

#[test]
fn check_day10_part2_case1() {
    assert_eq!(Day10::solve_part_two(""), "0".to_string())
}

#[test]
fn check_day10_both_case1() {
    assert_eq!(Day10::solve("", false), ("0".to_string(), "0".to_string()))
}

#[test]
fn check_day11_part1_case1() {
    assert_eq!(Day11::solve_part_one(""), "0".to_string())
}

#[test]
fn check_day11_part2_case1() {
    assert_eq!(Day11::solve_part_two(""), "0".to_string())
}

#[test]
fn check_day11_both_case1() {
    assert_eq!(Day11::solve("", false), ("0".to_string(), "0".to_string()))
}

#[test]
fn check_day12_part1_case1() {
    assert_eq!(Day12::solve_part_one(""), "0".to_string())
}

#[test]
fn check_day12_part2_case1() {
    assert_eq!(Day12::solve_part_two(""), "0".to_string())
}

#[test]
fn check_day12_both_case1() {
    assert_eq!(Day12::solve("", false), ("0".to_string(), "0".to_string()))
}

#[test]
fn check_day13_part1_case1() {
    assert_eq!(
        Day13::solve_part_one(
            r"[1,1,3,1,1]
[1,1,5,1,1]

[[1],[2,3,4]]
[[1],4]

[9]
[[8,7,6]]

[[4,4],4,4]
[[4,4],4,4,4]

[7,7,7,7]
[7,7,7]

[]
[3]

[[[]]]
[[]]

[1,[2,[3,[4,[5,6,7]]]],8,9]
[1,[2,[3,[4,[5,6,0]]]],8,9]"
        ),
        "13".to_string()
    )
}
