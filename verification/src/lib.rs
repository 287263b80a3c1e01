//! Verified solutions to a set of small, independent text puzzles.
//!
//! Every puzzle (a "day") exposes the same four entry points: a pure parser,
//! two solvers, and `solve`, which runs both parts over one parse; when only
//! part two is asked for, part one is reported as "0", and empty input
//! reports "0" for both parts. A dispatcher maps a day number to its
//! solution. All contracts are stated over the input's byte sequence
//! (`str::spec_bytes`), so every parser is a pure function of its input.
pub mod day01;
pub mod day02;
pub mod day03;
pub mod day04;
pub mod day05;
pub mod day06;
pub mod day07;
pub mod day08;
pub mod day09;
pub mod day10;
pub mod day11;
pub mod day12;
pub mod day13;
pub mod text;

use crate::text::dec_str;
use vstd::prelude::*;
use vstd::string::StringSliceAdditionalSpecFns;

verus! {

/// Why a dispatch failed: the day is not registered, or its input cannot be
/// parsed.
#[derive(Clone, Copy, Debug, PartialEq, Eq, Structural)]
pub enum SolveError {
    UnknownDay,
    MalformedInput,
}

/// Whether the day's parser accepts the input.
pub open spec fn day_wf(day: u32, s: Seq<u8>) -> bool {
    match day {
        1u32 => crate::day01::day01_groups(s) is Some,
        2u32 => crate::day02::day02_wf(s),
        3u32 => crate::day03::day03_wf(s),
        4u32 => crate::day04::day04_wf(s),
        5u32 => crate::day05::day05_wf(s),
        6u32 => true,
        7u32 => crate::day07::day07_wf(s),
        8u32 => crate::day08::day08_wf(s),
        9u32 => crate::day09::day09_wf(s),
        10u32 => crate::day10::day10_wf(s),
        11u32 => true,
        12u32 => crate::day12::day12_wf(s),
        13u32 => crate::day13::day13_wf(s),
        _ => false,
    }
}

pub open spec fn day_p1(day: u32, s: Seq<u8>) -> Seq<char> {
    match day {
        1u32 => crate::day01::day01_p1(s),
        2u32 => crate::day02::day02_p1(s),
        3u32 => crate::day03::day03_p1(s),
        4u32 => crate::day04::day04_p1(s),
        5u32 => crate::day05::day05_p1(s),
        6u32 => crate::day06::day06_p1(s),
        7u32 => crate::day07::day07_p1(s),
        8u32 => crate::day08::day08_p1(s),
        9u32 => crate::day09::day09_p1(s),
        10u32 => crate::day10::day10_p1(s),
        11u32 => crate::day11::day11_p1(),
        12u32 => crate::day12::day12_p1(s),
        13u32 => crate::day13::day13_p1(s),
        _ => dec_str(0),
    }
}

pub open spec fn day_p2(day: u32, s: Seq<u8>) -> Seq<char> {
    match day {
        1u32 => crate::day01::day01_p2(s),
        2u32 => crate::day02::day02_p2(s),
        3u32 => crate::day03::day03_p2(s),
        4u32 => crate::day04::day04_p2(s),
        5u32 => crate::day05::day05_p2(s),
        6u32 => crate::day06::day06_p2(s),
        7u32 => crate::day07::day07_p2(s),
        8u32 => crate::day08::day08_p2(s),
        9u32 => crate::day09::day09_p2(s),
        10u32 => crate::day10::day10_p2(s),
        11u32 => crate::day11::day11_p2(),
        12u32 => crate::day12::day12_p2(s),
        13u32 => crate::day13::day13_p2(s),
        _ => dec_str(0),
    }
}

/// What the dispatcher returns: both answers, with part one skipped under
/// the flag and empty input answered "0"/"0"; or the error.
pub open spec fn dispatch_spec(day: u32, s: Seq<u8>, only_part_two: bool) -> Result<
    (Seq<char>, Seq<char>),
    SolveError,
> {
    if day < 1 || day > 13 {
        Err(SolveError::UnknownDay)
    } else if s.len() == 0 {
        Ok((dec_str(0), dec_str(0)))
    } else if !day_wf(day, s) {
        Err(SolveError::MalformedInput)
    } else {
        Ok(
            (
                if only_part_two {
                    dec_str(0)
                } else {
                    day_p1(day, s)
                },
                day_p2(day, s),
            ),
        )
    }
}

/// When only part two is asked for, part one is skipped; the answer to part
/// two never depends on whether part one ran. This is the independence of
/// the two parts, stated over the dispatcher.
pub proof fn lemma_part_two_independent(day: u32, s: Seq<u8>)
    ensures
        match (dispatch_spec(day, s, false), dispatch_spec(day, s, true)) {
            (Ok(both), Ok(alone)) => both.1 == alone.1,
            (Err(e1), Err(e2)) => e1 == e2,
            _ => false,
        },
{
}

/// Solves the selected day: parses the input once and runs both parts, part
/// one skipped and reported "0" under the flag.
pub fn solve_day(day: u32, input: &str, only_part_two: bool) -> (r: Result<
    (String, String),
    SolveError,
>)
    ensures
        match r {
            Ok(p) => dispatch_spec(day, input.spec_bytes(), only_part_two) == Ok::<
                (Seq<char>, Seq<char>),
                SolveError,
            >((p.0@, p.1@)),
            Err(e) => dispatch_spec(day, input.spec_bytes(), only_part_two) == Err::<
                (Seq<char>, Seq<char>),
                SolveError,
            >(e),
        },
{
    if day < 1 || day > 13 {
        return Err(SolveError::UnknownDay);
    }
    if input.as_bytes().len() == 0 {
        let z1 = crate::text::u128_string(0);
        let z2 = crate::text::u128_string(0);
        return Ok((z1, z2));
    }
    match day {
        1u32 => {
            match crate::day01::Day01::parse_input(input) {
                Some(_) => Ok(crate::day01::Day01::solve(input, only_part_two)),
                None => Err(SolveError::MalformedInput),
            }
        },
        2u32 => {
            match crate::day02::Day02::parse_input(input) {
                Some(_) => Ok(crate::day02::Day02::solve(input, only_part_two)),
                None => Err(SolveError::MalformedInput),
            }
        },
        3u32 => {
            match crate::day03::Day03::parse_input(input) {
                Some(_) => Ok(crate::day03::Day03::solve(input, only_part_two)),
                None => Err(SolveError::MalformedInput),
            }
        },
        4u32 => {
            match crate::day04::Day04::parse_input(input) {
                Some(_) => Ok(crate::day04::Day04::solve(input, only_part_two)),
                None => Err(SolveError::MalformedInput),
            }
        },
        5u32 => {
            match crate::day05::Day05::parse_input(input) {
                Some(_) => Ok(crate::day05::Day05::solve(input, only_part_two)),
                None => Err(SolveError::MalformedInput),
            }
        },
        6u32 => Ok(crate::day06::Day06::solve(input, only_part_two)),
        7u32 => {
            match crate::day07::Day07::parse_input(input) {
                Some(_) => Ok(crate::day07::Day07::solve(input, only_part_two)),
                None => Err(SolveError::MalformedInput),
            }
        },
        8u32 => {
            match crate::day08::Day08::parse_input(input) {
                Some(_) => Ok(crate::day08::Day08::solve(input, only_part_two)),
                None => Err(SolveError::MalformedInput),
            }
        },
        9u32 => {
            match crate::day09::Day09::parse_input(input) {
                Some(_) => Ok(crate::day09::Day09::solve(input, only_part_two)),
                None => Err(SolveError::MalformedInput),
            }
        },
        10u32 => {
            match crate::day10::Day10::parse_input(input) {
                Some(_) => Ok(crate::day10::Day10::solve(input, only_part_two)),
                None => Err(SolveError::MalformedInput),
            }
        },
        11u32 => Ok(crate::day11::Day11::solve(input, only_part_two)),
        12u32 => {
            match crate::day12::Day12::parse_input(input) {
                Some(_) => Ok(crate::day12::Day12::solve(input, only_part_two)),
                None => Err(SolveError::MalformedInput),
            }
        },
        _ => {
            match crate::day13::Day13::parse_input(input) {
                Some(_) => Ok(crate::day13::Day13::solve(input, only_part_two)),
                None => Err(SolveError::MalformedInput),
            }
        },
    }
}

} // verus!
