//! Rock-paper-scissors scoring. Each line encodes a round; part one scores
//! the shape played plus the outcome, part two first picks the shape that
//! forces the prescribed outcome. A nonblank line that is not one of the
//! nine encoded rounds is malformed; the per-line scorers themselves are
//! total and give such a line zero.
use crate::text::{dec_str, lines_of, u128_string};
use vstd::prelude::*;
use vstd::string::StringSliceAdditionalSpecFns;

verus! {

pub struct Day02;

/// Whether the line is the three bytes `a`, space, `c`.
pub open spec fn round_is(l: Seq<u8>, a: u8, c: u8) -> bool {
    l.len() == 3 && l[0] == a && l[1] == 32 && l[2] == c
}

/// Part-one score of one round: shape value plus outcome value.
pub open spec fn score_round_val(l: Seq<u8>) -> int {
    if round_is(l, 65, 88) {
        4  // rock against rock: 1 + 3
    } else if round_is(l, 66, 88) {
        1  // rock against paper: 1 + 0
    } else if round_is(l, 67, 88) {
        7  // rock against scissors: 1 + 6
    } else if round_is(l, 65, 89) {
        8  // paper against rock: 2 + 6
    } else if round_is(l, 66, 89) {
        5  // paper against paper: 2 + 3
    } else if round_is(l, 67, 89) {
        2  // paper against scissors: 2 + 0
    } else if round_is(l, 65, 90) {
        3  // scissors against rock: 3 + 0
    } else if round_is(l, 66, 90) {
        9  // scissors against paper: 3 + 6
    } else if round_is(l, 67, 90) {
        6  // scissors against scissors: 3 + 3
    } else {
        0
    }
}

/// Part-two score of one round: the second letter prescribes the outcome.
pub open spec fn score_outcome_val(l: Seq<u8>) -> int {
    if round_is(l, 65, 88) {
        3  // lose to rock: play scissors, 0 + 3
    } else if round_is(l, 66, 88) {
        1  // lose to paper: play rock, 0 + 1
    } else if round_is(l, 67, 88) {
        2  // lose to scissors: play paper, 0 + 2
    } else if round_is(l, 65, 89) {
        4  // draw with rock: 3 + 1
    } else if round_is(l, 66, 89) {
        5  // draw with paper: 3 + 2
    } else if round_is(l, 67, 89) {
        6  // draw with scissors: 3 + 3
    } else if round_is(l, 65, 90) {
        8  // beat rock: play paper, 6 + 2
    } else if round_is(l, 66, 90) {
        9  // beat paper: play scissors, 6 + 3
    } else if round_is(l, 67, 90) {
        7  // beat scissors: play rock, 6 + 1
    } else {
        0
    }
}

/// Every nonblank line is one of the nine encoded rounds.
pub open spec fn day02_wf(s: Seq<u8>) -> bool {
    forall|i: int|
        0 <= i < lines_of(s).len() ==> ((#[trigger] lines_of(s)[i]).len() == 0 || score_round_val(
            lines_of(s)[i],
        ) != 0)
}

pub open spec fn p1_sum(ls: Seq<Seq<u8>>) -> int
    decreases ls.len(),
{
    if ls.len() == 0 {
        0
    } else {
        p1_sum(ls.drop_last()) + score_round_val(ls.last())
    }
}

pub open spec fn p2_sum(ls: Seq<Seq<u8>>) -> int
    decreases ls.len(),
{
    if ls.len() == 0 {
        0
    } else {
        p2_sum(ls.drop_last()) + score_outcome_val(ls.last())
    }
}

/// The part-one answer string.
pub open spec fn day02_p1(s: Seq<u8>) -> Seq<char> {
    dec_str(p1_sum(lines_of(s)) as nat)
}

/// The part-two answer string.
pub open spec fn day02_p2(s: Seq<u8>) -> Seq<char> {
    dec_str(p2_sum(lines_of(s)) as nat)
}

/// Part-one score of a single round line.
pub fn score_round(round: &str) -> (r: u32)
    ensures
        r as int == score_round_val(round.spec_bytes()),
{
    let b = round.as_bytes();
    if b.len() != 3 || b[1] != 32 {
        return 0;
    }
    let a = b[0];
    let c = b[2];
    if a == 65 && c == 88 {
        4
    } else if a == 66 && c == 88 {
        1
    } else if a == 67 && c == 88 {
        7
    } else if a == 65 && c == 89 {
        8
    } else if a == 66 && c == 89 {
        5
    } else if a == 67 && c == 89 {
        2
    } else if a == 65 && c == 90 {
        3
    } else if a == 66 && c == 90 {
        9
    } else if a == 67 && c == 90 {
        6
    } else {
        0
    }
}

/// Part-two score of a single round line.
pub fn score_by_outcome(round: &str) -> (r: u32)
    ensures
        r as int == score_outcome_val(round.spec_bytes()),
{
    let b = round.as_bytes();
    if b.len() != 3 || b[1] != 32 {
        return 0;
    }
    let a = b[0];
    let c = b[2];
    if a == 65 && c == 88 {
        3
    } else if a == 66 && c == 88 {
        1
    } else if a == 67 && c == 88 {
        2
    } else if a == 65 && c == 89 {
        4
    } else if a == 66 && c == 89 {
        5
    } else if a == 67 && c == 89 {
        6
    } else if a == 65 && c == 90 {
        8
    } else if a == 66 && c == 90 {
        9
    } else if a == 67 && c == 90 {
        7
    } else {
        0
    }
}

/// Sums a per-line score over all lines; `by_outcome` selects the table.
fn sum_lines(input: &str, by_outcome: bool) -> (r: u128)
    ensures
        !by_outcome ==> r as int == p1_sum(lines_of(input.spec_bytes())),
        by_outcome ==> r as int == p2_sum(lines_of(input.spec_bytes())),
{
    let bytes = input.as_bytes();
    let lines = crate::text::split_lines(bytes);
    let ghost ls = lines_of(input.spec_bytes());
    let n: usize = lines.len();
    let mut sum: u128 = 0;
    let mut i: usize = 0;
    while i < n
        invariant
            i <= n,
            n == lines@.len(),
            lines.deep_view() == ls,
            !by_outcome ==> sum as int == p1_sum(ls.take(i as int)),
            by_outcome ==> sum as int == p2_sum(ls.take(i as int)),
            sum as int <= i * 9,
        decreases n - i,
    {
        let line = &lines[i];
        proof {
            assert(line.deep_view() == ls[i as int]);
            assert(line@ =~= ls[i as int]);
            assert(ls.take(i + 1).drop_last() =~= ls.take(i as int));
            assert(ls.take(i + 1).last() == ls[i as int]);
            assert((i as int) * 9 + 9 == (i + 1) * 9) by (nonlinear_arith);
            assert((i + 1) * 9 <= (usize::MAX as int) * 9) by (nonlinear_arith)
                requires
                    0 <= i + 1 <= usize::MAX as int,
            ;
        }
        let v: u8 = score_line(line.as_slice(), by_outcome);
        sum = sum + (v as u128);
        i = i + 1;
    }
    proof {
        assert(ls.take(n as int) =~= ls);
    }
    sum
}

/// Scores one line of bytes under the chosen table.
fn score_line(b: &[u8], by_outcome: bool) -> (r: u8)
    ensures
        !by_outcome ==> r as int == score_round_val(b@),
        by_outcome ==> r as int == score_outcome_val(b@),
        r <= 9,
{
    if b.len() != 3 || b[1] != 32 {
        return 0;
    }
    let a = b[0];
    let c = b[2];
    if !by_outcome {
        if a == 65 && c == 88 {
            4
        } else if a == 66 && c == 88 {
            1
        } else if a == 67 && c == 88 {
            7
        } else if a == 65 && c == 89 {
            8
        } else if a == 66 && c == 89 {
            5
        } else if a == 67 && c == 89 {
            2
        } else if a == 65 && c == 90 {
            3
        } else if a == 66 && c == 90 {
            9
        } else if a == 67 && c == 90 {
            6
        } else {
            0
        }
    } else {
        if a == 65 && c == 88 {
            3
        } else if a == 66 && c == 88 {
            1
        } else if a == 67 && c == 88 {
            2
        } else if a == 65 && c == 89 {
            4
        } else if a == 66 && c == 89 {
            5
        } else if a == 67 && c == 89 {
            6
        } else if a == 65 && c == 90 {
            8
        } else if a == 66 && c == 90 {
            9
        } else if a == 67 && c == 90 {
            7
        } else {
            0
        }
    }
}

impl Day02 {
    /// The parsed input is the raw text itself; `None` when a nonblank line
    /// is not a recognised round.
    pub fn parse_input(input: &str) -> (r: Option<String>)
        ensures
            r is Some <==> day02_wf(input.spec_bytes()),
            r is Some ==> (r->0)@ == input@,
    {
        let bytes = input.as_bytes();
        let lines = crate::text::split_lines(bytes);
        let ghost ls = lines_of(input.spec_bytes());
        let n: usize = lines.len();
        let mut i: usize = 0;
        while i < n
            invariant
                i <= n,
                n == lines@.len(),
                lines.deep_view() == ls,
                ls == lines_of(input.spec_bytes()),
                forall|a: int|
                    0 <= a < i ==> ((#[trigger] ls[a]).len() == 0 || score_round_val(ls[a]) != 0),
            decreases n - i,
        {
            let line = &lines[i];
            proof {
                assert(line.deep_view() == ls[i as int]);
                assert(line@ =~= ls[i as int]);
            }
            if line.len() > 0 {
                let v = score_line(line.as_slice(), false);
                if v == 0 {
                    proof {
                        assert(!day02_wf(input.spec_bytes()));
                    }
                    return None;
                }
            }
            i = i + 1;
        }
        Some(input.to_owned())
    }

    /// Part one: total score under the shape table.
    pub fn part_one(input: &str) -> (r: String)
        ensures
            r@ == day02_p1(input.spec_bytes()),
    {
        u128_string(sum_lines(input, false))
    }

    /// Part two: total score under the outcome table.
    pub fn part_two(input: &str) -> (r: String)
        ensures
            r@ == day02_p2(input.spec_bytes()),
    {
        u128_string(sum_lines(input, true))
    }

    /// Runs both parts; with the flag set, part one is skipped and reported
    /// as "0". Empty input reports "0" for both parts.
    pub fn solve(input: &str, only_part_two: bool) -> (r: (String, String))
        requires
            input.spec_bytes().len() == 0 || day02_wf(input.spec_bytes()),
        ensures
            r.0@ == if input.spec_bytes().len() == 0 || only_part_two {
                dec_str(0)
            } else {
                day02_p1(input.spec_bytes())
            },
            r.1@ == if input.spec_bytes().len() == 0 {
                dec_str(0)
            } else {
                day02_p2(input.spec_bytes())
            },
    {
        if input.as_bytes().len() == 0 {
            return (u128_string(0), u128_string(0));
        }
        let p2 = Self::part_two(input);
        let p1 = if only_part_two {
            u128_string(0)
        } else {
            Self::part_one(input)
        };
        (p1, p2)
    }

    /// Part one alone, from raw input.
    pub fn solve_part_one(input: &str) -> (r: String)
        requires
            input.spec_bytes().len() == 0 || day02_wf(input.spec_bytes()),
        ensures
            r@ == if input.spec_bytes().len() == 0 {
                dec_str(0)
            } else {
                day02_p1(input.spec_bytes())
            },
    {
        let (p1, _p2) = Self::solve(input, false);
        p1
    }

    /// Part two alone, from raw input.
    pub fn solve_part_two(input: &str) -> (r: String)
        requires
            input.spec_bytes().len() == 0 || day02_wf(input.spec_bytes()),
        ensures
            r@ == if input.spec_bytes().len() == 0 {
                dec_str(0)
            } else {
                day02_p2(input.spec_bytes())
            },
    {
        let (_p1, p2) = Self::solve(input, true);
        p2
    }
}

} // verus!
