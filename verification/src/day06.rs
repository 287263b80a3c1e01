//! Packet start marker: the 1-based index just past the first window of `num`
//! consecutive bytes that are pairwise distinct (4 for part one, 14 for part
//! two), or 0 when no such window exists.
use crate::text::{dec_str, u128_string};
use vstd::prelude::*;
use vstd::string::StringSliceAdditionalSpecFns;

verus! {

pub struct Day06;

/// All bytes of `w` are pairwise distinct.
pub open spec fn distinct(w: Seq<u8>) -> bool {
    forall|i: int, j: int| 0 <= i < j < w.len() ==> w[i] != w[j]
}

/// The first index at or after `from` where a distinct window of length `num`
/// starts, or -1 when there is none.
pub open spec fn first_marker(s: Seq<u8>, num: int, from: int) -> int
    decreases s.len() - from,
{
    if from < 0 || num < 0 || from + num > s.len() {
        -1
    } else if distinct(s.subrange(from, from + num)) {
        from
    } else {
        first_marker(s, num, from + 1)
    }
}

/// The marker answer string for window length `num`.
pub open spec fn day06_str(s: Seq<u8>, num: int) -> Seq<char> {
    if first_marker(s, num, 0) >= 0 {
        dec_str((num + first_marker(s, num, 0)) as nat)
    } else {
        dec_str(0)
    }
}

pub open spec fn day06_p1(s: Seq<u8>) -> Seq<char> {
    day06_str(s, 4)
}

pub open spec fn day06_p2(s: Seq<u8>) -> Seq<char> {
    day06_str(s, 14)
}

/// Whether the window `s[i..i+num]` is pairwise distinct.
fn window_distinct(s: &[u8], i: usize, num: usize) -> (r: bool)
    requires
        i + num <= s@.len(),
    ensures
        r == distinct(s@.subrange(i as int, i as int + num)),
{
    let ghost w = s@.subrange(i as int, i as int + num);
    let slen: usize = s.len();
    let mut a: usize = 0;
    while a < num
        invariant
            a <= num,
            i + num <= slen,
            slen == s@.len(),
            w == s@.subrange(i as int, i as int + num),
            forall|x: int, y: int| 0 <= x < y < w.len() && x < a ==> w[x] != w[y],
        decreases num - a,
    {
        let mut b: usize = a + 1;
        while b < num
            invariant
                a < b <= num || (a + 1 == b && b > num),
                a < num,
                i + num <= slen,
                slen == s@.len(),
                w == s@.subrange(i as int, i as int + num),
                forall|y: int| a < y < b ==> w[a as int] != w[y],
            decreases num - b,
        {
            if s[i + a] == s[i + b] {
                proof {
                    assert(w[a as int] == w[b as int]);
                }
                return false;
            }
            b = b + 1;
        }
        a = a + 1;
    }
    true
}

/// The 1-based position just past the first distinct window of length `num`,
/// rendered in decimal; "0" when there is none.
pub fn find_unique(num: usize, input: &str) -> (r: String)
    ensures
        r@ == day06_str(input.spec_bytes(), num as int),
{
    let s = input.as_bytes();
    let n: usize = s.len();
    if num > n {
        proof {
            assert(first_marker(input.spec_bytes(), num as int, 0) == -1);
        }
        return u128_string(0);
    }
    let mut i: usize = 0;
    while i <= n - num
        invariant_except_break
            num <= n,
            n == input.spec_bytes().len(),
            s@ == input.spec_bytes(),
            i <= n - num + 1,
            first_marker(s@, num as int, 0) == first_marker(s@, num as int, i as int),
        ensures
            first_marker(s@, num as int, 0) == -1,
            s@ == input.spec_bytes(),
            num <= n,
        decreases n - i,
    {
        if window_distinct(s, i, num) {
            proof {
                assert(first_marker(s@, num as int, i as int) == i);
            }
            return u128_string((num + i) as u128);
        }
        i = i + 1;
    }
    u128_string(0)
}

impl Day06 {
    /// The parsed input is the raw text itself.
    pub fn parse_input(input: &str) -> (r: String)
        ensures
            r@ == input@,
    {
        input.to_owned()
    }

    /// Part one: first window of four distinct bytes.
    pub fn part_one(input: &str) -> (r: String)
        ensures
            r@ == day06_p1(input.spec_bytes()),
    {
        find_unique(4, input)
    }

    /// Part two: first window of fourteen distinct bytes.
    pub fn part_two(input: &str) -> (r: String)
        ensures
            r@ == day06_p2(input.spec_bytes()),
    {
        find_unique(14, input)
    }

    /// Runs both parts; with the flag set, part one is skipped and reported
    /// as "0". Empty input reports "0" for both parts.
    pub fn solve(input: &str, only_part_two: bool) -> (r: (String, String))
        ensures
            r.0@ == if input.spec_bytes().len() == 0 || only_part_two {
                dec_str(0)
            } else {
                day06_p1(input.spec_bytes())
            },
            r.1@ == if input.spec_bytes().len() == 0 {
                dec_str(0)
            } else {
                day06_p2(input.spec_bytes())
            },
    {
        if input.as_bytes().len() == 0 {
            return (u128_string(0), u128_string(0));
        }
        let p2 = Self::part_two(input);
        let p1 = if only_part_two {
            u128_string(0)
        } else {
            Self::part_one(input)
        };
        (p1, p2)
    }

    /// Part one alone, from raw input.
    pub fn solve_part_one(input: &str) -> (r: String)
        ensures
            r@ == if input.spec_bytes().len() == 0 {
                dec_str(0)
            } else {
                day06_p1(input.spec_bytes())
            },
    {
        let (p1, _p2) = Self::solve(input, false);
        p1
    }

    /// Part two alone, from raw input.
    pub fn solve_part_two(input: &str) -> (r: String)
        ensures
            r@ == if input.spec_bytes().len() == 0 {
                dec_str(0)
            } else {
                day06_p2(input.spec_bytes())
            },
    {
        let (_p1, p2) = Self::solve(input, true);
        p2
    }
}

} // verus!
