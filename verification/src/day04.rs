//! Range pair containment. Each line `a-b,c-d` gives two integer intervals;
//! part one counts pairs where one contains the other, part two counts pairs
//! that overlap at all.
use crate::text::{
    all_digits, dec_str, dec_val, find_byte, lines_of, parse_dec, scan_byte, split_lines, sub_vec,
    u128_string,
};
use vstd::prelude::*;
use vstd::string::StringSliceAdditionalSpecFns;

verus! {

pub struct Day04;

/// One interval of section numbers.
pub struct Elf {
    pub lower: u32,
    pub upper: u32,
}

/// A pair of intervals from one line.
pub struct Pair {
    pub a: Elf,
    pub b: Elf,
}

/// The four values of a pair: `(a.lower, a.upper, b.lower, b.upper)`.
pub open spec fn pair_val(p: &Pair) -> (int, int, int, int) {
    (p.a.lower as int, p.a.upper as int, p.b.lower as int, p.b.upper as int)
}

/// Whether one interval of the pair contains the other.
pub open spec fn contains_val(p: (int, int, int, int)) -> bool {
    (p.1 <= p.3 && p.0 >= p.2) || (p.3 <= p.1 && p.2 >= p.0)
}

/// Whether the two intervals overlap at all.
pub open spec fn overlap_val(p: (int, int, int, int)) -> bool {
    (p.1 <= p.3 && p.1 >= p.2) || (p.0 <= p.3 && p.0 >= p.2) || (p.0 < p.2 && p.1 > p.3) || (p.0
        > p.2 && p.1 < p.3)
}

/// Parses one `a-b,c-d` line into its four values.
pub open spec fn line_pair(l: Seq<u8>) -> Option<(int, int, int, int)> {
    let d1 = find_byte(l, 45, 0);
    let c = find_byte(l, 44, d1 + 1);
    let d2 = find_byte(l, 45, c + 1);
    if d1 < l.len() && c < l.len() && d2 < l.len() && seg_ok(l, 0, d1) && seg_ok(l, d1 + 1, c)
        && seg_ok(l, c + 1, d2) && seg_ok(l, d2 + 1, l.len() as int) {
        Some(
            (
                dec_val(l.subrange(0, d1)),
                dec_val(l.subrange(d1 + 1, c)),
                dec_val(l.subrange(c + 1, d2)),
                dec_val(l.subrange(d2 + 1, l.len() as int)),
            ),
        )
    } else {
        None
    }
}

/// A nonempty all-digit segment whose value fits `u32`.
pub open spec fn seg_ok(l: Seq<u8>, from: int, to: int) -> bool {
    from < to <= l.len() && all_digits(l.subrange(from, to)) && dec_val(l.subrange(from, to))
        <= u32::MAX
}

/// Every line parses as a pair of intervals.
pub open spec fn day04_wf(s: Seq<u8>) -> bool {
    forall|i: int| 0 <= i < lines_of(s).len() ==> line_pair(#[trigger] lines_of(s)[i]) is Some
}

/// The pair values of a sequence of lines.
pub open spec fn pairs_of_lines(ls: Seq<Seq<u8>>) -> Seq<(int, int, int, int)> {
    ls.map_values(|l: Seq<u8>| line_pair(l)->0)
}

pub open spec fn pairs_of(s: Seq<u8>) -> Seq<(int, int, int, int)> {
    pairs_of_lines(lines_of(s))
}

/// The values of a parsed pair vector.
pub open spec fn pairs_view(v: Seq<Pair>) -> Seq<(int, int, int, int)> {
    v.map_values(|p: Pair| pair_val(&p))
}

pub open spec fn p1_count(ps: Seq<(int, int, int, int)>) -> int
    decreases ps.len(),
{
    if ps.len() == 0 {
        0
    } else {
        p1_count(ps.drop_last()) + if contains_val(ps.last()) {
            1int
        } else {
            0int
        }
    }
}

pub open spec fn p2_count(ps: Seq<(int, int, int, int)>) -> int
    decreases ps.len(),
{
    if ps.len() == 0 {
        0
    } else {
        p2_count(ps.drop_last()) + if overlap_val(ps.last()) {
            1int
        } else {
            0int
        }
    }
}

/// The part-one answer string.
pub open spec fn day04_p1(s: Seq<u8>) -> Seq<char> {
    dec_str(p1_count(pairs_of(s)) as nat)
}

/// The part-two answer string.
pub open spec fn day04_p2(s: Seq<u8>) -> Seq<char> {
    dec_str(p2_count(pairs_of(s)) as nat)
}

impl Pair {
    /// Whether one of the two intervals contains the other.
    pub fn range_contains_range(&self) -> (r: bool)
        ensures
            r == contains_val(pair_val(self)),
    {
        (self.a.upper <= self.b.upper && self.a.lower >= self.b.lower) || (self.b.upper
            <= self.a.upper && self.b.lower >= self.a.lower)
    }

    /// Whether the two intervals overlap at all.
    pub fn ranges_overlap(&self) -> (r: bool)
        ensures
            r == overlap_val(pair_val(self)),
    {
        (self.a.upper <= self.b.upper && self.a.upper >= self.b.lower) || (self.a.lower
            <= self.b.upper && self.a.lower >= self.b.lower) || (self.a.lower < self.b.lower
            && self.a.upper > self.b.upper) || (self.a.lower > self.b.lower && self.a.upper
            < self.b.upper)
    }
}

/// Parses one line into a pair, following `line_pair`.
fn parse_line(l: &Vec<u8>) -> (r: Option<Pair>)
    ensures
        r is Some <==> line_pair(l@) is Some,
        r is Some ==> pair_val(&r->0) == line_pair(l@)->0,
{
    let n: usize = l.len();
    let d1 = scan_byte(l.as_slice(), 45, 0);
    proof {
        crate::text::lemma_find_byte(l@, 45, 0);
    }
    if d1 == n {
        return None;
    }
    let c = scan_byte(l.as_slice(), 44, d1 + 1);
    proof {
        crate::text::lemma_find_byte(l@, 44, d1 + 1);
    }
    if c == n {
        return None;
    }
    let d2 = scan_byte(l.as_slice(), 45, c + 1);
    proof {
        crate::text::lemma_find_byte(l@, 45, c + 1);
    }
    if d2 == n {
        return None;
    }
    let s0 = sub_vec(l.as_slice(), 0, d1);
    let s1 = sub_vec(l.as_slice(), d1 + 1, c);
    let s2 = sub_vec(l.as_slice(), c + 1, d2);
    let s3 = sub_vec(l.as_slice(), d2 + 1, n);
    proof {
        assert(s0@.skip(0) =~= l@.subrange(0, d1 as int));
        assert(s1@.skip(0) =~= l@.subrange(d1 + 1, c as int));
        assert(s2@.skip(0) =~= l@.subrange(c + 1, d2 as int));
        assert(s3@.skip(0) =~= l@.subrange(d2 + 1, l@.len() as int));
    }
    let v0 = parse_dec(s0.as_slice(), 0, 0xffff_ffff);
    let v1 = parse_dec(s1.as_slice(), 0, 0xffff_ffff);
    let v2 = parse_dec(s2.as_slice(), 0, 0xffff_ffff);
    let v3 = parse_dec(s3.as_slice(), 0, 0xffff_ffff);
    match (v0, v1, v2, v3) {
        (Some(a_lo), Some(a_hi), Some(b_lo), Some(b_hi)) => Some(
            Pair {
                a: Elf { lower: a_lo as u32, upper: a_hi as u32 },
                b: Elf { lower: b_lo as u32, upper: b_hi as u32 },
            },
        ),
        _ => None,
    }
}

impl Day04 {
    /// Parses every line into an interval pair; `None` on any malformed line.
    pub fn parse_input(input: &str) -> (r: Option<Vec<Pair>>)
        ensures
            r is Some <==> day04_wf(input.spec_bytes()),
            r is Some ==> pairs_view((r->0)@) == pairs_of(input.spec_bytes()),
    {
        let bytes = input.as_bytes();
        let lines = split_lines(bytes);
        let ghost ls = lines_of(input.spec_bytes());
        let n: usize = lines.len();
        let mut out: Vec<Pair> = Vec::new();
        proof {
            assert(pairs_view(out@) =~= pairs_of_lines(ls.take(0)));
        }
        let mut i: usize = 0;
        while i < n
            invariant
                i <= n,
                n == lines@.len(),
                lines.deep_view() == ls,
                ls == lines_of(input.spec_bytes()),
                pairs_view(out@) == pairs_of_lines(ls.take(i as int)),
                forall|a: int| 0 <= a < i ==> line_pair(#[trigger] ls[a]) is Some,
            decreases n - i,
        {
            let line = &lines[i];
            proof {
                assert(line.deep_view() == ls[i as int]);
                assert(line@ =~= ls[i as int]);
            }
            match parse_line(line) {
                Some(p) => {
                    let ghost pre = out@;
                    let ghost gp = p;
                    out.push(p);
                    proof {
                        assert(out@ == pre.push(gp));
                        assert(pairs_view(out@) =~= pairs_of_lines(ls.take(i + 1))) by {
                            assert(pre.len() == i as int) by {
                                assert(pairs_view(pre).len() == pre.len());
                            }
                            assert forall|k: int| 0 <= k < i + 1 implies #[trigger] pairs_view(
                                out@,
                            )[k] == pairs_of_lines(ls.take(i + 1))[k] by {
                                assert(ls.take(i + 1)[k] == ls[k]);
                                if k < i {
                                    assert(pairs_view(pre)[k] == pairs_of_lines(
                                        ls.take(i as int),
                                    )[k]);
                                    assert(ls.take(i as int)[k] == ls[k]);
                                } else {
                                    assert(out@[k] == gp);
                                }
                            }
                        }
                    }
                },
                None => {
                    return None;
                },
            }
            i = i + 1;
        }
        proof {
            assert(ls.take(n as int) =~= ls);
        }
        Some(out)
    }

    /// Part one: how many pairs have one interval containing the other.
    pub fn part_one(pairs: &Vec<Pair>) -> (r: String)
        ensures
            r@ == dec_str(p1_count(pairs_view(pairs@)) as nat),
    {
        let ghost pv = pairs_view(pairs@);
        let n: usize = pairs.len();
        let mut count: usize = 0;
        let mut i: usize = 0;
        while i < n
            invariant
                i <= n,
                n == pairs@.len(),
                pv == pairs_view(pairs@),
                count as int == p1_count(pv.take(i as int)),
                count <= i,
            decreases n - i,
        {
            proof {
                assert(pv.take(i + 1).drop_last() =~= pv.take(i as int));
                assert(pv.take(i + 1).last() == pv[i as int]);
            }
            if pairs[i].range_contains_range() {
                count = count + 1;
            }
            i = i + 1;
        }
        proof {
            assert(pv.take(n as int) =~= pv);
        }
        u128_string(count as u128)
    }

    /// Part two: how many pairs overlap at all.
    pub fn part_two(pairs: &Vec<Pair>) -> (r: String)
        ensures
            r@ == dec_str(p2_count(pairs_view(pairs@)) as nat),
    {
        let ghost pv = pairs_view(pairs@);
        let n: usize = pairs.len();
        let mut count: usize = 0;
        let mut i: usize = 0;
        while i < n
            invariant
                i <= n,
                n == pairs@.len(),
                pv == pairs_view(pairs@),
                count as int == p2_count(pv.take(i as int)),
                count <= i,
            decreases n - i,
        {
            proof {
                assert(pv.take(i + 1).drop_last() =~= pv.take(i as int));
                assert(pv.take(i + 1).last() == pv[i as int]);
            }
            if pairs[i].ranges_overlap() {
                count = count + 1;
            }
            i = i + 1;
        }
        proof {
            assert(pv.take(n as int) =~= pv);
        }
        u128_string(count as u128)
    }

    /// Runs both parts over one parse; with the flag set, part one is skipped
    /// and reported as "0". Empty input reports "0" for both parts.
    pub fn solve(input: &str, only_part_two: bool) -> (r: (String, String))
        requires
            input.spec_bytes().len() == 0 || day04_wf(input.spec_bytes()),
        ensures
            r.0@ == if input.spec_bytes().len() == 0 || only_part_two {
                dec_str(0)
            } else {
                day04_p1(input.spec_bytes())
            },
            r.1@ == if input.spec_bytes().len() == 0 {
                dec_str(0)
            } else {
                day04_p2(input.spec_bytes())
            },
    {
        if input.as_bytes().len() == 0 {
            return (u128_string(0), u128_string(0));
        }
        match Self::parse_input(input) {
            Some(pairs) => {
                let p2 = Self::part_two(&pairs);
                let p1 = if only_part_two {
                    u128_string(0)
                } else {
                    Self::part_one(&pairs)
                };
                (p1, p2)
            },
            None => {
                proof {
                    assert(false);
                }
                (u128_string(0), u128_string(0))
            },
        }
    }

    /// Part one alone, from raw input.
    pub fn solve_part_one(input: &str) -> (r: String)
        requires
            input.spec_bytes().len() == 0 || day04_wf(input.spec_bytes()),
        ensures
            r@ == if input.spec_bytes().len() == 0 {
                dec_str(0)
            } else {
                day04_p1(input.spec_bytes())
            },
    {
        let (p1, _p2) = Self::solve(input, false);
        p1
    }

    /// Part two alone, from raw input.
    pub fn solve_part_two(input: &str) -> (r: String)
        requires
            input.spec_bytes().len() == 0 || day04_wf(input.spec_bytes()),
        ensures
            r@ == if input.spec_bytes().len() == 0 {
                dec_str(0)
            } else {
                day04_p2(input.spec_bytes())
            },
    {
        let (_p1, p2) = Self::solve(input, true);
        p2
    }
}

} // verus!
