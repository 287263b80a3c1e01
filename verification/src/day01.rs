//! Calorie sums: blank-line-separated groups of integers. Part one is the
//! largest group sum, part two the sum of the three largest group sums.
use crate::text::{all_digits, dec_str, dec_val, lines_of, parse_dec, split_lines, u128_string};
use vstd::prelude::*;
use vstd::string::StringSliceAdditionalSpecFns;

verus! {

pub struct Day01;

/// Folds the lines into groups of values: a blank line closes the current
/// group, a digit line (a value that fits `u32`) joins it, anything else is
/// malformed. A trailing unfinished group counts.
pub open spec fn groups_rec(ls: Seq<Seq<u8>>, i: int, done: Seq<Seq<u32>>, cur: Seq<u32>) -> Option<
    Seq<Seq<u32>>,
>
    decreases ls.len() - i,
{
    if i < 0 {
        None
    } else if i >= ls.len() {
        Some(
            if cur.len() > 0 {
                done.push(cur)
            } else {
                done
            },
        )
    } else if ls[i].len() == 0 {
        groups_rec(ls, i + 1, done.push(cur), Seq::empty())
    } else if all_digits(ls[i]) && dec_val(ls[i]) <= u32::MAX {
        groups_rec(ls, i + 1, done, cur.push(dec_val(ls[i]) as u32))
    } else {
        None
    }
}

/// The calorie groups of the input, or `None` when a line is malformed.
pub open spec fn day01_groups(s: Seq<u8>) -> Option<Seq<Seq<u32>>> {
    groups_rec(lines_of(s), 0, Seq::empty(), Seq::empty())
}

/// Sum of one group.
pub open spec fn sum32(s: Seq<u32>) -> int
    decreases s.len(),
{
    if s.len() == 0 {
        0
    } else {
        sum32(s.drop_last()) + s.last()
    }
}

/// The largest group sum, 0 when there are no groups.
pub open spec fn max_sum(gs: Seq<Seq<u32>>) -> int
    decreases gs.len(),
{
    if gs.len() == 0 {
        0
    } else if sum32(gs.last()) > max_sum(gs.drop_last()) {
        sum32(gs.last())
    } else {
        max_sum(gs.drop_last())
    }
}

/// The three largest values seen so far, in descending order.
pub open spec fn insert3(t: (int, int, int), v: int) -> (int, int, int) {
    if v >= t.0 {
        (v, t.0, t.1)
    } else if v >= t.1 {
        (t.0, v, t.1)
    } else if v >= t.2 {
        (t.0, t.1, v)
    } else {
        t
    }
}

pub open spec fn top3_rec(gs: Seq<Seq<u32>>, t: (int, int, int)) -> (int, int, int)
    decreases gs.len(),
{
    if gs.len() == 0 {
        t
    } else {
        insert3(top3_rec(gs.drop_last(), t), sum32(gs.last()))
    }
}

/// Sum of the three largest group sums, zero-padded when there are fewer.
pub open spec fn top3_sum(gs: Seq<Seq<u32>>) -> int {
    let t = top3_rec(gs, (0, 0, 0));
    t.0 + t.1 + t.2
}

/// The part-one answer string for well-formed input.
pub open spec fn day01_p1(s: Seq<u8>) -> Seq<char> {
    dec_str(max_sum(day01_groups(s)->0) as nat)
}

/// The part-two answer string for well-formed input.
pub open spec fn day01_p2(s: Seq<u8>) -> Seq<char> {
    dec_str(top3_sum(day01_groups(s)->0) as nat)
}

impl Day01 {
    /// Parses the input into calorie groups; `None` on any malformed line.
    pub fn parse_input(input: &str) -> (r: Option<Vec<Vec<u32>>>)
        ensures
            r is Some <==> day01_groups(input.spec_bytes()) is Some,
            r is Some ==> (r->0).deep_view() == day01_groups(input.spec_bytes())->0,
    {
        let bytes = input.as_bytes();
        let lines = split_lines(bytes);
        let ghost ls = lines_of(input.spec_bytes());
        let mut done: Vec<Vec<u32>> = Vec::new();
        let mut cur: Vec<u32> = Vec::new();
        proof {
            assert(done.deep_view() =~~= Seq::<Seq<u32>>::empty());
            assert(cur.deep_view() =~= Seq::<u32>::empty());
        }
        let mut i: usize = 0;
        while i < lines.len()
            invariant
                i <= lines@.len(),
                lines.deep_view() == ls,
                ls == lines_of(input.spec_bytes()),
                groups_rec(ls, 0, Seq::empty(), Seq::empty()) == groups_rec(
                    ls,
                    i as int,
                    done.deep_view(),
                    cur.deep_view(),
                ),
            decreases lines@.len() - i,
        {
            let line = &lines[i];
            proof {
                assert(line.deep_view() == ls[i as int]);
                assert(line@ =~= ls[i as int]);
            }
            if line.len() == 0 {
                let ghost pd = done.deep_view();
                let ghost pdv = done@;
                let ghost cv = cur;
                done.push(cur);
                proof {
                    assert(done.deep_view() =~~= pd.push(cv.deep_view())) by {
                        assert(done@ == pdv.push(cv));
                    }
                }
                cur = Vec::new();
                proof {
                    assert(cur.deep_view() =~= Seq::<u32>::empty());
                }
            } else {
                match parse_dec(line.as_slice(), 0, 0xffff_ffff) {
                    Some(v) => {
                        let ghost pc = cur.deep_view();
                        cur.push(v as u32);
                        proof {
                            assert(line@.skip(0) =~= line@);
                            assert(cur.deep_view() =~= pc.push(v as u32));
                        }
                    },
                    None => {
                        proof {
                            assert(line@.skip(0) =~= line@);
                            assert(groups_rec(ls, i as int, done.deep_view(), cur.deep_view())
                                is None);
                        }
                        return None;
                    },
                }
            }
            i = i + 1;
        }
        if cur.len() > 0 {
            let ghost pd = done.deep_view();
            let ghost pdv = done@;
            let ghost cv = cur;
            done.push(cur);
            proof {
                assert(done.deep_view() =~~= pd.push(cv.deep_view())) by {
                    assert(done@ == pdv.push(cv));
                }
            }
            Some(done)
        } else {
            Some(done)
        }
    }

    /// Part one: the largest group sum.
    pub fn part_one(groups: &Vec<Vec<u32>>) -> (r: String)
        ensures
            r@ == dec_str(max_sum(groups.deep_view()) as nat),
    {
        let ghost gs = groups.deep_view();
        let mut best: u128 = 0;
        let mut i: usize = 0;
        while i < groups.len()
            invariant
                i <= groups@.len(),
                gs == groups.deep_view(),
                best as int == max_sum(gs.take(i as int)),
            decreases groups@.len() - i,
        {
            let g = &groups[i];
            proof {
                assert(g.deep_view() =~= g@);
                assert(g.deep_view() == gs[i as int]);
            }
            let sum = sum_group(g);
            proof {
                assert(gs.take(i + 1).drop_last() =~= gs.take(i as int));
                assert(gs.take(i + 1).last() == gs[i as int]);
            }
            if sum > best {
                best = sum;
            }
            i = i + 1;
        }
        proof {
            assert(gs.take(gs.len() as int) =~= gs);
        }
        u128_string(best)
    }

    /// Part two: the sum of the three largest group sums.
    pub fn part_two(groups: &Vec<Vec<u32>>) -> (r: String)
        ensures
            r@ == dec_str(top3_sum(groups.deep_view()) as nat),
    {
        let ghost gs = groups.deep_view();
        let mut a: u128 = 0;
        let mut b: u128 = 0;
        let mut c: u128 = 0;
        let mut i: usize = 0;
        while i < groups.len()
            invariant
                i <= groups@.len(),
                gs == groups.deep_view(),
                (a as int, b as int, c as int) == top3_rec(gs.take(i as int), (0, 0, 0)),
                a >= b >= c,
                a < 0x1_0000_0000_0000_0000_0000_0000,
            decreases groups@.len() - i,
        {
            let g = &groups[i];
            proof {
                assert(g.deep_view() =~= g@);
                assert(g.deep_view() == gs[i as int]);
            }
            let sum = sum_group(g);
            proof {
                assert(gs.take(i + 1).drop_last() =~= gs.take(i as int));
                assert(gs.take(i + 1).last() == gs[i as int]);
            }
            if sum >= a {
                c = b;
                b = a;
                a = sum;
            } else if sum >= b {
                c = b;
                b = sum;
            } else if sum >= c {
                c = sum;
            }
            i = i + 1;
        }
        proof {
            assert(gs.take(gs.len() as int) =~= gs);
        }
        u128_string(a + b + c)
    }

    /// Runs both parts over one parse; with the flag set, part one is skipped
    /// and reported as "0". Empty input reports "0" for both parts.
    pub fn solve(input: &str, only_part_two: bool) -> (r: (String, String))
        requires
            input.spec_bytes().len() == 0 || day01_groups(input.spec_bytes()) is Some,
        ensures
            r.0@ == if input.spec_bytes().len() == 0 || only_part_two {
                dec_str(0)
            } else {
                day01_p1(input.spec_bytes())
            },
            r.1@ == if input.spec_bytes().len() == 0 {
                dec_str(0)
            } else {
                day01_p2(input.spec_bytes())
            },
    {
        if input.as_bytes().len() == 0 {
            return (u128_string(0), u128_string(0));
        }
        match Self::parse_input(input) {
            Some(groups) => {
                let p2 = Self::part_two(&groups);
                let p1 = if only_part_two {
                    u128_string(0)
                } else {
                    Self::part_one(&groups)
                };
                (p1, p2)
            },
            None => {
                proof {
                    assert(false);
                }
                (u128_string(0), u128_string(0))
            },
        }
    }

    /// Part one alone, from raw input.
    pub fn solve_part_one(input: &str) -> (r: String)
        requires
            input.spec_bytes().len() == 0 || day01_groups(input.spec_bytes()) is Some,
        ensures
            r@ == if input.spec_bytes().len() == 0 {
                dec_str(0)
            } else {
                day01_p1(input.spec_bytes())
            },
    {
        let (p1, _p2) = Self::solve(input, false);
        p1
    }

    /// Part two alone, from raw input.
    pub fn solve_part_two(input: &str) -> (r: String)
        requires
            input.spec_bytes().len() == 0 || day01_groups(input.spec_bytes()) is Some,
        ensures
            r@ == if input.spec_bytes().len() == 0 {
                dec_str(0)
            } else {
                day01_p2(input.spec_bytes())
            },
    {
        let (_p1, p2) = Self::solve(input, true);
        p2
    }
}

/// Sums one group of values.
fn sum_group(g: &Vec<u32>) -> (r: u128)
    ensures
        r as int == sum32(g.deep_view()),
        r < 0x1_0000_0000_0000_0000_0000_0000,
{
    let gl: usize = g.len();
    let mut sum: u128 = 0;
    let mut j: usize = 0;
    while j < gl
        invariant
            j <= gl,
            gl == g@.len(),
            sum as int == sum32(g@.take(j as int)),
            sum as int <= j * 0xffff_ffff,
        decreases gl - j,
    {
        proof {
            assert(g@.take(j + 1).drop_last() =~= g@.take(j as int));
            assert((j as int) * 0xffff_ffff + 0xffff_ffff == (j + 1) * 0xffff_ffff)
                by (nonlinear_arith);
            assert((j + 1) * 0xffff_ffff <= (usize::MAX as int) * 0xffff_ffff) by (nonlinear_arith)
                requires
                    0 <= j + 1 <= usize::MAX as int,
            ;
        }
        sum = sum + (g[j] as u128);
        j = j + 1;
    }
    proof {
        assert(g@.take(gl as int) =~= g@);
        assert(g.deep_view() =~= g@);
        assert((gl as int) * 0xffff_ffff < 0x1_0000_0000_0000_0000_0000_0000) by (nonlinear_arith)
            requires
                0 <= gl <= usize::MAX as int,
        ;
    }
    sum
}

} // verus!
