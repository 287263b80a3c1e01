//! CRT CPU. `noop` takes one cycle, `addx N` two, adding at the end; the
//! register starts at 1. Part one sums cycle times register over the cycles
//! 20, 60, 100, 140, 180 and 220. Part two renders a 40-by-6 screen: a pixel
//! is lit when its column is within one of the register during its cycle.
use crate::text::{
    chars_of, dec_str, int_str, int_val, lines_of, parse_int, split_lines, split_ws,
    string_from_ascii, tokens_of, u128_string, i128_string,
};
use vstd::prelude::*;
use vstd::string::StringSliceAdditionalSpecFns;

verus! {

pub struct Day10;

/// One instruction.
#[derive(Clone, Copy, Debug, PartialEq, Eq)]
pub enum Op {
    Addx(i32),
    NoOp,
}

/// The state of one cycle: the instruction in flight and the register value
/// during the cycle.
pub struct TickState {
    pub active_op: Op,
    pub register_val: i128,
}

pub open spec fn is_noop_kw(t: Seq<u8>) -> bool {
    t.len() == 4 && t[0] == 110 && t[1] == 111 && t[2] == 111 && t[3] == 112
}

pub open spec fn is_addx_kw(t: Seq<u8>) -> bool {
    t.len() == 4 && t[0] == 97 && t[1] == 100 && t[2] == 100 && t[3] == 120
}

/// Bound on any register value a trace can reach: one plus a 31-bit step for
/// each cycle, with fewer cycles than fit an `i128`.
pub open spec fn reg_bound() -> int {
    0x1_0000_0000_0000_0000_0000_0000
}

/// Folds the instruction lines into the per-cycle register trace.
pub open spec fn ticks_rec(ls: Seq<Seq<u8>>, i: int, reg: int, acc: Seq<int>) -> Option<Seq<int>>
    decreases ls.len() - i,
{
    if i < 0 {
        None
    } else if i >= ls.len() {
        Some(acc)
    } else {
        let ts = tokens_of(ls[i]);
        if ts.len() >= 1 && is_noop_kw(ts[0]) {
            ticks_rec(ls, i + 1, reg, acc.push(reg))
        } else if ts.len() >= 2 && is_addx_kw(ts[0]) && int_val(ts[1]) is Some && -0x7fff_ffff
            <= int_val(ts[1])->0 <= 0x7fff_ffff {
            ticks_rec(ls, i + 1, reg + int_val(ts[1])->0, acc.push(reg).push(reg))
        } else {
            None
        }
    }
}

pub open spec fn ticks_of(s: Seq<u8>) -> Option<Seq<int>> {
    ticks_rec(lines_of(s), 0, 1, Seq::empty())
}

pub open spec fn day10_wf(s: Seq<u8>) -> bool {
    ticks_of(s) is Some
}

/// The part-one value: the six signal strengths summed, or 0 when the trace
/// is shorter than 220 cycles.
pub open spec fn p1_val(ticks: Seq<int>) -> int {
    if ticks.len() >= 220 {
        20 * ticks[19] + 60 * ticks[59] + 100 * ticks[99] + 140 * ticks[139] + 180 * ticks[179]
            + 220 * ticks[219]
    } else {
        0
    }
}

pub open spec fn day10_p1(s: Seq<u8>) -> Seq<char> {
    int_str(p1_val(ticks_of(s)->0))
}

/// The pixel byte for screen position `i`: lit when the register during that
/// cycle is within one of the column.
pub open spec fn pixel(ticks: Seq<int>, i: int) -> u8 {
    if i < ticks.len() && -1 <= (i % 40) - ticks[i] <= 1 {
        35
    } else {
        46
    }
}

/// The rendered screen: a leading newline, then six 40-pixel lines, each with
/// a trailing newline.
pub open spec fn screen_bytes(ticks: Seq<int>) -> Seq<u8> {
    Seq::new(
        247,
        |k: int|
            if k == 0 {
                10u8
            } else if (k - 1) % 41 == 40 {
                10u8
            } else {
                pixel(ticks, ((k - 1) / 41) * 40 + (k - 1) % 41)
            },
    )
}

pub open spec fn day10_p2(s: Seq<u8>) -> Seq<char> {
    chars_of(screen_bytes(ticks_of(s)->0))
}

/// The register values of a parsed trace.
pub open spec fn ticks_view(v: Seq<TickState>) -> Seq<int> {
    v.map_values(|t: TickState| t.register_val as int)
}

/// Every register value of the trace lies strictly within `reg_bound`.
pub open spec fn ticks_bounded(ts: Seq<int>) -> bool {
    forall|j: int| 0 <= j < ts.len() ==> -reg_bound() < #[trigger] ts[j] < reg_bound()
}

impl Day10 {
    /// Parses the instruction lines into the per-cycle register trace.
    pub fn parse_input(input: &str) -> (r: Option<Vec<TickState>>)
        ensures
            r is Some <==> day10_wf(input.spec_bytes()),
            r is Some ==> ticks_view((r->0)@) == ticks_of(input.spec_bytes())->0,
            r is Some ==> ticks_bounded(ticks_view((r->0)@)),
    {
        let bytes = input.as_bytes();
        let lines = split_lines(bytes);
        let ghost ls = lines_of(input.spec_bytes());
        let n: usize = lines.len();
        let mut out: Vec<TickState> = Vec::new();
        let mut reg: i128 = 1;
        proof {
            assert(ticks_view(out@) =~= Seq::<int>::empty());
        }
        let mut i: usize = 0;
        while i < n
            invariant
                i <= n,
                n == lines@.len(),
                lines.deep_view() == ls,
                ls == lines_of(input.spec_bytes()),
                ticks_rec(ls, 0, 1, Seq::empty()) == ticks_rec(
                    ls,
                    i as int,
                    reg as int,
                    ticks_view(out@),
                ),
                -1 - 0x8000_0000 * (i as int) <= reg as int <= 1 + 0x8000_0000 * (i as int),
                ticks_bounded(ticks_view(out@)),
            decreases n - i,
        {
            let line = &lines[i];
            proof {
                assert(line.deep_view() == ls[i as int]);
                assert(line@ =~= ls[i as int]);
                assert(0x8000_0000 * (i as int) + 0x8000_0000 == 0x8000_0000 * (i + 1))
                    by (nonlinear_arith);
                assert(0x8000_0000 * (i + 1) <= 0x8000_0000 * (usize::MAX as int + 1))
                    by (nonlinear_arith)
                    requires
                        0 <= i + 1 <= usize::MAX as int + 1,
                ;
            }
            let toks = split_ws(line.as_slice());
            let ghost ts = tokens_of(line@);
            if toks.len() == 0 {
                return None;
            }
            proof {
                assert(toks[0].deep_view() == ts[0]);
                assert(toks@[0]@ =~= ts[0]);
            }
            let t0 = &toks[0];
            let is_noop: bool = t0.len() == 4 && t0[0] == 110 && t0[1] == 111 && t0[2] == 111
                && t0[3] == 112;
            let is_addx: bool = t0.len() == 4 && t0[0] == 97 && t0[1] == 100 && t0[2] == 100
                && t0[3] == 120;
            if is_noop {
                let ghost pre = ticks_view(out@);
                out.push(TickState { active_op: Op::NoOp, register_val: reg });
                proof {
                    assert(ticks_view(out@) =~= pre.push(reg as int));
                }
            } else if is_addx {
                if toks.len() < 2 {
                    return None;
                }
                proof {
                    assert(toks[1].deep_view() == ts[1]);
                    assert(toks@[1]@ =~= ts[1]);
                }
                match parse_int(toks[1].as_slice(), 0x7fff_ffff) {
                    Some(v) => {
                        let ghost pre = ticks_view(out@);
                        out.push(TickState { active_op: Op::Addx(v as i32), register_val: reg });
                        out.push(TickState { active_op: Op::Addx(v as i32), register_val: reg });
                        proof {
                            assert(ticks_view(out@) =~= pre.push(reg as int).push(reg as int));
                        }
                        reg = reg + v;
                    },
                    None => {
                        return None;
                    },
                }
            } else {
                return None;
            }
            i = i + 1;
        }
        Some(out)
    }

    /// Part one: the sum of the six sampled signal strengths, or "0" when the
    /// trace is shorter than 220 cycles.
    pub fn part_one(ticks: &Vec<TickState>) -> (r: String)
        requires
            ticks_bounded(ticks_view(ticks@)),
        ensures
            r@ == int_str(p1_val(ticks_view(ticks@))),
    {
        let ghost tv = ticks_view(ticks@);
        if ticks.len() < 220 {
            return u128_string(0);
        }
        let mut sum: i128 = 0;
        let s20 = ticks[19].register_val;
        let s60 = ticks[59].register_val;
        let s100 = ticks[99].register_val;
        let s140 = ticks[139].register_val;
        let s180 = ticks[179].register_val;
        let s220 = ticks[219].register_val;
        proof {
            assert(tv[19] == s20 as int && tv[59] == s60 as int && tv[99] == s100 as int && tv[139]
                == s140 as int && tv[179] == s180 as int && tv[219] == s220 as int);
            assert(forall|c: int, v: int|
                2 <= c <= 256 && -reg_bound() < v < reg_bound() ==> -256 * reg_bound() <= #[trigger] (
                c * v) <= 256 * reg_bound()) by (nonlinear_arith);
        }
        sum = 20 * s20 + 60 * s60 + 100 * s100 + 140 * s140 + 180 * s180 + 220 * s220;
        i128_string(sum)
    }

    /// Part two: the rendered 40-by-6 screen.
    pub fn part_two(ticks: &Vec<TickState>) -> (r: String)
        requires
            ticks_bounded(ticks_view(ticks@)),
        ensures
            r@ == chars_of(screen_bytes(ticks_view(ticks@))),
    {
        let ghost tv = ticks_view(ticks@);
        let tn: usize = ticks.len();
        let mut out: Vec<u8> = Vec::new();
        out.push(10);
        proof {
            assert(out@ =~= screen_bytes(tv).take(1));
        }
        let mut row: usize = 0;
        while row < 6
            invariant
                row <= 6,
                tv == ticks_view(ticks@),
                ticks_bounded(tv),
                tn == ticks@.len(),
                out@ == screen_bytes(tv).take(1 + 41 * (row as int)),
                forall|j: int| 0 <= j < out@.len() ==> #[trigger] out@[j] < 128,
            decreases 6 - row,
        {
            let mut col: usize = 0;
            while col < 40
                invariant
                    col <= 40,
                    row < 6,
                    tv == ticks_view(ticks@),
                    ticks_bounded(tv),
                    tn == ticks@.len(),
                    out@ == screen_bytes(tv).take(1 + 41 * (row as int) + col as int),
                    forall|j: int| 0 <= j < out@.len() ==> #[trigger] out@[j] < 128,
                decreases 40 - col,
            {
                let idx: usize = 40 * row + col;
                let b: u8 = if idx < tn {
                    let v = ticks[idx].register_val;
                    proof {
                        assert(tv[idx as int] == v as int);
                    }
                    if (col as i128) - v <= 1 && v - (col as i128) <= 1 {
                        35
                    } else {
                        46
                    }
                } else {
                    46
                };
                let ghost k = 1 + 41 * (row as int) + col as int;
                proof {
                    assert((k - 1) % 41 == col as int && (k - 1) / 41 == row as int)
                        by (nonlinear_arith)
                        requires
                            k == 1 + 41 * (row as int) + col as int,
                            0 <= col < 40,
                            0 <= row < 6,
                    ;
                    assert(((k - 1) / 41) * 40 + (k - 1) % 41 == idx as int) by (nonlinear_arith)
                        requires
                            (k - 1) % 41 == col as int,
                            (k - 1) / 41 == row as int,
                            idx as int == 40 * (row as int) + col as int,
                    ;
                    assert(idx as int % 40 == col as int) by (nonlinear_arith)
                        requires
                            idx as int == 40 * (row as int) + col as int,
                            0 <= col < 40,
                            0 <= row,
                    ;
                    assert(b == screen_bytes(tv)[k]);
                }
                let ghost pre = out@;
                out.push(b);
                proof {
                    assert(out@ =~= screen_bytes(tv).take(k + 1)) by {
                        assert(out@ == pre.push(b));
                        assert(screen_bytes(tv).take(k + 1).drop_last() =~= screen_bytes(tv).take(
                            k,
                        ));
                    }
                }
                col = col + 1;
            }
            let ghost k = 1 + 41 * (row as int) + 40;
            proof {
                assert((k - 1) % 41 == 40) by (nonlinear_arith)
                    requires
                        k == 1 + 41 * (row as int) + 40,
                        0 <= row < 6,
                ;
                assert(screen_bytes(tv)[k] == 10);
            }
            let ghost pre = out@;
            out.push(10);
            proof {
                assert(out@ =~= screen_bytes(tv).take(k + 1)) by {
                    assert(out@ == pre.push(10u8));
                    assert(screen_bytes(tv).take(k + 1).drop_last() =~= screen_bytes(tv).take(k));
                }
                assert(k + 1 == 1 + 41 * (row + 1)) by (nonlinear_arith)
                    requires
                        k == 1 + 41 * (row as int) + 40,
                ;
            }
            row = row + 1;
        }
        proof {
            assert(screen_bytes(tv).take(247) =~= screen_bytes(tv));
        }
        string_from_ascii(out)
    }

    /// Runs both parts over one parse; with the flag set, part one is skipped
    /// and reported as "0". Empty input reports "0" for both parts.
    pub fn solve(input: &str, only_part_two: bool) -> (r: (String, String))
        requires
            input.spec_bytes().len() == 0 || day10_wf(input.spec_bytes()),
        ensures
            r.0@ == if input.spec_bytes().len() == 0 || only_part_two {
                dec_str(0)
            } else {
                day10_p1(input.spec_bytes())
            },
            r.1@ == if input.spec_bytes().len() == 0 {
                dec_str(0)
            } else {
                day10_p2(input.spec_bytes())
            },
    {
        if input.as_bytes().len() == 0 {
            return (u128_string(0), u128_string(0));
        }
        match Self::parse_input(input) {
            Some(ticks) => {
                let p2 = Self::part_two(&ticks);
                let p1 = if only_part_two {
                    u128_string(0)
                } else {
                    Self::part_one(&ticks)
                };
                (p1, p2)
            },
            None => {
                proof {
                    assert(false);
                }
                (u128_string(0), u128_string(0))
            },
        }
    }

    /// Part one alone, from raw input.
    pub fn solve_part_one(input: &str) -> (r: String)
        requires
            input.spec_bytes().len() == 0 || day10_wf(input.spec_bytes()),
        ensures
            r@ == if input.spec_bytes().len() == 0 {
                dec_str(0)
            } else {
                day10_p1(input.spec_bytes())
            },
    {
        let (p1, _p2) = Self::solve(input, false);
        p1
    }

    /// Part two alone, from raw input.
    pub fn solve_part_two(input: &str) -> (r: String)
        requires
            input.spec_bytes().len() == 0 || day10_wf(input.spec_bytes()),
        ensures
            r@ == if input.spec_bytes().len() == 0 {
                dec_str(0)
            } else {
                day10_p2(input.spec_bytes())
            },
    {
        let (_p1, p2) = Self::solve(input, true);
        p2
    }
}

} // verus!
