//! Rucksack priorities. Each line splits into two halves of items; an item's
//! priority is 1-26 for `a`-`z` and 27-52 for `A`-`Z`. Part one sums, per
//! line, the first item of the first half that also lies in the second.
//! Part two sums, per triplet of lines, the first item common to all three.
use crate::text::{dec_str, lines_of, split_lines, u128_string};
use vstd::prelude::*;
use vstd::string::StringSliceAdditionalSpecFns;

verus! {

pub struct Day03;

/// Priority of an item byte; meaningful for bytes at 39 or above.
pub open spec fn priority_val(b: u8) -> u8 {
    if b >= 97 {
        (b - 96) as u8
    } else if b >= 39 {
        (b - 38) as u8
    } else {
        0
    }
}

/// Every byte of every line is at 39 or above, so every item has a priority.
pub open spec fn day03_wf(s: Seq<u8>) -> bool {
    forall|i: int, j: int|
        0 <= i < lines_of(s).len() && 0 <= j < lines_of(s)[i].len() ==> #[trigger] lines_of(
            s,
        )[i][j] >= 39
}

/// The priorities of a run of item bytes.
pub open spec fn prio_map(l: Seq<u8>) -> Seq<u8> {
    l.map_values(|b: u8| priority_val(b))
}

/// One parsed rucksack: the priorities of each half of the line.
pub open spec fn sack_of(l: Seq<u8>) -> (Seq<u8>, Seq<u8>) {
    let half = l.len() as int / 2;
    (prio_map(l.take(half)), prio_map(l.skip(half)))
}

/// The rucksacks of a sequence of lines.
pub open spec fn sacks_of_lines(ls: Seq<Seq<u8>>) -> Seq<(Seq<u8>, Seq<u8>)> {
    ls.map_values(|l: Seq<u8>| sack_of(l))
}

pub open spec fn sacks_of(s: Seq<u8>) -> Seq<(Seq<u8>, Seq<u8>)> {
    sacks_of_lines(lines_of(s))
}

/// The pair of views of a parsed rucksack vector.
pub open spec fn sacks_view(v: Seq<(Vec<u8>, Vec<u8>)>) -> Seq<(Seq<u8>, Seq<u8>)> {
    v.map_values(|p: (Vec<u8>, Vec<u8>)| (p.0@, p.1@))
}

/// First value of `a` (scanning from index `i`) that `b` contains, or 0.
pub open spec fn first_shared_from(a: Seq<u8>, b: Seq<u8>, i: int) -> int
    decreases a.len() - i,
{
    if i < 0 || i >= a.len() {
        0
    } else if b.contains(a[i]) {
        a[i] as int
    } else {
        first_shared_from(a, b, i + 1)
    }
}

/// The part-one value of one rucksack.
pub open spec fn shared_item(sack: (Seq<u8>, Seq<u8>)) -> int {
    first_shared_from(sack.0, sack.1, 0)
}

/// First value of `a` (from index `i`) contained in both `b` and `c`, or 0.
pub open spec fn first_common_from(a: Seq<u8>, b: Seq<u8>, c: Seq<u8>, i: int) -> int
    decreases a.len() - i,
{
    if i < 0 || i >= a.len() {
        0
    } else if b.contains(a[i]) && c.contains(a[i]) {
        a[i] as int
    } else {
        first_common_from(a, b, c, i + 1)
    }
}

/// The part-two value of one triplet of rucksacks: halves are recombined.
pub open spec fn group_item(g0: (Seq<u8>, Seq<u8>), g1: (Seq<u8>, Seq<u8>), g2: (Seq<u8>, Seq<u8>)) -> int {
    first_common_from(g0.0 + g0.1, g1.0 + g1.1, g2.0 + g2.1, 0)
}

pub open spec fn p1_sum(sacks: Seq<(Seq<u8>, Seq<u8>)>) -> int
    decreases sacks.len(),
{
    if sacks.len() == 0 {
        0
    } else {
        p1_sum(sacks.drop_last()) + shared_item(sacks.last())
    }
}

/// Sum over the complete triplets with index below `t`.
pub open spec fn p2_sum(sacks: Seq<(Seq<u8>, Seq<u8>)>, t: int) -> int
    decreases t,
{
    if t <= 0 {
        0
    } else {
        p2_sum(sacks, t - 1) + group_item(sacks[3 * (t - 1)], sacks[3 * (t - 1) + 1], sacks[3 * (t
            - 1) + 2])
    }
}

/// The part-one answer string.
pub open spec fn day03_p1(s: Seq<u8>) -> Seq<char> {
    dec_str(p1_sum(sacks_of(s)) as nat)
}

/// The part-two answer string.
pub open spec fn day03_p2(s: Seq<u8>) -> Seq<char> {
    dec_str(p2_sum(sacks_of(s), sacks_of(s).len() as int / 3) as nat)
}

/// Priority of one item byte.
pub fn to_priority(b: u8) -> (r: u8)
    requires
        b >= 39,
    ensures
        r == priority_val(b),
{
    if b >= 97 {
        b - 96
    } else {
        b - 38
    }
}

/// Whether `v` holds `x`.
fn vec_contains(v: &Vec<u8>, x: u8) -> (r: bool)
    ensures
        r == v@.contains(x),
{
    let n: usize = v.len();
    let mut i: usize = 0;
    while i < n
        invariant
            i <= n,
            n == v@.len(),
            forall|j: int| 0 <= j < i ==> v@[j] != x,
        decreases n - i,
    {
        if v[i] == x {
            return true;
        }
        i = i + 1;
    }
    false
}

/// The first item of the first half that the second half also holds, or 0.
pub fn find_matching_item(rucksack: &(Vec<u8>, Vec<u8>)) -> (r: u64)
    ensures
        r as int == shared_item((rucksack.0@, rucksack.1@)),
{
    let n: usize = rucksack.0.len();
    let mut i: usize = 0;
    while i < n
        invariant
            i <= n,
            n == rucksack.0@.len(),
            first_shared_from(rucksack.0@, rucksack.1@, 0) == first_shared_from(
                rucksack.0@,
                rucksack.1@,
                i as int,
            ),
        decreases n - i,
    {
        if vec_contains(&rucksack.1, rucksack.0[i]) {
            return rucksack.0[i] as u64;
        }
        i = i + 1;
    }
    0
}

/// Concatenates the two halves of a rucksack.
fn whole_sack(r: &(Vec<u8>, Vec<u8>)) -> (w: Vec<u8>)
    ensures
        w@ == r.0@ + r.1@,
{
    let mut w: Vec<u8> = Vec::new();
    let n0: usize = r.0.len();
    let mut i: usize = 0;
    while i < n0
        invariant
            i <= n0,
            n0 == r.0@.len(),
            w@ == r.0@.take(i as int),
        decreases n0 - i,
    {
        w.push(r.0[i]);
        proof {
            assert(r.0@.take(i as int).push(r.0@[i as int]) =~= r.0@.take(i + 1));
        }
        i = i + 1;
    }
    let n1: usize = r.1.len();
    let mut j: usize = 0;
    while j < n1
        invariant
            j <= n1,
            n1 == r.1@.len(),
            n0 == r.0@.len(),
            w@ == r.0@.take(n0 as int) + r.1@.take(j as int),
        decreases n1 - j,
    {
        w.push(r.1[j]);
        proof {
            assert((r.0@.take(n0 as int) + r.1@.take(j as int)).push(r.1@[j as int]) =~= r.0@.take(
                n0 as int,
            ) + r.1@.take(j + 1));
        }
        j = j + 1;
    }
    proof {
        assert(r.0@.take(n0 as int) =~= r.0@);
        assert(r.1@.take(n1 as int) =~= r.1@);
    }
    w
}

/// The first item of the first rucksack common to all three, or 0.
pub fn find_group_item(group: &[(Vec<u8>, Vec<u8>)]) -> (r: u64)
    requires
        group@.len() == 3,
    ensures
        r as int == group_item(
            (group@[0].0@, group@[0].1@),
            (group@[1].0@, group@[1].1@),
            (group@[2].0@, group@[2].1@),
        ),
{
    let w0 = whole_sack(&group[0]);
    let w1 = whole_sack(&group[1]);
    let w2 = whole_sack(&group[2]);
    let n: usize = w0.len();
    let mut i: usize = 0;
    while i < n
        invariant
            i <= n,
            n == w0@.len(),
            w0@ == group@[0].0@ + group@[0].1@,
            w1@ == group@[1].0@ + group@[1].1@,
            w2@ == group@[2].0@ + group@[2].1@,
            group@.len() == 3,
            first_common_from(w0@, w1@, w2@, 0) == first_common_from(w0@, w1@, w2@, i as int),
        decreases n - i,
    {
        if vec_contains(&w1, w0[i]) && vec_contains(&w2, w0[i]) {
            return w0[i] as u64;
        }
        i = i + 1;
    }
    0
}

impl Day03 {
    /// Parses each line into the priorities of its two halves; `None` when a
    /// byte below 39 occurs anywhere.
    pub fn parse_input(input: &str) -> (r: Option<Vec<(Vec<u8>, Vec<u8>)>>)
        ensures
            r is Some <==> day03_wf(input.spec_bytes()),
            r is Some ==> sacks_view((r->0)@) == sacks_of(input.spec_bytes()),
    {
        let bytes = input.as_bytes();
        let lines = split_lines(bytes);
        let ghost ls = lines_of(input.spec_bytes());
        let n: usize = lines.len();
        let mut out: Vec<(Vec<u8>, Vec<u8>)> = Vec::new();
        proof {
            assert(sacks_view(out@) =~= sacks_of_lines(ls.take(0)));
        }
        let mut i: usize = 0;
        while i < n
            invariant
                i <= n,
                n == lines@.len(),
                lines.deep_view() == ls,
                ls == lines_of(input.spec_bytes()),
                sacks_view(out@) == sacks_of_lines(ls.take(i as int)),
                forall|a: int, j: int|
                    0 <= a < i && 0 <= j < ls[a].len() ==> #[trigger] ls[a][j] >= 39,
            decreases n - i,
        {
            let line = &lines[i];
            proof {
                assert(line.deep_view() == ls[i as int]);
                assert(line@ =~= ls[i as int]);
            }
            let ll: usize = line.len();
            let half: usize = ll / 2;
            let mut first: Vec<u8> = Vec::new();
            let mut second: Vec<u8> = Vec::new();
            let mut j: usize = 0;
            while j < ll
                invariant
                    j <= ll,
                    ll == line@.len(),
                    half == ll as int / 2,
                    line@ == ls[i as int],
                    ls == lines_of(input.spec_bytes()),
                    0 <= i < ls.len(),
                    forall|k: int| 0 <= k < j ==> line@[k] >= 39,
                    first@ == prio_map(line@.take(if j < half {
                        j as int
                    } else {
                        half as int
                    })),
                    second@ == prio_map(line@.subrange(half as int, if j > half {
                        j as int
                    } else {
                        half as int
                    })),
                decreases ll - j,
            {
                let b = line[j];
                if b < 39 {
                    proof {
                        assert(lines_of(input.spec_bytes())[i as int][j as int] < 39);
                        assert(!day03_wf(input.spec_bytes()));
                    }
                    return None;
                }
                let p = to_priority(b);
                if j < half {
                    first.push(p);
                    proof {
                        assert(prio_map(line@.take(j + 1)) =~= prio_map(line@.take(j as int)).push(
                            priority_val(line@[j as int]),
                        ));
                    }
                } else {
                    second.push(p);
                    proof {
                        assert(prio_map(line@.subrange(half as int, j + 1)) =~= prio_map(
                            line@.subrange(half as int, j as int),
                        ).push(priority_val(line@[j as int])));
                    }
                }
                j = j + 1;
            }
            let ghost pre = out@;
            let ghost fv = first@;
            let ghost sv2 = second@;
            let pair = (first, second);
            let ghost gp = pair;
            out.push(pair);
            proof {
                if ll > 0 {
                    assert(line@.take(ll as int) =~= line@);
                }
                assert(line@.take(half as int) =~= line@.take(line@.len() as int / 2));
                assert(line@.subrange(half as int, ll as int) =~= line@.skip(
                    line@.len() as int / 2,
                ));
                assert(fv == sack_of(line@).0 && sv2 == sack_of(line@).1) by {
                    if half == ll {
                        assert(line@.take(ll as int) =~= line@.take(half as int));
                        assert(line@.subrange(half as int, half as int) =~= line@.subrange(
                            half as int,
                            ll as int,
                        ));
                    }
                }
                assert(sacks_view(out@) =~= sacks_of_lines(ls.take(i + 1))) by {
                    assert(out@ == pre.push(gp));
                    assert(gp.0@ == fv && gp.1@ == sv2);
                    assert(pre.len() == i as int) by {
                        assert(sacks_view(pre).len() == pre.len());
                        assert(sacks_of_lines(ls.take(i as int)).len() == ls.take(
                            i as int,
                        ).len());
                    }
                    assert forall|k: int| 0 <= k < i + 1 implies sacks_view(out@)[k]
                        == sacks_of_lines(ls.take(i + 1))[k] by {
                        assert(ls.take(i + 1)[k] == ls[k]);
                        if k < i {
                            assert(sacks_view(pre)[k] == sacks_of_lines(ls.take(i as int))[k]);
                            assert(ls.take(i as int)[k] == ls[k]);
                        } else {
                            assert(out@[k] == gp);
                            assert(sacks_view(out@)[k] == (fv, sv2));
                        }
                    }
                }
            }
            i = i + 1;
        }
        proof {
            assert(ls.take(n as int) =~= ls);
            assert(day03_wf(input.spec_bytes())) by {
                assert forall|a: int, j: int|
                    0 <= a < ls.len() && 0 <= j < ls[a].len() implies #[trigger] ls[a][j] >= 39 by {
                }
            }
            assert(sacks_view(out@) == sacks_of_lines(ls));
        }
        Some(out)
    }

    /// Part one: sum of the shared item of every rucksack.
    pub fn part_one(sacks: &Vec<(Vec<u8>, Vec<u8>)>) -> (r: String)
        ensures
            r@ == dec_str(p1_sum(sacks_view(sacks@)) as nat),
    {
        let ghost sv = sacks_view(sacks@);
        let n: usize = sacks.len();
        let mut sum: u128 = 0;
        let mut i: usize = 0;
        while i < n
            invariant
                i <= n,
                n == sacks@.len(),
                sv == sacks_view(sacks@),
                sum as int == p1_sum(sv.take(i as int)),
                sum as int <= i * 0xffff_ffff_ffff_ffff,
            decreases n - i,
        {
            let v = find_matching_item(&sacks[i]);
            proof {
                assert(sv[i as int] == (sacks@[i as int].0@, sacks@[i as int].1@));
                assert(sv.take(i + 1).drop_last() =~= sv.take(i as int));
                assert(sv.take(i + 1).last() == sv[i as int]);
                assert((i as int) * 0xffff_ffff_ffff_ffff + 0xffff_ffff_ffff_ffff == (i + 1)
                    * 0xffff_ffff_ffff_ffff) by (nonlinear_arith);
                assert((i + 1) * 0xffff_ffff_ffff_ffff <= (usize::MAX as int)
                    * 0xffff_ffff_ffff_ffff) by (nonlinear_arith)
                    requires
                        0 <= i + 1 <= usize::MAX as int,
                ;
            }
            sum = sum + (v as u128);
            i = i + 1;
        }
        proof {
            assert(sv.take(n as int) =~= sv);
        }
        u128_string(sum)
    }

    /// Part two: sum of the common item of every complete triplet.
    pub fn part_two(sacks: &Vec<(Vec<u8>, Vec<u8>)>) -> (r: String)
        ensures
            r@ == dec_str(p2_sum(sacks_view(sacks@), sacks@.len() as int / 3) as nat),
    {
        let ghost sv = sacks_view(sacks@);
        let n: usize = sacks.len();
        let groups: usize = n / 3;
        let mut sum: u128 = 0;
        let mut t: usize = 0;
        while t < groups
            invariant
                t <= groups,
                n == sacks@.len(),
                groups == n as int / 3,
                sv == sacks_view(sacks@),
                sum as int == p2_sum(sv, t as int),
                sum as int <= t * 0xffff_ffff_ffff_ffff,
            decreases groups - t,
        {
            proof {
                assert(3 * (t as int) + 2 < n) by (nonlinear_arith)
                    requires
                        t < groups,
                        groups == n as int / 3,
                        n >= 0,
                ;
            }
            let base: usize = 3 * t;
            let g0 = whole_sack(&sacks[base]);
            let g1 = whole_sack(&sacks[base + 1]);
            let g2 = whole_sack(&sacks[base + 2]);
            let n0: usize = g0.len();
            let mut k: usize = 0;
            let mut item: u64 = 0;
            let mut found: bool = false;
            while k < n0
                invariant_except_break
                    k <= n0,
                    n0 == g0@.len(),
                    !found,
                    item == 0,
                    first_common_from(g0@, g1@, g2@, 0) == first_common_from(
                        g0@,
                        g1@,
                        g2@,
                        k as int,
                    ),
                ensures
                    item as int == first_common_from(g0@, g1@, g2@, 0),
                decreases n0 - k,
            {
                if vec_contains(&g1, g0[k]) && vec_contains(&g2, g0[k]) {
                    item = g0[k] as u64;
                    found = true;
                    break;
                }
                k = k + 1;
            }
            proof {
                assert(sv[base as int] == (sacks@[base as int].0@, sacks@[base as int].1@));
                assert(sv[base + 1] == (sacks@[base + 1].0@, sacks@[base + 1].1@));
                assert(sv[base + 2] == (sacks@[base + 2].0@, sacks@[base + 2].1@));
                assert(item as int == group_item(sv[3 * (t as int)], sv[3 * (t as int) + 1], sv[3 * (
                t as int) + 2]));
                assert((t as int) * 0xffff_ffff_ffff_ffff + 0xffff_ffff_ffff_ffff == (t + 1)
                    * 0xffff_ffff_ffff_ffff) by (nonlinear_arith);
                assert((t + 1) * 0xffff_ffff_ffff_ffff <= (usize::MAX as int)
                    * 0xffff_ffff_ffff_ffff) by (nonlinear_arith)
                    requires
                        0 <= t + 1 <= usize::MAX as int,
                ;
            }
            sum = sum + (item as u128);
            t = t + 1;
        }
        u128_string(sum)
    }

    /// Runs both parts over one parse; with the flag set, part one is skipped
    /// and reported as "0". Empty input reports "0" for both parts.
    pub fn solve(input: &str, only_part_two: bool) -> (r: (String, String))
        requires
            input.spec_bytes().len() == 0 || day03_wf(input.spec_bytes()),
        ensures
            r.0@ == if input.spec_bytes().len() == 0 || only_part_two {
                dec_str(0)
            } else {
                day03_p1(input.spec_bytes())
            },
            r.1@ == if input.spec_bytes().len() == 0 {
                dec_str(0)
            } else {
                day03_p2(input.spec_bytes())
            },
    {
        if input.as_bytes().len() == 0 {
            return (u128_string(0), u128_string(0));
        }
        match Self::parse_input(input) {
            Some(sacks) => {
                let p2 = Self::part_two(&sacks);
                let p1 = if only_part_two {
                    u128_string(0)
                } else {
                    Self::part_one(&sacks)
                };
                (p1, p2)
            },
            None => {
                proof {
                    assert(false);
                }
                (u128_string(0), u128_string(0))
            },
        }
    }

    /// Part one alone, from raw input.
    pub fn solve_part_one(input: &str) -> (r: String)
        requires
            input.spec_bytes().len() == 0 || day03_wf(input.spec_bytes()),
        ensures
            r@ == if input.spec_bytes().len() == 0 {
                dec_str(0)
            } else {
                day03_p1(input.spec_bytes())
            },
    {
        let (p1, _p2) = Self::solve(input, false);
        p1
    }

    /// Part two alone, from raw input.
    pub fn solve_part_two(input: &str) -> (r: String)
        requires
            input.spec_bytes().len() == 0 || day03_wf(input.spec_bytes()),
        ensures
            r@ == if input.spec_bytes().len() == 0 {
                dec_str(0)
            } else {
                day03_p2(input.spec_bytes())
            },
    {
        let (_p1, p2) = Self::solve(input, true);
        p2
    }
}

proof fn lemma_first_shared_from_unique(a: Seq<u8>, b: Seq<u8>, p: u8, i: int)
    requires
        0 <= i <= a.len(),
        exists|j: int| i <= j < a.len() && #[trigger] a[j] == p,
        b.contains(p),
        forall|q: u8| a.contains(q) && b.contains(q) ==> q == p,
    ensures
        first_shared_from(a, b, i) == p as int,
    decreases a.len() - i,
{
    let j = choose|j: int| i <= j < a.len() && #[trigger] a[j] == p;
    if b.contains(a[i]) {
        assert(a.contains(a[i]));
        assert(a[i] == p);
    } else {
        assert(a[i] != p);
        assert(i < j);
        lemma_first_shared_from_unique(a, b, p, i + 1);
    }
}

/// When exactly one item value is shared between the two halves of a
/// rucksack, the rucksack's part-one value is that item's priority. This is
/// the per-line statement behind the rucksack sum: on inputs where every
/// shared item is single, the sum adds exactly those priorities.
pub proof fn lemma_shared_item_unique(sack: (Seq<u8>, Seq<u8>), p: u8)
    requires
        sack.0.contains(p),
        sack.1.contains(p),
        forall|q: u8| sack.0.contains(q) && sack.1.contains(q) ==> q == p,
    ensures
        shared_item(sack) == p as int,
{
    let j = choose|j: int| 0 <= j < sack.0.len() && #[trigger] sack.0[j] == p;
    lemma_first_shared_from_unique(sack.0, sack.1, p, 0);
}

proof fn lemma_first_common_from_unique(a: Seq<u8>, b: Seq<u8>, c: Seq<u8>, p: u8, i: int)
    requires
        0 <= i <= a.len(),
        exists|j: int| i <= j < a.len() && #[trigger] a[j] == p,
        b.contains(p),
        c.contains(p),
        forall|q: u8| a.contains(q) && b.contains(q) && c.contains(q) ==> q == p,
    ensures
        first_common_from(a, b, c, i) == p as int,
    decreases a.len() - i,
{
    let j = choose|j: int| i <= j < a.len() && #[trigger] a[j] == p;
    if b.contains(a[i]) && c.contains(a[i]) {
        assert(a.contains(a[i]));
        assert(a[i] == p);
    } else {
        assert(a[i] != p);
        assert(i < j);
        lemma_first_common_from_unique(a, b, c, p, i + 1);
    }
}

/// When exactly one item value is common to all three rucksacks of a group,
/// the group's part-two value is that item's priority. This is the
/// per-triplet statement behind the badge sum.
pub proof fn lemma_group_item_unique(
    g0: (Seq<u8>, Seq<u8>),
    g1: (Seq<u8>, Seq<u8>),
    g2: (Seq<u8>, Seq<u8>),
    p: u8,
)
    requires
        (g0.0 + g0.1).contains(p),
        (g1.0 + g1.1).contains(p),
        (g2.0 + g2.1).contains(p),
        forall|q: u8|
            (g0.0 + g0.1).contains(q) && (g1.0 + g1.1).contains(q) && (g2.0 + g2.1).contains(q)
                ==> q == p,
    ensures
        group_item(g0, g1, g2) == p as int,
{
    let a = g0.0 + g0.1;
    let j = choose|j: int| 0 <= j < a.len() && #[trigger] a[j] == p;
    lemma_first_common_from_unique(a, g1.0 + g1.1, g2.0 + g2.1, p, 0);
}


} // verus!
