//! Rope simulation. Each input line is a direction and a distance, expanded
//! into unit head moves. After every head move each knot follows its
//! predecessor: it stays put when already in the predecessor's 3-by-3
//! neighbourhood, else it moves one step toward it on each differing axis.
//! The answer is the number of distinct positions the tail visits, with 2
//! knots for part one and 10 for part two.
use crate::text::{dec_str, int_val, lines_of, parse_int, split_lines, split_ws, tokens_of, u128_string};
use vstd::prelude::*;
use vstd::string::StringSliceAdditionalSpecFns;

verus! {

pub struct Day09;

/// A unit head move.
#[derive(Clone, Copy, Debug, PartialEq, Eq)]
pub enum MoveInstruction {
    Up,
    Down,
    Left,
    Right,
}

/// The direction named by a one-byte token.
pub open spec fn dir_of(t: Seq<u8>) -> Option<MoveInstruction> {
    if t.len() == 1 && t[0] == 85 {
        Some(MoveInstruction::Up)
    } else if t.len() == 1 && t[0] == 68 {
        Some(MoveInstruction::Down)
    } else if t.len() == 1 && t[0] == 76 {
        Some(MoveInstruction::Left)
    } else if t.len() == 1 && t[0] == 82 {
        Some(MoveInstruction::Right)
    } else {
        None
    }
}

/// The unit offset of a direction.
pub open spec fn offset(d: MoveInstruction) -> (int, int) {
    match d {
        MoveInstruction::Up => (0, 1),
        MoveInstruction::Down => (0, -1),
        MoveInstruction::Left => (-1, 0),
        MoveInstruction::Right => (1, 0),
    }
}

/// Parses one line: a direction token and a distance, extra tokens ignored.
pub open spec fn line_dirs(l: Seq<u8>) -> Option<(MoveInstruction, int)> {
    let ts = tokens_of(l);
    if ts.len() >= 2 && dir_of(ts[0]) is Some && int_val(ts[1]) is Some && -0x7fff_ffff <= int_val(
        ts[1],
    )->0 <= 0x7fff_ffff {
        Some((dir_of(ts[0])->0, int_val(ts[1])->0))
    } else {
        None
    }
}

/// A direction repeated `max(d, 0)` times.
pub open spec fn repeat_dir(d: MoveInstruction, n: int) -> Seq<MoveInstruction> {
    Seq::new(
        if n > 0 {
            n as nat
        } else {
            0
        },
        |i: int| d,
    )
}

/// Folds the lines into the expanded unit-move list.
pub open spec fn moves_rec(ls: Seq<Seq<u8>>, i: int, acc: Seq<MoveInstruction>) -> Option<
    Seq<MoveInstruction>,
>
    decreases ls.len() - i,
{
    if i < 0 {
        None
    } else if i >= ls.len() {
        Some(acc)
    } else {
        match line_dirs(ls[i]) {
            Some(m) => moves_rec(ls, i + 1, acc + repeat_dir(m.0, m.1)),
            None => None,
        }
    }
}

pub open spec fn moves_of(s: Seq<u8>) -> Option<Seq<MoveInstruction>> {
    moves_rec(lines_of(s), 0, Seq::empty())
}

pub open spec fn day09_wf(s: Seq<u8>) -> bool {
    moves_of(s) is Some
}

/// Whether two knots are within one step of each other on both axes.
pub open spec fn touching_at(a: (int, int), b: (int, int)) -> bool {
    -1 <= a.0 - b.0 <= 1 && -1 <= a.1 - b.1 <= 1
}

pub open spec fn sign(d: int) -> int {
    if d > 0 {
        1
    } else if d < 0 {
        -1
    } else {
        0
    }
}

/// Where knot `k` ends up following its predecessor `pred`.
pub open spec fn follow(pred: (int, int), k: (int, int)) -> (int, int) {
    if touching_at(pred, k) {
        k
    } else {
        (k.0 + sign(pred.0 - k.0), k.1 + sign(pred.1 - k.1))
    }
}

/// Lets knots `i..` follow their predecessors in order.
pub open spec fn settle(ks: Seq<(int, int)>, i: int) -> Seq<(int, int)>
    decreases ks.len() - i,
{
    if i < 1 || i >= ks.len() {
        ks
    } else {
        settle(ks.update(i, follow(ks[i - 1], ks[i])), i + 1)
    }
}

/// One head move followed by the whole rope settling.
pub open spec fn rope_step(ks: Seq<(int, int)>, d: MoveInstruction) -> Seq<(int, int)> {
    settle(ks.update(0, (ks[0].0 + offset(d).0, ks[0].1 + offset(d).1)), 1)
}

/// All knots start at the origin.
pub open spec fn init_knots(n: int) -> Seq<(int, int)> {
    Seq::new(
        if n > 0 {
            n as nat
        } else {
            0
        },
        |i: int| (0int, 0int),
    )
}

/// The rope after a sequence of unit moves.
pub open spec fn knots_after(ms: Seq<MoveInstruction>, n: int) -> Seq<(int, int)>
    decreases ms.len(),
{
    if ms.len() == 0 {
        init_knots(n)
    } else {
        rope_step(knots_after(ms.drop_last(), n), ms.last())
    }
}

/// The tail position after every prefix of the moves.
pub open spec fn tail_trace(ms: Seq<MoveInstruction>, n: int) -> Seq<(int, int)> {
    Seq::new(ms.len() + 1, |i: int| knots_after(ms.take(i), n).last())
}

/// How many entries of `s` differ from every earlier entry.
pub open spec fn count_new(s: Seq<(int, int)>) -> int
    decreases s.len(),
{
    if s.len() == 0 {
        0
    } else {
        count_new(s.drop_last()) + if s.drop_last().contains(s.last()) {
            0int
        } else {
            1int
        }
    }
}

/// The part-one answer string: distinct tail positions of a 2-knot rope.
pub open spec fn day09_p1(s: Seq<u8>) -> Seq<char> {
    dec_str(count_new(tail_trace(moves_of(s)->0, 2)) as nat)
}

/// The part-two answer string: distinct tail positions of a 10-knot rope.
pub open spec fn day09_p2(s: Seq<u8>) -> Seq<char> {
    dec_str(count_new(tail_trace(moves_of(s)->0, 10)) as nat)
}

/// Every consecutive pair of knots is touching.
pub open spec fn all_touching(ks: Seq<(int, int)>) -> bool {
    forall|i: int| 0 <= i < ks.len() - 1 ==> touching_at(#[trigger] ks[i], ks[i + 1])
}

/// A knot that follows a predecessor at most two steps away on each axis
/// ends up touching it.
pub proof fn lemma_follow_touching(pred: (int, int), k: (int, int))
    requires
        -2 <= pred.0 - k.0 <= 2,
        -2 <= pred.1 - k.1 <= 2,
    ensures
        touching_at(pred, follow(pred, k)),
{
}

proof fn lemma_settle_touching(ks: Seq<(int, int)>, i: int)
    requires
        1 <= i <= ks.len(),
        forall|j: int| 0 <= j < i - 1 ==> touching_at(#[trigger] ks[j], ks[j + 1]),
        i < ks.len() ==> -2 <= ks[i - 1].0 - ks[i].0 <= 2 && -2 <= ks[i - 1].1 - ks[i].1 <= 2,
        forall|j: int| i <= j < ks.len() - 1 ==> touching_at(#[trigger] ks[j], ks[j + 1]),
    ensures
        all_touching(settle(ks, i)),
    decreases ks.len() - i,
{
    if i >= ks.len() {
    } else {
        let f = follow(ks[i - 1], ks[i]);
        let ks1 = ks.update(i, f);
        lemma_follow_touching(ks[i - 1], ks[i]);
        assert(touching_at(ks1[i - 1], ks1[i]));
        assert forall|j: int| 0 <= j < i ==> touching_at(#[trigger] ks1[j], ks1[j + 1]) by {}
        if i + 1 < ks.len() {
            assert(touching_at(ks[i], ks[i + 1]));
            assert(-2 <= ks1[i].0 - ks1[i + 1].0 <= 2 && -2 <= ks1[i].1 - ks1[i + 1].1 <= 2);
        }
        lemma_settle_touching(ks1, i + 1);
    }
}

/// After a head move and the settling that follows it, the head and the first
/// knot are touching, and so is every later consecutive pair.
pub proof fn lemma_rope_step_adjacent(ks: Seq<(int, int)>, d: MoveInstruction)
    requires
        ks.len() >= 1,
        all_touching(ks),
    ensures
        all_touching(rope_step(ks, d)),
{
    let h = (ks[0].0 + offset(d).0, ks[0].1 + offset(d).1);
    let ks1 = ks.update(0, h);
    if ks.len() > 1 {
        assert(touching_at(ks[0], ks[1]));
        assert(-2 <= ks1[0].0 - ks1[1].0 <= 2 && -2 <= ks1[0].1 - ks1[1].1 <= 2);
        assert forall|j: int| 1 <= j < ks1.len() - 1 implies touching_at(
            #[trigger] ks1[j],
            ks1[j + 1],
        ) by {
            assert(touching_at(ks[j], ks[j + 1]));
        }
    }
    lemma_settle_touching(ks1, 1);
}

/// After every prefix of the moves, every consecutive pair of knots of the
/// rope, the head and the first knot included, is touching.
pub proof fn lemma_trace_adjacent(ms: Seq<MoveInstruction>, n: int)
    requires
        n >= 1,
    ensures
        all_touching(knots_after(ms, n)),
    decreases ms.len(),
{
    if ms.len() == 0 {
        assert forall|i: int| 0 <= i < n - 1 implies touching_at(
            #[trigger] init_knots(n)[i],
            init_knots(n)[i + 1],
        ) by {}
    } else {
        lemma_trace_adjacent(ms.drop_last(), n);
        assert(knots_after(ms.drop_last(), n).len() == n) by {
            lemma_knots_len(ms.drop_last(), n);
        }
        lemma_rope_step_adjacent(knots_after(ms.drop_last(), n), ms.last());
    }
}

proof fn lemma_settle_len(ks: Seq<(int, int)>, i: int)
    ensures
        settle(ks, i).len() == ks.len(),
    decreases ks.len() - i,
{
    if 1 <= i < ks.len() {
        lemma_settle_len(ks.update(i, follow(ks[i - 1], ks[i])), i + 1);
    }
}

pub proof fn lemma_knots_len(ms: Seq<MoveInstruction>, n: int)
    requires
        n >= 1,
    ensures
        knots_after(ms, n).len() == n,
    decreases ms.len(),
{
    if ms.len() > 0 {
        lemma_knots_len(ms.drop_last(), n);
        lemma_settle_len(
            knots_after(ms.drop_last(), n).update(
                0,
                (
                    knots_after(ms.drop_last(), n)[0].0 + offset(ms.last()).0,
                    knots_after(ms.drop_last(), n)[0].1 + offset(ms.last()).1,
                ),
            ),
            1,
        );
    }
}

impl MoveInstruction {
    /// The direction named by a one-letter token.
    pub fn from_str(s: &str) -> (r: Option<MoveInstruction>)
        ensures
            r == dir_of(s.spec_bytes()),
    {
        let b = s.as_bytes();
        if b.len() != 1 {
            return None;
        }
        if b[0] == 85 {
            Some(MoveInstruction::Up)
        } else if b[0] == 68 {
            Some(MoveInstruction::Down)
        } else if b[0] == 76 {
            Some(MoveInstruction::Left)
        } else if b[0] == 82 {
            Some(MoveInstruction::Right)
        } else {
            None
        }
    }

    /// The unit offset of this direction.
    pub fn to_vector(&self) -> (r: (i64, i64))
        ensures
            (r.0 as int, r.1 as int) == offset(*self),
    {
        match self {
            MoveInstruction::Up => (0, 1),
            MoveInstruction::Down => (0, -1),
            MoveInstruction::Left => (-1, 0),
            MoveInstruction::Right => (1, 0),
        }
    }
}

/// The integer values of a vector of positions.
pub open spec fn pts_view(v: Seq<(i128, i128)>) -> Seq<(int, int)> {
    v.map_values(|p: (i128, i128)| (p.0 as int, p.1 as int))
}

/// Whether `v` holds the position `p`.
fn contains_pair(v: &Vec<(i128, i128)>, p: (i128, i128)) -> (r: bool)
    ensures
        r == pts_view(v@).contains((p.0 as int, p.1 as int)),
{
    let n: usize = v.len();
    let mut i: usize = 0;
    while i < n
        invariant
            i <= n,
            n == v@.len(),
            forall|j: int| 0 <= j < i ==> pts_view(v@)[j] != (p.0 as int, p.1 as int),
        decreases n - i,
    {
        if v[i].0 == p.0 && v[i].1 == p.1 {
            proof {
                assert(pts_view(v@)[i as int] == (p.0 as int, p.1 as int));
            }
            return true;
        }
        proof {
            assert(pts_view(v@)[i as int] == (v@[i as int].0 as int, v@[i as int].1 as int));
        }
        i = i + 1;
    }
    proof {
        if pts_view(v@).contains((p.0 as int, p.1 as int)) {
            let j = choose|j: int|
                0 <= j < pts_view(v@).len() && pts_view(v@)[j] == (p.0 as int, p.1 as int);
            assert(pts_view(v@)[j] != (p.0 as int, p.1 as int));
        }
    }
    false
}

/// The direction of a one-byte token.
fn dir_from_bytes(t: &Vec<u8>) -> (r: Option<MoveInstruction>)
    ensures
        r == dir_of(t@),
{
    if t.len() != 1 {
        return None;
    }
    if t[0] == 85 {
        Some(MoveInstruction::Up)
    } else if t[0] == 68 {
        Some(MoveInstruction::Down)
    } else if t[0] == 76 {
        Some(MoveInstruction::Left)
    } else if t[0] == 82 {
        Some(MoveInstruction::Right)
    } else {
        None
    }
}


proof fn lemma_seen_push(pre: Seq<(int, int)>, sv: Seq<(int, int)>, tr1: Seq<(int, int)>, tr2: Seq<(int, int)>, x: (int, int))
    requires
        forall|p: (int, int)| pre.contains(p) <==> tr1.contains(p),
        tr2.drop_last() == tr1,
        tr2.last() == x,
        sv == pre.push(x),
        tr2.len() >= 1,
    ensures
        forall|p: (int, int)| sv.contains(p) <==> tr2.contains(p),
{
    assert forall|p: (int, int)| sv.contains(p) <==> tr2.contains(p) by {
        if sv.contains(p) {
            let j = choose|j: int| 0 <= j < sv.len() && #[trigger] sv[j] == p;
            if j < pre.len() {
                assert(pre[j] == p);
                assert(pre.contains(p));
                let k = choose|k: int| 0 <= k < tr1.len() && #[trigger] tr1[k] == p;
                assert(tr2[k] == p);
            } else {
                assert(tr2[tr2.len() - 1] == p);
            }
        }
        if tr2.contains(p) {
            let k = choose|k: int| 0 <= k < tr2.len() && #[trigger] tr2[k] == p;
            if k < tr2.len() - 1 {
                assert(tr1[k] == p);
                assert(tr1.contains(p));
                let j = choose|j: int| 0 <= j < pre.len() && #[trigger] pre[j] == p;
                assert(sv[j] == p);
            } else {
                assert(sv[pre.len() as int] == p);
            }
        }
    }
}

proof fn lemma_seen_same(pre: Seq<(int, int)>, tr1: Seq<(int, int)>, tr2: Seq<(int, int)>, x: (int, int))
    requires
        forall|p: (int, int)| pre.contains(p) <==> tr1.contains(p),
        tr2.drop_last() == tr1,
        tr2.last() == x,
        tr1.contains(x),
        tr2.len() >= 1,
    ensures
        forall|p: (int, int)| pre.contains(p) <==> tr2.contains(p),
{
    assert forall|p: (int, int)| pre.contains(p) <==> tr2.contains(p) by {
        if pre.contains(p) {
            let k = choose|k: int| 0 <= k < tr1.len() && #[trigger] tr1[k] == p;
            assert(tr2[k] == p);
        }
        if tr2.contains(p) {
            let k = choose|k: int| 0 <= k < tr2.len() && #[trigger] tr2[k] == p;
            if k < tr2.len() - 1 {
                assert(tr1[k] == p);
                assert(tr1.contains(p));
            } else {
                assert(p == x);
            }
        }
    }
}

proof fn lemma_count_new_step(s: Seq<(int, int)>, k: int)
    requires
        0 <= k < s.len(),
    ensures
        count_new(s.take(k + 1)) == count_new(s.take(k)) + if s.take(k).contains(s[k]) {
            0int
        } else {
            1int
        },
{
    assert(s.take(k + 1).drop_last() =~= s.take(k));
    assert(s.take(k + 1).last() == s[k]);
}

/// Runs the rope over the moves and counts distinct tail positions.
fn run_rope(moves: &Vec<MoveInstruction>, n_knots: usize) -> (count: u128)
    requires
        1 <= n_knots,
        n_knots <= 10,
    ensures
        count as int == count_new(tail_trace(moves@, n_knots as int)),
{
    let ghost ms = moves@;
    let ghost n = n_knots as int;
    let ghost trace = tail_trace(ms, n);
    let mut knots: Vec<(i128, i128)> = Vec::new();
    let mut e: usize = 0;
    while e < n_knots
        invariant
            e <= n_knots,
            knots@.len() == e,
            forall|j: int| 0 <= j < e ==> knots@[j] == (0i128, 0i128),
        decreases n_knots - e,
    {
        knots.push((0, 0));
        e = e + 1;
    }
    proof {
        assert(pts_view(knots@) =~= init_knots(n));
        assert(ms.take(0) =~= Seq::<MoveInstruction>::empty());
        lemma_knots_len(ms.take(0), n);
    }
    let mut seen: Vec<(i128, i128)> = Vec::new();
    seen.push((0, 0));
    proof {
        assert(trace.len() == ms.len() + 1);
        assert(trace[0] == knots_after(ms.take(0), n).last());
        assert(init_knots(n)[n - 1] == (0int, 0int));
        assert(init_knots(n).last() == (0int, 0int));
        assert(trace.take(1).drop_last() =~= Seq::<(int, int)>::empty());
        assert(trace.take(1).last() == trace[0]);
        assert(!trace.take(1).drop_last().contains(trace.take(1).last()));
        assert(count_new(Seq::<(int, int)>::empty()) == 0);
        assert(count_new(trace.take(1)) == 1);
        assert(pts_view(seen@) =~= seq![(0int, 0int)]);
        assert forall|p: (int, int)| pts_view(seen@).contains(p) <==> trace.take(1).contains(
            p,
        ) by {
            if trace.take(1).contains(p) {
                assert(trace.take(1)[0] == p);
                assert(pts_view(seen@)[0] == p);
            }
            if pts_view(seen@).contains(p) {
                assert(pts_view(seen@)[0] == p);
                assert(trace.take(1)[0] == p);
            }
        }
    }
    let steps: usize = moves.len();
    let mut t: usize = 0;
    while t < steps
        invariant
            t <= steps,
            steps == ms.len(),
            moves@ == ms,
            n == n_knots as int,
            1 <= n_knots <= 10,
            trace == tail_trace(ms, n),
            knots@.len() == n_knots,
            pts_view(knots@) == knots_after(ms.take(t as int), n),
            forall|j: int|
                0 <= j < n ==> -(t as int) <= (#[trigger] knots@[j]).0 <= t as int && -(t as int)
                    <= knots@[j].1 <= t as int,
            seen@.len() as int == count_new(trace.take(t + 1)),
            forall|p: (int, int)| pts_view(seen@).contains(p) <==> trace.take(t + 1).contains(p),
        decreases steps - t,
    {
        let d = moves[t];
        let (dx, dy) = d.to_vector();
        let ghost ks0 = pts_view(knots@);
        let h = knots[0];
        let nh = (h.0 + dx as i128, h.1 + dy as i128);
        let e0 = &mut knots[0];
        *e0 = nh;
        let ghost ks1 = ks0.update(0, (ks0[0].0 + offset(d).0, ks0[0].1 + offset(d).1));
        proof {
            assert(pts_view(knots@) =~= ks1);
        }
        let mut i: usize = 1;
        while i < n_knots
            invariant
                1 <= i <= n_knots,
                knots@.len() == n_knots,
                n == n_knots as int,
                t < steps == ms.len(),
                settle(pts_view(knots@), i as int) == settle(ks1, 1),
                forall|j: int|
                    0 <= j < n ==> -(t as int) - 1 <= (#[trigger] knots@[j]).0 <= t as int + 1 && -(
                    t as int) - 1 <= knots@[j].1 <= t as int + 1,
            decreases n_knots - i,
        {
            let pred = knots[i - 1];
            let cur = knots[i];
            let ghost pre = pts_view(knots@);
            if !(pred.0 - cur.0 <= 1 && cur.0 - pred.0 <= 1 && pred.1 - cur.1 <= 1 && cur.1
                - pred.1 <= 1) {
                let sx: i128 = if pred.0 > cur.0 {
                    1
                } else if pred.0 < cur.0 {
                    -1
                } else {
                    0
                };
                let sy: i128 = if pred.1 > cur.1 {
                    1
                } else if pred.1 < cur.1 {
                    -1
                } else {
                    0
                };
                let nc = (cur.0 + sx, cur.1 + sy);
                let ei = &mut knots[i];
                *ei = nc;
                proof {
                    assert(pts_view(knots@) =~= pre.update(
                        i as int,
                        follow(pre[i - 1], pre[i as int]),
                    ));
                }
            } else {
                proof {
                    assert(pre.update(i as int, follow(pre[i - 1], pre[i as int])) =~= pre);
                }
            }
            i = i + 1;
        }
        proof {
            assert(settle(pts_view(knots@), n) == pts_view(knots@));
            assert(ms.take(t + 1).drop_last() =~= ms.take(t as int));
            assert(ms.take(t + 1).last() == ms[t as int]);
            assert(pts_view(knots@) == knots_after(ms.take(t + 1), n));
            lemma_knots_len(ms.take(t + 1), n);
        }
        let tail = knots[n_knots - 1];
        let already = contains_pair(&seen, tail);
        proof {
            assert(trace[t + 1] == knots_after(ms.take(t + 1), n).last());
            assert((tail.0 as int, tail.1 as int) == trace[t + 1]);
            assert(trace.take(t + 2).drop_last() =~= trace.take(t + 1));
            assert(trace.take(t + 2).last() == trace[t + 1]);
        }
        proof {
            lemma_count_new_step(trace, t + 1);
        }
        if !already {
            let ghost pre_seen = pts_view(seen@);
            seen.push(tail);
            proof {
                assert(pts_view(seen@) =~= pre_seen.push((tail.0 as int, tail.1 as int)));
                lemma_seen_push(
                    pre_seen,
                    pts_view(seen@),
                    trace.take(t + 1),
                    trace.take(t + 2),
                    trace[t + 1],
                );
            }
        } else {
            proof {
                lemma_seen_same(
                    pts_view(seen@),
                    trace.take(t + 1),
                    trace.take(t + 2),
                    trace[t + 1],
                );
            }
        }
        t = t + 1;
    }
    proof {
        assert(trace.take(steps + 1) =~= trace);
    }
    let c: usize = seen.len();
    c as u128
}

impl Day09 {
    /// Parses the move lines into the expanded unit-move list.
    pub fn parse_input(input: &str) -> (r: Option<Vec<MoveInstruction>>)
        ensures
            r is Some <==> day09_wf(input.spec_bytes()),
            r is Some ==> (r->0)@ == moves_of(input.spec_bytes())->0,
    {
        let bytes = input.as_bytes();
        let lines = split_lines(bytes);
        let ghost ls = lines_of(input.spec_bytes());
        let n: usize = lines.len();
        let mut out: Vec<MoveInstruction> = Vec::new();
        let mut i: usize = 0;
        while i < n
            invariant
                i <= n,
                n == lines@.len(),
                lines.deep_view() == ls,
                ls == lines_of(input.spec_bytes()),
                moves_rec(ls, 0, Seq::empty()) == moves_rec(ls, i as int, out@),
            decreases n - i,
        {
            let line = &lines[i];
            proof {
                assert(line.deep_view() == ls[i as int]);
                assert(line@ =~= ls[i as int]);
            }
            let toks = split_ws(line.as_slice());
            let ghost ts = tokens_of(line@);
            if toks.len() < 2 {
                proof {
                    assert(line_dirs(ls[i as int]) is None);
                }
                return None;
            }
            proof {
                assert(toks[0].deep_view() == ts[0]);
                assert(toks[1].deep_view() == ts[1]);
                assert(toks@[0]@ =~= ts[0]);
                assert(toks@[1]@ =~= ts[1]);
            }
            let dir_opt = dir_from_bytes(&toks[0]);
            let dist_opt = parse_int(toks[1].as_slice(), 0x7fff_ffff);
            match (dir_opt, dist_opt) {
                (Some(dir), Some(dist)) => {
                    let ghost pre = out@;
                    if dist > 0 {
                        let cnt: usize = dist as usize;
                        let mut k: usize = 0;
                        while k < cnt
                            invariant
                                k <= cnt,
                                out@ == pre + repeat_dir(dir, cnt as int).take(k as int),
                            decreases cnt - k,
                        {
                            out.push(dir);
                            proof {
                                assert(pre + repeat_dir(dir, cnt as int).take(k as int) + seq![dir]
                                    =~= pre + repeat_dir(dir, cnt as int).take(k + 1));
                            }
                            k = k + 1;
                        }
                        proof {
                            assert(repeat_dir(dir, cnt as int).take(cnt as int) =~= repeat_dir(
                                dir,
                                dist as int,
                            ));
                        }
                    } else {
                        proof {
                            assert(pre + repeat_dir(dir, dist as int) =~= pre);
                        }
                    }
                    proof {
                        assert(out@ == pre + repeat_dir(dir, dist as int));
                        assert(line_dirs(ls[i as int]) == Some((dir, dist as int)));
                    }
                },
                _ => {
                    proof {
                        assert(line_dirs(ls[i as int]) is None);
                    }
                    return None;
                },
            }
            i = i + 1;
        }
        Some(out)
    }

    /// Part one: distinct tail positions of a two-knot rope.
    pub fn part_one(moves: &Vec<MoveInstruction>) -> (r: String)
        ensures
            r@ == dec_str(count_new(tail_trace(moves@, 2)) as nat),
    {
        u128_string(run_rope(moves, 2))
    }

    /// Part two: distinct tail positions of a ten-knot rope.
    pub fn part_two(moves: &Vec<MoveInstruction>) -> (r: String)
        ensures
            r@ == dec_str(count_new(tail_trace(moves@, 10)) as nat),
    {
        u128_string(run_rope(moves, 10))
    }

    /// Runs both parts over one parse; with the flag set, part one is skipped
    /// and reported as "0". Empty input reports "0" for both parts.
    pub fn solve(input: &str, only_part_two: bool) -> (r: (String, String))
        requires
            input.spec_bytes().len() == 0 || day09_wf(input.spec_bytes()),
        ensures
            r.0@ == if input.spec_bytes().len() == 0 || only_part_two {
                dec_str(0)
            } else {
                day09_p1(input.spec_bytes())
            },
            r.1@ == if input.spec_bytes().len() == 0 {
                dec_str(0)
            } else {
                day09_p2(input.spec_bytes())
            },
    {
        if input.as_bytes().len() == 0 {
            return (u128_string(0), u128_string(0));
        }
        match Self::parse_input(input) {
            Some(moves) => {
                let p2 = Self::part_two(&moves);
                let p1 = if only_part_two {
                    u128_string(0)
                } else {
                    Self::part_one(&moves)
                };
                (p1, p2)
            },
            None => {
                proof {
                    assert(false);
                }
                (u128_string(0), u128_string(0))
            },
        }
    }

    /// Part one alone, from raw input.
    pub fn solve_part_one(input: &str) -> (r: String)
        requires
            input.spec_bytes().len() == 0 || day09_wf(input.spec_bytes()),
        ensures
            r@ == if input.spec_bytes().len() == 0 {
                dec_str(0)
            } else {
                day09_p1(input.spec_bytes())
            },
    {
        let (p1, _p2) = Self::solve(input, false);
        p1
    }

    /// Part two alone, from raw input.
    pub fn solve_part_two(input: &str) -> (r: String)
        requires
            input.spec_bytes().len() == 0 || day09_wf(input.spec_bytes()),
        ensures
            r@ == if input.spec_bytes().len() == 0 {
                dec_str(0)
            } else {
                day09_p2(input.spec_bytes())
            },
    {
        let (_p1, p2) = Self::solve(input, true);
        p2
    }
}


} // verus!
