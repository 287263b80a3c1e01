//! Crate stacks. The first eight lines draw nine stacks of one-letter crates
//! (columns 1, 5, ..., 33); lines after the tenth are `move Q from O to D`
//! instructions, applied crate by crate (each move reverses the crates it
//! carries). The answer is the top crate of each nonempty stack, in order.
//! Part two always answers "0".
use crate::text::{
    all_digits, chars_of, dec_str, dec_val, is_ws, lines_of, parse_dec, split_lines, split_ws,
    string_from_ascii, tokens_of, u128_string,
};
use vstd::prelude::*;
use vstd::string::StringSliceAdditionalSpecFns;

verus! {

pub struct Day05;

/// One `move Q from O to D` instruction.
pub struct CrateMove {
    pub quantity: usize,
    pub orig: usize,
    pub dest: usize,
}

/// The nine crate stacks, bottom first.
pub struct CrateStacks {
    pub stacks: Vec<Vec<u8>>,
}

/// The parsed puzzle: the drawing and the instruction list.
pub struct Puzzle {
    pub instructions: Vec<CrateMove>,
    pub stacks: CrateStacks,
}

/// Nine empty stacks.
pub open spec fn empty9() -> Seq<Seq<u8>> {
    Seq::new(9, |i: int| Seq::<u8>::empty())
}

/// Adds one drawing row to the stacks, reading columns `4*i + 1`; a byte at
/// 128 or above is malformed, whitespace means no crate in that column.
pub open spec fn add_layer(st: Seq<Seq<u8>>, layer: Seq<u8>, i: int) -> Option<Seq<Seq<u8>>>
    decreases 9 - i,
{
    if i < 0 || i >= 9 {
        Some(st)
    } else {
        let idx = 4 * i + 1;
        if idx >= layer.len() {
            add_layer(st, layer, i + 1)
        } else if layer[idx] >= 128 {
            None
        } else if is_ws(layer[idx]) {
            add_layer(st, layer, i + 1)
        } else {
            add_layer(st.update(i, st[i].push(layer[idx])), layer, i + 1)
        }
    }
}

/// Builds the stacks from the drawing rows, bottom row first.
pub open spec fn apply_layers(rows: Seq<Seq<u8>>) -> Option<Seq<Seq<u8>>>
    decreases rows.len(),
{
    if rows.len() == 0 {
        Some(empty9())
    } else {
        match apply_layers(rows.drop_first()) {
            Some(st) => add_layer(st, rows.first(), 0),
            None => None,
        }
    }
}

/// The drawing: the first eight lines (or all of them, when fewer).
pub open spec fn drawing_rows(ls: Seq<Seq<u8>>) -> Seq<Seq<u8>> {
    ls.take(
        if ls.len() < 8 {
            ls.len() as int
        } else {
            8
        },
    )
}

pub open spec fn stacks0(s: Seq<u8>) -> Option<Seq<Seq<u8>>> {
    apply_layers(drawing_rows(lines_of(s)))
}

pub open spec fn is_move_kw(t: Seq<u8>) -> bool {
    t.len() == 4 && t[0] == 109 && t[1] == 111 && t[2] == 118 && t[3] == 101
}

pub open spec fn is_from_kw(t: Seq<u8>) -> bool {
    t.len() == 4 && t[0] == 102 && t[1] == 114 && t[2] == 111 && t[3] == 109
}

pub open spec fn is_to_kw(t: Seq<u8>) -> bool {
    t.len() == 2 && t[0] == 116 && t[1] == 111
}

/// Parses one instruction line: exactly the six whitespace-separated tokens
/// `move Q from O to D`, with `O` and `D` between 1 and 9.
pub open spec fn line_move(l: Seq<u8>) -> Option<(int, int, int)> {
    let ts = tokens_of(l);
    if ts.len() == 6 && is_move_kw(ts[0]) && is_from_kw(ts[2]) && is_to_kw(ts[4]) && ts[1].len() > 0
        && all_digits(ts[1]) && dec_val(ts[1]) <= usize::MAX && ts[3].len() > 0 && all_digits(
        ts[3],
    ) && 1 <= dec_val(ts[3]) <= 9 && ts[5].len() > 0 && all_digits(ts[5]) && 1 <= dec_val(ts[5])
        <= 9 {
        Some((dec_val(ts[1]), dec_val(ts[3]), dec_val(ts[5])))
    } else {
        None
    }
}

/// Folds the instruction lines (from index `i`) into a move list.
pub open spec fn moves_rec(ls: Seq<Seq<u8>>, i: int, acc: Seq<(int, int, int)>) -> Option<
    Seq<(int, int, int)>,
>
    decreases ls.len() - i,
{
    if i < 0 {
        None
    } else if i >= ls.len() {
        Some(acc)
    } else {
        match line_move(ls[i]) {
            Some(m) => moves_rec(ls, i + 1, acc.push(m)),
            None => None,
        }
    }
}

/// The instruction list: every line from the eleventh on.
pub open spec fn moves_of(s: Seq<u8>) -> Option<Seq<(int, int, int)>> {
    moves_rec(lines_of(s), 10, Seq::empty())
}

/// Moves one crate from stack `o` to stack `d` (1-based); a move from an
/// empty stack does nothing.
pub open spec fn one_move(st: Seq<Seq<u8>>, o: int, d: int) -> Seq<Seq<u8>> {
    if st[o - 1].len() > 0 {
        let v = st[o - 1].last();
        let st1 = st.update(o - 1, st[o - 1].drop_last());
        st1.update(d - 1, st1[d - 1].push(v))
    } else {
        st
    }
}

/// Moves `q` crates one at a time.
pub open spec fn do_move(st: Seq<Seq<u8>>, q: int, o: int, d: int) -> Seq<Seq<u8>>
    decreases q,
{
    if q <= 0 {
        st
    } else {
        do_move(one_move(st, o, d), q - 1, o, d)
    }
}

/// Applies every instruction in order.
pub open spec fn run_moves(st: Seq<Seq<u8>>, ms: Seq<(int, int, int)>) -> Seq<Seq<u8>>
    decreases ms.len(),
{
    if ms.len() == 0 {
        st
    } else {
        run_moves(do_move(st, ms.first().0, ms.first().1, ms.first().2), ms.drop_first())
    }
}

/// The top crate of each nonempty stack from index `i` on, in order.
pub open spec fn tops_from(st: Seq<Seq<u8>>, i: int) -> Seq<u8>
    decreases 9 - i,
{
    if i < 0 || i >= 9 {
        Seq::empty()
    } else if st[i].len() > 0 {
        seq![st[i].last()] + tops_from(st, i + 1)
    } else {
        tops_from(st, i + 1)
    }
}

pub open spec fn day05_wf(s: Seq<u8>) -> bool {
    stacks0(s) is Some && moves_of(s) is Some
}

/// The part-one answer string: the tops after running every move.
pub open spec fn day05_p1(s: Seq<u8>) -> Seq<char> {
    chars_of(tops_from(run_moves(stacks0(s)->0, moves_of(s)->0), 0))
}

/// Nine stacks of bytes below 128.
pub open spec fn stacks_wf(st: Seq<Seq<u8>>) -> bool {
    st.len() == 9 && forall|i: int, j: int|
        0 <= i < 9 && 0 <= j < st[i].len() ==> #[trigger] st[i][j] < 128
}

/// A move whose source and destination name one of the nine stacks.
pub open spec fn move_wf(m: &CrateMove) -> bool {
    1 <= m.orig <= 9 && 1 <= m.dest <= 9
}

pub open spec fn moves_view(v: Seq<CrateMove>) -> Seq<(int, int, int)> {
    v.map_values(|m: CrateMove| (m.quantity as int, m.orig as int, m.dest as int))
}

proof fn lemma_one_move_wf(st: Seq<Seq<u8>>, o: int, d: int)
    requires
        stacks_wf(st),
        1 <= o <= 9,
        1 <= d <= 9,
    ensures
        stacks_wf(one_move(st, o, d)),
{
    if st[o - 1].len() > 0 {
        let v = st[o - 1].last();
        let st1 = st.update(o - 1, st[o - 1].drop_last());
        let st2 = st1.update(d - 1, st1[d - 1].push(v));
        assert forall|i: int, j: int|
            0 <= i < 9 && 0 <= j < st2[i].len() implies #[trigger] st2[i][j] < 128 by {
            if i == d - 1 {
                if j < st1[d - 1].len() {
                    assert(st2[i][j] == st1[d - 1][j]);
                } else {
                    assert(st2[i][j] == v);
                }
            }
        }
    }
}

impl CrateStacks {
    /// Moves a single crate from stack `from` to stack `to`.
    pub fn _single_move(&mut self, from: usize, to: usize)
        requires
            stacks_wf(old(self).stacks.deep_view()),
            1 <= from <= 9,
            1 <= to <= 9,
        ensures
            final(self).stacks.deep_view() == one_move(old(self).stacks.deep_view(), from as int, to as int),
            stacks_wf(final(self).stacks.deep_view()),
    {
        let ghost st0 = self.stacks.deep_view();
        proof {
            assert(self.stacks@.len() == 9) by {
                assert(st0.len() == self.stacks@.len());
            }
            lemma_one_move_wf(st0, from as int, to as int);
        }
        let from_stack = &mut self.stacks[from - 1];
        let popped = from_stack.pop();
        match popped {
            Some(v) => {
                let ghost st_mid = self.stacks.deep_view();
                let to_stack = &mut self.stacks[to - 1];
                to_stack.push(v);
                proof {
                    assert(st0[from - 1].len() > 0);
                    assert(v == st0[from - 1].last());
                    assert(st_mid =~~= st0.update(from - 1, st0[from - 1].drop_last()));
                    assert(self.stacks.deep_view() =~~= st_mid.update(
                        to - 1,
                        st_mid[to - 1].push(v),
                    ));
                }
            },
            None => {
                proof {
                    assert(st0[from - 1].len() == 0);
                    assert(self.stacks.deep_view() =~~= st0);
                }
            },
        }
    }

    /// Applies one instruction, crate by crate.
    pub fn move_crates(&mut self, instruction: &CrateMove)
        requires
            stacks_wf(old(self).stacks.deep_view()),
            move_wf(instruction),
        ensures
            final(self).stacks.deep_view() == do_move(
                old(self).stacks.deep_view(),
                instruction.quantity as int,
                instruction.orig as int,
                instruction.dest as int,
            ),
            stacks_wf(final(self).stacks.deep_view()),
    {
        let ghost st0 = self.stacks.deep_view();
        let q = instruction.quantity;
        let mut t: usize = 0;
        while t < q
            invariant
                t <= q,
                move_wf(instruction),
                stacks_wf(self.stacks.deep_view()),
                do_move(self.stacks.deep_view(), q - t, instruction.orig as int, instruction.dest as int)
                    == do_move(st0, q as int, instruction.orig as int, instruction.dest as int),
            decreases q - t,
        {
            self._single_move(instruction.orig, instruction.dest);
            t = t + 1;
        }
    }
}

impl Puzzle {
    /// Applies every instruction in order.
    pub fn execute_instructions(&mut self)
        requires
            stacks_wf(old(self).stacks.stacks.deep_view()),
            forall|k: int|
                0 <= k < old(self).instructions@.len() ==> move_wf(&old(self).instructions@[k]),
        ensures
            final(self).stacks.stacks.deep_view() == run_moves(
                old(self).stacks.stacks.deep_view(),
                moves_view(old(self).instructions@),
            ),
            stacks_wf(final(self).stacks.stacks.deep_view()),
            final(self).instructions@ == old(self).instructions@,
    {
        let ghost st0 = self.stacks.stacks.deep_view();
        let ghost ms = moves_view(self.instructions@);
        proof {
            assert(ms.skip(0) =~= ms);
        }
        let n: usize = self.instructions.len();
        let mut k: usize = 0;
        while k < n
            invariant
                k <= n,
                n == self.instructions@.len(),
                self.instructions@ == old(self).instructions@,
                ms == moves_view(self.instructions@),
                forall|j: int| 0 <= j < n ==> move_wf(&self.instructions@[j]),
                stacks_wf(self.stacks.stacks.deep_view()),
                run_moves(self.stacks.stacks.deep_view(), ms.skip(k as int)) == run_moves(st0, ms),
            decreases n - k,
        {
            let q = self.instructions[k].quantity;
            let o = self.instructions[k].orig;
            let d = self.instructions[k].dest;
            let m = CrateMove { quantity: q, orig: o, dest: d };
            proof {
                assert(move_wf(&self.instructions@[k as int]));
                assert(ms[k as int] == (q as int, o as int, d as int));
            }
            self.stacks.move_crates(&m);
            proof {
                assert(ms.skip(k as int).first() == ms[k as int]);
                assert(ms.skip(k as int).drop_first() =~= ms.skip(k + 1));
            }
            k = k + 1;
        }
        proof {
            assert(ms.skip(n as int) =~= Seq::<(int, int, int)>::empty());
        }
    }

    /// The top crate of each nonempty stack, left to right.
    pub fn top_crates(&self) -> (r: String)
        requires
            stacks_wf(self.stacks.stacks.deep_view()),
        ensures
            r@ == chars_of(tops_from(self.stacks.stacks.deep_view(), 0)),
    {
        let ghost st = self.stacks.stacks.deep_view();
        let mut out: Vec<u8> = Vec::new();
        let mut i: usize = 0;
        while i < 9
            invariant
                i <= 9,
                st == self.stacks.stacks.deep_view(),
                stacks_wf(st),
                tops_from(st, 0) == out@ + tops_from(st, i as int),
                forall|j: int| 0 <= j < out@.len() ==> #[trigger] out@[j] < 128,
            decreases 9 - i,
        {
            let stack = &self.stacks.stacks[i];
            proof {
                assert(stack.deep_view() == st[i as int]);
                assert(stack@ =~= st[i as int]);
            }
            if stack.len() > 0 {
                let top = stack[stack.len() - 1];
                let ghost pre = out@;
                out.push(top);
                proof {
                    assert(out@ =~= pre.push(top));
                    assert(pre + (seq![st[i as int].last()] + tops_from(st, i + 1)) =~= pre.push(
                        top,
                    ) + tops_from(st, i + 1));
                }
            }
            i = i + 1;
        }
        proof {
            assert(tops_from(st, 9) =~= Seq::<u8>::empty());
            assert(out@ + Seq::<u8>::empty() =~= out@);
        }
        string_from_ascii(out)
    }
}

/// The fixed part-two answer.
pub open spec fn day05_p2(s: Seq<u8>) -> Seq<char> {
    dec_str(0)
}

proof fn lemma_apply_layers_none_prefix(rows: Seq<Seq<u8>>, j: int)
    requires
        0 <= j <= rows.len(),
        apply_layers(rows.skip(j)) is None,
    ensures
        apply_layers(rows) is None,
    decreases j,
{
    if j == 0 {
        assert(rows.skip(0) =~= rows);
    } else {
        assert(rows.skip(j - 1).drop_first() =~= rows.skip(j));
        lemma_apply_layers_none_prefix(rows, j - 1);
    }
}

/// Whether `t` is the token `move`.
fn tok_move(t: &Vec<u8>) -> (r: bool)
    ensures
        r == is_move_kw(t@),
{
    t.len() == 4 && t[0] == 109 && t[1] == 111 && t[2] == 118 && t[3] == 101
}

/// Whether `t` is the token `from`.
fn tok_from(t: &Vec<u8>) -> (r: bool)
    ensures
        r == is_from_kw(t@),
{
    t.len() == 4 && t[0] == 102 && t[1] == 114 && t[2] == 111 && t[3] == 109
}

/// Whether `t` is the token `to`.
fn tok_to(t: &Vec<u8>) -> (r: bool)
    ensures
        r == is_to_kw(t@),
{
    t.len() == 2 && t[0] == 116 && t[1] == 111
}

impl Day05 {
    /// Parses the drawing and the instruction list; `None` when a crate cell
    /// is not ASCII or an instruction line is malformed.
    pub fn parse_input(input: &str) -> (r: Option<Puzzle>)
        ensures
            r is Some <==> day05_wf(input.spec_bytes()),
            r is Some ==> {
                &&& (r->0).stacks.stacks.deep_view() == stacks0(input.spec_bytes())->0
                &&& moves_view((r->0).instructions@) == moves_of(input.spec_bytes())->0
                &&& stacks_wf((r->0).stacks.stacks.deep_view())
                &&& forall|k: int|
                    0 <= k < (r->0).instructions@.len() ==> move_wf(&(r->0).instructions@[k])
            },
    {
        let bytes = input.as_bytes();
        let lines = split_lines(bytes);
        let ghost ls = lines_of(input.spec_bytes());
        let n: usize = lines.len();
        let rc: usize = if n < 8 {
            n
        } else {
            8
        };
        let ghost rows = drawing_rows(ls);
        let mut stacks: Vec<Vec<u8>> = Vec::new();
        let mut e: usize = 0;
        while e < 9
            invariant
                e <= 9,
                stacks@.len() == e,
                forall|i: int| 0 <= i < e ==> (#[trigger] stacks@[i])@.len() == 0,
            decreases 9 - e,
        {
            stacks.push(Vec::new());
            e = e + 1;
        }
        proof {
            assert(stacks.deep_view() =~~= empty9());
            assert(rows.skip(rc as int) =~= Seq::<Seq<u8>>::empty());
        }
        let mut jj: usize = rc;
        while jj > 0
            invariant
                jj <= rc,
                rc <= n <= 8 || rc == 8,
                rc as int == rows.len(),
                n == lines@.len(),
                lines.deep_view() == ls,
                ls == lines_of(input.spec_bytes()),
                rows == drawing_rows(ls),
                apply_layers(rows.skip(jj as int)) == Some(stacks.deep_view()),
                stacks_wf(stacks.deep_view()),
            decreases jj,
        {
            let layer = &lines[jj - 1];
            proof {
                assert(layer.deep_view() == ls[jj - 1]);
                assert(layer@ =~= ls[jj - 1]);
                assert(rows[jj - 1] == ls[jj - 1]);
            }
            let ghost st_start = stacks.deep_view();
            let mut i: usize = 0;
            while i < 9
                invariant
                    i <= 9,
                    layer@ == rows[jj - 1],
                    0 < jj <= rows.len(),
                    rows == drawing_rows(ls),
                    ls == lines_of(input.spec_bytes()),
                    rows.len() <= ls.len(),
                    apply_layers(rows.skip(jj as int)) == Some(st_start),
                    add_layer(st_start, layer@, 0) == add_layer(stacks.deep_view(), layer@, i as int),
                    stacks_wf(stacks.deep_view()),
                decreases 9 - i,
            {
                let idx: usize = 4 * i + 1;
                if idx < layer.len() {
                    let b = layer[idx];
                    if b >= 128 {
                        proof {
                            assert(add_layer(stacks.deep_view(), layer@, i as int) is None);
                            assert(apply_layers(rows.skip(jj - 1)) is None) by {
                                assert(rows.skip(jj - 1).drop_first() =~= rows.skip(jj as int));
                                assert(rows.skip(jj - 1).first() == rows[jj - 1]);
                            }
                            lemma_apply_layers_none_prefix(rows, jj - 1);
                            assert(stacks0(input.spec_bytes()) is None);
                        }
                        return None;
                    }
                    if !(b == 9 || b == 10 || b == 13 || b == 32) {
                        let ghost st_pre = stacks.deep_view();
                        let si = &mut stacks[i];
                        si.push(b);
                        proof {
                            assert(stacks.deep_view() =~~= st_pre.update(
                                i as int,
                                st_pre[i as int].push(b),
                            ));
                            assert(stacks_wf(stacks.deep_view())) by {
                                assert forall|x: int, y: int|
                                    0 <= x < 9 && 0 <= y < stacks.deep_view()[x].len()
                                    implies #[trigger] stacks.deep_view()[x][y] < 128 by {
                                    if x == i && y == st_pre[x].len() {
                                        assert(stacks.deep_view()[x][y] == b);
                                    } else {
                                        assert(stacks.deep_view()[x][y] == st_pre[x][y]);
                                    }
                                }
                            }
                        }
                    }
                }
                i = i + 1;
            }
            proof {
                assert(apply_layers(rows.skip(jj - 1)) == Some(stacks.deep_view())) by {
                    assert(rows.skip(jj - 1).drop_first() =~= rows.skip(jj as int));
                    assert(rows.skip(jj - 1).first() == rows[jj - 1]);
                }
            }
            jj = jj - 1;
        }
        proof {
            assert(rows.skip(0) =~= rows);
        }
        let mut instructions: Vec<CrateMove> = Vec::new();
        proof {
            assert(moves_view(instructions@) =~= Seq::<(int, int, int)>::empty());
        }
        let mut i: usize = 10;
        if n > 10 {
            while i < n
                invariant
                    10 <= i <= n,
                    n == lines@.len(),
                    lines.deep_view() == ls,
                    ls == lines_of(input.spec_bytes()),
                    moves_rec(ls, 10, Seq::empty()) == moves_rec(
                        ls,
                        i as int,
                        moves_view(instructions@),
                    ),
                    forall|k: int|
                        0 <= k < instructions@.len() ==> move_wf(&instructions@[k]),
                decreases n - i,
            {
                let line = &lines[i];
                proof {
                    assert(line.deep_view() == ls[i as int]);
                    assert(line@ =~= ls[i as int]);
                }
                let toks = split_ws(line.as_slice());
                let ghost ts = tokens_of(line@);
                let ok: bool = toks.len() == 6 && tok_move(&toks[0]) && tok_from(&toks[2])
                    && tok_to(&toks[4]);
                proof {
                    if toks@.len() == 6 {
                        assert(toks[0].deep_view() == ts[0]);
                        assert(toks[2].deep_view() == ts[2]);
                        assert(toks[4].deep_view() == ts[4]);
                        assert(toks@[0]@ =~= ts[0]);
                        assert(toks@[2]@ =~= ts[2]);
                        assert(toks@[4]@ =~= ts[4]);
                    }
                }
                if !ok {
                    proof {
                        assert(line_move(ls[i as int]) is None);
                    }
                    return None;
                }
                proof {
                    assert(toks[1].deep_view() == ts[1]);
                    assert(toks[3].deep_view() == ts[3]);
                    assert(toks[5].deep_view() == ts[5]);
                    assert(toks@[1]@ =~= ts[1]);
                    assert(toks@[3]@ =~= ts[3]);
                    assert(toks@[5]@ =~= ts[5]);
                    assert(toks@[1]@.skip(0) =~= ts[1]);
                    assert(toks@[3]@.skip(0) =~= ts[3]);
                    assert(toks@[5]@.skip(0) =~= ts[5]);
                }
                let q_opt = parse_dec(toks[1].as_slice(), 0, usize::MAX as u128);
                let o_opt = parse_dec(toks[3].as_slice(), 0, 9);
                let d_opt = parse_dec(toks[5].as_slice(), 0, 9);
                match (q_opt, o_opt, d_opt) {
                    (Some(q), Some(o), Some(d)) => {
                        if o < 1 || d < 1 {
                            proof {
                                assert(line_move(ls[i as int]) is None);
                            }
                            return None;
                        }
                        let m = CrateMove {
                            quantity: q as usize,
                            orig: o as usize,
                            dest: d as usize,
                        };
                        let ghost gm = m;
                        let ghost pre = instructions@;
                        instructions.push(m);
                        proof {
                            assert(line_move(ls[i as int]) == Some(
                                (q as int, o as int, d as int),
                            ));
                            assert(instructions@ == pre.push(gm));
                            assert(moves_view(instructions@) =~= moves_view(pre).push(
                                (q as int, o as int, d as int),
                            ));
                        }
                    },
                    _ => {
                        proof {
                            assert(line_move(ls[i as int]) is None);
                        }
                        return None;
                    },
                }
                i = i + 1;
            }
        }
        proof {
            assert(moves_rec(ls, if n > 10 {
                n as int
            } else {
                10
            }, moves_view(instructions@)) == Some(moves_view(instructions@)));
        }
        Some(Puzzle { instructions, stacks: CrateStacks { stacks } })
    }

    /// Part one: run every instruction, then read the stack tops.
    pub fn part_one(p: &mut Puzzle) -> (r: String)
        requires
            stacks_wf(old(p).stacks.stacks.deep_view()),
            forall|k: int|
                0 <= k < old(p).instructions@.len() ==> move_wf(&old(p).instructions@[k]),
        ensures
            r@ == chars_of(
                tops_from(
                    run_moves(
                        old(p).stacks.stacks.deep_view(),
                        moves_view(old(p).instructions@),
                    ),
                    0,
                ),
            ),
    {
        p.execute_instructions();
        p.top_crates()
    }

    /// Part two always answers "0".
    pub fn part_two(_p: &Puzzle) -> (r: String)
        ensures
            r@ == dec_str(0),
    {
        u128_string(0)
    }

    /// Runs both parts over one parse; with the flag set, part one is skipped
    /// and reported as "0". Empty input reports "0" for both parts.
    pub fn solve(input: &str, only_part_two: bool) -> (r: (String, String))
        requires
            input.spec_bytes().len() == 0 || day05_wf(input.spec_bytes()),
        ensures
            r.0@ == if input.spec_bytes().len() == 0 || only_part_two {
                dec_str(0)
            } else {
                day05_p1(input.spec_bytes())
            },
            r.1@ == dec_str(0),
    {
        if input.as_bytes().len() == 0 {
            return (u128_string(0), u128_string(0));
        }
        match Self::parse_input(input) {
            Some(puzzle) => {
                let mut puzzle = puzzle;
                let p2 = Self::part_two(&puzzle);
                let p1 = if only_part_two {
                    u128_string(0)
                } else {
                    Self::part_one(&mut puzzle)
                };
                (p1, p2)
            },
            None => {
                proof {
                    assert(false);
                }
                (u128_string(0), u128_string(0))
            },
        }
    }

    /// Part one alone, from raw input.
    pub fn solve_part_one(input: &str) -> (r: String)
        requires
            input.spec_bytes().len() == 0 || day05_wf(input.spec_bytes()),
        ensures
            r@ == if input.spec_bytes().len() == 0 {
                dec_str(0)
            } else {
                day05_p1(input.spec_bytes())
            },
    {
        let (p1, _p2) = Self::solve(input, false);
        p1
    }

    /// Part two alone: always "0".
    pub fn solve_part_two(input: &str) -> (r: String)
        requires
            input.spec_bytes().len() == 0 || day05_wf(input.spec_bytes()),
        ensures
            r@ == dec_str(0),
    {
        let (_p1, p2) = Self::solve(input, true);
        p2
    }
}


} // verus!
