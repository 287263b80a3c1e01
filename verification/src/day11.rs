//! Monkey in the middle. Eight fixed monkeys each hold a queue of worry
//! values. In a round, each monkey in index order inspects every item it
//! holds at the start of its turn: it applies its operation, reduces the
//! worry (divide by three in part one, reduce modulo the product of all test
//! divisors in part two), tests divisibility and throws the item to one of
//! two monkeys. The answer is the product of the two largest inspection
//! counts after 20 rounds (part one) or 10000 rounds (part two). All
//! arithmetic is checked: an overflowing run reports "0".
use crate::text::{dec_str, u128_string};
use vstd::prelude::*;
use vstd::string::StringSliceAdditionalSpecFns;

verus! {

pub struct Day11;

/// The product of the eight test divisors.
pub const MONKEY_MODULUS: u64 = 2 * 17 * 19 * 3 * 5 * 13 * 7 * 11;

/// A monkey's inspection operation.
#[derive(Clone, Copy, Debug, PartialEq, Eq, Structural)]
pub enum Operation {
    Add(u64),
    Mul(u64),
    Square,
}

/// One monkey: its item queue, operation, test divisor, the targets for a
/// passed and a failed test, and how many inspections it has made.
pub struct Monkey {
    pub items: Vec<u64>,
    pub operation: Operation,
    pub divisor: u64,
    pub true_dest: Option<usize>,
    pub false_dest: Option<usize>,
    pub inspections: u64,
}

/// The model of one monkey.
pub struct GM {
    pub items: Seq<u64>,
    pub op: Operation,
    pub div: u64,
    pub t: int,
    pub f: int,
    pub count: int,
}

/// The model of one monkey; an unset destination is -1.
pub open spec fn mview(m: &Monkey) -> GM {
    GM {
        items: m.items@,
        op: m.operation,
        div: m.divisor,
        t: match m.true_dest {
            Some(d) => d as int,
            None => -1,
        },
        f: match m.false_dest {
            Some(d) => d as int,
            None => -1,
        },
        count: m.inspections as int,
    }
}

/// The model of the whole arena.
pub open spec fn arena(ms: Seq<Monkey>) -> Seq<GM> {
    ms.map_values(|m: Monkey| mview(&m))
}

/// Destinations point into the arena, divisors are positive.
pub open spec fn arena_wf(st: Seq<GM>) -> bool {
    forall|i: int|
        0 <= i < st.len() ==> 0 <= (#[trigger] st[i]).t < st.len() && 0 <= st[i].f < st.len()
            && st[i].div > 0
}

/// The checked operation: `None` when the worry would overflow `u64`.
pub open spec fn op_apply(op: Operation, x: u64) -> Option<u64> {
    match op {
        Operation::Add(k) => if x + k <= u64::MAX {
            Some((x + k) as u64)
        } else {
            None
        },
        Operation::Mul(k) => if x * k <= u64::MAX {
            Some((x * k) as u64)
        } else {
            None
        },
        Operation::Square => if x * x <= u64::MAX {
            Some((x * x) as u64)
        } else {
            None
        },
    }
}

/// The worry reduction after an inspection.
pub open spec fn reduce(v: u64, p2: bool) -> u64 {
    if p2 {
        (v as int % (MONKEY_MODULUS as int)) as u64
    } else {
        v / 3
    }
}

/// One inspection on monkey `m`'s first item; `None` when the operation or
/// the inspection counter would overflow.
pub open spec fn inspect_gm(m: GM, p2: bool) -> Option<GM> {
    if m.items.len() == 0 {
        None
    } else {
        match op_apply(m.op, m.items[0]) {
            Some(w0) => if m.count < u64::MAX {
                Some(
                    GM {
                        items: m.items.update(0, reduce(w0, p2)),
                        count: m.count + 1,
                        ..m
                    },
                )
            } else {
                None
            },
            None => None,
        }
    }
}

/// The throw after an inspection: the first item leaves monkey `i` for the
/// destination its divisibility test picks.
pub open spec fn post_gm(st: Seq<GM>, i: int) -> Seq<GM> {
    let m = st[i];
    let w = m.items[0];
    let dest = if w as int % (m.div as int) == 0 {
        m.t
    } else {
        m.f
    };
    let st1 = st.update(i, GM { items: m.items.drop_first(), ..m });
    st1.update(dest, GM { items: st1[dest].items.push(w), ..st1[dest] })
}

/// One full handling of monkey `i`'s first item.
pub open spec fn throw_one(st: Seq<GM>, i: int, p2: bool) -> Option<Seq<GM>> {
    if 0 <= i < st.len() && st[i].items.len() > 0 {
        match inspect_gm(st[i], p2) {
            Some(m1) => Some(post_gm(st.update(i, m1), i)),
            None => None,
        }
    } else {
        None
    }
}

/// Monkey `i` handles `k` items in turn.
pub open spec fn monkey_turn(st: Seq<GM>, i: int, k: int, p2: bool) -> Option<Seq<GM>>
    decreases k,
{
    if k <= 0 {
        Some(st)
    } else {
        match throw_one(st, i, p2) {
            Some(st1) => monkey_turn(st1, i, k - 1, p2),
            None => None,
        }
    }
}

/// The monkeys from `i` on take their turns.
pub open spec fn round_from(st: Seq<GM>, i: int, p2: bool) -> Option<Seq<GM>>
    decreases st.len() - i,
{
    if i < 0 {
        None
    } else if i >= st.len() {
        Some(st)
    } else {
        match monkey_turn(st, i, st[i].items.len() as int, p2) {
            Some(st1) => if st1.len() == st.len() {
                round_from(st1, i + 1, p2)
            } else {
                None
            },
            None => None,
        }
    }
}

/// Runs `r` full rounds.
pub open spec fn run_rounds(st: Seq<GM>, r: int, p2: bool) -> Option<Seq<GM>>
    decreases r,
{
    if r <= 0 {
        Some(st)
    } else {
        match round_from(st, 0, p2) {
            Some(st1) => run_rounds(st1, r - 1, p2),
            None => None,
        }
    }
}

/// The two largest inspection counts, in order.
pub open spec fn top2_rec(st: Seq<GM>, t: (int, int)) -> (int, int)
    decreases st.len(),
{
    if st.len() == 0 {
        t
    } else {
        let prev = top2_rec(st.drop_last(), t);
        let c = st.last().count;
        if c >= prev.0 {
            (c, prev.0)
        } else if c >= prev.1 {
            (prev.0, c)
        } else {
            prev
        }
    }
}

/// The level of monkey business: the product of the two largest counts.
pub open spec fn monkey_business(st: Seq<GM>) -> int {
    let t = top2_rec(st, (0, 0));
    t.0 * t.1
}

/// The initial arena: the eight fixed monkeys.
pub open spec fn init_arena() -> Seq<GM> {
    seq![
        GM { items: seq![83u64, 62, 93], op: Operation::Mul(17), div: 2, t: 1, f: 6, count: 0 },
        GM { items: seq![90u64, 55], op: Operation::Add(1), div: 17, t: 6, f: 3, count: 0 },
        GM {
            items: seq![91u64, 78, 80, 97, 79, 88],
            op: Operation::Add(3),
            div: 19,
            t: 7,
            f: 5,
            count: 0,
        },
        GM {
            items: seq![64u64, 80, 83, 89, 59],
            op: Operation::Add(5),
            div: 3,
            t: 7,
            f: 2,
            count: 0,
        },
        GM { items: seq![98u64, 92, 99, 51], op: Operation::Square, div: 5, t: 0, f: 1, count: 0 },
        GM {
            items: seq![68u64, 57, 95, 85, 98, 75, 98, 75],
            op: Operation::Add(2),
            div: 13,
            t: 4,
            f: 0,
            count: 0,
        },
        GM { items: seq![74u64], op: Operation::Add(4), div: 7, t: 3, f: 2, count: 0 },
        GM {
            items: seq![68u64, 64, 60, 68, 87, 80, 82],
            op: Operation::Mul(19),
            div: 11,
            t: 4,
            f: 5,
            count: 0,
        },
    ]
}

/// The answer string for `r` rounds under the chosen reduction: the monkey
/// business of the finished run, or "0" when checked arithmetic overflows.
pub open spec fn day11_answer(r: int, p2: bool) -> Seq<char> {
    match run_rounds(init_arena(), r, p2) {
        Some(st) => dec_str(monkey_business(st) as nat),
        None => dec_str(0),
    }
}

pub open spec fn day11_p1() -> Seq<char> {
    day11_answer(20, false)
}

pub open spec fn day11_p2() -> Seq<char> {
    day11_answer(10000, true)
}

/// For any divisor of the chosen modulus, reducing the worry modulo the
/// modulus never changes the outcome of the divisibility test.
pub proof fn lemma_modulus_preserves_tests(x: int, d: int, m: int)
    requires
        d > 0,
        m > 0,
        m % d == 0,
    ensures
        ((x % m) % d == 0) <==> (x % d == 0),
{
    vstd::arithmetic::div_mod::lemma_fundamental_div_mod(m, d);
    assert(m == d * (m / d));
    vstd::arithmetic::div_mod::lemma_mod_mod(x, d, m / d);
}

impl Monkey {
    /// Builds a monkey with its destinations still unset.
    pub fn new_rc(items: Vec<u64>, operation: Operation, divisor: u64) -> (r: Monkey)
        ensures
            mview(&r) == (GM {
                items: items@,
                op: operation,
                div: divisor,
                t: -1,
                f: -1,
                count: 0,
            }),
    {
        Monkey { items, operation, divisor, true_dest: None, false_dest: None, inspections: 0 }
    }

    /// Sets the destination for a passed test.
    pub fn set_true_mk(&mut self, monkey: usize)
        ensures
            mview(final(self)) == (GM { t: monkey as int, ..mview(old(self)) }),
    {
        self.true_dest = Some(monkey);
    }

    /// Sets the destination for a failed test.
    pub fn set_false_mk(&mut self, monkey: usize)
        ensures
            mview(final(self)) == (GM { f: monkey as int, ..mview(old(self)) }),
    {
        self.false_dest = Some(monkey);
    }

    /// Receives a thrown item at the back of the queue.
    pub fn catch_item(&mut self, item: u64)
        ensures
            mview(final(self)) == (GM {
                items: mview(old(self)).items.push(item),
                ..mview(old(self))
            }),
    {
        self.items.push(item);
    }

    /// Whether the first item passes this monkey's divisibility test.
    pub fn test(&self) -> (r: bool)
        requires
            self.items@.len() > 0,
            self.divisor > 0,
        ensures
            r == (self.items@[0] as int % (self.divisor as int) == 0),
    {
        self.items[0] % self.divisor == 0
    }

    /// Part-one inspection: applies the operation to the first item, divides
    /// the worry by three, and counts the inspection. False on overflow.
    pub fn inspect(&mut self) -> (ok: bool)
        requires
            old(self).items@.len() > 0,
        ensures
            ok ==> Some(mview(final(self))) == inspect_gm(mview(old(self)), false),
            !ok ==> *final(self) == *old(self) && inspect_gm(mview(old(self)), false) is None,
    {
        let x = self.items[0];
        let w0 = match self.operation {
            Operation::Add(k) => x.checked_add(k),
            Operation::Mul(k) => x.checked_mul(k),
            Operation::Square => x.checked_mul(x),
        };
        match w0 {
            Some(w) => {
                if self.inspections == u64::MAX {
                    return false;
                }
                let e = &mut self.items[0];
                *e = w / 3;
                self.inspections = self.inspections + 1;
                proof {
                    assert(mview(self).items =~= mview(old(self)).items.update(
                        0,
                        reduce(w, false),
                    ));
                }
                true
            },
            None => false,
        }
    }

    /// Part-two inspection: the worry is reduced modulo the product of all
    /// divisors instead of divided by three.
    pub fn inspect_p2(&mut self) -> (ok: bool)
        requires
            old(self).items@.len() > 0,
        ensures
            ok ==> Some(mview(final(self))) == inspect_gm(mview(old(self)), true),
            !ok ==> *final(self) == *old(self) && inspect_gm(mview(old(self)), true) is None,
    {
        let x = self.items[0];
        let w0 = match self.operation {
            Operation::Add(k) => x.checked_add(k),
            Operation::Mul(k) => x.checked_mul(k),
            Operation::Square => x.checked_mul(x),
        };
        match w0 {
            Some(w) => {
                if self.inspections == u64::MAX {
                    return false;
                }
                let e = &mut self.items[0];
                *e = w % MONKEY_MODULUS;
                self.inspections = self.inspections + 1;
                proof {
                    assert(mview(self).items =~= mview(old(self)).items.update(
                        0,
                        reduce(w, true),
                    ));
                }
                true
            },
            None => false,
        }
    }

    /// Throws the already-inspected first item to the destination the test
    /// picks.
    pub fn post_inspection(monkeys: &mut Vec<Monkey>, i: usize)
        requires
            arena_wf(arena(old(monkeys)@)),
            i < old(monkeys)@.len(),
            old(monkeys)@[i as int].items@.len() > 0,
        ensures
            arena(final(monkeys)@) == post_gm(arena(old(monkeys)@), i as int),
            final(monkeys)@.len() == old(monkeys)@.len(),
            arena_wf(arena(final(monkeys)@)),
    {
        let ghost st0 = arena(monkeys@);
        proof {
            assert(arena(monkeys@).len() == monkeys@.len());
            assert(st0[i as int] == mview(&monkeys@[i as int]));
        }
        let test_passed = monkeys[i].test();
        let dest_opt = if test_passed {
            monkeys[i].true_dest
        } else {
            monkeys[i].false_dest
        };
        let mi = &mut monkeys[i];
        let item = mi.items.remove(0);
        proof {
            assert(mview(&monkeys@[i as int]).items =~= st0[i as int].items.drop_first());
            assert(arena(monkeys@) =~~= st0.update(
                i as int,
                GM { items: st0[i as int].items.drop_first(), ..st0[i as int] },
            ));
        }
        let ghost st1 = arena(monkeys@);
        match dest_opt {
            Some(d) => {
                let md = &mut monkeys[d];
                md.catch_item(item);
                proof {
                    assert(arena(monkeys@) =~~= st1.update(
                        d as int,
                        GM { items: st1[d as int].items.push(item), ..st1[d as int] },
                    ));
                    assert(arena(monkeys@) == post_gm(st0, i as int));
                    assert(arena_wf(arena(monkeys@))) by {
                        assert(forall|j: int|
                            0 <= j < arena(monkeys@).len() ==> (#[trigger] arena(monkeys@)[j]).t
                                == st0[j].t && arena(monkeys@)[j].f == st0[j].f && arena(
                                monkeys@,
                            )[j].div == st0[j].div);
                    }
                }
            },
            None => {
                proof {
                    assert(false);
                }
            },
        }
    }

    /// Handles one item of monkey `i` in part-one mode.
    pub fn handle_next_item(monkeys: &mut Vec<Monkey>, i: usize) -> (ok: bool)
        requires
            arena_wf(arena(old(monkeys)@)),
            i < old(monkeys)@.len(),
            old(monkeys)@[i as int].items@.len() > 0,
        ensures
            ok ==> Some(arena(final(monkeys)@)) == throw_one(arena(old(monkeys)@), i as int, false),
            !ok ==> throw_one(arena(old(monkeys)@), i as int, false) is None,
            final(monkeys)@.len() == old(monkeys)@.len(),
            arena_wf(arena(final(monkeys)@)),
    {
        let ghost st0 = arena(monkeys@);
        proof {
            assert(st0[i as int] == mview(&monkeys@[i as int]));
        }
        let mi = &mut monkeys[i];
        let ok = mi.inspect();
        proof {
            if ok {
                assert(arena(monkeys@) =~~= st0.update(i as int, mview(&monkeys@[i as int])));
            } else {
                assert(arena(monkeys@) =~~= st0);
            }
            assert(forall|j: int|
                0 <= j < arena(monkeys@).len() ==> (#[trigger] arena(monkeys@)[j]).t == st0[j].t
                    && arena(monkeys@)[j].f == st0[j].f && arena(monkeys@)[j].div == st0[j].div);
        }
        if !ok {
            return false;
        }
        Monkey::post_inspection(monkeys, i);
        true
    }

    /// Handles one item of monkey `i` in part-two mode.
    pub fn handle_next_item_p2(monkeys: &mut Vec<Monkey>, i: usize) -> (ok: bool)
        requires
            arena_wf(arena(old(monkeys)@)),
            i < old(monkeys)@.len(),
            old(monkeys)@[i as int].items@.len() > 0,
        ensures
            ok ==> Some(arena(final(monkeys)@)) == throw_one(arena(old(monkeys)@), i as int, true),
            !ok ==> throw_one(arena(old(monkeys)@), i as int, true) is None,
            final(monkeys)@.len() == old(monkeys)@.len(),
            arena_wf(arena(final(monkeys)@)),
    {
        let ghost st0 = arena(monkeys@);
        proof {
            assert(st0[i as int] == mview(&monkeys@[i as int]));
        }
        let mi = &mut monkeys[i];
        let ok = mi.inspect_p2();
        proof {
            if ok {
                assert(arena(monkeys@) =~~= st0.update(i as int, mview(&monkeys@[i as int])));
            } else {
                assert(arena(monkeys@) =~~= st0);
            }
            assert(forall|j: int|
                0 <= j < arena(monkeys@).len() ==> (#[trigger] arena(monkeys@)[j]).t == st0[j].t
                    && arena(monkeys@)[j].f == st0[j].f && arena(monkeys@)[j].div == st0[j].div);
        }
        if !ok {
            return false;
        }
        Monkey::post_inspection(monkeys, i);
        true
    }

    /// Monkey `i` takes its whole turn in part-one mode.
    pub fn handle_round(monkeys: &mut Vec<Monkey>, i: usize) -> (ok: bool)
        requires
            arena_wf(arena(old(monkeys)@)),
            i < old(monkeys)@.len(),
        ensures
            ok ==> Some(arena(final(monkeys)@)) == monkey_turn(
                arena(old(monkeys)@),
                i as int,
                old(monkeys)@[i as int].items@.len() as int,
                false,
            ),
            !ok ==> monkey_turn(
                arena(old(monkeys)@),
                i as int,
                old(monkeys)@[i as int].items@.len() as int,
                false,
            ) is None,
            final(monkeys)@.len() == old(monkeys)@.len(),
            arena_wf(arena(final(monkeys)@)),
    {
        let ghost st0 = arena(monkeys@);
        let k: usize = monkeys[i].items.len();
        proof {
            assert(st0[i as int] == mview(&monkeys@[i as int]));
        }
        let mut t: usize = 0;
        while t < k
            invariant
                t <= k,
                i < monkeys@.len(),
                monkeys@.len() == old(monkeys)@.len(),
                st0 == arena(old(monkeys)@),
                k as int == old(monkeys)@[i as int].items@.len(),
                arena_wf(arena(monkeys@)),
                monkey_turn(arena(monkeys@), i as int, k - t, false) == monkey_turn(
                    st0,
                    i as int,
                    k as int,
                    false,
                ),
                monkeys@[i as int].items@.len() >= k - t,
            decreases k - t,
        {
            let ghost stpre = arena(monkeys@);
            let ok = Monkey::handle_next_item(monkeys, i);
            if !ok {
                return false;
            }
            proof {
                lemma_throw_keeps_queue(stpre, arena(monkeys@), i as int, false);
            }
            t = t + 1;
        }
        true
    }

    /// Monkey `i` takes its whole turn in part-two mode.
    pub fn handle_round_p2(monkeys: &mut Vec<Monkey>, i: usize) -> (ok: bool)
        requires
            arena_wf(arena(old(monkeys)@)),
            i < old(monkeys)@.len(),
        ensures
            ok ==> Some(arena(final(monkeys)@)) == monkey_turn(
                arena(old(monkeys)@),
                i as int,
                old(monkeys)@[i as int].items@.len() as int,
                true,
            ),
            !ok ==> monkey_turn(
                arena(old(monkeys)@),
                i as int,
                old(monkeys)@[i as int].items@.len() as int,
                true,
            ) is None,
            final(monkeys)@.len() == old(monkeys)@.len(),
            arena_wf(arena(final(monkeys)@)),
    {
        let ghost st0 = arena(monkeys@);
        let k: usize = monkeys[i].items.len();
        proof {
            assert(st0[i as int] == mview(&monkeys@[i as int]));
        }
        let mut t: usize = 0;
        while t < k
            invariant
                t <= k,
                i < monkeys@.len(),
                monkeys@.len() == old(monkeys)@.len(),
                st0 == arena(old(monkeys)@),
                k as int == old(monkeys)@[i as int].items@.len(),
                arena_wf(arena(monkeys@)),
                monkey_turn(arena(monkeys@), i as int, k - t, true) == monkey_turn(
                    st0,
                    i as int,
                    k as int,
                    true,
                ),
                monkeys@[i as int].items@.len() >= k - t,
            decreases k - t,
        {
            let ghost stpre = arena(monkeys@);
            let ok = Monkey::handle_next_item_p2(monkeys, i);
            if !ok {
                return false;
            }
            proof {
                lemma_throw_keeps_queue(stpre, arena(monkeys@), i as int, true);
            }
            t = t + 1;
        }
        true
    }
}

/// A throw removes one item from the thrower and appends one elsewhere, so
/// the thrower keeps at least its remaining items.
proof fn lemma_throw_keeps_queue(st0: Seq<GM>, st1: Seq<GM>, i: int, p2: bool)
    requires
        0 <= i < st0.len(),
        arena_wf(st0),
        throw_one(st0, i, p2) == Some(st1),
    ensures
        st1.len() == st0.len(),
        st1[i].items.len() >= st0[i].items.len() - 1,
{
    let m1 = inspect_gm(st0[i], p2)->0;
    assert(m1.items.len() == st0[i].items.len());
    let sta = st0.update(i, m1);
    assert(st1 == post_gm(sta, i));
    let m = sta[i];
    let w = m.items[0];
    let dest = if w as int % (m.div as int) == 0 {
        m.t
    } else {
        m.f
    };
    let stb = sta.update(i, GM { items: m.items.drop_first(), ..m });
    assert(st1 == stb.update(dest, GM { items: stb[dest].items.push(w), ..stb[dest] }));
    assert(m.t == st0[i].t && m.f == st0[i].f);
    assert(0 <= dest < st0.len());
    if dest == i {
        assert(st1[i].items.len() == st0[i].items.len());
    } else {
        assert(st1[i].items.len() == st0[i].items.len() - 1);
    }
}


fn items0() -> (r: Vec<u64>)
    ensures
        r@ == seq![83u64, 62, 93],
{
    let mut v: Vec<u64> = Vec::new();
    v.push(83);
    v.push(62);
    v.push(93);
    proof {
        assert(v@ =~= seq![83u64, 62, 93]);
    }
    v
}

fn items1() -> (r: Vec<u64>)
    ensures
        r@ == seq![90u64, 55],
{
    let mut v: Vec<u64> = Vec::new();
    v.push(90);
    v.push(55);
    proof {
        assert(v@ =~= seq![90u64, 55]);
    }
    v
}

fn items2() -> (r: Vec<u64>)
    ensures
        r@ == seq![91u64, 78, 80, 97, 79, 88],
{
    let mut v: Vec<u64> = Vec::new();
    v.push(91);
    v.push(78);
    v.push(80);
    v.push(97);
    v.push(79);
    v.push(88);
    proof {
        assert(v@ =~= seq![91u64, 78, 80, 97, 79, 88]);
    }
    v
}

fn items3() -> (r: Vec<u64>)
    ensures
        r@ == seq![64u64, 80, 83, 89, 59],
{
    let mut v: Vec<u64> = Vec::new();
    v.push(64);
    v.push(80);
    v.push(83);
    v.push(89);
    v.push(59);
    proof {
        assert(v@ =~= seq![64u64, 80, 83, 89, 59]);
    }
    v
}

fn items4() -> (r: Vec<u64>)
    ensures
        r@ == seq![98u64, 92, 99, 51],
{
    let mut v: Vec<u64> = Vec::new();
    v.push(98);
    v.push(92);
    v.push(99);
    v.push(51);
    proof {
        assert(v@ =~= seq![98u64, 92, 99, 51]);
    }
    v
}

fn items5() -> (r: Vec<u64>)
    ensures
        r@ == seq![68u64, 57, 95, 85, 98, 75, 98, 75],
{
    let mut v: Vec<u64> = Vec::new();
    v.push(68);
    v.push(57);
    v.push(95);
    v.push(85);
    v.push(98);
    v.push(75);
    v.push(98);
    v.push(75);
    proof {
        assert(v@ =~= seq![68u64, 57, 95, 85, 98, 75, 98, 75]);
    }
    v
}

fn items6() -> (r: Vec<u64>)
    ensures
        r@ == seq![74u64],
{
    let mut v: Vec<u64> = Vec::new();
    v.push(74);
    proof {
        assert(v@ =~= seq![74u64]);
    }
    v
}

fn items7() -> (r: Vec<u64>)
    ensures
        r@ == seq![68u64, 64, 60, 68, 87, 80, 82],
{
    let mut v: Vec<u64> = Vec::new();
    v.push(68);
    v.push(64);
    v.push(60);
    v.push(68);
    v.push(87);
    v.push(80);
    v.push(82);
    proof {
        assert(v@ =~= seq![68u64, 64, 60, 68, 87, 80, 82]);
    }
    v
}

/// Builds the eight fixed monkeys with their destinations wired up.
pub fn create_monkeys() -> (r: Vec<Monkey>)
    ensures
        arena(r@) == init_arena(),
        arena_wf(arena(r@)),
        r@.len() == 8,
{
    let mut monkeys: Vec<Monkey> = Vec::new();
    monkeys.push(Monkey::new_rc(items0(), Operation::Mul(17), 2));
    monkeys.push(Monkey::new_rc(items1(), Operation::Add(1), 17));
    monkeys.push(Monkey::new_rc(items2(), Operation::Add(3), 19));
    monkeys.push(Monkey::new_rc(items3(), Operation::Add(5), 3));
    monkeys.push(Monkey::new_rc(items4(), Operation::Square, 5));
    monkeys.push(Monkey::new_rc(items5(), Operation::Add(2), 13));
    monkeys.push(Monkey::new_rc(items6(), Operation::Add(4), 7));
    monkeys.push(Monkey::new_rc(items7(), Operation::Mul(19), 11));
    let m0 = &mut monkeys[0];
    m0.set_true_mk(1);
    let m0 = &mut monkeys[0];
    m0.set_false_mk(6);
    let m1 = &mut monkeys[1];
    m1.set_true_mk(6);
    let m1 = &mut monkeys[1];
    m1.set_false_mk(3);
    let m2 = &mut monkeys[2];
    m2.set_true_mk(7);
    let m2 = &mut monkeys[2];
    m2.set_false_mk(5);
    let m3 = &mut monkeys[3];
    m3.set_true_mk(7);
    let m3 = &mut monkeys[3];
    m3.set_false_mk(2);
    let m4 = &mut monkeys[4];
    m4.set_true_mk(0);
    let m4 = &mut monkeys[4];
    m4.set_false_mk(1);
    let m5 = &mut monkeys[5];
    m5.set_true_mk(4);
    let m5 = &mut monkeys[5];
    m5.set_false_mk(0);
    let m6 = &mut monkeys[6];
    m6.set_true_mk(3);
    let m6 = &mut monkeys[6];
    m6.set_false_mk(2);
    let m7 = &mut monkeys[7];
    m7.set_true_mk(4);
    let m7 = &mut monkeys[7];
    m7.set_false_mk(5);
    proof {
        assert(arena(monkeys@) =~= init_arena()) by {
            assert(arena(monkeys@).len() == 8);
            assert(arena(monkeys@)[0] == mview(&monkeys@[0]) && mview(&monkeys@[0])
                == init_arena()[0]);
            assert(arena(monkeys@)[1] == mview(&monkeys@[1]) && mview(&monkeys@[1])
                == init_arena()[1]);
            assert(arena(monkeys@)[2] == mview(&monkeys@[2]) && mview(&monkeys@[2])
                == init_arena()[2]);
            assert(arena(monkeys@)[3] == mview(&monkeys@[3]) && mview(&monkeys@[3])
                == init_arena()[3]);
            assert(arena(monkeys@)[4] == mview(&monkeys@[4]) && mview(&monkeys@[4])
                == init_arena()[4]);
            assert(arena(monkeys@)[5] == mview(&monkeys@[5]) && mview(&monkeys@[5])
                == init_arena()[5]);
            assert(arena(monkeys@)[6] == mview(&monkeys@[6]) && mview(&monkeys@[6])
                == init_arena()[6]);
            assert(arena(monkeys@)[7] == mview(&monkeys@[7]) && mview(&monkeys@[7])
                == init_arena()[7]);
        }
        assert(arena_wf(init_arena())) by {
            assert(forall|i: int|
                0 <= i < 8 ==> 0 <= (#[trigger] init_arena()[i]).t < 8 && 0 <= init_arena()[i].f
                    < 8 && init_arena()[i].div > 0);
        }
    }
    monkeys
}

/// Runs `rounds` full rounds and reports the monkey business, or "0" when
/// checked arithmetic overflows.
fn run_and_score(rounds: usize, p2: bool) -> (r: String)
    ensures
        r@ == day11_answer(rounds as int, p2),
{
    let mut monkeys = create_monkeys();
    let ghost st0 = arena(monkeys@);
    let n: usize = monkeys.len();
    let mut round: usize = 0;
    while round < rounds
        invariant
            round <= rounds,
            n == monkeys@.len(),
            arena_wf(arena(monkeys@)),
            st0 == init_arena(),
            run_rounds(arena(monkeys@), rounds - round, p2) == run_rounds(st0, rounds as int, p2),
        decreases rounds - round,
    {
        let ghost round_start = arena(monkeys@);
        let mut i: usize = 0;
        while i < n
            invariant
                i <= n,
                n == monkeys@.len(),
                arena_wf(arena(monkeys@)),
                round < rounds,
                st0 == init_arena(),
                run_rounds(round_start, rounds - round, p2) == run_rounds(st0, rounds as int, p2),
                round_from(arena(monkeys@), i as int, p2) == round_from(round_start, 0, p2),
            decreases n - i,
        {
            let ghost st_pre = arena(monkeys@);
            proof {
                assert(st_pre[i as int] == mview(&monkeys@[i as int]));
            }
            let ok = if p2 {
                Monkey::handle_round_p2(&mut monkeys, i)
            } else {
                Monkey::handle_round(&mut monkeys, i)
            };
            if !ok {
                proof {
                    assert(round_from(st_pre, i as int, p2) is None);
                    assert(round_from(round_start, 0, p2) is None);
                    assert(run_rounds(round_start, rounds - round, p2) is None);
                    assert(run_rounds(st0, rounds as int, p2) is None);
                }
                return u128_string(0);
            }
            i = i + 1;
        }
        proof {
            assert(round_from(arena(monkeys@), n as int, p2) == Some(arena(monkeys@)));
        }
        round = round + 1;
    }
    proof {
        assert(run_rounds(arena(monkeys@), 0, p2) == Some(arena(monkeys@)));
    }
    let mut a: u128 = 0;
    let mut b: u128 = 0;
    let ghost fin = arena(monkeys@);
    let mut i: usize = 0;
    while i < n
        invariant
            i <= n,
            n == monkeys@.len(),
            fin == arena(monkeys@),
            (a as int, b as int) == top2_rec(fin.take(i as int), (0, 0)),
            a >= b,
            a <= u64::MAX && b <= u64::MAX,
        decreases n - i,
    {
        proof {
            assert(fin.take(i + 1).drop_last() =~= fin.take(i as int));
            assert(fin.take(i + 1).last() == fin[i as int]);
            assert(fin[i as int] == mview(&monkeys@[i as int]));
        }
        let c = monkeys[i].inspections;
        if (c as u128) >= a {
            b = a;
            a = c as u128;
        } else if (c as u128) >= b {
            b = c as u128;
        }
        i = i + 1;
    }
    proof {
        assert(fin.take(n as int) =~= fin);
        assert((a as int) * (b as int) <= 0xffff_ffff_ffff_ffff * 0xffff_ffff_ffff_ffff)
            by (nonlinear_arith)
            requires
                0 <= a as int <= 0xffff_ffff_ffff_ffff,
                0 <= b as int <= 0xffff_ffff_ffff_ffff,
        ;
        assert((a * b) as int == monkey_business(fin));
    }
    u128_string(a * b)
}


impl Day11 {
    /// The monkeys are fixed; the input text is ignored and the parsed value
    /// is the placeholder "0".
    pub fn parse_input(_input: &str) -> (r: String)
        ensures
            r@ == dec_str(0),
    {
        u128_string(0)
    }

    /// Part one: 20 rounds with the worry divided by three.
    pub fn part_one(_input: &str) -> (r: String)
        ensures
            r@ == day11_p1(),
    {
        run_and_score(20, false)
    }

    /// Part two: 10000 rounds with the worry reduced modulo the divisor
    /// product.
    pub fn part_two(_input: &str) -> (r: String)
        ensures
            r@ == day11_p2(),
    {
        run_and_score(10000, true)
    }

    /// Runs both parts; with the flag set, part one is skipped and reported
    /// as "0". Empty input reports "0" for both parts.
    pub fn solve(input: &str, only_part_two: bool) -> (r: (String, String))
        ensures
            r.0@ == if input.spec_bytes().len() == 0 || only_part_two {
                dec_str(0)
            } else {
                day11_p1()
            },
            r.1@ == if input.spec_bytes().len() == 0 {
                dec_str(0)
            } else {
                day11_p2()
            },
    {
        if input.as_bytes().len() == 0 {
            return (u128_string(0), u128_string(0));
        }
        let p2 = Self::part_two(input);
        let p1 = if only_part_two {
            u128_string(0)
        } else {
            Self::part_one(input)
        };
        (p1, p2)
    }

    /// Part one alone, from raw input.
    pub fn solve_part_one(input: &str) -> (r: String)
        ensures
            r@ == if input.spec_bytes().len() == 0 {
                dec_str(0)
            } else {
                day11_p1()
            },
    {
        let (p1, _p2) = Self::solve(input, false);
        p1
    }

    /// Part two alone, from raw input.
    pub fn solve_part_two(input: &str) -> (r: String)
        ensures
            r@ == if input.spec_bytes().len() == 0 {
                dec_str(0)
            } else {
                day11_p2()
            },
    {
        let (_p1, p2) = Self::solve(input, true);
        p2
    }
}


/// Every test divisor of the fixed arena divides the chosen modulus, so the
/// part-two reduction never disturbs a test.
pub proof fn lemma_arena_divisors_divide()
    ensures
        forall|i: int|
            0 <= i < init_arena().len() ==> (MONKEY_MODULUS as int) % ((#[trigger] init_arena()[i]).div
                as int) == 0,
{
    assert forall|i: int|
        0 <= i < init_arena().len() implies (MONKEY_MODULUS as int) % ((#[trigger] init_arena()[i]).div
        as int) == 0 by {
        if i == 0 {
            assert((MONKEY_MODULUS as int) % 2 == 0);
        } else if i == 1 {
            assert((MONKEY_MODULUS as int) % 17 == 0);
        } else if i == 2 {
            assert((MONKEY_MODULUS as int) % 19 == 0);
        } else if i == 3 {
            assert((MONKEY_MODULUS as int) % 3 == 0);
        } else if i == 4 {
            assert((MONKEY_MODULUS as int) % 5 == 0);
        } else if i == 5 {
            assert((MONKEY_MODULUS as int) % 13 == 0);
        } else if i == 6 {
            assert((MONKEY_MODULUS as int) % 7 == 0);
        } else {
            assert((MONKEY_MODULUS as int) % 11 == 0);
        }
    }
}

} // verus!
