//! Filesystem tree sizes. The input is a shell transcript (`$ cd X`,
//! `$ cd ..`, `$ cd /`, `$ ls`, `dir X`, `<size> name`) replayed into a
//! directory tree; directories and files are deduplicated by name. Part one
//! sums every directory total of at most 100000; part two finds the smallest
//! directory whose deletion leaves 30000000 free on a 70000000 disk. Sizes
//! saturate at the top of `u128`.
use crate::text::{
    all_digits, dec_str, dec_val, lines_of, parse_dec, split_lines, split_ws, tokens_of,
    u128_string,
};
use vstd::prelude::*;
use vstd::string::StringSliceAdditionalSpecFns;

verus! {

pub struct Day07;

/// What a tree edge leads to: a directory of yet-unknown total, a directory
/// of known total, or a file of the given size.
#[derive(Debug, PartialEq, Eq)]
pub enum EdgeType {
    Parent,
    ChildDir(Option<u64>),
    ChildFile(u64),
}

/// What a tree node is: a directory or a file, each with its name.
#[derive(Debug, PartialEq, Eq)]
pub enum NodeType {
    Dir((String, Option<u64>)),
    File((String, u64)),
}

/// One directory node: its parent and its named children.
pub struct DirNode {
    pub parent: usize,
    pub subdirs: Vec<(Vec<u8>, usize)>,
    pub files: Vec<(Vec<u8>, u64)>,
}

/// The model of one directory node; the root's parent is -1.
pub struct GNode {
    pub parent: int,
    pub subdirs: Seq<(Seq<u8>, int)>,
    pub files: Seq<(Seq<u8>, u64)>,
}

pub open spec fn subs_view(v: Seq<(Vec<u8>, usize)>) -> Seq<(Seq<u8>, int)> {
    v.map_values(|p: (Vec<u8>, usize)| (p.0@, p.1 as int))
}

pub open spec fn files_view(v: Seq<(Vec<u8>, u64)>) -> Seq<(Seq<u8>, u64)> {
    v.map_values(|p: (Vec<u8>, u64)| (p.0@, p.1))
}

pub open spec fn nview(n: &DirNode, root: bool) -> GNode {
    GNode {
        parent: if root {
            -1
        } else {
            n.parent as int
        },
        subdirs: subs_view(n.subdirs@),
        files: files_view(n.files@),
    }
}

/// The model of the whole tree; node 0 is the root.
pub open spec fn tview(ns: Seq<DirNode>) -> Seq<GNode> {
    Seq::new(ns.len(), |j: int| nview(&ns[j], j == 0))
}

/// The node index a subdirectory name leads to, or -1.
pub open spec fn find_sub(subs: Seq<(Seq<u8>, int)>, name: Seq<u8>, k: int) -> int
    decreases subs.len() - k,
{
    if k < 0 || k >= subs.len() {
        -1
    } else if subs[k].0 == name {
        subs[k].1
    } else {
        find_sub(subs, name, k + 1)
    }
}

/// Whether a file of this name is already recorded.
pub open spec fn has_file(fs: Seq<(Seq<u8>, u64)>, name: Seq<u8>, k: int) -> bool
    decreases fs.len() - k,
{
    if k < 0 || k >= fs.len() {
        false
    } else if fs[k].0 == name {
        true
    } else {
        has_file(fs, name, k + 1)
    }
}

pub open spec fn is_dollar(t: Seq<u8>) -> bool {
    t.len() == 1 && t[0] == 36
}

pub open spec fn is_cd(t: Seq<u8>) -> bool {
    t.len() == 2 && t[0] == 99 && t[1] == 100
}

pub open spec fn is_dotdot(t: Seq<u8>) -> bool {
    t.len() == 2 && t[0] == 46 && t[1] == 46
}

pub open spec fn is_slash(t: Seq<u8>) -> bool {
    t.len() == 1 && t[0] == 47
}

pub open spec fn is_dir_kw(t: Seq<u8>) -> bool {
    t.len() == 3 && t[0] == 100 && t[1] == 105 && t[2] == 114
}

/// Replays one transcript line against the tree and working directory.
pub open spec fn step(st: Seq<GNode>, cwd: int, ts: Seq<Seq<u8>>) -> Option<(Seq<GNode>, int)> {
    if ts.len() == 0 {
        None
    } else if is_dollar(ts[0]) {
        if ts.len() < 2 {
            None
        } else if is_cd(ts[1]) {
            if ts.len() < 3 {
                None
            } else if is_dotdot(ts[2]) {
                if st[cwd].parent < 0 {
                    None
                } else {
                    Some((st, st[cwd].parent))
                }
            } else if is_slash(ts[2]) {
                Some((st, 0))
            } else {
                let c = find_sub(st[cwd].subdirs, ts[2], 0);
                if c >= 0 {
                    Some((st, c))
                } else {
                    Some((add_dir(st, cwd, ts[2]), st.len() as int))
                }
            }
        } else {
            Some((st, cwd))
        }
    } else if is_dir_kw(ts[0]) {
        if ts.len() < 2 {
            None
        } else if find_sub(st[cwd].subdirs, ts[1], 0) >= 0 {
            Some((st, cwd))
        } else {
            Some((add_dir(st, cwd, ts[1]), cwd))
        }
    } else {
        if ts.len() < 2 {
            None
        } else if !(ts[0].len() > 0 && all_digits(ts[0]) && dec_val(ts[0]) <= u64::MAX) {
            None
        } else if has_file(st[cwd].files, ts[1], 0) {
            Some((st, cwd))
        } else {
            Some(
                (
                    st.update(
                        cwd,
                        GNode {
                            files: st[cwd].files.push((ts[1], dec_val(ts[0]) as u64)),
                            ..st[cwd]
                        },
                    ),
                    cwd,
                ),
            )
        }
    }
}

/// Adds a fresh empty directory named `name` under `cwd`.
pub open spec fn add_dir(st: Seq<GNode>, cwd: int, name: Seq<u8>) -> Seq<GNode> {
    st.update(
        cwd,
        GNode { subdirs: st[cwd].subdirs.push((name, st.len() as int)), ..st[cwd] },
    ).push(GNode { parent: cwd, subdirs: Seq::empty(), files: Seq::empty() })
}

/// Replays the transcript lines from index `i`.
pub open spec fn replay(ls: Seq<Seq<u8>>, i: int, st: Seq<GNode>, cwd: int) -> Option<
    (Seq<GNode>, int),
>
    decreases ls.len() - i,
{
    if i < 0 {
        None
    } else if i >= ls.len() {
        Some((st, cwd))
    } else {
        match step(st, cwd, tokens_of(ls[i])) {
            Some(sc) => replay(ls, i + 1, sc.0, sc.1),
            None => None,
        }
    }
}

/// The initial tree: a lone root.
pub open spec fn init_tree() -> Seq<GNode> {
    seq![GNode { parent: -1, subdirs: Seq::empty(), files: Seq::empty() }]
}

pub open spec fn day07_tree(s: Seq<u8>) -> Option<Seq<GNode>> {
    match replay(lines_of(s), 0, init_tree(), 0) {
        Some(sc) => Some(sc.0),
        None => None,
    }
}

pub open spec fn day07_wf(s: Seq<u8>) -> bool {
    day07_tree(s) is Some
}

/// Every subdirectory edge points forward, every parent backward, and the
/// root has no parent.
pub open spec fn tree_wf(st: Seq<GNode>) -> bool {
    &&& forall|j: int, k: int|
        0 <= j < st.len() && 0 <= k < st[j].subdirs.len() ==> j < (#[trigger] st[j].subdirs[k]).1
            < st.len()
    &&& forall|j: int| 1 <= j < st.len() ==> 0 <= (#[trigger] st[j]).parent < j
    &&& st.len() > 0 ==> st[0].parent == -1
}

/// Saturating addition at the top of `u128`.
pub open spec fn sat_add(a: int, b: int) -> int {
    if a + b > u128::MAX {
        u128::MAX as int
    } else {
        a + b
    }
}

/// Sum of the direct file sizes, saturating.
pub open spec fn fsum(fs: Seq<(Seq<u8>, u64)>) -> int
    decreases fs.len(),
{
    if fs.len() == 0 {
        0
    } else {
        sat_add(fsum(fs.drop_last()), fs.last().1 as int)
    }
}

/// The total size of directory `j`: its files plus its subdirectories.
pub open spec fn size_of(st: Seq<GNode>, j: int) -> int
    decreases st.len() - j, st[j].subdirs.len() + 1,
    when tree_wf(st) && 0 <= j < st.len()
    via size_of_dec
{
    sat_add(fsum(st[j].files), subs_sum(st, j, st[j].subdirs.len() as int))
}

/// The summed sizes of the first `k` subdirectories of `j`, saturating.
pub open spec fn subs_sum(st: Seq<GNode>, j: int, k: int) -> int
    decreases st.len() - j, k,
    when tree_wf(st) && 0 <= j < st.len() && k <= st[j].subdirs.len()
    via subs_sum_dec
{
    if k <= 0 {
        0
    } else {
        sat_add(subs_sum(st, j, k - 1), size_of(st, st[j].subdirs[k - 1].1))
    }
}

#[via_fn]
proof fn size_of_dec(st: Seq<GNode>, j: int) {
}

#[via_fn]
proof fn subs_sum_dec(st: Seq<GNode>, j: int, k: int) {
    if tree_wf(st) && 0 <= j < st.len() && 0 < k <= st[j].subdirs.len() {
        assert(j < st[j].subdirs[k - 1].1 < st.len());
    }
}

/// Whether a directory has any child at all.
pub open spec fn has_child(n: GNode) -> bool {
    n.subdirs.len() > 0 || n.files.len() > 0
}

/// The sizes of the directories with children, in node order.
pub open spec fn cand_sizes(st: Seq<GNode>, j: int) -> Seq<int>
    decreases j,
{
    if j <= 0 {
        Seq::empty()
    } else if has_child(st[j - 1]) {
        cand_sizes(st, j - 1).push(size_of(st, j - 1))
    } else {
        cand_sizes(st, j - 1)
    }
}

/// Sum of the candidate sizes at most 100000.
pub open spec fn p1_of(sz: Seq<int>) -> int
    decreases sz.len(),
{
    if sz.len() == 0 {
        0
    } else {
        p1_of(sz.drop_last()) + if sz.last() <= 100000 {
            sz.last()
        } else {
            0int
        }
    }
}

/// The smallest candidate size at or above the threshold, or 0.
pub open spec fn p2_of(sz: Seq<int>, threshold: int) -> int
    decreases sz.len(),
{
    if sz.len() == 0 {
        0
    } else {
        let prev = p2_of(sz.drop_last(), threshold);
        let v = sz.last();
        if v >= threshold {
            if prev == 0 || v < prev {
                v
            } else {
                prev
            }
        } else {
            prev
        }
    }
}

/// The candidate directory sizes and the root total of the input.
pub open spec fn day07_sizes(s: Seq<u8>) -> Seq<int> {
    let st = day07_tree(s)->0;
    cand_sizes(st, st.len() as int)
}

pub open spec fn day07_root(s: Seq<u8>) -> int {
    size_of(day07_tree(s)->0, 0)
}

pub open spec fn day07_p1(s: Seq<u8>) -> Seq<char> {
    dec_str(p1_of(day07_sizes(s)) as nat)
}

pub open spec fn day07_p2(s: Seq<u8>) -> Seq<char> {
    dec_str(p2_of(day07_sizes(s), day07_root(s) - 40000000) as nat)
}

/// A step keeps the tree shape sound: children stay past their parents.
proof fn lemma_step_wf(st: Seq<GNode>, cwd: int, ts: Seq<Seq<u8>>)
    requires
        tree_wf(st),
        0 <= cwd < st.len(),
        step(st, cwd, ts) is Some,
    ensures
        tree_wf((step(st, cwd, ts)->0).0),
        0 <= (step(st, cwd, ts)->0).1 < (step(st, cwd, ts)->0).0.len(),
        (step(st, cwd, ts)->0).0.len() >= st.len(),
{
    let r = step(st, cwd, ts)->0;
    if ts.len() >= 1 && is_dollar(ts[0]) && ts.len() >= 3 && is_cd(ts[1]) && is_dotdot(ts[2]) {
        assert(st[cwd].parent >= 0);
        assert(cwd != 0);
        assert(0 <= st[cwd].parent < cwd);
    }
    if r.0 != st {
        let name = if is_dollar(ts[0]) {
            ts[2]
        } else {
            ts[1]
        };
        if is_dollar(ts[0]) || is_dir_kw(ts[0]) {
            if r.0.len() != st.len() {
                let st1 = add_dir(st, cwd, name);
                assert forall|j: int, k: int|
                    0 <= j < st1.len() && 0 <= k < st1[j].subdirs.len() implies j < (
                    #[trigger] st1[j].subdirs[k]).1 < st1.len() by {
                    if j == cwd && k == st[cwd].subdirs.len() {
                        assert(st1[j].subdirs[k].1 == st.len());
                    } else if j < st.len() {
                        assert(st1[j].subdirs[k] == st[j].subdirs[k]);
                    }
                }
                assert forall|j: int| 1 <= j < st1.len() implies 0 <= (#[trigger] st1[j]).parent
                    < j by {
                    if j < st.len() {
                        assert(st1[j].parent == st[j].parent);
                    } else {
                        assert(st1[j].parent == cwd);
                    }
                }
                assert(st1[0].parent == st[0].parent);
            }
        } else {
            assert forall|j: int, k: int|
                0 <= j < r.0.len() && 0 <= k < r.0[j].subdirs.len() implies j < (
                #[trigger] r.0[j].subdirs[k]).1 < r.0.len() by {
                assert(r.0[j].subdirs == st[j].subdirs);
            }
            assert(forall|j: int| 0 <= j < r.0.len() ==> (#[trigger] r.0[j]).parent == st[j].parent);
        }
    }
    if ts.len() >= 3 && is_dollar(ts[0]) && is_cd(ts[1]) && !is_dotdot(ts[2]) && !is_slash(ts[2]) {
        let c = find_sub(st[cwd].subdirs, ts[2], 0);
        if c >= 0 {
            assert(forall|x: int|
                0 <= x < st[cwd].subdirs.len() ==> cwd < (#[trigger] st[cwd].subdirs[x]).1
                    < st.len());
            lemma_find_sub_range(st[cwd].subdirs, ts[2], 0, st.len() as int, cwd);
        }
    }
}

/// A found subdirectory index lies inside the tree.
proof fn lemma_find_sub_range(subs: Seq<(Seq<u8>, int)>, name: Seq<u8>, k: int, n: int, j: int)
    requires
        forall|x: int| 0 <= x < subs.len() ==> j < (#[trigger] subs[x]).1 < n,
        find_sub(subs, name, k) >= 0,
        k >= 0,
    ensures
        j < find_sub(subs, name, k) < n,
    decreases subs.len() - k,
{
    if k < subs.len() && subs[k].0 != name {
        lemma_find_sub_range(subs, name, k + 1, n, j);
    }
}

/// The whole replay keeps the tree sound.
proof fn lemma_replay_wf(ls: Seq<Seq<u8>>, i: int, st: Seq<GNode>, cwd: int)
    requires
        0 <= i,
        tree_wf(st),
        0 <= cwd < st.len(),
        replay(ls, i, st, cwd) is Some,
    ensures
        tree_wf((replay(ls, i, st, cwd)->0).0),
        (replay(ls, i, st, cwd)->0).0.len() >= st.len(),
    decreases ls.len() - i,
{
    if i < ls.len() {
        lemma_step_wf(st, cwd, tokens_of(ls[i]));
        let sc = step(st, cwd, tokens_of(ls[i]))->0;
        lemma_replay_wf(ls, i + 1, sc.0, sc.1);
    }
}

/// Directory totals are saturated non-negative values.
proof fn lemma_size_nonneg(st: Seq<GNode>, j: int)
    requires
        tree_wf(st),
        0 <= j < st.len(),
    ensures
        0 <= size_of(st, j) <= u128::MAX,
    decreases st.len() - j, st[j].subdirs.len() + 1,
{
    lemma_fsum_nonneg(st[j].files);
    lemma_subs_nonneg(st, j, st[j].subdirs.len() as int);
}

proof fn lemma_fsum_nonneg(fs: Seq<(Seq<u8>, u64)>)
    ensures
        0 <= fsum(fs) <= u128::MAX,
    decreases fs.len(),
{
    if fs.len() > 0 {
        lemma_fsum_nonneg(fs.drop_last());
    }
}

proof fn lemma_subs_nonneg(st: Seq<GNode>, j: int, k: int)
    requires
        tree_wf(st),
        0 <= j < st.len(),
        k <= st[j].subdirs.len(),
    ensures
        0 <= subs_sum(st, j, k) <= u128::MAX,
    decreases st.len() - j, if k >= 0 {
        k
    } else {
        0int
    },
{
    if k > 0 {
        lemma_subs_nonneg(st, j, k - 1);
        assert(j < st[j].subdirs[k - 1].1 < st.len());
        lemma_size_nonneg(st, st[j].subdirs[k - 1].1);
    }
}


/// The integer values of a size vector.
pub open spec fn sizes_view(v: Seq<u128>) -> Seq<int> {
    v.map_values(|x: u128| x as int)
}

/// Finds a subdirectory by name.
fn find_sub_exec(subs: &Vec<(Vec<u8>, usize)>, name: &Vec<u8>) -> (r: Option<usize>)
    ensures
        match r {
            Some(c) => find_sub(subs_view(subs@), name@, 0) == c as int,
            None => find_sub(subs_view(subs@), name@, 0) == -1,
        },
{
    let ghost sv = subs_view(subs@);
    let n: usize = subs.len();
    let mut k: usize = 0;
    while k < n
        invariant
            k <= n,
            n == subs@.len(),
            sv == subs_view(subs@),
            find_sub(sv, name@, 0) == find_sub(sv, name@, k as int),
        decreases n - k,
    {
        proof {
            assert(sv[k as int] == (subs@[k as int].0@, subs@[k as int].1 as int));
        }
        if crate::text::bytes_eq(subs[k].0.as_slice(), name.as_slice()) {
            return Some(subs[k].1);
        }
        k = k + 1;
    }
    None
}

/// Whether a file of this name is already recorded.
fn has_file_exec(fs: &Vec<(Vec<u8>, u64)>, name: &Vec<u8>) -> (r: bool)
    ensures
        r == has_file(files_view(fs@), name@, 0),
{
    let ghost fv = files_view(fs@);
    let n: usize = fs.len();
    let mut k: usize = 0;
    while k < n
        invariant
            k <= n,
            n == fs@.len(),
            fv == files_view(fs@),
            has_file(fv, name@, 0) == has_file(fv, name@, k as int),
        decreases n - k,
    {
        proof {
            assert(fv[k as int] == (fs@[k as int].0@, fs@[k as int].1));
        }
        if crate::text::bytes_eq(fs[k].0.as_slice(), name.as_slice()) {
            return true;
        }
        k = k + 1;
    }
    false
}

/// Copies a token into an owned name.
fn copy_name(t: &Vec<u8>) -> (r: Vec<u8>)
    ensures
        r@ == t@,
{
    let r = crate::text::sub_vec(t.as_slice(), 0, t.len());
    proof {
        assert(t@.subrange(0, t@.len() as int) =~= t@);
    }
    r
}

/// Saturating addition on `u128`.
fn sat_add_exec(a: u128, b: u128) -> (r: u128)
    ensures
        r as int == sat_add(a as int, b as int),
{
    match a.checked_add(b) {
        Some(v) => v,
        None => u128::MAX,
    }
}

impl Day07 {
    /// Replays the transcript and returns the sizes of every directory with
    /// a child, in creation order, together with the root's total.
    pub fn parse_input(input: &str) -> (r: Option<(Vec<u128>, u128)>)
        ensures
            r is Some <==> day07_wf(input.spec_bytes()),
            r is Some ==> sizes_view((r->0).0@) == day07_sizes(input.spec_bytes()),
            r is Some ==> (r->0).1 as int == day07_root(input.spec_bytes()),
    {
        let bytes = input.as_bytes();
        let lines = split_lines(bytes);
        let ghost ls = lines_of(input.spec_bytes());
        let n: usize = lines.len();
        let mut nodes: Vec<DirNode> = Vec::new();
        nodes.push(DirNode { parent: 0, subdirs: Vec::new(), files: Vec::new() });
        let mut cwd: usize = 0;
        proof {
            assert(tview(nodes@) =~= init_tree()) by {
                assert(tview(nodes@).len() == 1);
                assert(subs_view(nodes@[0].subdirs@) =~= Seq::<(Seq<u8>, int)>::empty());
                assert(files_view(nodes@[0].files@) =~= Seq::<(Seq<u8>, u64)>::empty());
                assert(tview(nodes@)[0] == init_tree()[0]);
            }
        }
        let mut i: usize = 0;
        while i < n
            invariant
                i <= n,
                n == lines@.len(),
                lines.deep_view() == ls,
                ls == lines_of(input.spec_bytes()),
                cwd < nodes@.len(),
                tree_wf(tview(nodes@)),
                tview(nodes@).len() == nodes@.len(),
                replay(ls, 0, init_tree(), 0) == replay(ls, i as int, tview(nodes@), cwd as int),
            decreases n - i,
        {
            let line = &lines[i];
            proof {
                assert(line.deep_view() == ls[i as int]);
                assert(line@ =~= ls[i as int]);
            }
            let toks = split_ws(line.as_slice());
            let ghost ts = tokens_of(line@);
            let ghost st_pre = tview(nodes@);
            let ghost cwd_pre = cwd as int;
            if toks.len() == 0 {
                return None;
            }
            proof {
                assert(toks[0].deep_view() == ts[0]);
                assert(toks@[0]@ =~= ts[0]);
            }
            let t0 = &toks[0];
            if t0.len() == 1 && t0[0] == 36 {
                if toks.len() < 2 {
                    return None;
                }
                proof {
                    assert(toks[1].deep_view() == ts[1]);
                    assert(toks@[1]@ =~= ts[1]);
                }
                let t1 = &toks[1];
                if t1.len() == 2 && t1[0] == 99 && t1[1] == 100 {
                    if toks.len() < 3 {
                        return None;
                    }
                    proof {
                        assert(toks[2].deep_view() == ts[2]);
                        assert(toks@[2]@ =~= ts[2]);
                    }
                    let t2 = &toks[2];
                    if t2.len() == 2 && t2[0] == 46 && t2[1] == 46 {
                        if cwd == 0 {
                            proof {
                                assert(st_pre[0].parent == -1);
                            }
                            return None;
                        }
                        let parent = nodes[cwd].parent;
                        proof {
                            assert(st_pre[cwd as int].parent == parent as int);
                        }
                        cwd = parent;
                        proof {
                            assert(0 <= st_pre[cwd_pre].parent < cwd_pre);
                        }
                    } else if t2.len() == 1 && t2[0] == 47 {
                        cwd = 0;
                    } else {
                        match find_sub_exec(&nodes[cwd].subdirs, t2) {
                            Some(c) => {
                                proof {
                                    assert(st_pre[cwd as int].subdirs == subs_view(
                                        nodes@[cwd as int].subdirs@,
                                    ));
                                    lemma_find_sub_range(
                                        st_pre[cwd as int].subdirs,
                                        ts[2],
                                        0,
                                        st_pre.len() as int,
                                        cwd as int,
                                    );
                                }
                                cwd = c;
                            },
                            None => {
                                proof {
                                    assert(st_pre[cwd as int].subdirs == subs_view(
                                        nodes@[cwd as int].subdirs@,
                                    ));
                                }
                                let name = copy_name(t2);
                                let idx = nodes.len();
                                add_dir_exec(&mut nodes, cwd, name);
                                proof {
                                    assert(tview(nodes@) == add_dir(st_pre, cwd_pre, ts[2]));
                                    lemma_step_wf(st_pre, cwd_pre, ts);
                                }
                                cwd = idx;
                            },
                        }
                    }
                }
                // any other command, `ls` included, leaves the state alone
            } else if t0.len() == 3 && t0[0] == 100 && t0[1] == 105 && t0[2] == 114 {
                if toks.len() < 2 {
                    return None;
                }
                proof {
                    assert(toks[1].deep_view() == ts[1]);
                    assert(toks@[1]@ =~= ts[1]);
                }
                let t1 = &toks[1];
                match find_sub_exec(&nodes[cwd].subdirs, t1) {
                    Some(_) => {
                        proof {
                            assert(st_pre[cwd as int].subdirs == subs_view(
                                nodes@[cwd as int].subdirs@,
                            ));
                        }
                    },
                    None => {
                        proof {
                            assert(st_pre[cwd as int].subdirs == subs_view(
                                nodes@[cwd as int].subdirs@,
                            ));
                        }
                        let name = copy_name(t1);
                        add_dir_exec(&mut nodes, cwd, name);
                        proof {
                            assert(tview(nodes@) == add_dir(st_pre, cwd_pre, ts[1]));
                            lemma_step_wf(st_pre, cwd_pre, ts);
                        }
                    },
                }
            } else {
                if toks.len() < 2 {
                    return None;
                }
                proof {
                    assert(toks[1].deep_view() == ts[1]);
                    assert(toks@[1]@ =~= ts[1]);
                    assert(toks@[0]@.skip(0) =~= ts[0]);
                }
                let size_opt = parse_dec(toks[0].as_slice(), 0, u64::MAX as u128);
                match size_opt {
                    Some(sz) => {
                        let t1 = &toks[1];
                        if !has_file_exec(&nodes[cwd].files, t1) {
                            proof {
                                assert(st_pre[cwd as int].files == files_view(
                                    nodes@[cwd as int].files@,
                                ));
                            }
                            let name = copy_name(t1);
                            let ghost namev = name@;
                            let nc = &mut nodes[cwd];
                            let ghost fpre = nc.files@;
                            nc.files.push((name, sz as u64));
                            proof {
                                assert(files_view(nodes@[cwd as int].files@) =~~= files_view(
                                    fpre,
                                ).push((namev, sz as u64)));
                                assert(tview(nodes@) =~= st_pre.update(
                                    cwd_pre,
                                    GNode {
                                        files: st_pre[cwd_pre].files.push((ts[1], sz as u64)),
                                        ..st_pre[cwd_pre]
                                    },
                                )) by {
                                    assert forall|j2: int|
                                        0 <= j2 < st_pre.len() implies tview(nodes@)[j2]
                                        == st_pre.update(
                                        cwd_pre,
                                        GNode {
                                            files: st_pre[cwd_pre].files.push((ts[1], sz as u64)),
                                            ..st_pre[cwd_pre]
                                        },
                                    )[j2] by {
                                        if j2 != cwd_pre {
                                            assert(nodes@[j2] == old_at(nodes@, j2));
                                        }
                                    }
                                }
                                assert(tree_wf(tview(nodes@))) by {
                                    assert(forall|j2: int|
                                        0 <= j2 < tview(nodes@).len() ==> (#[trigger] tview(
                                            nodes@,
                                        )[j2]).subdirs == st_pre[j2].subdirs);
                                }
                            }
                        } else {
                            proof {
                                assert(st_pre[cwd as int].files == files_view(
                                    nodes@[cwd as int].files@,
                                ));
                            }
                        }
                    },
                    None => {
                        return None;
                    },
                }
            }
            i = i + 1;
        }
        let sizes = compute_sizes(&nodes);
        let ghost st = tview(nodes@);
        let mut out: Vec<u128> = Vec::new();
        let nn: usize = nodes.len();
        proof {
            assert(sizes_view(out@) =~= cand_sizes(st, 0));
        }
        let mut j: usize = 0;
        while j < nn
            invariant
                j <= nn,
                nn == nodes@.len(),
                st == tview(nodes@),
                tree_wf(st),
                st.len() == nn,
                sizes@.len() == nn,
                forall|x: int| 0 <= x < nn ==> sizes@[x] as int == size_of(st, x),
                sizes_view(out@) == cand_sizes(st, j as int),
            decreases nn - j,
        {
            let node = &nodes[j];
            proof {
                assert(st[j as int] == nview(&nodes@[j as int], j == 0));
            }
            if node.subdirs.len() > 0 || node.files.len() > 0 {
                let ghost pre = sizes_view(out@);
                out.push(sizes[j]);
                proof {
                    assert(sizes_view(out@) =~= pre.push(sizes@[j as int] as int));
                }
            }
            j = j + 1;
        }
        proof {
            lemma_size_nonneg(st, 0);
        }
        Some((out, sizes[0]))
    }
}

/// The unchanged node at `j`.
pub open spec fn old_at(ns: Seq<DirNode>, j: int) -> DirNode {
    ns[j]
}

/// Appends a fresh directory under `cwd` and wires it into the tree.
fn add_dir_exec(nodes: &mut Vec<DirNode>, cwd: usize, name: Vec<u8>)
    requires
        cwd < old(nodes)@.len(),
    ensures
        tview(final(nodes)@) == add_dir(tview(old(nodes)@), cwd as int, name@),
        final(nodes)@.len() == old(nodes)@.len() + 1,
{
    let ghost st_pre = tview(nodes@);
    let ghost namev = name@;
    let idx = nodes.len();
    let nc = &mut nodes[cwd];
    let ghost spre = nc.subdirs@;
    nc.subdirs.push((name, idx));
    nodes.push(DirNode { parent: cwd, subdirs: Vec::new(), files: Vec::new() });
    proof {
        assert(subs_view(nodes@[cwd as int].subdirs@) =~~= subs_view(spre).push(
            (namev, idx as int),
        ));
        let target = add_dir(st_pre, cwd as int, namev);
        assert(tview(nodes@) =~= target) by {
            assert(tview(nodes@).len() == st_pre.len() + 1);
            assert forall|j2: int| 0 <= j2 < tview(nodes@).len() implies tview(nodes@)[j2]
                == target[j2] by {
                if j2 == st_pre.len() {
                    assert(subs_view(nodes@[j2].subdirs@) =~= Seq::<(Seq<u8>, int)>::empty());
                    assert(files_view(nodes@[j2].files@) =~= Seq::<(Seq<u8>, u64)>::empty());
                    assert(j2 != 0);
                } else if j2 != cwd {
                    assert(nodes@[j2] == old(nodes)@[j2]);
                } else {
                    assert(files_view(nodes@[j2].files@) == st_pre[j2].files);
                }
            }
        }
    }
}

/// Computes every directory's total size, children first.
fn compute_sizes(nodes: &Vec<DirNode>) -> (sizes: Vec<u128>)
    requires
        tree_wf(tview(nodes@)),
        nodes@.len() >= 1,
    ensures
        sizes@.len() == nodes@.len(),
        forall|x: int| 0 <= x < nodes@.len() ==> sizes@[x] as int == size_of(tview(nodes@), x),
{
    let ghost st = tview(nodes@);
    let n: usize = nodes.len();
    let mut sizes: Vec<u128> = Vec::new();
    let mut e: usize = 0;
    while e < n
        invariant
            e <= n,
            sizes@.len() == e,
        decreases n - e,
    {
        sizes.push(0);
        e = e + 1;
    }
    let mut jj: usize = n;
    while jj > 0
        invariant
            jj <= n,
            n == nodes@.len(),
            st == tview(nodes@),
            tree_wf(st),
            st.len() == n,
            sizes@.len() == n,
            forall|x: int| jj <= x < n ==> sizes@[x] as int == size_of(st, x),
        decreases jj,
    {
        let j = jj - 1;
        let node = &nodes[j];
        proof {
            assert(st[j as int] == nview(&nodes@[j as int], j == 0));
        }
        let mut fs: u128 = 0;
        let fn_count: usize = node.files.len();
        let mut k: usize = 0;
        while k < fn_count
            invariant
                k <= fn_count,
                fn_count == node.files@.len(),
                st[j as int].files == files_view(node.files@),
                fs as int == fsum(st[j as int].files.take(k as int)),
            decreases fn_count - k,
        {
            proof {
                assert(st[j as int].files.take(k + 1).drop_last() =~= st[j as int].files.take(
                    k as int,
                ));
                assert(st[j as int].files.take(k + 1).last() == st[j as int].files[k as int]);
                assert(st[j as int].files[k as int] == (node.files@[k as int].0@, node.files@[k as int].1));
            }
            fs = sat_add_exec(fs, node.files[k].1 as u128);
            k = k + 1;
        }
        proof {
            assert(st[j as int].files.take(st[j as int].files.len() as int) =~= st[j as int].files);
        }
        let mut ss: u128 = 0;
        let sc: usize = node.subdirs.len();
        let mut k2: usize = 0;
        while k2 < sc
            invariant
                k2 <= sc,
                sc == node.subdirs@.len(),
                j < n,
                n == nodes@.len(),
                st == tview(nodes@),
                tree_wf(st),
                st.len() == n,
                sizes@.len() == n,
                st[j as int] == nview(&nodes@[j as int], j == 0),
                node.subdirs@ == nodes@[j as int].subdirs@,
                st[j as int].subdirs == subs_view(node.subdirs@),
                forall|x: int| jj <= x < n ==> sizes@[x] as int == size_of(st, x),
                jj == j + 1,
                ss as int == subs_sum(st, j as int, k2 as int),
            decreases sc - k2,
        {
            proof {
                assert(st[j as int].subdirs[k2 as int] == (
                    node.subdirs@[k2 as int].0@,
                    node.subdirs@[k2 as int].1 as int,
                ));
                assert(j < st[j as int].subdirs[k2 as int].1 < st.len());
            }
            let c = node.subdirs[k2].1;
            proof {
                assert(sizes@[c as int] as int == size_of(st, c as int));
                assert(subs_sum(st, j as int, k2 + 1) == sat_add(
                    subs_sum(st, j as int, k2 as int),
                    size_of(st, st[j as int].subdirs[k2 as int].1),
                ));
            }
            ss = sat_add_exec(ss, sizes[c]);
            k2 = k2 + 1;
        }
        let total = sat_add_exec(fs, ss);
        proof {
            assert(total as int == size_of(st, j as int));
        }
        let ghost szpre = sizes@;
        let sj = &mut sizes[j];
        *sj = total;
        proof {
            assert(sizes@ == szpre.update(j as int, total));
        }
        jj = j;
    }
    sizes
}


impl Day07 {
    /// Part one: the sum of every directory total of at most 100000.
    pub fn part_one(parsed: &(Vec<u128>, u128)) -> (r: String)
        ensures
            r@ == dec_str(p1_of(sizes_view(parsed.0@)) as nat),
    {
        let ghost sv = sizes_view(parsed.0@);
        let n: usize = parsed.0.len();
        let mut sum: u128 = 0;
        let mut k: usize = 0;
        while k < n
            invariant
                k <= n,
                n == parsed.0@.len(),
                sv == sizes_view(parsed.0@),
                sum as int == p1_of(sv.take(k as int)),
                sum as int <= k * 100000,
            decreases n - k,
        {
            proof {
                assert(sv.take(k + 1).drop_last() =~= sv.take(k as int));
                assert(sv.take(k + 1).last() == sv[k as int]);
                assert(sv[k as int] == parsed.0@[k as int] as int);
                assert((k as int) * 100000 + 100000 == (k + 1) * 100000) by (nonlinear_arith);
                assert((k + 1) * 100000 <= ((usize::MAX as int) + 1) * 100000) by (nonlinear_arith)
                    requires
                        0 <= k + 1 <= usize::MAX as int + 1,
                ;
            }
            let v = parsed.0[k];
            if v <= 100000 {
                sum = sum + v;
            }
            k = k + 1;
        }
        proof {
            assert(sv.take(n as int) =~= sv);
        }
        u128_string(sum)
    }

    /// Part two: the smallest directory total that frees enough space, or
    /// "0" when no directory does.
    pub fn part_two(parsed: &(Vec<u128>, u128)) -> (r: String)
        ensures
            r@ == dec_str(p2_of(sizes_view(parsed.0@), parsed.1 as int - 40000000) as nat),
    {
        let ghost sv = sizes_view(parsed.0@);
        let ghost thr = parsed.1 as int - 40000000;
        let root = parsed.1;
        let n: usize = parsed.0.len();
        let mut best: u128 = 0;
        let mut k: usize = 0;
        while k < n
            invariant
                k <= n,
                n == parsed.0@.len(),
                sv == sizes_view(parsed.0@),
                thr == parsed.1 as int - 40000000,
                root == parsed.1,
                best as int == p2_of(sv.take(k as int), thr),
            decreases n - k,
        {
            proof {
                assert(sv.take(k + 1).drop_last() =~= sv.take(k as int));
                assert(sv.take(k + 1).last() == sv[k as int]);
                assert(sv[k as int] == parsed.0@[k as int] as int);
            }
            let v = parsed.0[k];
            let qualifies: bool = if root >= 40000000 {
                v >= root - 40000000
            } else {
                true
            };
            proof {
                assert(qualifies == (v as int >= thr));
            }
            if qualifies && (best == 0 || v < best) {
                best = v;
            }
            k = k + 1;
        }
        proof {
            assert(sv.take(n as int) =~= sv);
            lemma_p2_nonneg(sv, thr);
        }
        u128_string(best)
    }

    /// Runs both parts over one parse; with the flag set, part one is skipped
    /// and reported as "0". Empty input reports "0" for both parts.
    pub fn solve(input: &str, only_part_two: bool) -> (r: (String, String))
        requires
            input.spec_bytes().len() == 0 || day07_wf(input.spec_bytes()),
        ensures
            r.0@ == if input.spec_bytes().len() == 0 || only_part_two {
                dec_str(0)
            } else {
                day07_p1(input.spec_bytes())
            },
            r.1@ == if input.spec_bytes().len() == 0 {
                dec_str(0)
            } else {
                day07_p2(input.spec_bytes())
            },
    {
        if input.as_bytes().len() == 0 {
            return (u128_string(0), u128_string(0));
        }
        match Self::parse_input(input) {
            Some(parsed) => {
                let p2 = Self::part_two(&parsed);
                let p1 = if only_part_two {
                    u128_string(0)
                } else {
                    Self::part_one(&parsed)
                };
                (p1, p2)
            },
            None => {
                proof {
                    assert(false);
                }
                (u128_string(0), u128_string(0))
            },
        }
    }

    /// Part one alone, from raw input.
    pub fn solve_part_one(input: &str) -> (r: String)
        requires
            input.spec_bytes().len() == 0 || day07_wf(input.spec_bytes()),
        ensures
            r@ == if input.spec_bytes().len() == 0 {
                dec_str(0)
            } else {
                day07_p1(input.spec_bytes())
            },
    {
        let (p1, _p2) = Self::solve(input, false);
        p1
    }

    /// Part two alone, from raw input.
    pub fn solve_part_two(input: &str) -> (r: String)
        requires
            input.spec_bytes().len() == 0 || day07_wf(input.spec_bytes()),
        ensures
            r@ == if input.spec_bytes().len() == 0 {
                dec_str(0)
            } else {
                day07_p2(input.spec_bytes())
            },
    {
        let (_p1, p2) = Self::solve(input, true);
        p2
    }
}

/// The part-two result is never negative.
proof fn lemma_p2_nonneg(sz: Seq<int>, thr: int)
    requires
        forall|x: int| 0 <= x < sz.len() ==> sz[x] >= 0,
    ensures
        p2_of(sz, thr) >= 0,
    decreases sz.len(),
{
    if sz.len() > 0 {
        lemma_p2_nonneg(sz.drop_last(), thr);
    }
}


} // verus!
