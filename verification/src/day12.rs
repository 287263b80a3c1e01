//! Shortest hill climb. The grid of elevations `a`-`z` has a start `S` (at
//! elevation `a`) and a goal `E` (at elevation `z`); a step to one of the
//! four neighbours is allowed when the target is at most one higher. Part
//! one is the shortest path length from `S` to `E`; part two the shortest
//! from any `a` cell. Distance is the least number of expansions of the
//! reachable set; an unreachable goal reports "0".
use crate::text::{dec_str, lemma_lines_sum, lines_of, split_lines, sum_lens, u128_string};
use vstd::prelude::*;
use vstd::string::StringSliceAdditionalSpecFns;

verus! {

pub struct Day12;

/// One grid cell, as a coordinate pair with its elevation.
#[derive(Clone, Copy, Debug, PartialEq, Eq, Structural)]
pub struct Location {
    pub x: usize,
    pub y: usize,
    pub height: u8,
}

impl Location {
    /// Whether a step from this cell to `other` is allowed.
    pub fn can_travel_to(&self, other: Location) -> (r: bool)
        ensures
            r == (other.height as int <= self.height as int + 1),
    {
        other.height as u16 <= self.height as u16 + 1
    }
}

/// The parsed world: the elevation grid and the two marked cells, as
/// `(x, y)` pairs.
pub struct WorldMap {
    pub grid: Vec<Vec<u8>>,
    pub start: (usize, usize),
    pub end: (usize, usize),
}

/// The elevation of one input byte: `S` is ground, `E` is the summit.
pub open spec fn height_of(b: u8) -> u8 {
    if b == 83 {
        97
    } else if b == 69 {
        122
    } else {
        b
    }
}

pub open spec fn row_heights(l: Seq<u8>) -> Seq<u8> {
    l.map_values(|b: u8| height_of(b))
}

pub open spec fn grid12(s: Seq<u8>) -> Seq<Seq<u8>> {
    lines_of(s).map_values(|l: Seq<u8>| row_heights(l))
}

/// The last column at or before `j` holding the mark, or -1.
pub open spec fn last_in_row(l: Seq<u8>, m: u8, j: int) -> int
    decreases j,
{
    if j <= 0 {
        -1
    } else if l[j - 1] == m {
        j - 1
    } else {
        last_in_row(l, m, j - 1)
    }
}

/// The `(x, y)` position of the last occurrence of the mark, scanning the
/// rows at or before `i` from the bottom.
pub open spec fn last_mark(ls: Seq<Seq<u8>>, m: u8, i: int) -> Option<(int, int)>
    decreases i,
{
    if i <= 0 {
        None
    } else {
        let r = last_in_row(ls[i - 1], m, ls[i - 1].len() as int);
        if r >= 0 {
            Some((r, i - 1))
        } else {
            last_mark(ls, m, i - 1)
        }
    }
}

pub open spec fn start_of(s: Seq<u8>) -> Option<(int, int)> {
    last_mark(lines_of(s), 83, lines_of(s).len() as int)
}

pub open spec fn end_of(s: Seq<u8>) -> Option<(int, int)> {
    last_mark(lines_of(s), 69, lines_of(s).len() as int)
}

pub open spec fn day12_wf(s: Seq<u8>) -> bool {
    start_of(s) is Some && end_of(s) is Some
}

/// Whether the visited grid `v` reaches cell `(y, x)` through one expansion:
/// some in-bounds neighbour is visited and at most one lower.
pub open spec fn from_nb(g: Seq<Seq<u8>>, v: Seq<Seq<bool>>, y: int, x: int) -> bool {
    ||| (x > 0 && v[y][x - 1] && g[y][x] <= g[y][x - 1] + 1)
    ||| (x + 1 < g[y].len() && v[y][x + 1] && g[y][x] <= g[y][x + 1] + 1)
    ||| (y > 0 && x < g[y - 1].len() && v[y - 1][x] && g[y][x] <= g[y - 1][x] + 1)
    ||| (y + 1 < g.len() && x < g[y + 1].len() && v[y + 1][x] && g[y][x] <= g[y + 1][x] + 1)
}

/// One expansion of the reachable set.
pub open spec fn step_layer(g: Seq<Seq<u8>>, v: Seq<Seq<bool>>) -> Seq<Seq<bool>> {
    Seq::new(
        v.len(),
        |y: int| Seq::new(v[y].len(), |x: int| v[y][x] || from_nb(g, v, y, x)),
    )
}

/// The reachable set after `k` expansions of the sources.
pub open spec fn layers(g: Seq<Seq<u8>>, src: Seq<Seq<bool>>, k: int) -> Seq<Seq<bool>>
    decreases k,
{
    if k <= 0 {
        src
    } else {
        step_layer(g, layers(g, src, k - 1))
    }
}

/// The source grid holding exactly the one cell `(sx, sy)`.
pub open spec fn one_source(g: Seq<Seq<u8>>, sx: int, sy: int) -> Seq<Seq<bool>> {
    Seq::new(g.len(), |y: int| Seq::new(g[y].len(), |x: int| y == sy && x == sx))
}

/// The source grid holding every cell at ground elevation.
pub open spec fn ground_sources(g: Seq<Seq<u8>>) -> Seq<Seq<bool>> {
    Seq::new(g.len(), |y: int| Seq::new(g[y].len(), |x: int| g[y][x] == 97))
}

/// The least expansion count at most `cap` that reaches `(ex, ey)`, starting
/// the search at `k`.
pub open spec fn first_found(
    g: Seq<Seq<u8>>,
    src: Seq<Seq<bool>>,
    ex: int,
    ey: int,
    k: int,
    cap: int,
) -> Option<int>
    decreases cap - k,
{
    if k > cap || k < 0 {
        None
    } else if layers(g, src, k)[ey][ex] {
        Some(k)
    } else if k == cap {
        None
    } else {
        first_found(g, src, ex, ey, k + 1, cap)
    }
}

/// The total cell count of the grid.
pub open spec fn cells(g: Seq<Seq<u8>>) -> int {
    sum_lens(g)
}

/// The answer string for a search from the given sources.
pub open spec fn bfs_str(g: Seq<Seq<u8>>, src: Seq<Seq<bool>>, ex: int, ey: int) -> Seq<char> {
    match first_found(g, src, ex, ey, 0, cells(g)) {
        Some(k) => dec_str(k as nat),
        None => dec_str(0),
    }
}

pub open spec fn day12_p1(s: Seq<u8>) -> Seq<char> {
    let g = grid12(s);
    bfs_str(
        g,
        one_source(g, (start_of(s)->0).0, (start_of(s)->0).1),
        (end_of(s)->0).0,
        (end_of(s)->0).1,
    )
}

pub open spec fn day12_p2(s: Seq<u8>) -> Seq<char> {
    let g = grid12(s);
    bfs_str(g, ground_sources(g), (end_of(s)->0).0, (end_of(s)->0).1)
}

/// The shapes of the elevation and visited grids agree.
pub open spec fn same_shape(g: Seq<Seq<u8>>, v: Seq<Seq<bool>>) -> bool {
    v.len() == g.len() && forall|y: int| 0 <= y < g.len() ==> (#[trigger] v[y]).len() == g[y].len()
}

/// Shape and marked cells of a parsed world.
pub open spec fn wm_wf(wm: &WorldMap) -> bool {
    &&& (wm.end.1 as int) < wm.grid.deep_view().len()
    &&& (wm.end.0 as int) < wm.grid.deep_view()[wm.end.1 as int].len()
    &&& (wm.start.1 as int) < wm.grid.deep_view().len()
    &&& (wm.start.0 as int) < wm.grid.deep_view()[wm.start.1 as int].len()
    &&& cells(wm.grid.deep_view()) <= usize::MAX
}

/// Computes one expansion of the visited grid.
fn expand(grid: &Vec<Vec<u8>>, cur: &Vec<Vec<bool>>) -> (next: Vec<Vec<bool>>)
    requires
        same_shape(grid.deep_view(), cur.deep_view()),
    ensures
        next.deep_view() == step_layer(grid.deep_view(), cur.deep_view()),
        same_shape(grid.deep_view(), next.deep_view()),
{
    let ghost g = grid.deep_view();
    let ghost v = cur.deep_view();
    let ghost tgt = step_layer(g, v);
    let n: usize = grid.len();
    let mut next: Vec<Vec<bool>> = Vec::new();
    proof {
        assert(g.len() == grid@.len());
    }
    let mut y: usize = 0;
    while y < n
        invariant
            y <= n,
            n == grid@.len(),
            g == grid.deep_view(),
            v == cur.deep_view(),
            tgt == step_layer(g, v),
            same_shape(g, v),
            next.deep_view() =~= tgt.take(y as int),
        decreases n - y,
    {
        let grow = &grid[y];
        let vrow = &cur[y];
        proof {
            assert(grow.deep_view() == g[y as int]);
            assert(grow@ =~= g[y as int]);
            assert(vrow.deep_view() == v[y as int]);
            assert(vrow@ =~= v[y as int]);
        }
        let m: usize = grow.len();
        let mut row: Vec<bool> = Vec::new();
        let mut x: usize = 0;
        while x < m
            invariant
                x <= m,
                y < n == grid@.len(),
                m == g[y as int].len(),
                g == grid.deep_view(),
                v == cur.deep_view(),
                same_shape(g, v),
                grow@ == g[y as int],
                vrow@ == v[y as int],
                row@ =~= tgt[y as int].take(x as int),
                tgt == step_layer(g, v),
            decreases m - x,
        {
            let h = grow[x];
            let mut reached: bool = vrow[x];
            if !reached && x > 0 {
                if vrow[x - 1] && (h as u16) <= (grow[x - 1] as u16) + 1 {
                    reached = true;
                }
            }
            if !reached && x + 1 < m {
                if vrow[x + 1] && (h as u16) <= (grow[x + 1] as u16) + 1 {
                    reached = true;
                }
            }
            if !reached && y > 0 {
                let up_g = &grid[y - 1];
                let up_v = &cur[y - 1];
                proof {
                    assert(up_g.deep_view() == g[y - 1]);
                    assert(up_g@ =~= g[y - 1]);
                    assert(up_v.deep_view() == v[y - 1]);
                    assert(up_v@ =~= v[y - 1]);
                }
                if x < up_g.len() {
                    if up_v[x] && (h as u16) <= (up_g[x] as u16) + 1 {
                        reached = true;
                    }
                }
            }
            if !reached && y + 1 < n {
                let dn_g = &grid[y + 1];
                let dn_v = &cur[y + 1];
                proof {
                    assert(dn_g.deep_view() == g[y + 1]);
                    assert(dn_g@ =~= g[y + 1]);
                    assert(dn_v.deep_view() == v[y + 1]);
                    assert(dn_v@ =~= v[y + 1]);
                }
                if x < dn_g.len() {
                    if dn_v[x] && (h as u16) <= (dn_g[x] as u16) + 1 {
                        reached = true;
                    }
                }
            }
            proof {
                assert(reached == (v[y as int][x as int] || from_nb(g, v, y as int, x as int)));
                assert(tgt[y as int][x as int] == (v[y as int][x as int] || from_nb(
                    g,
                    v,
                    y as int,
                    x as int,
                )));
            }
            row.push(reached);
            proof {
                assert(row@ =~= tgt[y as int].take(x + 1));
            }
            x = x + 1;
        }
        let ghost pre = next.deep_view();
        let ghost prev = next@;
        let ghost rowv = row@;
        next.push(row);
        proof {
            assert(tgt[y as int].take(m as int) =~= tgt[y as int]);
            assert(next.deep_view() =~~= pre.push(rowv)) by {
                assert(next@ == prev.push(next@[prev.len() as int]));
            }
            assert(pre.push(tgt[y as int]) =~= tgt.take(y + 1));
        }
        y = y + 1;
    }
    proof {
        assert(tgt.take(n as int) =~= tgt);
        assert(same_shape(g, next.deep_view()));
    }
    next
}

/// Runs the layered search up to `cap` expansions.
#[verifier::loop_isolation(false)]
fn bfs(grid: &Vec<Vec<u8>>, src: Vec<Vec<bool>>, ex: usize, ey: usize, cap: usize) -> (r: Option<
    usize,
>)
    requires
        same_shape(grid.deep_view(), src.deep_view()),
        (ey as int) < grid.deep_view().len(),
        (ex as int) < grid.deep_view()[ey as int].len(),
    ensures
        match r {
            Some(k) => first_found(
                grid.deep_view(),
                src.deep_view(),
                ex as int,
                ey as int,
                0,
                cap as int,
            ) == Some(k as int),
            None => first_found(
                grid.deep_view(),
                src.deep_view(),
                ex as int,
                ey as int,
                0,
                cap as int,
            ) is None,
        },
{
    let ghost g = grid.deep_view();
    let ghost sv = src.deep_view();
    let mut cur = src;
    let mut k: usize = 0;
    while k < cap
        invariant
            k <= cap,
            same_shape(g, cur.deep_view()),
            cur.deep_view() == layers(g, sv, k as int),
            first_found(g, sv, ex as int, ey as int, 0, cap as int) == first_found(
                g,
                sv,
                ex as int,
                ey as int,
                k as int,
                cap as int,
            ),
        decreases cap - k,
    {
        let erow = &cur[ey];
        proof {
            assert(erow.deep_view() == cur.deep_view()[ey as int]);
            assert(erow@ =~= cur.deep_view()[ey as int]);
        }
        if erow[ex] {
            proof {
                assert(first_found(g, sv, ex as int, ey as int, k as int, cap as int) == Some(
                    k as int,
                ));
            }
            return Some(k);
        }
        let next = expand(grid, &cur);
        proof {
            assert(next.deep_view() == layers(g, sv, k + 1));
        }
        cur = next;
        k = k + 1;
    }
    let erow = &cur[ey];
    proof {
        assert(erow.deep_view() == cur.deep_view()[ey as int]);
        assert(erow@ =~= cur.deep_view()[ey as int]);
    }
    if erow[ex] {
        proof {
            assert(first_found(g, sv, ex as int, ey as int, cap as int, cap as int) == Some(
                cap as int,
            ));
        }
        return Some(cap);
    }
    None
}

impl Day12 {
    /// Parses the elevation grid and locates the marked cells; `None` when
    /// either mark is missing.
    pub fn parse_input(input: &str) -> (r: Option<WorldMap>)
        ensures
            r is Some <==> day12_wf(input.spec_bytes()),
            r is Some ==> (r->0).grid.deep_view() == grid12(input.spec_bytes()),
            r is Some ==> ((r->0).start.0 as int, (r->0).start.1 as int) == start_of(
                input.spec_bytes(),
            )->0,
            r is Some ==> ((r->0).end.0 as int, (r->0).end.1 as int) == end_of(
                input.spec_bytes(),
            )->0,
            r is Some ==> wm_wf(&r->0),
    {
        let bytes = input.as_bytes();
        let blen: usize = bytes.len();
        let lines = split_lines(bytes);
        let ghost ls = lines_of(input.spec_bytes());
        let n: usize = lines.len();
        let mut grid: Vec<Vec<u8>> = Vec::new();
        let mut start: Option<(usize, usize)> = None;
        let mut end: Option<(usize, usize)> = None;
        proof {
            assert(grid.deep_view() =~~= ls.take(0).map_values(|l: Seq<u8>| row_heights(l)));
        }
        let mut y: usize = 0;
        while y < n
            invariant
                y <= n,
                n == lines@.len(),
                lines.deep_view() == ls,
                ls == lines_of(input.spec_bytes()),
                grid.deep_view() == ls.take(y as int).map_values(|l: Seq<u8>| row_heights(l)),
                grid@.len() == y,
                match start {
                    Some(p) => last_mark(ls, 83, y as int) == Some((p.0 as int, p.1 as int)),
                    None => last_mark(ls, 83, y as int) is None,
                },
                match end {
                    Some(p) => last_mark(ls, 69, y as int) == Some((p.0 as int, p.1 as int)),
                    None => last_mark(ls, 69, y as int) is None,
                },
            decreases n - y,
        {
            let line = &lines[y];
            proof {
                assert(line.deep_view() == ls[y as int]);
                assert(line@ =~= ls[y as int]);
            }
            let m: usize = line.len();
            let mut row: Vec<u8> = Vec::new();
            let mut s_here: Option<usize> = None;
            let mut e_here: Option<usize> = None;
            let mut x: usize = 0;
            while x < m
                invariant
                    x <= m,
                    m == line@.len(),
                    row@ == row_heights(line@.take(x as int)),
                    match s_here {
                        Some(c) => last_in_row(line@, 83, x as int) == c as int && c < m,
                        None => last_in_row(line@, 83, x as int) == -1,
                    },
                    match e_here {
                        Some(c) => last_in_row(line@, 69, x as int) == c as int && c < m,
                        None => last_in_row(line@, 69, x as int) == -1,
                    },
                decreases m - x,
            {
                let b = line[x];
                if b == 83 {
                    s_here = Some(x);
                    row.push(97);
                } else if b == 69 {
                    e_here = Some(x);
                    row.push(122);
                } else {
                    row.push(b);
                }
                proof {
                    assert(row_heights(line@.take(x + 1)) =~= row_heights(line@.take(x as int)).push(
                        height_of(line@[x as int]),
                    ));
                }
                x = x + 1;
            }
            proof {
                assert(line@.take(m as int) =~= line@);
            }
            match s_here {
                Some(c) => {
                    start = Some((c, y));
                },
                None => {},
            }
            match e_here {
                Some(c) => {
                    end = Some((c, y));
                },
                None => {},
            }
            let ghost pre = grid.deep_view();
            let ghost prev = grid@;
            let ghost rowv = row@;
            grid.push(row);
            proof {
                assert(grid.deep_view() =~~= pre.push(rowv)) by {
                    assert(grid@ == prev.push(grid@[prev.len() as int]));
                }
                assert(pre.push(rowv) =~~= ls.take(y + 1).map_values(|l: Seq<u8>| row_heights(l)))
                    by {
                    assert forall|j: int|
                        0 <= j < y + 1 implies #[trigger] pre.push(rowv)[j] == ls.take(
                        y + 1,
                    ).map_values(|l: Seq<u8>| row_heights(l))[j] by {
                        assert(ls.take(y + 1)[j] == ls[j]);
                        if j < y {
                            assert(pre[j] == ls.take(y as int).map_values(
                                |l: Seq<u8>| row_heights(l),
                            )[j]);
                            assert(ls.take(y as int)[j] == ls[j]);
                        }
                    }
                }
            }
            y = y + 1;
        }
        proof {
            assert(ls.take(n as int) =~= ls);
        }
        match (start, end) {
            (Some(s), Some(e)) => {
                proof {
                    lemma_lines_sum(input.spec_bytes(), 0);
                    lemma_cells_of_heights(ls);
                    assert(bytes@.len() == blen as int);
                    lemma_last_mark_range(ls, 83, n as int);
                    lemma_last_mark_range(ls, 69, n as int);
                    assert(grid.deep_view()[e.1 as int] == row_heights(ls[e.1 as int])) by {
                        assert(ls.take(n as int)[e.1 as int] == ls[e.1 as int]);
                    }
                    assert(grid.deep_view()[s.1 as int] == row_heights(ls[s.1 as int])) by {
                        assert(ls.take(n as int)[s.1 as int] == ls[s.1 as int]);
                    }
                }
                Some(WorldMap { grid, start: s, end: e })
            },
            _ => None,
        }
    }

    /// Part one: the shortest path from the start to the goal.
    pub fn part_one(wm: &WorldMap) -> (r: String)
        requires
            wm_wf(wm),
        ensures
            r@ == bfs_str(
                wm.grid.deep_view(),
                one_source(wm.grid.deep_view(), wm.start.0 as int, wm.start.1 as int),
                wm.end.0 as int,
                wm.end.1 as int,
            ),
    {
        let ghost g = wm.grid.deep_view();
        let n: usize = wm.grid.len();
        let mut srcs: Vec<Vec<bool>> = Vec::new();
        proof {
            assert(srcs.deep_view() =~~= one_source(g, wm.start.0 as int, wm.start.1 as int).take(
                0,
            ));
        }
        let ghost tgt = one_source(g, wm.start.0 as int, wm.start.1 as int);
        let mut y: usize = 0;
        while y < n
            invariant
                y <= n,
                n == wm.grid@.len(),
                g == wm.grid.deep_view(),
                tgt == one_source(g, wm.start.0 as int, wm.start.1 as int),
                srcs.deep_view() =~= tgt.take(y as int),
            decreases n - y,
        {
            let grow = &wm.grid[y];
            proof {
                assert(grow.deep_view() == g[y as int]);
                assert(grow@ =~= g[y as int]);
            }
            let m: usize = grow.len();
            let mut row: Vec<bool> = Vec::new();
            let mut x: usize = 0;
            while x < m
                invariant
                    x <= m,
                    y < n,
                    n == wm.grid@.len(),
                    m == g[y as int].len(),
                    g == wm.grid.deep_view(),
                    tgt == one_source(g, wm.start.0 as int, wm.start.1 as int),
                    row@ =~= tgt[y as int].take(x as int),
                decreases m - x,
            {
                row.push(y == wm.start.1 && x == wm.start.0);
                proof {
                    assert(row@ =~= tgt[y as int].take(x + 1));
                }
                x = x + 1;
            }
            let ghost pre = srcs.deep_view();
            let ghost prev = srcs@;
            srcs.push(row);
            proof {
                assert(tgt[y as int].take(m as int) =~= tgt[y as int]);
                assert(srcs.deep_view() =~~= pre.push(tgt[y as int])) by {
                    assert(srcs@ == prev.push(srcs@[prev.len() as int]));
                }
                assert(pre.push(tgt[y as int]) =~= tgt.take(y + 1));
            }
            y = y + 1;
        }
        proof {
            assert(tgt.take(n as int) =~= tgt);
            assert(same_shape(g, srcs.deep_view()));
        }
        let cap = count_cells(&wm.grid);
        match bfs(&wm.grid, srcs, wm.end.0, wm.end.1, cap) {
            Some(k) => u128_string(k as u128),
            None => u128_string(0),
        }
    }

    /// Part two: the shortest path from any ground cell to the goal.
    pub fn part_two(wm: &WorldMap) -> (r: String)
        requires
            wm_wf(wm),
        ensures
            r@ == bfs_str(
                wm.grid.deep_view(),
                ground_sources(wm.grid.deep_view()),
                wm.end.0 as int,
                wm.end.1 as int,
            ),
    {
        let ghost g = wm.grid.deep_view();
        let n: usize = wm.grid.len();
        let mut srcs: Vec<Vec<bool>> = Vec::new();
        let ghost tgt = ground_sources(g);
        proof {
            assert(srcs.deep_view() =~~= tgt.take(0));
        }
        let mut y: usize = 0;
        while y < n
            invariant
                y <= n,
                n == wm.grid@.len(),
                g == wm.grid.deep_view(),
                tgt == ground_sources(g),
                srcs.deep_view() =~= tgt.take(y as int),
            decreases n - y,
        {
            let grow = &wm.grid[y];
            proof {
                assert(grow.deep_view() == g[y as int]);
                assert(grow@ =~= g[y as int]);
            }
            let m: usize = grow.len();
            let mut row: Vec<bool> = Vec::new();
            let mut x: usize = 0;
            while x < m
                invariant
                    x <= m,
                    y < n,
                    n == wm.grid@.len(),
                    m == g[y as int].len(),
                    g == wm.grid.deep_view(),
                    grow@ == g[y as int],
                    tgt == ground_sources(g),
                    row@ =~= tgt[y as int].take(x as int),
                decreases m - x,
            {
                row.push(grow[x] == 97);
                proof {
                    assert(row@ =~= tgt[y as int].take(x + 1));
                }
                x = x + 1;
            }
            let ghost pre = srcs.deep_view();
            let ghost prev = srcs@;
            srcs.push(row);
            proof {
                assert(tgt[y as int].take(m as int) =~= tgt[y as int]);
                assert(srcs.deep_view() =~~= pre.push(tgt[y as int])) by {
                    assert(srcs@ == prev.push(srcs@[prev.len() as int]));
                }
                assert(pre.push(tgt[y as int]) =~= tgt.take(y + 1));
            }
            y = y + 1;
        }
        proof {
            assert(tgt.take(n as int) =~= tgt);
            assert(same_shape(g, srcs.deep_view()));
        }
        let cap = count_cells(&wm.grid);
        match bfs(&wm.grid, srcs, wm.end.0, wm.end.1, cap) {
            Some(k) => u128_string(k as u128),
            None => u128_string(0),
        }
    }

    /// Runs both parts over one parse; with the flag set, part one is skipped
    /// and reported as "0". Empty input reports "0" for both parts.
    pub fn solve(input: &str, only_part_two: bool) -> (r: (String, String))
        requires
            input.spec_bytes().len() == 0 || day12_wf(input.spec_bytes()),
        ensures
            r.0@ == if input.spec_bytes().len() == 0 || only_part_two {
                dec_str(0)
            } else {
                day12_p1(input.spec_bytes())
            },
            r.1@ == if input.spec_bytes().len() == 0 {
                dec_str(0)
            } else {
                day12_p2(input.spec_bytes())
            },
    {
        if input.as_bytes().len() == 0 {
            return (u128_string(0), u128_string(0));
        }
        match Self::parse_input(input) {
            Some(wm) => {
                let p2 = Self::part_two(&wm);
                let p1 = if only_part_two {
                    u128_string(0)
                } else {
                    Self::part_one(&wm)
                };
                (p1, p2)
            },
            None => {
                proof {
                    assert(false);
                }
                (u128_string(0), u128_string(0))
            },
        }
    }

    /// Part one alone, from raw input.
    pub fn solve_part_one(input: &str) -> (r: String)
        requires
            input.spec_bytes().len() == 0 || day12_wf(input.spec_bytes()),
        ensures
            r@ == if input.spec_bytes().len() == 0 {
                dec_str(0)
            } else {
                day12_p1(input.spec_bytes())
            },
    {
        let (p1, _p2) = Self::solve(input, false);
        p1
    }

    /// Part two alone, from raw input.
    pub fn solve_part_two(input: &str) -> (r: String)
        requires
            input.spec_bytes().len() == 0 || day12_wf(input.spec_bytes()),
        ensures
            r@ == if input.spec_bytes().len() == 0 {
                dec_str(0)
            } else {
                day12_p2(input.spec_bytes())
            },
    {
        let (_p1, p2) = Self::solve(input, true);
        p2
    }
}

/// Counts the cells of the grid.
fn count_cells(grid: &Vec<Vec<u8>>) -> (r: usize)
    requires
        cells(grid.deep_view()) <= usize::MAX,
    ensures
        r as int == cells(grid.deep_view()),
{
    let ghost g = grid.deep_view();
    let n: usize = grid.len();
    let mut total: usize = 0;
    let mut y: usize = 0;
    proof {
        lemma_sum_prefix(g, 0);
        assert(g.take(0) =~= Seq::<Seq<u8>>::empty());
        assert(g.skip(0) =~= g);
        lemma_sum_nonneg(g);
    }
    while y < n
        invariant
            y <= n,
            n == grid@.len(),
            g == grid.deep_view(),
            cells(g) <= usize::MAX,
            total as int == sum_lens(g.take(y as int)),
            total as int + sum_lens(g.skip(y as int)) == cells(g),
            sum_lens(g.skip(y as int)) >= 0,
        decreases n - y,
    {
        let grow = &grid[y];
        proof {
            assert(grow.deep_view() == g[y as int]);
            assert(grow@ =~= g[y as int]);
            lemma_sum_split(g, y as int);
            lemma_sum_nonneg(g.skip(y + 1));
        }
        total = total + grow.len();
        y = y + 1;
    }
    proof {
        assert(g.skip(n as int) =~= Seq::<Seq<u8>>::empty());
    }
    total
}

/// Splitting a length sum at one row.
proof fn lemma_sum_split(g: Seq<Seq<u8>>, y: int)
    requires
        0 <= y < g.len(),
    ensures
        sum_lens(g.skip(y)) == g[y].len() + sum_lens(g.skip(y + 1)),
        sum_lens(g.take(y + 1)) == sum_lens(g.take(y)) + g[y].len(),
{
    assert(g.skip(y).first() == g[y]);
    assert(g.skip(y).drop_first() =~= g.skip(y + 1));
    lemma_take_step(g, y);
}

proof fn lemma_take_step(g: Seq<Seq<u8>>, y: int)
    requires
        0 <= y < g.len(),
    ensures
        sum_lens(g.take(y + 1)) == sum_lens(g.take(y)) + g[y].len(),
    decreases y,
{
    if y == 0 {
        assert(g.take(1).first() == g[0]);
        assert(g.take(1).drop_first() =~= Seq::<Seq<u8>>::empty());
        assert(g.take(0) =~= Seq::<Seq<u8>>::empty());
    } else {
        lemma_take_step(g.drop_first(), y - 1);
        assert(g.take(y + 1).first() == g[0]);
        assert(g.take(y + 1).drop_first() =~= g.drop_first().take(y));
        assert(g.take(y).first() == g[0]);
        assert(g.take(y).drop_first() =~= g.drop_first().take(y - 1));
        assert(g.drop_first()[y - 1] == g[y]);
    }
}

proof fn lemma_sum_nonneg(g: Seq<Seq<u8>>)
    ensures
        sum_lens(g) >= 0,
    decreases g.len(),
{
    if g.len() > 0 {
        lemma_sum_nonneg(g.drop_first());
    }
}

proof fn lemma_sum_prefix(g: Seq<Seq<u8>>, y: int)
    requires
        0 <= y <= g.len(),
    ensures
        sum_lens(g.take(y)) + sum_lens(g.skip(y)) == sum_lens(g),
    decreases y,
{
    if y == 0 {
        assert(g.take(0) =~= Seq::<Seq<u8>>::empty());
        assert(g.skip(0) =~= g);
    } else {
        lemma_sum_prefix(g, y - 1);
        lemma_sum_split(g, y - 1);
    }
}

/// The cell count of the height grid equals the line length sum.
proof fn lemma_cells_of_heights(ls: Seq<Seq<u8>>)
    ensures
        cells(ls.map_values(|l: Seq<u8>| row_heights(l))) == sum_lens(ls),
    decreases ls.len(),
{
    if ls.len() > 0 {
        lemma_cells_of_heights(ls.drop_first());
        let mapped = ls.map_values(|l: Seq<u8>| row_heights(l));
        assert(mapped.first() == row_heights(ls[0]));
        assert(mapped.drop_first() =~= ls.drop_first().map_values(|l: Seq<u8>| row_heights(l)));
    }
}

/// A found mark lies inside its line.
proof fn lemma_last_mark_range(ls: Seq<Seq<u8>>, m: u8, i: int)
    requires
        last_mark(ls, m, i) is Some,
        i <= ls.len(),
    ensures
        0 <= (last_mark(ls, m, i)->0).1 < ls.len(),
        0 <= (last_mark(ls, m, i)->0).0 < ls[(last_mark(ls, m, i)->0).1].len(),
    decreases i,
{
    if i > 0 {
        let r = last_in_row(ls[i - 1], m, ls[i - 1].len() as int);
        if r >= 0 {
            lemma_last_in_row_range(ls[i - 1], m, ls[i - 1].len() as int);
        } else {
            lemma_last_mark_range(ls, m, i - 1);
        }
    }
}

proof fn lemma_last_in_row_range(l: Seq<u8>, m: u8, j: int)
    requires
        j <= l.len(),
        last_in_row(l, m, j) >= 0,
    ensures
        last_in_row(l, m, j) < l.len(),
    decreases j,
{
    if j > 0 && l[j - 1] != m {
        lemma_last_in_row_range(l, m, j - 1);
    }
}


} // verus!
