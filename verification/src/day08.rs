//! Tree grid visibility. The input is a rectangular grid of digit heights.
//! Part one counts cells visible from an edge: strictly taller than every
//! tree between them and that edge. Part two maximises the scenic score: the
//! product over the four directions of how many trees are seen before (and
//! including) the first one at least as tall.
use crate::text::{
    dec_str, is_digit, lemma_lines_sum, lines_of, split_lines, sum_lens, u128_string,
};
use vstd::prelude::*;
use vstd::string::StringSliceAdditionalSpecFns;

verus! {

pub struct Day08;

/// A nonempty rectangular grid of digit lines.
pub open spec fn day08_wf(s: Seq<u8>) -> bool {
    let ls = lines_of(s);
    &&& ls.len() > 0
    &&& ls[0].len() > 0
    &&& forall|i: int, j: int|
        0 <= i < ls.len() && 0 <= j < ls[i].len() ==> is_digit(#[trigger] ls[i][j])
    &&& forall|i: int| 0 <= i < ls.len() ==> (#[trigger] ls[i]).len() == ls[0].len()
}

/// The digit heights of one line.
pub open spec fn heights_of(l: Seq<u8>) -> Seq<u8> {
    l.map_values(|b: u8| (b - 48) as u8)
}

/// The height grid of the input.
pub open spec fn grid_of(s: Seq<u8>) -> Seq<Seq<u8>> {
    lines_of(s).map_values(|l: Seq<u8>| heights_of(l))
}

/// Whether the tree at column `x`, row `y` is visible from some edge.
pub open spec fn visible_cell(g: Seq<Seq<u8>>, x: int, y: int) -> bool {
    ||| forall|j: int| 0 <= j < x ==> g[y][j] < g[y][x]
    ||| forall|j: int| x < j < g[y].len() ==> g[y][j] < g[y][x]
    ||| forall|j: int| 0 <= j < y ==> g[j][x] < g[y][x]
    ||| forall|j: int| y < j < g.len() ==> g[j][x] < g[y][x]
}

/// How many of the first `x` cells of row `y` are visible.
pub open spec fn count_row(g: Seq<Seq<u8>>, y: int, x: int) -> int
    decreases x,
{
    if x <= 0 {
        0
    } else {
        count_row(g, y, x - 1) + if visible_cell(g, x - 1, y) {
            1int
        } else {
            0int
        }
    }
}

/// How many cells of the first `y` rows are visible.
pub open spec fn count_grid(g: Seq<Seq<u8>>, y: int) -> int
    decreases y,
{
    if y <= 0 {
        0
    } else {
        count_grid(g, y - 1) + count_row(g, y - 1, g[y - 1].len() as int)
    }
}

pub open spec fn day08_p1(s: Seq<u8>) -> Seq<char> {
    dec_str(count_grid(grid_of(s), grid_of(s).len() as int) as nat)
}

/// The column where a leftward gaze from `x` stops, checking from `j` down:
/// the first tree at least as tall, or the left edge.
pub open spec fn stop_left(row: Seq<u8>, x: int, j: int) -> int
    decreases j,
{
    if j <= 0 {
        0
    } else if row[j] >= row[x] {
        j
    } else {
        stop_left(row, x, j - 1)
    }
}

/// The column where a rightward gaze stops: the first tree at least as tall,
/// or the right edge `m - 1`.
pub open spec fn stop_right(row: Seq<u8>, x: int, j: int, m: int) -> int
    decreases m - j,
{
    if j >= m - 1 {
        m - 1
    } else if row[j] >= row[x] {
        j
    } else {
        stop_right(row, x, j + 1, m)
    }
}

/// The row where an upward gaze stops.
pub open spec fn stop_up(g: Seq<Seq<u8>>, y: int, x: int, j: int) -> int
    decreases j,
{
    if j <= 0 {
        0
    } else if g[j][x] >= g[y][x] {
        j
    } else {
        stop_up(g, y, x, j - 1)
    }
}

/// The row where a downward gaze stops.
pub open spec fn stop_down(g: Seq<Seq<u8>>, y: int, x: int, j: int, n: int) -> int
    decreases n - j,
{
    if j >= n - 1 {
        n - 1
    } else if g[j][x] >= g[y][x] {
        j
    } else {
        stop_down(g, y, x, j + 1, n)
    }
}

/// The scenic score of one cell: the product of the four viewing distances.
pub open spec fn score_cell(g: Seq<Seq<u8>>, x: int, y: int, n: int, m: int) -> int {
    (x - stop_left(g[y], x, x - 1)) * (stop_right(g[y], x, x + 1, m) - x) * (y - stop_up(
        g,
        y,
        x,
        y - 1,
    )) * (stop_down(g, y, x, y + 1, n) - y)
}

/// The larger of two values.
pub open spec fn imax(a: int, b: int) -> int {
    if a > b {
        a
    } else {
        b
    }
}

/// The largest scenic score among the first `x` cells of row `y`.
pub open spec fn max_row(g: Seq<Seq<u8>>, y: int, x: int, n: int, m: int) -> int
    decreases x,
{
    if x <= 0 {
        0
    } else if score_cell(g, x - 1, y, n, m) > max_row(g, y, x - 1, n, m) {
        score_cell(g, x - 1, y, n, m)
    } else {
        max_row(g, y, x - 1, n, m)
    }
}

/// The largest scenic score among the first `y` rows.
pub open spec fn max_grid(g: Seq<Seq<u8>>, y: int, n: int, m: int) -> int
    decreases y,
{
    if y <= 0 {
        0
    } else if max_row(g, y - 1, m, n, m) > max_grid(g, y - 1, n, m) {
        max_row(g, y - 1, m, n, m)
    } else {
        max_grid(g, y - 1, n, m)
    }
}

pub open spec fn day08_p2(s: Seq<u8>) -> Seq<char> {
    dec_str(
        max_grid(
            grid_of(s),
            grid_of(s).len() as int,
            grid_of(s).len() as int,
            grid_of(s)[0].len() as int,
        ) as nat,
    )
}

proof fn lemma_stop_left_range(row: Seq<u8>, x: int, j: int)
    requires
        0 <= j,
    ensures
        0 <= stop_left(row, x, j) <= j,
    decreases j,
{
    if j > 0 && !(row[j] >= row[x]) {
        lemma_stop_left_range(row, x, j - 1);
    }
}

proof fn lemma_stop_right_range(row: Seq<u8>, x: int, j: int, m: int)
    requires
        0 <= j <= m,
    ensures
        if j <= m - 1 {
            j <= stop_right(row, x, j, m) <= m - 1
        } else {
            stop_right(row, x, j, m) == m - 1
        },
    decreases m - j,
{
    if j < m - 1 && !(row[j] >= row[x]) {
        lemma_stop_right_range(row, x, j + 1, m);
    }
}

proof fn lemma_stop_up_range(g: Seq<Seq<u8>>, y: int, x: int, j: int)
    requires
        0 <= j,
    ensures
        0 <= stop_up(g, y, x, j) <= j,
    decreases j,
{
    if j > 0 && !(g[j][x] >= g[y][x]) {
        lemma_stop_up_range(g, y, x, j - 1);
    }
}

proof fn lemma_stop_down_range(g: Seq<Seq<u8>>, y: int, x: int, j: int, n: int)
    requires
        0 <= j <= n,
    ensures
        if j <= n - 1 {
            j <= stop_down(g, y, x, j, n) <= n - 1
        } else {
            stop_down(g, y, x, j, n) == n - 1
        },
    decreases n - j,
{
    if j < n - 1 && !(g[j][x] >= g[y][x]) {
        lemma_stop_down_range(g, y, x, j + 1, n);
    }
}

/// Whether every row cell in `[lo, hi)` is lower than `h`.
fn row_all_less(row: &Vec<u8>, lo: usize, hi: usize, h: u8) -> (r: bool)
    requires
        hi <= row@.len(),
    ensures
        r == forall|j: int| lo <= j < hi ==> row@[j] < h,
{
    let mut j: usize = lo;
    while j < hi
        invariant
            lo <= j <= hi || (j == lo && lo >= hi),
            hi <= row@.len(),
            forall|k: int| lo <= k < j ==> row@[k] < h,
        decreases hi - j,
    {
        if row[j] >= h {
            return false;
        }
        j = j + 1;
    }
    true
}

/// Whether every column cell in rows `[lo, hi)` is lower than `h`.
fn col_all_less(g: &Vec<Vec<u8>>, x: usize, lo: usize, hi: usize, h: u8) -> (r: bool)
    requires
        hi <= g@.len(),
        forall|i: int| 0 <= i < g@.len() ==> x < (#[trigger] g@[i])@.len(),
    ensures
        r == forall|j: int| lo <= j < hi ==> g.deep_view()[j][x as int] < h,
{
    let mut j: usize = lo;
    while j < hi
        invariant
            lo <= j <= hi || (j == lo && lo >= hi),
            hi <= g@.len(),
            forall|i: int| 0 <= i < g@.len() ==> x < (#[trigger] g@[i])@.len(),
            forall|k: int| lo <= k < j ==> g.deep_view()[k][x as int] < h,
        decreases hi - j,
    {
        let row = &g[j];
        proof {
            assert(row.deep_view() == g.deep_view()[j as int]);
            assert(row@ =~= g.deep_view()[j as int]);
        }
        if row[x] >= h {
            return false;
        }
        j = j + 1;
    }
    true
}

impl Day08 {
    /// Parses the digit grid; `None` when a line holds a non-digit, the grid
    /// is ragged, or it is empty.
    pub fn parse_input(input: &str) -> (r: Option<Vec<Vec<u8>>>)
        ensures
            r is Some <==> day08_wf(input.spec_bytes()),
            r is Some ==> (r->0).deep_view() == grid_of(input.spec_bytes()),
            r is Some ==> (r->0)@.len() * grid_of(input.spec_bytes())[0].len() <= usize::MAX,
    {
        let bytes = input.as_bytes();
        let blen: usize = bytes.len();
        let lines = split_lines(bytes);
        let ghost ls = lines_of(input.spec_bytes());
        let n: usize = lines.len();
        if n == 0 {
            return None;
        }
        let m: usize = lines[0].len();
        if m == 0 {
            proof {
                assert(lines.deep_view()[0] == ls[0]);
            }
            return None;
        }
        let mut out: Vec<Vec<u8>> = Vec::new();
        proof {
            assert(out.deep_view() =~~= ls.take(0).map_values(|l: Seq<u8>| heights_of(l)));
        }
        let mut i: usize = 0;
        while i < n
            invariant
                i <= n,
                n == lines@.len(),
                m == ls[0].len(),
                m > 0,
                lines.deep_view() == ls,
                ls == lines_of(input.spec_bytes()),
                out.deep_view() == ls.take(i as int).map_values(|l: Seq<u8>| heights_of(l)),
                out@.len() == i,
                forall|a: int, j: int|
                    0 <= a < i && 0 <= j < ls[a].len() ==> is_digit(#[trigger] ls[a][j]),
                forall|a: int| 0 <= a < i ==> (#[trigger] ls[a]).len() == m,
            decreases n - i,
        {
            let line = &lines[i];
            proof {
                assert(line.deep_view() == ls[i as int]);
                assert(line@ =~= ls[i as int]);
            }
            if line.len() != m {
                return None;
            }
            let mut row: Vec<u8> = Vec::new();
            let mut j: usize = 0;
            while j < m
                invariant
                    j <= m,
                    m == line@.len(),
                    line@ == ls[i as int],
                    ls == lines_of(input.spec_bytes()),
                    0 <= i < ls.len(),
                    forall|k: int| 0 <= k < j ==> is_digit(#[trigger] line@[k]),
                    row@ == heights_of(line@.take(j as int)),
                decreases m - j,
            {
                let b = line[j];
                if b < 48 || b > 57 {
                    proof {
                        assert(!is_digit(lines_of(input.spec_bytes())[i as int][j as int]));
                    }
                    return None;
                }
                row.push(b - 48);
                proof {
                    assert(heights_of(line@.take(j + 1)) =~= heights_of(line@.take(j as int)).push(
                        (line@[j as int] - 48) as u8,
                    ));
                }
                j = j + 1;
            }
            let ghost pre = out.deep_view();
            let ghost prev = out@;
            let ghost gr = row@;
            out.push(row);
            proof {
                assert(line@.take(m as int) =~= line@);
                assert(out.deep_view() =~~= pre.push(gr)) by {
                    assert(out@ == prev.push(out@[prev.len() as int]));
                }
                assert(out.deep_view() =~~= ls.take(i + 1).map_values(|l: Seq<u8>| heights_of(l)))
                    by {
                    assert forall|k: int|
                        0 <= k < i + 1 implies #[trigger] pre.push(gr)[k] == ls.take(
                        i + 1,
                    ).map_values(|l: Seq<u8>| heights_of(l))[k] by {
                        assert(ls.take(i + 1)[k] == ls[k]);
                        if k < i {
                            assert(pre[k] == ls.take(i as int).map_values(
                                |l: Seq<u8>| heights_of(l),
                            )[k]);
                            assert(ls.take(i as int)[k] == ls[k]);
                        }
                    }
                }
            }
            i = i + 1;
        }
        proof {
            assert(ls.take(n as int) =~= ls);
            assert(day08_wf(input.spec_bytes()));
            lemma_lines_sum(input.spec_bytes(), 0);
            lemma_rect_sum(ls, m as int);
            assert(bytes@.len() == blen as int);
            assert(out@.len() * grid_of(input.spec_bytes())[0].len() <= usize::MAX) by {
                assert(grid_of(input.spec_bytes())[0] == heights_of(ls[0]));
            }
        }
        Some(out)
    }

    /// Part one: how many trees are visible from at least one edge.
    pub fn part_one(grid: &Vec<Vec<u8>>) -> (r: String)
        requires
            forall|i: int|
                0 <= i < grid@.len() ==> (#[trigger] grid@[i])@.len() == grid.deep_view()[0].len(),
            grid@.len() * grid.deep_view()[0].len() <= usize::MAX,
        ensures
            r@ == dec_str(count_grid(grid.deep_view(), grid@.len() as int) as nat),
    {
        let ghost g = grid.deep_view();
        let n: usize = grid.len();
        let m: usize = if n > 0 {
            grid[0].len()
        } else {
            0
        };
        let mut count: u128 = 0;
        proof {
            assert(0 * (m as int) == 0) by (nonlinear_arith);
        }
        let mut y: usize = 0;
        while y < n
            invariant
                y <= n,
                n == grid@.len(),
                g == grid.deep_view(),
                (n as int) * (m as int) <= usize::MAX,
                forall|i: int| 0 <= i < n ==> (#[trigger] grid@[i])@.len() == m,
                forall|i: int| 0 <= i < n ==> (#[trigger] g[i]).len() == m,
                count as int == count_grid(g, y as int),
                count as int <= (y as int) * (m as int),
            decreases n - y,
        {
            let row = &grid[y];
            proof {
                assert(row.deep_view() == g[y as int]);
                assert(row@ =~= g[y as int]);
            }
            let mut x: usize = 0;
            while x < m
                invariant
                    x <= m,
                    y < n == grid@.len(),
                    g == grid.deep_view(),
                    row@ == g[y as int],
                    forall|i: int| 0 <= i < n ==> (#[trigger] grid@[i])@.len() == m,
                    forall|i: int| 0 <= i < n ==> (#[trigger] g[i]).len() == m,
                    (n as int) * (m as int) <= usize::MAX,
                    count as int == count_grid(g, y as int) + count_row(g, y as int, x as int),
                    count as int <= (y as int) * (m as int) + x as int,
                decreases m - x,
            {
                let h = row[x];
                let vis = row_all_less(row, 0, x, h) || row_all_less(row, x + 1, m, h)
                    || col_all_less(grid, x, 0, y, h) || col_all_less(grid, x, y + 1, n, h);
                proof {
                    assert(vis == visible_cell(g, x as int, y as int));
                }
                if vis {
                    proof {
                        assert((y as int) * (m as int) + (x as int) + 1 <= (n as int) * (m as int))
                            by (nonlinear_arith)
                            requires
                                0 <= y as int,
                                (y as int) < (n as int),
                                0 <= x as int,
                                (x as int) < (m as int),
                        ;
                    }
                    count = count + 1;
                }
                x = x + 1;
            }
            proof {
                assert((y as int) * (m as int) + (m as int) == (y + 1) * (m as int))
                    by (nonlinear_arith);
            }
            y = y + 1;
        }
        u128_string(count)
    }

    /// Part two: the largest scenic score in the grid.
    pub fn part_two(grid: &Vec<Vec<u8>>) -> (r: String)
        requires
            forall|i: int|
                0 <= i < grid@.len() ==> (#[trigger] grid@[i])@.len() == grid.deep_view()[0].len(),
            grid@.len() * grid.deep_view()[0].len() <= usize::MAX,
        ensures
            r@ == dec_str(
                max_grid(
                    grid.deep_view(),
                    grid@.len() as int,
                    grid@.len() as int,
                    grid.deep_view()[0].len() as int,
                ) as nat,
            ),
    {
        let ghost g = grid.deep_view();
        let n: usize = grid.len();
        if n == 0 {
            return u128_string(0);
        }
        let m: usize = grid[0].len();
        proof {
            assert(grid@[0]@ =~= g[0]);
        }
        let mut best: u128 = 0;
        let mut y: usize = 0;
        while y < n
            invariant
                y <= n,
                n == grid@.len(),
                g == grid.deep_view(),
                m == g[0].len(),
                n as int * m as int <= usize::MAX,
                forall|i: int| 0 <= i < n ==> (#[trigger] grid@[i])@.len() == m,
                forall|i: int| 0 <= i < n ==> (#[trigger] g[i]).len() == m,
                best as int == max_grid(g, y as int, n as int, m as int),
            decreases n - y,
        {
            let mut x: usize = 0;
            while x < m
                invariant
                    x <= m,
                    y < n == grid@.len(),
                    g == grid.deep_view(),
                    m == g[0].len(),
                    n as int * m as int <= usize::MAX,
                    forall|i: int| 0 <= i < n ==> (#[trigger] grid@[i])@.len() == m,
                    forall|i: int| 0 <= i < n ==> (#[trigger] g[i]).len() == m,
                    best as int == imax(
                        max_grid(g, y as int, n as int, m as int),
                        max_row(g, y as int, x as int, n as int, m as int),
                    ),
                decreases m - x,
            {
                let score = scenic_score(grid, x, y, n, m);
                if score > best {
                    best = score;
                }
                x = x + 1;
            }
            y = y + 1;
        }
        u128_string(best)
    }
}

/// The lines of a rectangular drawing hold exactly rows-times-width bytes.
proof fn lemma_rect_sum(ls: Seq<Seq<u8>>, m: int)
    requires
        forall|i: int| 0 <= i < ls.len() ==> (#[trigger] ls[i]).len() == m,
    ensures
        sum_lens(ls) == ls.len() * m,
    decreases ls.len(),
{
    if ls.len() == 0 {
        assert(Seq::<Seq<u8>>::empty().len() * m == 0) by (nonlinear_arith);
    } else {
        assert(forall|i: int|
            0 <= i < ls.drop_first().len() ==> (#[trigger] ls.drop_first()[i]).len() == m);
        lemma_rect_sum(ls.drop_first(), m);
        assert(sum_lens(ls) == m + (ls.len() - 1) * m);
        assert(m + (ls.len() - 1) * m == ls.len() * m) by (nonlinear_arith);
    }
}

/// Scans leftward from `x` for the first tree at least as tall.
fn scan_left(row: &Vec<u8>, x: usize) -> (r: usize)
    requires
        x < row@.len(),
    ensures
        r as int == stop_left(row@, x as int, x - 1),
        r <= x,
{
    if x == 0 {
        return 0;
    }
    let mut j: usize = x - 1;
    while j > 0
        invariant
            j <= x - 1,
            x < row@.len(),
            stop_left(row@, x as int, x - 1) == stop_left(row@, x as int, j as int),
        decreases j,
    {
        if row[j] >= row[x] {
            return j;
        }
        j = j - 1;
    }
    0
}

/// Scans rightward from `x` for the first tree at least as tall.
fn scan_right(row: &Vec<u8>, x: usize, m: usize) -> (r: usize)
    requires
        x < m,
        m == row@.len(),
    ensures
        r as int == stop_right(row@, x as int, x + 1, m as int),
        x <= r <= m - 1,
{
    let mut j: usize = x + 1;
    while j < m - 1
        invariant
            x + 1 <= j,
            j <= m - 1 || j == x + 1,
            x < m == row@.len(),
            stop_right(row@, x as int, x + 1, m as int) == stop_right(
                row@,
                x as int,
                j as int,
                m as int,
            ),
        decreases m - j,
    {
        if row[j] >= row[x] {
            return j;
        }
        j = j + 1;
    }
    m - 1
}

/// Scans upward from `y` in column `x` for the first tree at least as tall.
fn scan_up(grid: &Vec<Vec<u8>>, x: usize, y: usize) -> (r: usize)
    requires
        y < grid@.len(),
        forall|i: int| 0 <= i < grid@.len() ==> x < (#[trigger] grid@[i])@.len(),
    ensures
        r as int == stop_up(grid.deep_view(), y as int, x as int, y - 1),
        r <= y,
{
    let ghost g = grid.deep_view();
    if y == 0 {
        return 0;
    }
    let mut j: usize = y - 1;
    while j > 0
        invariant
            j <= y - 1,
            y < grid@.len(),
            g == grid.deep_view(),
            forall|i: int| 0 <= i < grid@.len() ==> x < (#[trigger] grid@[i])@.len(),
            stop_up(g, y as int, x as int, y - 1) == stop_up(g, y as int, x as int, j as int),
        decreases j,
    {
        proof {
            assert(grid@[j as int]@ =~= g[j as int]);
            assert(grid@[y as int]@ =~= g[y as int]);
        }
        if grid[j][x] >= grid[y][x] {
            return j;
        }
        j = j - 1;
    }
    0
}

/// Scans downward from `y` in column `x` for the first tree at least as tall.
fn scan_down(grid: &Vec<Vec<u8>>, x: usize, y: usize, n: usize) -> (r: usize)
    requires
        y < n,
        n == grid@.len(),
        forall|i: int| 0 <= i < grid@.len() ==> x < (#[trigger] grid@[i])@.len(),
    ensures
        r as int == stop_down(grid.deep_view(), y as int, x as int, y + 1, n as int),
        y <= r <= n - 1,
{
    let ghost g = grid.deep_view();
    let mut j: usize = y + 1;
    while j < n - 1
        invariant
            y + 1 <= j,
            j <= n - 1 || j == y + 1,
            y < n == grid@.len(),
            g == grid.deep_view(),
            forall|i: int| 0 <= i < grid@.len() ==> x < (#[trigger] grid@[i])@.len(),
            stop_down(g, y as int, x as int, y + 1, n as int) == stop_down(
                g,
                y as int,
                x as int,
                j as int,
                n as int,
            ),
        decreases n - j,
    {
        proof {
            assert(grid@[j as int]@ =~= g[j as int]);
            assert(grid@[y as int]@ =~= g[y as int]);
        }
        if grid[j][x] >= grid[y][x] {
            return j;
        }
        j = j + 1;
    }
    n - 1
}

/// The scenic score of the cell at column `x`, row `y`.
fn scenic_score(grid: &Vec<Vec<u8>>, x: usize, y: usize, n: usize, m: usize) -> (r: u128)
    requires
        n == grid@.len(),
        x < m,
        y < n,
        m == grid.deep_view()[0].len(),
        n as int * m as int <= usize::MAX,
        forall|i: int| 0 <= i < n ==> (#[trigger] grid@[i])@.len() == m,
        forall|i: int| 0 <= i < n ==> (#[trigger] grid.deep_view()[i]).len() == m,
    ensures
        r as int == score_cell(grid.deep_view(), x as int, y as int, n as int, m as int),
{
    let ghost g = grid.deep_view();
    let row = &grid[y];
    proof {
        assert(row.deep_view() == g[y as int]);
        assert(row@ =~= g[y as int]);
    }
    let sl = scan_left(row, x);
    let sr = scan_right(row, x, m);
    let su = scan_up(grid, x, y);
    let sd = scan_down(grid, x, y, n);
    let a: u128 = (x - sl) as u128;
    let b: u128 = (sr - x) as u128;
    let c: u128 = (y - su) as u128;
    let d: u128 = (sd - y) as u128;
    proof {
        let mm = m as int;
        let nn = n as int;
        assert(a as int <= mm && b as int <= mm && c as int <= nn && d as int <= nn);
        assert(mm <= 0xffff_ffff_ffff_ffff && nn <= 0xffff_ffff_ffff_ffff);
        assert(a as int * b as int <= mm * mm) by (nonlinear_arith)
            requires
                0 <= a as int <= mm,
                0 <= b as int <= mm,
        ;
        assert(c as int * d as int <= nn * nn) by (nonlinear_arith)
            requires
                0 <= c as int <= nn,
                0 <= d as int <= nn,
        ;
        assert(mm * mm <= 0xffff_ffff_ffff_ffff * 0xffff_ffff_ffff_ffff) by (nonlinear_arith)
            requires
                0 <= mm <= 0xffff_ffff_ffff_ffff,
        ;
        assert(nn * nn <= 0xffff_ffff_ffff_ffff * 0xffff_ffff_ffff_ffff) by (nonlinear_arith)
            requires
                0 <= nn <= 0xffff_ffff_ffff_ffff,
        ;
        assert((a as int * b as int) * (c as int * d as int) <= (nn * mm) * (nn * mm))
            by (nonlinear_arith)
            requires
                0 <= a as int * b as int <= mm * mm,
                0 <= c as int * d as int <= nn * nn,
                0 <= mm,
                0 <= nn,
        ;
        assert((nn * mm) * (nn * mm) <= 0xffff_ffff_ffff_ffff * 0xffff_ffff_ffff_ffff)
            by (nonlinear_arith)
            requires
                0 <= nn * mm <= 0xffff_ffff_ffff_ffff,
        ;
        assert(nn * mm <= 0xffff_ffff_ffff_ffff) by (nonlinear_arith)
            requires
                nn * mm == mm * nn,
                mm * nn <= usize::MAX as int,
                usize::MAX as int <= 0xffff_ffff_ffff_ffff,
        ;
        assert(nn * mm == mm * nn) by (nonlinear_arith);
    }
    let prod: u128 = a * b * (c * d);
    proof {
        assert(prod as int == score_cell(g, x as int, y as int, n as int, m as int))
            by (nonlinear_arith)
            requires
                prod as int == (a as int * b as int) * (c as int * d as int),
                a as int == x - stop_left(g[y as int], x as int, x - 1),
                b as int == stop_right(g[y as int], x as int, x + 1, m as int) - x,
                c as int == y - stop_up(g, y as int, x as int, y - 1),
                d as int == stop_down(g, y as int, x as int, y + 1, n as int) - y,
                score_cell(g, x as int, y as int, n as int, m as int) == (x - stop_left(
                    g[y as int],
                    x as int,
                    x - 1,
                )) * (stop_right(g[y as int], x as int, x + 1, m as int) - x) * (y - stop_up(
                    g,
                    y as int,
                    x as int,
                    y - 1,
                )) * (stop_down(g, y as int, x as int, y + 1, n as int) - y),
        ;
    }
        prod
}

/// Runs both parts over one parse; with the flag set, part one is skipped
/// and reported as "0". Empty input reports "0" for both parts.
impl Day08 {
    pub fn solve(input: &str, only_part_two: bool) -> (r: (String, String))
        requires
            input.spec_bytes().len() == 0 || day08_wf(input.spec_bytes()),
        ensures
            r.0@ == if input.spec_bytes().len() == 0 || only_part_two {
                dec_str(0)
            } else {
                day08_p1(input.spec_bytes())
            },
            r.1@ == if input.spec_bytes().len() == 0 {
                dec_str(0)
            } else {
                day08_p2(input.spec_bytes())
            },
    {
        if input.as_bytes().len() == 0 {
            return (u128_string(0), u128_string(0));
        }
        match Self::parse_input(input) {
            Some(grid) => {
                proof {
                    let g = grid.deep_view();
                    let ls = lines_of(input.spec_bytes());
                    assert(g == grid_of(input.spec_bytes()));
                    assert(g.len() == ls.len());
                    assert(day08_wf(input.spec_bytes()));
                    assert forall|i: int|
                        0 <= i < grid@.len() implies (#[trigger] grid@[i])@.len() == g[0].len() by {
                        assert(grid_of(input.spec_bytes())[i] == heights_of(ls[i]));
                        assert(grid_of(input.spec_bytes())[0] == heights_of(ls[0]));
                        assert(ls[i].len() == ls[0].len());
                        assert(grid@[i]@ =~= g[i]);
                    }
                    assert(g[0].len() == grid_of(input.spec_bytes())[0].len());
                }
                let p2 = Self::part_two(&grid);
                let p1 = if only_part_two {
                    u128_string(0)
                } else {
                    Self::part_one(&grid)
                };
                (p1, p2)
            },
            None => {
                proof {
                    assert(false);
                }
                (u128_string(0), u128_string(0))
            },
        }
    }

    /// Part one alone, from raw input.
    pub fn solve_part_one(input: &str) -> (r: String)
        requires
            input.spec_bytes().len() == 0 || day08_wf(input.spec_bytes()),
        ensures
            r@ == if input.spec_bytes().len() == 0 {
                dec_str(0)
            } else {
                day08_p1(input.spec_bytes())
            },
    {
        let (p1, _p2) = Self::solve(input, false);
        p1
    }

    /// Part two alone, from raw input.
    pub fn solve_part_two(input: &str) -> (r: String)
        requires
            input.spec_bytes().len() == 0 || day08_wf(input.spec_bytes()),
        ensures
            r@ == if input.spec_bytes().len() == 0 {
                dec_str(0)
            } else {
                day08_p2(input.spec_bytes())
            },
    {
        let (_p1, p2) = Self::solve(input, true);
        p2
    }
}

/// One tree of the grid, as its coordinates and height.
pub struct Tree {
    pub x: usize,
    pub y: usize,
    pub height: u8,
}

impl Tree {
    /// Names the tree at column `x`, row `y`.
    pub fn new(x: usize, y: usize, height: u8) -> (r: Tree)
        ensures
            r.x == x && r.y == y && r.height == height,
    {
        Tree { x, y, height }
    }

    /// The tree's scenic score within its forest.
    pub fn score(&self, forest: &Vec<Vec<u8>>) -> (r: u128)
        requires
            self.y < forest@.len(),
            self.x < forest.deep_view()[0].len(),
            self.height == forest.deep_view()[self.y as int][self.x as int],
            forest@.len() * forest.deep_view()[0].len() <= usize::MAX,
            forall|i: int|
                0 <= i < forest@.len() ==> (#[trigger] forest@[i])@.len()
                    == forest.deep_view()[0].len(),
        ensures
            r as int == score_cell(
                forest.deep_view(),
                self.x as int,
                self.y as int,
                forest@.len() as int,
                forest.deep_view()[0].len() as int,
            ),
    {
        let n: usize = forest.len();
        let m: usize = forest[0].len();
        proof {
            assert(forest@[0]@ =~= forest.deep_view()[0]);
            assert(forall|i: int|
                0 <= i < n ==> (#[trigger] forest.deep_view()[i]).len() == forest.deep_view()[0].len());
        }
        scenic_score(forest, self.x, self.y, n, m)
    }
}

} // verus!
