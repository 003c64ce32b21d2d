//! Which cells of the linking matrix are computed, and which are read.
//!
//! The loops of a trajectory are numbered `0..n`. The connectivity matrix is
//! built from one computation per unordered pair of loops: the writhe of a
//! loop for a diagonal cell, the linking number of two loops for the others.
//! Each result is written to both cells `(i, j)` and `(j, i)`. The metrics
//! read the cells strictly above the diagonal. Pairs are visited row by row,
//! left to right.

use vstd::prelude::*;

verus! {

/// One entry of the linking matrix to compute.
#[derive(Clone, Copy, PartialEq, Eq, Structural, Debug)]
pub enum PairTask {
    /// The writhe of loop `i`, for the diagonal cell `(i, i)`.
    Writhe(usize),
    /// The linking number of loops `i < j`, for cells `(i, j)` and `(j, i)`.
    Link(usize, usize),
}

/// The cell above or on the diagonal that a task fills.
pub open spec fn task_cell(t: PairTask) -> (usize, usize) {
    match t {
        PairTask::Writhe(i) => (i, i),
        PairTask::Link(i, j) => (i, j),
    }
}

/// The task for the cell `p` on or above the diagonal.
pub open spec fn task_for(p: (usize, usize)) -> PairTask {
    if p.0 == p.1 {
        PairTask::Writhe(p.0)
    } else {
        PairTask::Link(p.0, p.1)
    }
}

/// `(a, b)` is a cell of an `n × n` matrix on or above the diagonal
/// (`diagonal`), or strictly above it (`!diagonal`).
pub open spec fn in_triangle(a: int, b: int, n: int, diagonal: bool) -> bool {
    &&& 0 <= a
    &&& if diagonal { a <= b } else { a < b }
    &&& b < n
}

/// Row-major order of cells.
pub open spec fn lex_less(p: (usize, usize), q: (usize, usize)) -> bool {
    p.0 < q.0 || (p.0 == q.0 && p.1 < q.1)
}

/// The cells of row `i` that belong to the triangle, left to right.
pub open spec fn row_pairs(n: int, i: int, diagonal: bool) -> Seq<(usize, usize)> {
    let first = if diagonal { i } else { i + 1 };
    Seq::new((n - first) as nat, |d: int| (i as usize, (first + d) as usize))
}

/// The cells of the triangle in rows `0..rows`, row by row.
pub open spec fn triangle_rows(n: int, rows: nat, diagonal: bool) -> Seq<(usize, usize)>
    decreases rows,
{
    if rows == 0 {
        Seq::empty()
    } else {
        triangle_rows(n, (rows - 1) as nat, diagonal) + row_pairs(n, rows - 1, diagonal)
    }
}

/// All cells of the triangle of an `n × n` matrix, row by row.
pub open spec fn triangle(n: int, diagonal: bool) -> Seq<(usize, usize)> {
    triangle_rows(n, n as nat, diagonal)
}

/// Index of cell `(r, c)` in the row-major storage of an `n × n` matrix.
pub open spec fn cell_index(r: int, c: int, n: int) -> int {
    r * n + c
}

/// The rows `0..rows` of the triangle hold every cell of those rows exactly
/// once, in row-major order.
proof fn lemma_triangle_rows(n: int, rows: nat, diagonal: bool)
    requires
        rows <= n,
        n <= usize::MAX,
    ensures
        forall|k: int|
            0 <= k < triangle_rows(n, rows, diagonal).len() ==> {
                let p = #[trigger] triangle_rows(n, rows, diagonal)[k];
                in_triangle(p.0 as int, p.1 as int, n, diagonal) && p.0 < rows
            },
        forall|k: int, l: int|
            0 <= k < l < triangle_rows(n, rows, diagonal).len() ==> lex_less(
                #[trigger] triangle_rows(n, rows, diagonal)[k],
                #[trigger] triangle_rows(n, rows, diagonal)[l],
            ),
        forall|a: int, b: int|
            #![trigger in_triangle(a, b, n, diagonal)]
            in_triangle(a, b, n, diagonal) && a < rows ==> exists|k: int|
                0 <= k < triangle_rows(n, rows, diagonal).len()
                    && #[trigger] triangle_rows(n, rows, diagonal)[k] == (a as usize, b as usize),
    decreases rows,
{
    if rows > 0 {
        let i = rows - 1;
        lemma_triangle_rows(n, i as nat, diagonal);
        let prev = triangle_rows(n, i as nat, diagonal);
        let row = row_pairs(n, i, diagonal);
        let s = triangle_rows(n, rows, diagonal);
        assert(s == prev + row);
        let first = if diagonal { i } else { i + 1 };
        assert forall|k: int| 0 <= k < s.len() implies {
            let p = #[trigger] s[k];
            in_triangle(p.0 as int, p.1 as int, n, diagonal) && p.0 < rows
        } by {
            if k >= prev.len() {
                assert(s[k] == row[k - prev.len()]);
            } else {
                assert(s[k] == prev[k]);
            }
        }
        assert forall|k: int, l: int| 0 <= k < l < s.len() implies lex_less(#[trigger] s[k], #[trigger] s[l]) by {
            if l < prev.len() {
                assert(s[k] == prev[k] && s[l] == prev[l]);
            } else if k < prev.len() {
                assert(s[k] == prev[k]);
                assert(s[l] == row[l - prev.len()]);
            } else {
                assert(s[k] == row[k - prev.len()]);
                assert(s[l] == row[l - prev.len()]);
            }
        }
        assert forall|a: int, b: int|
            #![trigger in_triangle(a, b, n, diagonal)]
            in_triangle(a, b, n, diagonal) && a < rows implies exists|k: int|
                0 <= k < s.len() && #[trigger] s[k] == (a as usize, b as usize) by {
            if a < i {
                let k = choose|k: int| 0 <= k < prev.len() && #[trigger] prev[k] == (a as usize, b as usize);
                assert(s[k] == prev[k]);
            } else {
                let k = prev.len() + (b - first);
                assert(s[k] == row[b - first]);
            }
        }
    }
}

/// Each cell of the triangle of an `n × n` matrix is visited exactly once,
/// row by row: every visited cell lies in the triangle, no cell is visited
/// twice, and none is left out. With the diagonal these are the unordered
/// pairs of loops of the connectivity matrix; without it, the cells that the
/// metrics read.
pub proof fn lemma_triangle_visits_each_cell_once(n: int, diagonal: bool)
    requires
        0 <= n <= usize::MAX,
    ensures
        forall|k: int|
            0 <= k < triangle(n, diagonal).len() ==> {
                let p = #[trigger] triangle(n, diagonal)[k];
                in_triangle(p.0 as int, p.1 as int, n, diagonal)
            },
        forall|k: int, l: int|
            0 <= k < l < triangle(n, diagonal).len() ==> lex_less(
                #[trigger] triangle(n, diagonal)[k],
                #[trigger] triangle(n, diagonal)[l],
            ),
        forall|k: int, l: int|
            0 <= k < triangle(n, diagonal).len() && 0 <= l < triangle(n, diagonal).len()
                && #[trigger] triangle(n, diagonal)[k] == #[trigger] triangle(n, diagonal)[l]
                ==> k == l,
        forall|a: int, b: int|
            #![trigger in_triangle(a, b, n, diagonal)]
            in_triangle(a, b, n, diagonal) ==> exists|k: int|
                0 <= k < triangle(n, diagonal).len() && #[trigger] triangle(n, diagonal)[k] == (
                a as usize,
                b as usize,
            ),
{
    lemma_triangle_rows(n, n as nat, diagonal);
    let s = triangle(n, diagonal);
    assert forall|k: int, l: int| 0 <= k < s.len() && 0 <= l < s.len() && #[trigger] s[k] == #[trigger] s[l] implies k == l by {
        if k < l {
            assert(lex_less(s[k], s[l]));
        } else if l < k {
            assert(lex_less(s[l], s[k]));
        }
    }
}

/// The triangle with the diagonal has `n (n + 1) / 2` cells, and the one
/// without it `n (n - 1) / 2`: the number of linking numbers computed, and
/// the number of cells averaged by the connectivity metric.
pub proof fn lemma_triangle_len(n: nat)
    ensures
        2 * triangle(n as int, true).len() == n * (n + 1),
        2 * triangle(n as int, false).len() == n * (n - 1),
{
    lemma_triangle_rows_len(n, n);
    assert(n * (2 * n - n + 1) == n * (n + 1)) by (nonlinear_arith);
    assert(n * (2 * n - n - 1) == n * (n - 1)) by (nonlinear_arith);
}

proof fn lemma_triangle_rows_len(n: nat, rows: nat)
    requires
        rows <= n,
    ensures
        2 * triangle_rows(n as int, rows, true).len() == rows * (2 * n - rows + 1),
        2 * triangle_rows(n as int, rows, false).len() == rows * (2 * n - rows - 1),
    decreases rows,
{
    if rows > 0 {
        lemma_triangle_rows_len(n, (rows - 1) as nat);
        let r = rows as int;
        let m = n as int;
        assert((r - 1) * (2 * m - (r - 1) + 1) + 2 * (m - (r - 1)) == r * (2 * m - r + 1)) by (nonlinear_arith);
        assert((r - 1) * (2 * m - (r - 1) - 1) + 2 * (m - (r - 1) - 1) == r * (2 * m - r - 1)) by (nonlinear_arith);
    }
}

fn triangle_pairs(n: usize, diagonal: bool) -> (pairs: Vec<(usize, usize)>)
    ensures
        pairs@ == triangle(n as int, diagonal),
{
    let mut pairs: Vec<(usize, usize)> = Vec::new();
    let mut i: usize = 0;
    while i < n
        invariant
            i <= n,
            pairs@ == triangle_rows(n as int, i as nat, diagonal),
        decreases n - i,
    {
        let first = if diagonal { i } else { i + 1 };
        let mut j = first;
        while j < n
            invariant
                i < n,
                first == if diagonal { i as int } else { i + 1 },
                first <= j <= n,
                pairs@ == triangle_rows(n as int, i as nat, diagonal) + row_pairs(n as int, i as int, diagonal).take(j - first),
            decreases n - j,
        {
            pairs.push((i, j));
            assert(row_pairs(n as int, i as int, diagonal).take(j + 1 - first)
                =~= row_pairs(n as int, i as int, diagonal).take(j - first).push((i, j)));
            j = j + 1;
        }
        assert(row_pairs(n as int, i as int, diagonal).take(n - first) =~= row_pairs(n as int, i as int, diagonal));
        i = i + 1;
    }
    pairs
}

/// The computations that build the connectivity matrix of `n` loops: one
/// per cell on or above the diagonal, row by row; the writhe of loop `i` for
/// the cell `(i, i)`, the linking number of loops `i` and `j` for `(i, j)`.
pub fn connectivity_tasks(n: usize) -> (tasks: Vec<PairTask>)
    ensures
        tasks@ == triangle(n as int, true).map_values(|p: (usize, usize)| task_for(p)),
        2 * tasks.len() == n * (n + 1),
        forall|k: int|
            0 <= k < tasks.len() ==> match #[trigger] tasks@[k] {
                PairTask::Writhe(i) => i < n && triangle(n as int, true)[k] == (i, i),
                PairTask::Link(i, j) => i < j < n && triangle(n as int, true)[k] == (i, j),
            },
        forall|a: usize| a < n ==> #[trigger] tasks@.contains(PairTask::Writhe(a)),
        forall|a: usize, b: usize| a < b < n ==> #[trigger] tasks@.contains(PairTask::Link(a, b)),
        forall|k: int, l: int| 0 <= k < l < tasks.len() ==> #[trigger] tasks@[k] != #[trigger] tasks@[l],
{
    let pairs = triangle_pairs(n, true);
    let mut tasks: Vec<PairTask> = Vec::new();
    let mut k: usize = 0;
    while k < pairs.len()
        invariant
            k <= pairs.len(),
            pairs@ == triangle(n as int, true),
            tasks@ == pairs@.take(k as int).map_values(|p: (usize, usize)| task_for(p)),
        decreases pairs.len() - k,
    {
        let (i, j) = pairs[k];
        let task = if i == j { PairTask::Writhe(i) } else { PairTask::Link(i, j) };
        tasks.push(task);
        assert(pairs@.take(k + 1).map_values(|p: (usize, usize)| task_for(p))
            =~= pairs@.take(k as int).map_values(|p: (usize, usize)| task_for(p)).push(task_for(pairs@[k as int])));
        k = k + 1;
    }
    assert(pairs@.take(pairs.len() as int) =~= pairs@);
    proof {
        lemma_tasks_compute_their_own_cells(n as nat, tasks@);
    }
    tasks
}

/// The tasks of the connectivity matrix compute each loop's own cells: the
/// task listed for the diagonal cell `(i, i)` is the writhe of loop `i`, the
/// one for `(i, j)`, `i < j`, the linking number of loops `i` and `j` with
/// these very indices. Every writhe and every linking number of two distinct
/// loops is computed, none twice, and there are `n (n + 1) / 2` tasks.
pub proof fn lemma_tasks_compute_their_own_cells(n: nat, tasks: Seq<PairTask>)
    requires
        n <= usize::MAX,
        tasks == triangle(n as int, true).map_values(|p: (usize, usize)| task_for(p)),
    ensures
        2 * tasks.len() == n * (n + 1),
        forall|k: int|
            0 <= k < tasks.len() ==> match #[trigger] tasks[k] {
                PairTask::Writhe(i) => i < n && triangle(n as int, true)[k] == (i, i),
                PairTask::Link(i, j) => i < j < n && triangle(n as int, true)[k] == (i, j),
            },
        forall|a: usize| a < n ==> #[trigger] tasks.contains(PairTask::Writhe(a)),
        forall|a: usize, b: usize| a < b < n ==> #[trigger] tasks.contains(PairTask::Link(a, b)),
        forall|k: int, l: int| 0 <= k < l < tasks.len() ==> #[trigger] tasks[k] != #[trigger] tasks[l],
{
    let t = triangle(n as int, true);
    lemma_triangle_visits_each_cell_once(n as int, true);
    lemma_triangle_len(n);
    assert forall|k: int| 0 <= k < tasks.len() implies match #[trigger] tasks[k] {
        PairTask::Writhe(i) => i < n && t[k] == (i, i),
        PairTask::Link(i, j) => i < j < n && t[k] == (i, j),
    } by {
        let p = t[k];
        assert(in_triangle(p.0 as int, p.1 as int, n as int, true));
        assert(tasks[k] == task_for(p));
    }
    assert forall|a: usize| a < n implies #[trigger] tasks.contains(PairTask::Writhe(a)) by {
        assert(in_triangle(a as int, a as int, n as int, true));
        let k = choose|k: int| 0 <= k < t.len() && #[trigger] t[k] == (a as usize, a as usize);
        assert(tasks[k] == task_for(t[k]));
        assert(tasks[k] == PairTask::Writhe(a));
    }
    assert forall|a: usize, b: usize| a < b < n implies #[trigger] tasks.contains(PairTask::Link(a, b)) by {
        assert(in_triangle(a as int, b as int, n as int, true));
        let k = choose|k: int| 0 <= k < t.len() && #[trigger] t[k] == (a as usize, b as usize);
        assert(tasks[k] == task_for(t[k]));
        assert(tasks[k] == PairTask::Link(a, b));
    }
    assert forall|k: int, l: int| 0 <= k < l < tasks.len() implies #[trigger] tasks[k] != #[trigger] tasks[l] by {
        assert(lex_less(t[k], t[l]));
        assert(tasks[k] == task_for(t[k]));
        assert(tasks[l] == task_for(t[l]));
        assert(in_triangle(t[k].0 as int, t[k].1 as int, n as int, true));
        assert(in_triangle(t[l].0 as int, t[l].1 as int, n as int, true));
    }
}

/// The cells strictly above the diagonal of an `n × n` matrix, row by row:
/// those that the metrics read.
pub fn strict_upper_pairs(n: usize) -> (pairs: Vec<(usize, usize)>)
    ensures
        pairs@ == triangle(n as int, false),
        2 * pairs.len() == n * (n - 1),
        forall|k: int| 0 <= k < pairs.len() ==> (#[trigger] pairs@[k]).0 < pairs@[k].1 < n,
        forall|k: int, l: int|
            0 <= k < l < pairs.len() ==> (#[trigger] pairs@[k]).0 < (#[trigger] pairs@[l]).0 || (pairs@[k].0 == pairs@[l].0
                && pairs@[k].1 < pairs@[l].1),
        forall|a: usize, b: usize| a < b < n ==> #[trigger] pairs@.contains((a, b)),
{
    let pairs = triangle_pairs(n, false);
    proof {
        lemma_triangle_visits_each_cell_once(n as int, false);
        lemma_triangle_len(n as nat);
        assert forall|k: int| 0 <= k < pairs.len() implies (#[trigger] pairs@[k]).0 < pairs@[k].1 < n by {
            assert(in_triangle(pairs@[k].0 as int, pairs@[k].1 as int, n as int, false));
        }
        assert forall|k: int, l: int| 0 <= k < l < pairs.len() implies (#[trigger] pairs@[k]).0 < (#[trigger] pairs@[l]).0
            || (pairs@[k].0 == pairs@[l].0 && pairs@[k].1 < pairs@[l].1) by {
            assert(lex_less(pairs@[k], pairs@[l]));
        }
        assert forall|a: usize, b: usize| a < b < n implies #[trigger] pairs@.contains((a, b)) by {
            assert(in_triangle(a as int, b as int, n as int, false));
            let k = choose|k: int| 0 <= k < pairs.len() && #[trigger] pairs@[k] == (a as usize, b as usize);
            assert(pairs@[k] == (a, b));
        }
    }
    pairs
}

/// The cells of row `i` of an `n × n` matrix other than the diagonal one,
/// left to right.
pub fn off_diagonal(n: usize, i: usize) -> (cols: Vec<usize>)
    requires
        i < n,
    ensures
        cols@ == Seq::new(i as nat, |j: int| j as usize) + Seq::new((n - i - 1) as nat, |d: int| (i + 1 + d) as usize),
{
    let mut cols: Vec<usize> = Vec::new();
    let mut j: usize = 0;
    while j < n
        invariant
            i < n,
            j <= n,
            j <= i ==> cols@ == Seq::new(j as nat, |m: int| m as usize),
            j > i ==> cols@ == Seq::new(i as nat, |m: int| m as usize) + Seq::new((j - i - 1) as nat, |d: int| (i + 1 + d) as usize),
        decreases n - j,
    {
        if j != i {
            cols.push(j);
        }
        proof {
            if j < i {
                assert(cols@ =~= Seq::new((j + 1) as nat, |m: int| m as usize));
            } else if j == i {
                assert(cols@ =~= Seq::new(i as nat, |m: int| m as usize) + Seq::new(0, |d: int| (i + 1 + d) as usize));
            } else {
                assert(cols@ =~= Seq::new(i as nat, |m: int| m as usize) + Seq::new((j + 1 - i - 1) as nat, |d: int| (i + 1 + d) as usize));
            }
        }
        j = j + 1;
    }
    cols
}

proof fn lemma_cell_index(r1: int, c1: int, r2: int, c2: int, n: int)
    requires
        0 <= r1 < n,
        0 <= c1 < n,
        0 <= r2 < n,
        0 <= c2 < n,
    ensures
        0 <= cell_index(r1, c1, n) < n * n,
        cell_index(r1, c1, n) == cell_index(r2, c2, n) ==> r1 == r2 && c1 == c2,
{
    assert(0 <= r1 * n + c1 < n * n) by (nonlinear_arith)
        requires
            0 <= r1 < n,
            0 <= c1 < n,
    ;
    if cell_index(r1, c1, n) == cell_index(r2, c2, n) {
        vstd::arithmetic::div_mod::lemma_fundamental_div_mod_converse(r1 * n + c1, n, r1, c1);
        vstd::arithmetic::div_mod::lemma_fundamental_div_mod_converse(r2 * n + c2, n, r2, c2);
    }
}

/// Builds the row-major storage of the symmetric `n × n` connectivity
/// matrix from the results of `connectivity_tasks(n)`, in the same order:
/// the result of task `k` lands in both cells `(i, j)` and `(j, i)` of its
/// pair. Every cell is written, so `zero` only stands in until then.
pub fn assemble_symmetric<V: Copy>(n: usize, values: &Vec<V>, zero: V) -> (cells: Vec<V>)
    requires
        n * n <= usize::MAX,
        values.len() == triangle(n as int, true).len(),
    ensures
        cells.len() == n * n,
        forall|k: int|
            0 <= k < values.len() ==> {
                let p = #[trigger] triangle(n as int, true)[k];
                &&& cells@[cell_index(p.0 as int, p.1 as int, n as int)] == values@[k]
                &&& cells@[cell_index(p.1 as int, p.0 as int, n as int)] == values@[k]
            },
        forall|r: int, c: int|
            0 <= r < n && 0 <= c < n ==> cells@[#[trigger] cell_index(r, c, n as int)] == cells@[cell_index(c, r, n as int)],
        forall|r: int, c: int|
            #![trigger cells@[r * n + c]]
            0 <= r < n && 0 <= c < n ==> cells@[r * n + c] == cells@[c * n + r],
        forall|k: int|
            0 <= k < values.len() ==> {
                let p = #[trigger] triangle(n as int, true)[k];
                &&& p.0 <= p.1 < n
                &&& cells@[p.0 * n + p.1] == values@[k]
                &&& cells@[p.1 * n + p.0] == values@[k]
            },
        forall|k: int, l: int|
            0 <= k < l < values.len() ==> (#[trigger] triangle(n as int, true)[k]).0 < (#[trigger] triangle(
                n as int,
                true,
            )[l]).0 || (triangle(n as int, true)[k].0 == triangle(n as int, true)[l].0 && triangle(n as int, true)[k].1
                < triangle(n as int, true)[l].1),
        forall|a: usize, b: usize| a <= b < n ==> #[trigger] triangle(n as int, true).contains((a, b)),
{
    let pairs = triangle_pairs(n, true);
    proof {
        lemma_triangle_visits_each_cell_once(n as int, true);
    }
    let size = n * n;
    let mut cells: Vec<V> = Vec::new();
    let mut m: usize = 0;
    while m < size
        invariant
            m <= size,
            cells.len() == m,
        decreases size - m,
    {
        cells.push(zero);
        m = m + 1;
    }
    let mut k: usize = 0;
    while k < pairs.len()
        invariant
            size == n * n,
            cells.len() == size,
            pairs@ == triangle(n as int, true),
            values.len() == pairs.len(),
            k <= pairs.len(),
            forall|q: int|
                0 <= q < pairs.len() ==> {
                    let p = #[trigger] pairs@[q];
                    in_triangle(p.0 as int, p.1 as int, n as int, true)
                },
            forall|q: int, l: int| 0 <= q < l < pairs.len() ==> lex_less(#[trigger] pairs@[q], #[trigger] pairs@[l]),
            forall|q: int|
                0 <= q < k ==> {
                    let p = #[trigger] pairs@[q];
                    &&& cells@[cell_index(p.0 as int, p.1 as int, n as int)] == values@[q]
                    &&& cells@[cell_index(p.1 as int, p.0 as int, n as int)] == values@[q]
                },
        decreases pairs.len() - k,
    {
        let (i, j) = pairs[k];
        proof {
            lemma_cell_index(i as int, j as int, i as int, j as int, n as int);
            lemma_cell_index(j as int, i as int, j as int, i as int, n as int);
        }
        let v = values[k];
        let ghost before = cells@;
        cells.set(i * n + j, v);
        cells.set(j * n + i, v);
        proof {
            assert forall|q: int| 0 <= q < k + 1 implies {
                let p = #[trigger] pairs@[q];
                &&& cells@[cell_index(p.0 as int, p.1 as int, n as int)] == values@[q]
                &&& cells@[cell_index(p.1 as int, p.0 as int, n as int)] == values@[q]
            } by {
                let p = pairs@[q];
                if q < k {
                    assert(lex_less(pairs@[q], pairs@[k as int]));
                    lemma_cell_index(p.0 as int, p.1 as int, i as int, j as int, n as int);
                    lemma_cell_index(p.0 as int, p.1 as int, j as int, i as int, n as int);
                    lemma_cell_index(p.1 as int, p.0 as int, i as int, j as int, n as int);
                    lemma_cell_index(p.1 as int, p.0 as int, j as int, i as int, n as int);
                }
            }
        }
        k = k + 1;
    }
    proof {
        assert forall|r: int, c: int| 0 <= r < n && 0 <= c < n implies cells@[#[trigger] cell_index(r, c, n as int)]
            == cells@[cell_index(c, r, n as int)] by {
            let (a, b) = if r <= c { (r, c) } else { (c, r) };
            assert(in_triangle(a, b, n as int, true));
            let q = choose|q: int| 0 <= q < pairs.len() && #[trigger] pairs@[q] == (a as usize, b as usize);
            assert(pairs@[q] == (a as usize, b as usize));
        }
        let t = triangle(n as int, true);
        assert forall|k: int| 0 <= k < values.len() implies {
            let p = #[trigger] t[k];
            &&& p.0 <= p.1 < n
            &&& cells@[p.0 * n + p.1] == values@[k]
            &&& cells@[p.1 * n + p.0] == values@[k]
        } by {
            assert(in_triangle(t[k].0 as int, t[k].1 as int, n as int, true));
            assert(pairs@[k] == t[k]);
        }
        assert forall|k: int, l: int| 0 <= k < l < values.len() implies (#[trigger] t[k]).0 < (#[trigger] t[l]).0
            || (t[k].0 == t[l].0 && t[k].1 < t[l].1) by {
            assert(lex_less(t[k], t[l]));
        }
        assert forall|a: usize, b: usize| a <= b < n implies #[trigger] t.contains((a, b)) by {
            assert(in_triangle(a as int, b as int, n as int, true));
            let k = choose|k: int| 0 <= k < t.len() && #[trigger] t[k] == (a as usize, b as usize);
            assert(t[k] == (a, b));
        }
        assert forall|r: int, c: int| #![trigger cells@[r * n + c]] 0 <= r < n && 0 <= c < n implies cells@[r * n + c]
            == cells@[c * n + r] by {
            assert(cells@[cell_index(r, c, n as int)] == cells@[cell_index(c, r, n as int)]);
        }
    }
    cells
}

} // verus!
