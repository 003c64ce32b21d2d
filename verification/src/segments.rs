//! Which pairs of segments enter the discrete Gauss integrals.
//!
//! A curve of `n` points is read as a closed polyline: segment `i` runs from
//! point `i` to point `(i + 1) % n`. The linking number of two curves sums a
//! term over every segment of the first paired with every segment of the
//! second; the writhe of one curve sums over pairs `i < j` of its own
//! segments that are not neighbours along the loop. A curve of fewer than
//! three points contributes nothing to either sum.

use vstd::prelude::*;

verus! {

/// Segment of a closed polyline, by the indices of its two end points.
#[derive(Clone, Copy, PartialEq, Eq, Structural, Debug)]
pub struct Segment {
    pub start: usize,
    pub end: usize,
}

/// Segments `i` and `j` of an `n`-point loop share an end point: one follows
/// the other along the loop.
pub open spec fn cyclically_adjacent(i: int, j: int, n: int) -> bool {
    j == (i + 1) % n || i == (j + 1) % n
}

/// The test by which the writhe sum takes segment `j` as a partner of
/// segment `i` of an `n`-point loop: `j` runs from `i + 2` to `n - 1`, and
/// is skipped when it is `i`, the segment after `i` or the segment before
/// `i` along the loop.
pub open spec fn writhe_pair(i: int, j: int, n: int) -> bool {
    &&& n >= 3
    &&& i + 2 <= j < n
    &&& j != i
    &&& j != (i + 1) % n
    &&& j != (i + n - 1) % n
}

/// Segment `i` of an `n`-point closed polyline.
pub fn segment(i: usize, n: usize) -> (s: Segment)
    requires
        i < n,
    ensures
        s.start == i,
        s.end == (i + 1) % (n as int),
{
    Segment { start: i, end: (i + 1) % n }
}

/// The segments of the second curve that the linking sum pairs with each
/// segment of the first: all of them, when both curves have at least three
/// points, and none otherwise.
pub fn linking_partners(n1: usize, n2: usize) -> (partners: Vec<usize>)
    ensures
        n1 >= 3 && n2 >= 3 ==> partners@ == Seq::new(n2 as nat, |j: int| j as usize),
        n1 < 3 || n2 < 3 ==> partners@ == Seq::<usize>::empty(),
{
    let mut partners: Vec<usize> = Vec::new();
    if n1 < 3 || n2 < 3 {
        return partners;
    }
    let mut j: usize = 0;
    while j < n2
        invariant
            j <= n2,
            partners@ == Seq::new(j as nat, |m: int| m as usize),
        decreases n2 - j,
    {
        partners.push(j);
        j = j + 1;
    }
    partners
}

/// Last index (exclusive) of the run of writhe partners of segment `i`:
/// segment `n - 1` precedes segment `0` along the loop, so row `0` stops
/// one short.
pub open spec fn writhe_row_end(i: int, n: int) -> int {
    if i == 0 {
        n - 1
    } else {
        n
    }
}

/// The partners of segment `i` in the writhe sum of an `n`-point loop: the
/// run `i + 2 .. writhe_row_end(i, n)`, empty when the loop has fewer than
/// three points.
pub open spec fn writhe_row(i: int, n: int) -> Seq<usize> {
    if n < 3 || i + 2 >= writhe_row_end(i, n) {
        Seq::empty()
    } else {
        Seq::new((writhe_row_end(i, n) - i - 2) as nat, |k: int| (i + 2 + k) as usize)
    }
}

/// The segments that the writhe sum pairs with segment `i` of an `n`-point
/// loop, in increasing order.
pub fn writhe_partners(i: usize, n: usize) -> (partners: Vec<usize>)
    requires
        i < n,
    ensures
        partners@ == writhe_row(i as int, n as int),
        n < 3 ==> partners.len() == 0,
        forall|k: int| 0 <= k < partners.len() ==> i < #[trigger] partners@[k] < n,
        forall|k: int, l: int| 0 <= k < l < partners.len() ==> #[trigger] partners@[k] < #[trigger] partners@[l],
        forall|j: usize|
            n >= 3 && j < n ==> (#[trigger] partners@.contains(j) <==> (i < j && j != (i + 1) % (n as int) && i != (j
                + 1) % (n as int))),
{
    proof {
        lemma_writhe_row_is_non_adjacent_partners(i as int, n as int);
    }
    let mut partners: Vec<usize> = Vec::new();
    if n < 3 || n - i <= 2 {
        assert(partners@ =~= writhe_row(i as int, n as int));
        return partners;
    }
    let next = (i + 1) % n;
    let previous = if i == 0 { n - 1 } else { i - 1 };
    assert(next == i + 1 || next == 0) by {
        if i + 1 < n {
            vstd::arithmetic::div_mod::lemma_small_mod((i + 1) as nat, n as nat);
        } else {
            vstd::arithmetic::div_mod::lemma_mod_self_0(n as int);
        }
    }
    let ghost end = writhe_row_end(i as int, n as int);
    let mut j: usize = i + 2;
    while j < n
        invariant
            3 <= n,
            i < n,
            i + 2 <= j <= n,
            next == i + 1 || next == 0,
            previous == if i == 0 { n - 1 } else { i - 1 },
            end == writhe_row_end(i as int, n as int),
            partners@ == Seq::new(
                ((if j < end { j as int } else { end }) - i - 2) as nat,
                |k: int| (i + 2 + k) as usize,
            ),
        decreases n - j,
    {
        if j == i || j == next || j == previous {
        } else {
            partners.push(j);
        }
        proof {
            let upto = if j + 1 < end { j + 1 } else { end };
            assert(partners@ =~= Seq::new((upto - i - 2) as nat, |k: int| (i + 2 + k) as usize));
        }
        j = j + 1;
    }
    assert(partners@ =~= writhe_row(i as int, n as int));
    partners
}

/// The writhe row of segment `i` lists, in increasing order, exactly the
/// segments `j > i` that are not neighbours of `i` along the loop; it is
/// empty for a loop of fewer than three points.
pub proof fn lemma_writhe_row_is_non_adjacent_partners(i: int, n: int)
    requires
        0 <= i < n <= usize::MAX,
    ensures
        n < 3 ==> writhe_row(i, n).len() == 0,
        forall|k: int| 0 <= k < writhe_row(i, n).len() ==> i < #[trigger] writhe_row(i, n)[k] < n,
        forall|k: int, l: int|
            0 <= k < l < writhe_row(i, n).len() ==> #[trigger] writhe_row(i, n)[k] < #[trigger] writhe_row(i, n)[l],
        forall|j: usize|
            n >= 3 && j < n ==> (#[trigger] writhe_row(i, n).contains(j) <==> (i < j && j != (i + 1) % n && i != (j + 1)
                % n)),
{
    lemma_writhe_indices(i, n);
    assert forall|j: usize| n >= 3 && j < n implies (#[trigger] writhe_row(i, n).contains(j) <==> (i < j && j != (i
        + 1) % n && i != (j + 1) % n)) by {
        lemma_writhe_row_members(i, j as int, n);
        lemma_writhe_pairs_are_non_adjacent(i, j as int, n);
    }
}

/// Segment `j` is in the writhe row of segment `i` exactly when it passes
/// the test of the writhe loop (`writhe_pair`).
pub proof fn lemma_writhe_row_members(i: int, j: int, n: int)
    requires
        0 <= i < n <= usize::MAX,
    ensures
        writhe_row(i, n).contains(j as usize) && 0 <= j <= usize::MAX <==> writhe_pair(i, j, n),
{
    lemma_writhe_indices(i, n);
    let row = writhe_row(i, n);
    if writhe_pair(i, j, n) {
        assert(row[j - i - 2] == j as usize);
    }
    if row.contains(j as usize) && 0 <= j <= usize::MAX {
        let k = choose|k: int| 0 <= k < row.len() && row[k] == j as usize;
        assert(row[k] == i + 2 + k);
    }
}

proof fn lemma_writhe_indices(i: int, n: int)
    requires
        0 <= i < n,
    ensures
        n >= 2 ==> (i + 1) % n == if i + 1 < n { i + 1 } else { 0 },
        n >= 2 ==> (i + n - 1) % n == if i == 0 { n - 1 } else { i - 1 },
{
    if n >= 2 {
        if i + 1 < n {
            vstd::arithmetic::div_mod::lemma_small_mod((i + 1) as nat, n as nat);
        } else {
            vstd::arithmetic::div_mod::lemma_mod_self_0(n);
        }
        if i == 0 {
            vstd::arithmetic::div_mod::lemma_small_mod((n - 1) as nat, n as nat);
        } else {
            vstd::arithmetic::div_mod::lemma_mod_add_multiples_vanish(i - 1, n);
            vstd::arithmetic::div_mod::lemma_small_mod((i - 1) as nat, n as nat);
        }
    }
}

/// Number of terms of the writhe sum of an `n`-point loop over the rows
/// `0..rows`.
pub open spec fn writhe_terms(n: int, rows: nat) -> int
    decreases rows,
{
    if rows == 0 {
        0
    } else {
        writhe_terms(n, (rows - 1) as nat) + writhe_row(rows - 1, n).len()
    }
}

/// The writhe sum of an `n`-point loop (n ≥ 3) has `n (n - 3) / 2` terms:
/// one per unordered pair of non-adjacent segments.
pub proof fn lemma_writhe_term_count(n: nat)
    requires
        n >= 3,
    ensures
        2 * writhe_terms(n as int, n) == n * (n - 3),
{
    lemma_writhe_terms_prefix(n as int, n);
}

proof fn lemma_writhe_terms_prefix(n: int, rows: nat)
    requires
        n >= 3,
        rows <= n,
    ensures
        1 <= rows <= n - 2 ==> 2 * writhe_terms(n, rows) == 2 * (n - 3) + (rows - 1) * (2 * n - 4 - rows),
        rows > n - 2 ==> 2 * writhe_terms(n, rows) == n * (n - 3),
    decreases rows,
{
    if rows > 0 {
        let r = rows as int;
        lemma_writhe_terms_prefix(n, (rows - 1) as nat);
        let i = r - 1;
        if i == 0 {
            assert(writhe_row(0, n).len() == n - 3);
            assert(writhe_terms(n, 0) == 0);
            assert((r - 1) * (2 * n - 4 - r) == 0) by (nonlinear_arith)
                requires
                    r == 1,
            ;
        } else if i + 2 < n {
            assert(writhe_row(i, n).len() == n - i - 2);
            if r - 1 >= 1 {
                assert(2 * (n - 3) + (r - 2) * (2 * n - 4 - (r - 1)) + 2 * (n - r - 1) == 2 * (n - 3) + (r - 1) * (2 * n - 4 - r))
                    by (nonlinear_arith);
            }
        } else {
            assert(writhe_row(i, n).len() == 0);
            if r - 1 == n - 2 {
                assert(2 * (n - 3) + (n - 3) * (2 * n - 4 - (n - 2)) == n * (n - 3)) by (nonlinear_arith);
            }
        }
    }
}

/// The writhe sum takes the pair of segments `i < j` exactly when they are
/// not neighbours along the loop: every pair of distinct, non-adjacent
/// segments enters the sum, and it enters once, as `(i, j)` with `i < j`.
pub proof fn lemma_writhe_pairs_are_non_adjacent(i: int, j: int, n: int)
    requires
        n >= 3,
        0 <= i < n,
        0 <= j < n,
    ensures
        writhe_pair(i, j, n) ==> i < j,
        i < j ==> (writhe_pair(i, j, n) <==> !cyclically_adjacent(i, j, n)),
{
    lemma_writhe_indices(i, n);
    lemma_writhe_indices(j, n);
}

} // verus!
