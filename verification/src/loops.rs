//! Cutting a trajectory into closed loops.
//!
//! A trajectory is a sequence of points, each with the parameter `t` at which
//! it was sampled. It is cut into consecutive blocks of `block_size` points;
//! points left over after the last full block are dropped. Each block becomes
//! a closed loop by repeating its first point at its end; its parameters are
//! those of the block, without repetition.

use vstd::prelude::*;

verus! {

/// A sampled curve: `points[k]` was taken at parameter `t_values[k]`.
pub struct HopfTrajectory<P, T> {
    pub points: Vec<P>,
    pub t_values: Vec<T>,
}

/// The points of loop `b`: the block of `block_size` points that starts at
/// `b * block_size`, followed by its first point again.
pub open spec fn loop_points<P>(points: Seq<P>, b: int, block_size: int) -> Seq<P> {
    points.subrange(b * block_size, (b + 1) * block_size).push(points[b * block_size])
}

/// The parameters of loop `b`: those of its block.
pub open spec fn loop_params<T>(t_values: Seq<T>, b: int, block_size: int) -> Seq<T> {
    t_values.subrange(b * block_size, (b + 1) * block_size)
}

/// The open parts of the first `k` loops (each loop without its closing
/// point), one after the other.
pub open spec fn joined_open_parts<P>(points: Seq<P>, block_size: int, k: nat) -> Seq<P>
    decreases k,
{
    if k == 0 {
        Seq::empty()
    } else {
        joined_open_parts(points, block_size, (k - 1) as nat) + loop_points(
            points,
            k - 1,
            block_size,
        ).drop_last()
    }
}

/// The parameters of the first `k` loops, one after the other.
pub open spec fn joined_params<T>(t_values: Seq<T>, block_size: int, k: nat) -> Seq<T>
    decreases k,
{
    if k == 0 {
        Seq::empty()
    } else {
        joined_params(t_values, block_size, (k - 1) as nat) + loop_params(
            t_values,
            k - 1,
            block_size,
        )
    }
}

proof fn lemma_block_bounds(n: int, block_size: int, b: int)
    requires
        n >= 0,
        block_size > 0,
        0 <= b < n / block_size,
    ensures
        0 <= b * block_size,
        b * block_size + block_size == (b + 1) * block_size,
        (b + 1) * block_size <= (n / block_size) * block_size,
        (n / block_size) * block_size <= n,
{
    let nb = n / block_size;
    assert((b + 1) * block_size == b * block_size + block_size) by (nonlinear_arith);
    assert(0 <= b * block_size) by (nonlinear_arith)
        requires
            0 <= b,
            block_size > 0,
    ;
    assert((b + 1) * block_size <= nb * block_size) by (nonlinear_arith)
        requires
            b + 1 <= nb,
            block_size > 0,
    ;
    vstd::arithmetic::div_mod::lemma_fundamental_div_mod(n, block_size);
    assert(nb * block_size == block_size * nb) by (nonlinear_arith);
}

fn copy_range<X: Copy>(v: &Vec<X>, start: usize, end: usize) -> (r: Vec<X>)
    requires
        start <= end <= v.len(),
    ensures
        r@ == v@.subrange(start as int, end as int),
{
    let mut r: Vec<X> = Vec::new();
    let mut k = start;
    while k < end
        invariant
            start <= k <= end <= v.len(),
            r@ == v@.subrange(start as int, k as int),
        decreases end - k,
    {
        r.push(v[k]);
        k = k + 1;
    }
    r
}

/// Cuts `traj` into closed loops of `block_size` points each (plus the
/// closing point), dropping the points after the last full block.
pub fn segment_into_loops<P: Copy, T: Copy>(traj: &HopfTrajectory<P, T>, block_size: usize) -> (blocks: Vec<HopfTrajectory<P, T>>)
    requires
        block_size > 0,
        (traj.points.len() / block_size) * block_size <= traj.t_values.len(),
    ensures
        blocks.len() == traj.points.len() / block_size,
        forall|b: int|
            0 <= b < blocks.len() ==> {
                &&& (#[trigger] blocks[b]).points@ == loop_points(traj.points@, b, block_size as int)
                &&& blocks[b].t_values@ == loop_params(traj.t_values@, b, block_size as int)
            },
        forall|b: int|
            0 <= b < blocks.len() ==> {
                &&& (#[trigger] blocks[b]).points.len() == block_size + 1
                &&& blocks[b].t_values.len() == block_size
                &&& (b + 1) * block_size <= traj.points.len()
                &&& blocks[b].points@[block_size as int] == traj.points@[b * block_size]
            },
        forall|b: int, m: int|
            #![trigger blocks[b].points@[m]]
            0 <= b < blocks.len() && 0 <= m < block_size ==> {
                &&& blocks[b].points@[m] == traj.points@[b * block_size + m]
                &&& blocks[b].t_values@[m] == traj.t_values@[b * block_size + m]
            },
{
    let n_points = traj.points.len();
    let n_blocks = n_points / block_size;
    let mut blocks: Vec<HopfTrajectory<P, T>> = Vec::new();
    let mut b: usize = 0;
    while b < n_blocks
        invariant
            n_points == traj.points.len(),
            n_blocks == n_points / block_size,
            block_size > 0,
            n_blocks * block_size <= traj.t_values.len(),
            b <= n_blocks,
            blocks.len() == b,
            forall|c: int|
                0 <= c < b ==> {
                    &&& (#[trigger] blocks[c]).points@ == loop_points(traj.points@, c, block_size as int)
                    &&& blocks[c].t_values@ == loop_params(traj.t_values@, c, block_size as int)
                },
        decreases n_blocks - b,
    {
        proof {
            lemma_block_bounds(n_points as int, block_size as int, b as int);
        }
        let start = b * block_size;
        let end = start + block_size;
        let mut block_points = copy_range(&traj.points, start, end);
        let first = block_points[0];
        block_points.push(first);
        let block_t = copy_range(&traj.t_values, start, end);
        blocks.push(HopfTrajectory { points: block_points, t_values: block_t });
        b = b + 1;
    }
    assert forall|b: int| 0 <= b < blocks.len() implies {
        &&& (#[trigger] blocks[b]).points.len() == block_size + 1
        &&& blocks[b].t_values.len() == block_size
        &&& (b + 1) * block_size <= traj.points.len()
        &&& blocks[b].points@[block_size as int] == traj.points@[b * block_size]
    } by {
        lemma_block_bounds(n_points as int, block_size as int, b);
    }
    assert forall|b: int, m: int|
        #![trigger blocks[b].points@[m]]
        0 <= b < blocks.len() && 0 <= m < block_size implies {
            &&& blocks[b].points@[m] == traj.points@[b * block_size + m]
            &&& blocks[b].t_values@[m] == traj.t_values@[b * block_size + m]
        } by {
        lemma_block_bounds(n_points as int, block_size as int, b);
    }
    blocks
}

/// Every loop is closed: it ends at the point where it starts.
pub proof fn lemma_loops_are_closed<P>(points: Seq<P>, block_size: int, b: int)
    requires
        block_size > 0,
        0 <= b < points.len() as int / block_size,
    ensures
        loop_points(points, b, block_size).len() == block_size + 1,
        loop_points(points, b, block_size)[0] == loop_points(points, b, block_size).last(),
{
    lemma_block_bounds(points.len() as int, block_size, b);
}

/// Taken in order, the loops without their closing points, and their
/// parameters, are exactly the points and parameters of the trajectory up to
/// the last full block: no point is lost, repeated or moved.
pub proof fn lemma_loops_cover_prefix<P, T>(points: Seq<P>, t_values: Seq<T>, block_size: int)
    requires
        block_size > 0,
        (points.len() as int / block_size) * block_size <= t_values.len(),
    ensures
        joined_open_parts(points, block_size, (points.len() as int / block_size) as nat)
            == points.subrange(0, (points.len() as int / block_size) * block_size),
        joined_params(t_values, block_size, (points.len() as int / block_size) as nat)
            == t_values.subrange(0, (points.len() as int / block_size) * block_size),
{
    let nb = points.len() as int / block_size;
    lemma_prefix_by_blocks(points, t_values, block_size, nb as nat);
}

proof fn lemma_prefix_by_blocks<P, T>(points: Seq<P>, t_values: Seq<T>, block_size: int, k: nat)
    requires
        block_size > 0,
        k <= points.len() as int / block_size,
        (points.len() as int / block_size) * block_size <= t_values.len(),
    ensures
        joined_open_parts(points, block_size, k) == points.subrange(0, k * block_size),
        joined_params(t_values, block_size, k) == t_values.subrange(0, k * block_size),
    decreases k,
{
    if k > 0 {
        let b = k - 1;
        lemma_prefix_by_blocks(points, t_values, block_size, b as nat);
        lemma_block_bounds(points.len() as int, block_size, b);
        assert(loop_points(points, b, block_size).drop_last() =~= points.subrange(
            b * block_size,
            k * block_size,
        ));
        assert(points.subrange(0, b * block_size) + points.subrange(b * block_size, k * block_size)
            =~= points.subrange(0, k * block_size));
        assert(t_values.subrange(0, b * block_size) + t_values.subrange(
            b * block_size,
            k * block_size,
        ) =~= t_values.subrange(0, k * block_size));
    } else {
        assert(points.subrange(0, 0) =~= Seq::<P>::empty());
        assert(t_values.subrange(0, 0) =~= Seq::<T>::empty());
    }
}

} // verus!
