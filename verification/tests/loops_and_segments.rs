use hopf_topology::loops::{segment_into_loops, HopfTrajectory};
use hopf_topology::segments::{linking_partners, segment, writhe_partners, Segment};

fn trajectory(n: u32) -> HopfTrajectory<u32, u64> {
    HopfTrajectory {
        points: (0..n).collect(),
        t_values: (0..n as u64).map(|t| 100 + t).collect(),
    }
}

#[test]
fn loops_are_blocks_closed_by_their_first_point() {
    let blocks = segment_into_loops(&trajectory(10), 3);
    assert_eq!(blocks.len(), 3);
    assert_eq!(blocks[0].points, vec![0, 1, 2, 0]);
    assert_eq!(blocks[1].points, vec![3, 4, 5, 3]);
    assert_eq!(blocks[2].points, vec![6, 7, 8, 6]);
    assert_eq!(blocks[0].t_values, vec![100, 101, 102]);
    assert_eq!(blocks[2].t_values, vec![106, 107, 108]);
}

#[test]
fn loops_cover_the_prefix_in_order() {
    let traj = trajectory(17);
    let blocks = segment_into_loops(&traj, 4);
    let joined: Vec<u32> = blocks
        .iter()
        .flat_map(|b| b.points[..b.points.len() - 1].to_vec())
        .collect();
    assert_eq!(joined, traj.points[..16].to_vec());
    let params: Vec<u64> = blocks.iter().flat_map(|b| b.t_values.clone()).collect();
    assert_eq!(params, traj.t_values[..16].to_vec());
    for b in &blocks {
        assert_eq!(b.points.first(), b.points.last());
    }
}

#[test]
fn too_short_trajectory_gives_no_loop() {
    assert!(segment_into_loops(&trajectory(5), 6).is_empty());
    assert!(segment_into_loops(&trajectory(0), 1).is_empty());
    let single = segment_into_loops(&trajectory(2), 1);
    assert_eq!(single.len(), 2);
    assert_eq!(single[1].points, vec![1, 1]);
}

#[test]
fn segment_wraps_around_the_loop() {
    assert_eq!(segment(0, 4), Segment { start: 0, end: 1 });
    assert_eq!(segment(3, 4), Segment { start: 3, end: 0 });
}

#[test]
fn linking_pairs_every_segment_of_closed_curves() {
    assert_eq!(linking_partners(3, 4), vec![0, 1, 2, 3]);
    assert_eq!(linking_partners(5, 3), vec![0, 1, 2]);
    assert!(linking_partners(2, 10).is_empty());
    assert!(linking_partners(10, 2).is_empty());
}

#[test]
fn writhe_skips_adjacent_segments() {
    assert_eq!(writhe_partners(0, 5), vec![2, 3]);
    assert_eq!(writhe_partners(1, 5), vec![3, 4]);
    assert_eq!(writhe_partners(2, 5), vec![4]);
    assert!(writhe_partners(3, 5).is_empty());
    assert!(writhe_partners(4, 5).is_empty());
    assert!(writhe_partners(0, 3).is_empty());
    assert!(writhe_partners(0, 2).is_empty());
}

#[test]
fn writhe_visits_each_non_adjacent_pair_once() {
    for n in 3..12usize {
        let mut pairs = Vec::new();
        for i in 0..n {
            for j in writhe_partners(i, n) {
                pairs.push((i, j));
            }
        }
        assert_eq!(pairs.len(), n * (n - 3) / 2);
        for i in 0..n {
            for j in (i + 1)..n {
                let adjacent = j == i + 1 || (i == 0 && j == n - 1);
                assert_eq!(pairs.contains(&(i, j)), !adjacent);
            }
        }
    }
}
