//! The integer skeleton of the Hopf-linking analysis of the zeta function:
//! how trajectories are cut into closed loops, which pairs of segments enter
//! the Gauss linking and writhe sums, which cells of the linking matrix are
//! computed and read, how the binary file of zeros is framed and sampled,
//! and how the criteria of each experiment are combined into a verdict.

pub mod loops;
pub mod matrix;
pub mod segments;
pub mod verdict;
pub mod zeros;
