use hopf_topology::matrix::{assemble_symmetric, connectivity_tasks, off_diagonal, strict_upper_pairs, PairTask};
use hopf_topology::verdict::{all_signals, count_signals, enough_signals};
use hopf_topology::zeros::{decode_le_words, sample_evenly};

#[test]
fn tasks_cover_the_upper_triangle_row_by_row() {
    assert_eq!(
        connectivity_tasks(3),
        vec![
            PairTask::Writhe(0),
            PairTask::Link(0, 1),
            PairTask::Link(0, 2),
            PairTask::Writhe(1),
            PairTask::Link(1, 2),
            PairTask::Writhe(2),
        ]
    );
    assert!(connectivity_tasks(0).is_empty());
    assert_eq!(connectivity_tasks(7).len(), 28);
}

#[test]
fn metrics_read_the_cells_above_the_diagonal() {
    assert_eq!(strict_upper_pairs(3), vec![(0, 1), (0, 2), (1, 2)]);
    assert!(strict_upper_pairs(1).is_empty());
    assert!(strict_upper_pairs(0).is_empty());
    assert_eq!(strict_upper_pairs(10).len(), 45);
}

#[test]
fn off_diagonal_skips_the_own_column() {
    assert_eq!(off_diagonal(4, 1), vec![0, 2, 3]);
    assert_eq!(off_diagonal(4, 0), vec![1, 2, 3]);
    assert_eq!(off_diagonal(4, 3), vec![0, 1, 2]);
    assert!(off_diagonal(1, 0).is_empty());
}

#[test]
fn assembled_matrix_is_symmetric() {
    let cells = assemble_symmetric(3, &vec![1, 2, 3, 4, 5, 6], 0);
    assert_eq!(cells, vec![1, 2, 3, 2, 4, 5, 3, 5, 6]);
    let values: Vec<f64> = vec![0.5, -1.25, 2.0];
    let m = assemble_symmetric(2, &values, 0.0);
    assert_eq!(m, vec![0.5, -1.25, -1.25, 2.0]);
    assert!(assemble_symmetric::<i32>(0, &vec![], 0).is_empty());
}

#[test]
fn words_follow_the_header_little_endian() {
    let mut data = vec![9u8, 9, 9, 9, 1, 0, 0, 0, 0x78, 0x56, 0x34, 0x12];
    data.extend_from_slice(&14.5f32.to_le_bytes());
    data.push(7);
    let words = decode_le_words(&data);
    assert_eq!(words.len(), 3);
    assert_eq!(words[0], 1);
    assert_eq!(words[1], 0x1234_5678);
    assert_eq!(f32::from_bits(words[2]), 14.5);
    assert!(decode_le_words(&vec![1, 2, 3, 4, 5, 6, 7]).is_empty());
}

#[test]
fn sampling_takes_an_even_stride_from_the_start() {
    let values: Vec<u32> = (0..10).collect();
    assert_eq!(sample_evenly(&values, 3), vec![0, 3, 6]);
    assert_eq!(sample_evenly(&values, 4), vec![0, 2, 4, 6]);
    assert_eq!(sample_evenly(&values, 10), values);
    assert_eq!(sample_evenly(&values, 100), values);
    assert_eq!(sample_evenly(&values, 1), vec![0]);
    let floats = vec![14.1f64, 21.0, 25.0];
    assert_eq!(sample_evenly(&floats, 2), vec![14.1, 21.0]);
}

#[test]
fn verdicts_count_the_criteria_that_hold() {
    let four = vec![true, false, true, true];
    assert_eq!(count_signals(&four), 3);
    assert!(enough_signals(&four, 3));
    assert!(!enough_signals(&vec![true, false, false, true, false], 3));
    assert!(enough_signals(&vec![true, true, true, false, false], 3));
    assert!(all_signals(&vec![true, true, true]));
    assert!(!all_signals(&vec![true, false, true]));
    assert!(all_signals(&vec![]));
    assert_eq!(count_signals(&vec![]), 0);
}

#[test]
fn more_criteria_met_never_fail_a_passing_experiment() {
    let weaker = vec![true, false, true, false];
    let stronger = vec![true, true, true, false];
    assert!(count_signals(&weaker) <= count_signals(&stronger));
    assert!(enough_signals(&stronger, 2));
}
