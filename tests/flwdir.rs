use pyflwdir::{FlowType, FlwdirRaster, D8_E, D8_N, D8_PIT, D8_S, RANK_INVALID};

#[test]
fn test_flwdir_from_d8() {
    let d8 = vec![D8_E, D8_S, D8_N, D8_PIT];

    let flwdir = FlwdirRaster::from_array(&d8, (2, 2));
    assert_eq!(flwdir.shape, (2, 2));
    assert_eq!(flwdir.size(), 4);
    assert_eq!(flwdir.ftype, FlowType::D8);
    assert_eq!(flwdir.nnodes(), 4);
}

#[test]
fn test_flwdir_to_array() {
    let d8 = vec![D8_E, D8_S, D8_N, D8_PIT];

    let flwdir = FlwdirRaster::from_array(&d8, (2, 2));
    let d8_out = flwdir.to_array();

    assert_eq!(d8_out, d8);
}

#[test]
fn flwdir_test_pit_indices() {
    let d8 = vec![D8_E, D8_S, D8_N, D8_PIT];

    let flwdir = FlwdirRaster::from_array(&d8, (2, 2));
    let pits = flwdir.pit_indices();

    assert_eq!(pits.len(), 1);
    assert_eq!(pits[0], 3); // Bottom-right cell (index 3)
}

#[test]
fn flwdir_test_rank() {
    // Create a simple 2x2 flow direction array
    // D8 values: 2=SE, 4=S, 1=E, 0=PIT
    let d8 = vec![2u8, 4u8, 1u8, 0u8];
    let mut flwdir = FlwdirRaster::from_array(&d8, (2, 2));

    let ranks = flwdir.rank();

    // Count valid cells (not -9999)
    let n = ranks.iter().filter(|&&r| r != -9999).count();

    // All cells should be processed
    assert_eq!(n, 4);

    assert_eq!(ranks[3], 0); // Cell 3 is a pit
    assert_eq!(ranks[0], 1); // Cell 0 flows to cell 3
    assert_eq!(ranks[1], 1); // Cell 1 flows to cell 3
    assert_eq!(ranks[2], 1); // Cell 2 flows to cell 3
}

#[test]
fn flwdir_test_upstream_count() {
    // Use the same D8 array as in the rank test for consistency
    let d8 = vec![2u8, 4u8, 1u8, 0u8];
    let flwdir = FlwdirRaster::from_array(&d8, (2, 2));
    let n_up = flwdir.upstream_count(None);

    assert_eq!(n_up[0], 0); // No upstream cells
    assert_eq!(n_up[1], 0); // No upstream cells
    assert_eq!(n_up[2], 0); // No upstream cells
    assert_eq!(n_up[3], 3); // Three upstream cells (0, 1, 2)
}

#[test]
fn converging_two_by_two() {
    let d8 = vec![2u8, 4, 1, 0];
    let mut flwdir = FlwdirRaster::from_array(&d8, (2, 2));
    assert_eq!(flwdir.idxs_ds, vec![3, 3, 3, 3]);
    assert_eq!(flwdir.pit_indices, vec![3]);
    assert_eq!(flwdir.upstream_counts, vec![0, 0, 0, 3]);
    assert_eq!(flwdir.rank().clone(), vec![1, 1, 1, 0]);
    assert_eq!(flwdir.accuflux_count(), vec![1, 1, 1, 4]);
    assert_eq!(flwdir.idxs_seq(), vec![3, 0, 1, 2]);
}

#[test]
fn grid_without_a_cycle_has_no_invalid_rank() {
    // E, SE / SE, SE: cell 0 drains into 1, the others point out of the grid.
    let d8 = vec![1u8, 2, 2, 2];
    let mut flwdir = FlwdirRaster::from_array(&d8, (2, 2));
    assert_eq!(flwdir.idxs_ds, vec![1, 1, 2, 3]);
    assert_eq!(flwdir.valid_indices(), vec![0]);
    assert_eq!(flwdir.rank().clone(), vec![1, 0, 0, 0]);
}

#[test]
fn cycle_gets_the_invalid_rank() {
    // E, S / N, W: 0 -> 1 -> 3 -> 2 -> 0; a third row drains into the cycle
    // from cell 4 and holds a pit at cell 5.
    let d8 = vec![1u8, 4, 64, 16, 64, 0];
    let mut flwdir = FlwdirRaster::from_array(&d8, (3, 2));
    assert_eq!(flwdir.idxs_ds, vec![1, 3, 0, 2, 2, 5]);
    let ranks = flwdir.rank().clone();
    assert_eq!(ranks, vec![RANK_INVALID, RANK_INVALID, RANK_INVALID, RANK_INVALID, RANK_INVALID, 0]);
    assert_eq!(flwdir.nnodes(), 1);
    assert_eq!(flwdir.idxs_seq(), vec![5]);
    assert_eq!(flwdir.accuflux_count(), vec![1, 1, 1, 1, 1, 1]);
}

#[test]
fn rank_is_cached() {
    let d8 = vec![1u8, 1, 0];
    let mut flwdir = FlwdirRaster::from_array(&d8, (1, 3));
    let first = flwdir.rank().clone();
    assert_eq!(first, vec![2, 1, 0]);
    assert_eq!(flwdir.rank_cache, Some(vec![2, 1, 0]));
    assert_eq!(flwdir.rank().clone(), first);
}

#[test]
fn validity_and_coordinates() {
    // N leaves the grid, 255 is no-data, E and the pit are valid.
    let d8 = vec![64u8, 255, 1, 0];
    let flwdir = FlwdirRaster::from_array(&d8, (2, 2));
    assert_eq!(flwdir.valid_indices(), vec![2, 3]);
    assert!(!flwdir.is_valid(0));
    assert!(!flwdir.is_valid(1));
    assert!(flwdir.is_valid(2));
    assert!(!flwdir.is_valid(4));
    assert_eq!(flwdir.idx_to_rowcol(3), (1, 1));
    assert_eq!(flwdir.rowcol_to_idx(1, 0), 2);
    assert_eq!(flwdir.get_idxs_ds_i32(), vec![0, 1, 3, 3]);
    // Invalid cells do not count upstream of their target.
    assert_eq!(flwdir.upstream_counts, vec![0, 0, 0, 1]);
}

#[test]
fn accumulation_along_a_chain() {
    let d8 = vec![1u8, 1, 1, 0];
    let flwdir = FlwdirRaster::from_array(&d8, (1, 4));
    assert_eq!(flwdir.accuflux_count(), vec![1, 2, 3, 4]);
}

#[test]
fn watershed_sequence_and_accumulation() {
    let d8 = vec![
        1u8, 1, 2, 4,
        1, 2, 4, 4,
        64, 1, 2, 4,
        64, 64, 1, 0,
    ];
    let mut flwdir = FlwdirRaster::from_array(&d8, (4, 4));
    let seq = flwdir.idxs_seq();
    let nnodes = flwdir.nnodes();
    assert_eq!(seq.len(), nnodes);
    let ranks = flwdir.rank().clone();
    assert_eq!(ranks.iter().filter(|&&r| r >= 0).count(), seq.len());
    let acc = flwdir.accuflux_count();
    for &p in flwdir.pit_indices.iter() {
        let inflow: usize = (0..16).filter(|&u| flwdir.idxs_ds[u] == p && u != p).map(|u| acc[u]).sum();
        assert_eq!(acc[p], 1 + inflow);
    }
    assert_eq!(flwdir.to_array(), d8);
}
