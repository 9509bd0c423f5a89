use pyflwdir::{
    accuflux_count, idxs_seq, pit_indices, rank, upstream_count, upstream_matrix, MV,
    RANK_INVALID,
};

#[test]
fn core_test_pit_indices() {
    // Simple test case: cell 2 flows to itself (pit)
    let idxs_ds: Vec<usize> = vec![1, 2, 2];
    let pits = pit_indices(&idxs_ds);
    assert_eq!(pits.len(), 1);
    assert_eq!(pits[0], 2);
}

#[test]
fn core_test_upstream_count() {
    // Cell 0 flows to cell 1, cell 1 flows to cell 2 (pit)
    let idxs_ds: Vec<usize> = vec![1, 2, 2];
    let n_up = upstream_count(&idxs_ds, None);
    assert_eq!(n_up[0], 0); // No upstream cells
    assert_eq!(n_up[1], 1); // One upstream cell (0)
    assert_eq!(n_up[2], 1); // One upstream cell (1)
}

#[test]
fn core_test_rank() {
    // Cell 0 flows to cell 1, cell 1 flows to cell 2 (pit)
    let idxs_ds: Vec<i32> = vec![1, 2, 2];
    let pits = vec![false, false, true];
    let (ranks, nnodes) = rank(&idxs_ds, &pits);
    // Cell 2 is a pit (rank 0), cell 1 flows to cell 2 (rank 1), cell 0 flows to cell 1 (rank 2)
    assert_eq!(ranks[2], 0);
    assert_eq!(ranks[1], 1);
    assert_eq!(ranks[0], 2);
    assert_eq!(nnodes, 3);
}

#[test]
fn pits_are_exactly_the_self_loops() {
    let idxs_ds: Vec<usize> = vec![0, 0, 2, 2, 4, 3];
    assert_eq!(pit_indices(&idxs_ds), vec![0, 2, 4]);
    assert_eq!(pit_indices(&[]), Vec::<usize>::new());
}

#[test]
fn upstream_counts_add_up_to_the_moving_cells() {
    let idxs_ds: Vec<usize> = vec![1, 2, 2, 2, 3, 5];
    let n_up = upstream_count(&idxs_ds, None);
    assert_eq!(n_up, vec![0, 1, 2, 1, 0, 0]);
    let total: i32 = n_up.iter().map(|&c| c as i32).sum();
    let moving = idxs_ds.iter().enumerate().filter(|(i, &t)| *i != t).count() as i32;
    assert_eq!(total, moving);
}

#[test]
fn upstream_count_with_a_mask() {
    let idxs_ds: Vec<usize> = vec![2, 2, 2];
    let mask = vec![true, false, true];
    assert_eq!(upstream_count(&idxs_ds, Some(&mask)), vec![0, 0, 1]);
}

#[test]
fn upstream_matrix_rows_in_scan_order() {
    let idxs_ds: Vec<usize> = vec![2, 2, 2, 2, 3];
    let table = upstream_matrix(&idxs_ds);
    assert_eq!(table.len(), 5);
    assert_eq!(table[2], vec![0, 1, 3]);
    assert_eq!(table[3], vec![4, MV, MV]);
    assert_eq!(table[0], vec![MV, MV, MV]);
}

#[test]
fn upstream_matrix_without_contributors_has_width_one() {
    let idxs_ds: Vec<usize> = vec![0, 1];
    assert_eq!(upstream_matrix(&idxs_ds), vec![vec![MV], vec![MV]]);
}

#[test]
fn rank_marks_cycles_and_exits_invalid() {
    // 0 -> 1 -> 0 is a cycle, 2 drains into it, 3 leaves the range, 4 drains
    // into 3, 5 is a pit with 6 above it.
    let idxs_ds: Vec<i32> = vec![1, 0, 0, 9, 3, 5, 5, -1];
    let (ranks, nnodes) = rank(&idxs_ds, &[]);
    assert_eq!(ranks, vec![-1, -1, -1, -1, -1, 0, 1, -1]);
    assert_eq!(RANK_INVALID, -1);
    assert_eq!(nnodes, 2);
}

#[test]
fn rank_of_a_long_chain() {
    let n = 1000;
    let idxs_ds: Vec<i32> = (0..n).map(|i| if i + 1 < n { i + 1 } else { i }).collect();
    let (ranks, nnodes) = rank(&idxs_ds, &[]);
    assert_eq!(nnodes, n as usize);
    for i in 0..n {
        assert_eq!(ranks[i as usize], n - 1 - i);
    }
}

#[test]
fn rank_steps_down_by_one() {
    let idxs_ds: Vec<i32> = vec![3, 3, 1, 3, 2];
    let (ranks, _) = rank(&idxs_ds, &[]);
    assert_eq!(ranks, vec![1, 1, 2, 0, 3]);
    for c in 0..idxs_ds.len() {
        let t = idxs_ds[c] as usize;
        if t != c && ranks[c] >= 0 {
            assert_eq!(ranks[c], ranks[t] + 1);
        }
    }
}

#[test]
fn sequence_puts_targets_first() {
    let idxs_ds: Vec<usize> = vec![1, 4, 1, 2, 4, 5, 7, 6];
    let pits = pit_indices(&idxs_ds);
    assert_eq!(pits, vec![4, 5]);
    let seq = idxs_seq(&idxs_ds, &pits);
    assert_eq!(seq, vec![4, 5, 1, 0, 2, 3]);
    let as_i32: Vec<i32> = idxs_ds.iter().map(|&t| t as i32).collect();
    let (_, nnodes) = rank(&as_i32, &[]);
    assert_eq!(seq.len(), nnodes);
    for (q, &c) in seq.iter().enumerate() {
        if idxs_ds[c] != c {
            let p = seq.iter().position(|&x| x == idxs_ds[c]).unwrap();
            assert!(p < q);
        }
        assert_eq!(seq.iter().filter(|&&x| x == c).count(), 1);
    }
}

#[test]
fn accumulation_counts_upstream_cells() {
    // A chain 0 -> 1 -> 2 (pit), with 3 also draining into 2, and a cycle 4 <-> 5.
    let idxs_ds: Vec<usize> = vec![1, 2, 2, 2, 5, 4];
    assert_eq!(accuflux_count(&idxs_ds), vec![1, 2, 4, 1, 1, 1]);
}

#[test]
fn sequence_stops_at_the_number_of_cells() {
    // Repeated pits fill the order up to the number of cells.
    let idxs_ds: Vec<usize> = vec![0, 0];
    assert_eq!(idxs_seq(&idxs_ds, &[0, 0, 0]), vec![0, 0]);
    assert_eq!(idxs_seq(&idxs_ds, &[0]), vec![0, 1]);
    assert_eq!(idxs_seq(&idxs_ds, &[]), Vec::<usize>::new());
}

#[test]
fn rank_of_nothing() {
    let (ranks, nnodes) = rank(&[], &[]);
    assert!(ranks.is_empty());
    assert_eq!(nnodes, 0);
}
