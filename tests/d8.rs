use pyflwdir::{
    d8_from_array, d8_isnodata, d8_ispit, d8_isvalid, d8_to_array, d8_upstream_idx, drdc,
    offset_to_d8, D8_E, D8_N, D8_NE, D8_NODATA, D8_NW, D8_PIT, D8_S, D8_SE, D8_SW, D8_W,
};

#[test]
fn test_drdc() {
    assert_eq!(drdc(D8_E), (0, 1));
    assert_eq!(drdc(D8_SE), (1, 1));
    assert_eq!(drdc(D8_S), (1, 0));
    assert_eq!(drdc(D8_SW), (1, -1));
    assert_eq!(drdc(D8_W), (0, -1));
    assert_eq!(drdc(D8_NW), (-1, -1));
    assert_eq!(drdc(D8_N), (-1, 0));
    assert_eq!(drdc(D8_NE), (-1, 1));
    assert_eq!(drdc(255), (0, 0)); // Invalid value
}

#[test]
fn test_d8_ispit() {
    assert!(d8_ispit(D8_PIT));
    assert!(!d8_ispit(D8_E));
    assert!(!d8_ispit(D8_NODATA));
}

#[test]
fn test_d8_isnodata() {
    assert!(d8_isnodata(D8_NODATA));
    assert!(!d8_isnodata(D8_PIT));
    assert!(!d8_isnodata(D8_E));
}

#[test]
fn test_d8_from_array() {
    let d8 = vec![D8_E, D8_S, D8_N, D8_PIT];
    let idxs_ds = d8_from_array(&d8, (2, 2));

    assert_eq!(idxs_ds[0], 1); // First cell flows east
    assert_eq!(idxs_ds[1], 3); // Second cell flows south
    assert_eq!(idxs_ds[2], 0); // Third cell flows north
    assert_eq!(idxs_ds[3], 3); // Fourth cell is pit (self-reference)
}

#[test]
fn test_d8_to_array() {
    let idxs_ds: Vec<usize> = vec![1, 3, 0, 3];
    let d8 = d8_to_array(&idxs_ds, (2, 2));

    assert_eq!(d8[0], D8_E);
    assert_eq!(d8[1], D8_S);
    assert_eq!(d8[2], D8_N);
    assert_eq!(d8[3], D8_PIT);
}

#[test]
fn test_d8_upstream_idx() {
    let upstream = d8_upstream_idx(4, (3, 3)); // Center cell in 3x3 grid
    assert_eq!(upstream.len(), 8); // Should have 8 neighbors
    assert!(upstream.contains(&0)); // Top-left
    assert!(upstream.contains(&1)); // Top
    assert!(upstream.contains(&2)); // Top-right
    assert!(upstream.contains(&3)); // Left
    assert!(upstream.contains(&5)); // Right
    assert!(upstream.contains(&6)); // Bottom-left
    assert!(upstream.contains(&7)); // Bottom
    assert!(upstream.contains(&8)); // Bottom-right
}

#[test]
fn upstream_idx_in_scan_order_at_a_corner() {
    // Cell 0 of a 3x3 grid: south, east and south-east neighbours only.
    assert_eq!(d8_upstream_idx(0, (3, 3)), vec![3, 1, 4]);
    // Cell 8, the opposite corner.
    assert_eq!(d8_upstream_idx(8, (3, 3)), vec![7, 4, 5]);
}

#[test]
fn invalid_codes_and_exits_become_self_loops() {
    // 2x2: N leaves the grid, 7 is no code, 255 is no-data, E stays inside.
    let d8 = vec![D8_N, 7, D8_NODATA, D8_E];
    let idxs_ds = d8_from_array(&d8, (2, 2));
    assert_eq!(idxs_ds, vec![0, 1, 2, 3]);
    let d8 = vec![D8_NODATA, D8_E];
    assert_eq!(d8_from_array(&d8, (1, 2)), vec![0, 1]);
}

#[test]
fn every_direction_from_the_centre() {
    let mut d8 = vec![D8_PIT; 9];
    let expected = [(D8_N, 1), (D8_NE, 2), (D8_E, 5), (D8_SE, 8), (D8_S, 7), (D8_SW, 6), (D8_W, 3), (D8_NW, 0)];
    for (code, target) in expected {
        d8[4] = code;
        let idxs_ds = d8_from_array(&d8, (3, 3));
        assert_eq!(idxs_ds[4], target);
        // every other cell is a pit
        assert_eq!(idxs_ds[0], 0);
        assert_eq!(d8_to_array(&idxs_ds, (3, 3))[4], code);
    }
}

#[test]
fn downstream_indices_stay_in_range() {
    let d8 = vec![D8_NW, D8_N, D8_NE, D8_W, 3, D8_E, D8_SW, D8_S, D8_SE];
    let idxs_ds = d8_from_array(&d8, (3, 3));
    for (i, &t) in idxs_ds.iter().enumerate() {
        assert!(t == i || t < idxs_ds.len());
    }
    // Every direction points out of the grid, the centre holds no code.
    assert_eq!(idxs_ds, vec![0, 1, 2, 3, 4, 5, 6, 7, 8]);
}

#[test]
fn round_trip_of_a_grid_with_one_pit() {
    let d8 = vec![
        D8_E, D8_SE, D8_S, D8_SW,
        D8_E, D8_E, D8_S, D8_W,
        D8_NE, D8_E, D8_PIT, D8_W,
        D8_N, D8_NE, D8_N, D8_NW,
    ];
    assert!(d8_isvalid(&d8));
    let idxs_ds = d8_from_array(&d8, (4, 4));
    assert_eq!(d8_to_array(&idxs_ds, (4, 4)), d8);
}

#[test]
fn to_array_marks_far_steps_as_nodata() {
    // Cell 0 points two columns away, cell 1 out of the range.
    let idxs_ds: Vec<usize> = vec![2, 9, 2];
    assert_eq!(d8_to_array(&idxs_ds, (1, 3)), vec![D8_NODATA, D8_NODATA, D8_PIT]);
}

#[test]
fn isvalid_rejects_nodata_and_other_bytes() {
    assert!(d8_isvalid(&[D8_PIT, D8_E, D8_NW]));
    assert!(!d8_isvalid(&[D8_PIT, D8_NODATA]));
    assert!(!d8_isvalid(&[3]));
    assert!(d8_isvalid(&[]));
}

#[test]
fn offsets_encode_to_codes() {
    assert_eq!(offset_to_d8(-1, 0), D8_N);
    assert_eq!(offset_to_d8(1, -1), D8_SW);
    assert_eq!(offset_to_d8(0, 0), D8_PIT);
    assert_eq!(offset_to_d8(2, 0), D8_NODATA);
    for code in [D8_N, D8_NE, D8_E, D8_SE, D8_S, D8_SW, D8_W, D8_NW, D8_PIT] {
        let (dr, dc) = drdc(code);
        assert_eq!(offset_to_d8(dr, dc), code);
    }
}
