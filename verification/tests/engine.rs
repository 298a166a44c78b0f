use py_lens::grid::Grid3;
use py_lens::window::{
    apply_over_window, partitioned_apply_over_window, WindowError, WindowShape,
};

fn grid_from_fn<T, F: Fn(usize, usize, usize) -> T>(
    d0: usize,
    d1: usize,
    d2: usize,
    f: F,
) -> Grid3<T> {
    let mut data: Vec<T> = Vec::new();
    for a in 0..d0 {
        for b in 0..d1 {
            for c in 0..d2 {
                data.push(f(a, b, c));
            }
        }
    }
    Grid3::new(d0, d1, d2, data).unwrap()
}

fn pop_stdev(w: Grid3<u8>) -> u8 {
    let n = w.data().len() as f64;
    let mean: f64 = w.data().iter().map(|x| *x as f64).sum::<f64>() / n;
    let ssd: f64 = w.data().iter().map(|x| (*x as f64 - mean).powi(2)).sum::<f64>();
    (ssd / n).sqrt() as u8
}

#[test]
fn shape_law_all_variants() {
    let arr: Grid3<u8> = grid_from_fn(10, 9, 4, |a, b, c| (a + b + c) as u8);
    let r = WindowShape::Single(3).array_size(&arr).unwrap();
    assert_eq!(r.0, (8, 7, 4));
    assert_eq!(r.1, (3, 3, 1));

    let r = WindowShape::Double(2, 5).array_size(&arr).unwrap();
    assert_eq!(r.0, (9, 5, 4));
    assert_eq!(r.1, (2, 5, 1));

    let r = WindowShape::Triple(2, 3, 4).array_size(&arr).unwrap();
    assert_eq!(r.0, (9, 7, 1));
    assert_eq!(r.1, (2, 3, 4));
}

#[test]
fn shape_mismatch_names_first_bad_axis() {
    let arr: Grid3<u8> = grid_from_fn(10, 9, 4, |a, b, c| (a + b + c) as u8);
    assert_eq!(
        WindowShape::Single(11).array_size(&arr),
        Err(WindowError::ShapeMismatch { dim: 0 })
    );
    assert_eq!(
        WindowShape::Double(2, 10).array_size(&arr),
        Err(WindowError::ShapeMismatch { dim: 1 })
    );
    assert_eq!(
        WindowShape::Triple(1, 1, 5).array_size(&arr),
        Err(WindowError::ShapeMismatch { dim: 2 })
    );
    assert_eq!(
        WindowShape::Single(0).array_size(&arr),
        Err(WindowError::ShapeMismatch { dim: 0 })
    );
}

#[test]
fn minimal_window_keeps_shape_and_zeroes_stdev() {
    let arr: Grid3<u8> = grid_from_fn(4, 3, 2, |a, b, c| (7 * a + 3 * b + c) as u8);
    let out = apply_over_window(&arr, WindowShape::Triple(1, 1, 1), pop_stdev).unwrap();
    assert_eq!(out.dims(), (4, 3, 2));
    for i in 0..4 {
        for j in 0..3 {
            for k in 0..2 {
                assert_eq!(out.get(i, j, k), 0);
            }
        }
    }
    let out = apply_over_window(&arr, WindowShape::Single(1), pop_stdev).unwrap();
    assert_eq!(out.dims(), (4, 3, 2));
}

#[test]
fn partition_plan_concrete() {
    // Output extent along axis 0 is 12 - 3 + 1 = 10 rows, split over three
    // workers at round(10c/3): 0, 3, 7, 10; read ranges extend by two rows.
    let arr: Grid3<u8> = grid_from_fn(12, 3, 1, |a, b, c| (a + b + c) as u8);
    let plan = WindowShape::Single(3).create_v_splits(&arr, 3).unwrap();
    assert_eq!(plan, vec![(0, 5), (3, 9), (7, 12)]);
}

#[test]
fn partition_plan_covers_all_rows() {
    let arr: Grid3<u8> = grid_from_fn(37, 4, 2, |a, b, c| (a * b + c) as u8);
    let plan = WindowShape::Double(4, 2).create_v_splits(&arr, 7).unwrap();
    assert_eq!(plan.len(), 7);
    assert_eq!(plan[0].0, 0);
    for c in 0..plan.len() - 1 {
        // Contiguity: the next block starts where this block's output ends.
        assert_eq!(plan[c + 1].0, plan[c].1 - 3);
        assert!(plan[c].0 < plan[c].1 - 3, "empty block");
    }
    assert_eq!(plan[plan.len() - 1].1, 37);
}

#[test]
fn concrete_scenario_single3_pop_stdev() {
    // v[a][b][0] = (a + b) mod 256; every 3-by-3 window holds the same value
    // pattern, whose population standard deviation is sqrt(4/3) = 1.15...,
    // which truncates to 1.
    let arr: Grid3<u8> = grid_from_fn(8, 8, 1, |a, b, _| ((a + b) % 256) as u8);
    let out = apply_over_window(&arr, WindowShape::Single(3), pop_stdev).unwrap();
    assert_eq!(out.dims(), (6, 6, 1));
    for i in 0..6 {
        for j in 0..6 {
            assert_eq!(out.get(i, j, 0), 1);
        }
    }
}

#[test]
fn concrete_scenario_insufficient_partitions() {
    // Output extent along axis 0 is 8 - 6 + 1 = 3, so ten workers cannot all
    // receive a row.
    let arr: Grid3<u8> = grid_from_fn(8, 8, 3, |a, b, c| (a + b + c) as u8);
    let r = partitioned_apply_over_window(&arr, WindowShape::Single(6), pop_stdev, 10);
    assert_eq!(r.unwrap_err(), WindowError::InsufficientPartitionRange);
    let r = WindowShape::Single(6).create_v_splits(&arr, 10);
    assert_eq!(r.unwrap_err(), WindowError::InsufficientPartitionRange);
}

#[test]
fn serial_equals_partitioned() {
    let arr: Grid3<u8> = grid_from_fn(20, 6, 2, |a, b, c| ((a * 31 + b * 7 + c) % 256) as u8);
    let serial = apply_over_window(&arr, WindowShape::Triple(3, 2, 2), pop_stdev).unwrap();
    for workers in 1..=17 {
        let parallel =
            partitioned_apply_over_window(&arr, WindowShape::Triple(3, 2, 2), pop_stdev, workers)
                .unwrap();
        assert_eq!(serial, parallel, "workers = {}", workers);
    }
}

#[test]
fn reducer_determinism_on_equal_inputs() {
    let arr: Grid3<u8> = grid_from_fn(9, 5, 3, |a, b, c| ((a ^ b ^ c) % 256) as u8);
    let out1 = apply_over_window(&arr, WindowShape::Double(2, 3), pop_stdev).unwrap();
    let out2 = apply_over_window(&arr, WindowShape::Double(2, 3), pop_stdev).unwrap();
    assert_eq!(out1, out2);
}

#[test]
fn window_size_counts_cells() {
    assert_eq!(WindowShape::Single(3).window_size(), 9);
    assert_eq!(WindowShape::Double(2, 5).window_size(), 10);
    assert_eq!(WindowShape::Triple(2, 3, 4).window_size(), 24);
}

#[test]
fn subgrid_and_slice_rows_read_expected_cells() {
    let arr: Grid3<u8> = grid_from_fn(5, 4, 3, |a, b, c| (a * 16 + b * 4 + c) as u8);
    let sub = arr.subgrid(1, 2, 0, 2, 2, 3);
    assert_eq!(sub.dims(), (2, 2, 3));
    assert_eq!(sub.get(0, 0, 0), arr.get(1, 2, 0));
    assert_eq!(sub.get(1, 1, 2), arr.get(2, 3, 2));
    let sl = arr.slice_rows(2, 4);
    assert_eq!(sl.dims(), (2, 4, 3));
    assert_eq!(sl.get(1, 3, 2), arr.get(3, 3, 2));
    assert_eq!(sl.get(0, 0, 0), arr.get(2, 0, 0));
}

#[test]
fn describe_window_shapes() {
    assert_eq!(WindowShape::Single(3).describe(), "(3)");
    assert_eq!(WindowShape::Double(12, 5).describe(), "(12, 5)");
    assert_eq!(WindowShape::Triple(1, 20, 304).describe(), "(1, 20, 304)");
}

#[test]
fn grid_new_rejects_wrong_length() {
    assert!(Grid3::<u8>::new(2, 2, 2, vec![0; 7]).is_none());
    assert!(Grid3::<u8>::new(2, 2, 2, vec![0; 8]).is_some());
    assert!(Grid3::<u8>::new(0, 5, 5, vec![]).is_some());
}
