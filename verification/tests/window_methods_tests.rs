use std::collections::hash_map::DefaultHasher;
use std::hash::{Hash, Hasher};

use py_lens::grid::Grid3;
use py_lens::window::window_methods::{window_sum_saturating, NumConv};
use py_lens::window::{apply_over_window, WindowShape};

fn not_a_hash((a, b, c): (usize, usize, usize)) -> u8 {
    ((476579u64 % (a * b * c + 1) as u64) % 256) as u8
}

fn generate_grid3() -> Grid3<u8> {
    let mut data: Vec<u8> = Vec::new();
    for a in 0..8usize {
        for b in 0..8usize {
            for c in 0..1usize {
                data.push(not_a_hash((a, b, c)));
            }
        }
    }
    Grid3::new(8, 8, 1, data).unwrap()
}

fn stdev_ddof_0(w: Grid3<u8>) -> u8 {
    let (d0, d1, d2) = w.dims();
    let a = ndarray::Array3::from_shape_fn((d0, d1, d2), |(i, j, k)| w.get(i, j, k) as f64);
    a.std(0f64) as u8
}

fn stdev_ddof_1(w: Grid3<u8>) -> u8 {
    let (d0, d1, d2) = w.dims();
    let a = ndarray::Array3::from_shape_fn((d0, d1, d2), |(i, j, k)| w.get(i, j, k) as f64);
    a.std(1f64) as u8
}

fn faster_rms_u64_adding(w: Grid3<u8>) -> u8 {
    let len_inv = (w.data().len() as f64).recip();
    let mean: f64 = window_sum_saturating(&w) as f64 * len_inv;
    let flt: f64 = w
        .data()
        .iter()
        .fold(0f64, |a: f64, x: &u8| a + ((*x as f64) - mean).abs().powi(2));
    ((flt * len_inv).sqrt() * 2.0) as u8
}

#[test]
fn test_stdev_ddof_1() {
    let a = generate_grid3();
    let out = apply_over_window(&a, WindowShape::Triple(8, 8, 1), stdev_ddof_1).unwrap();
    let b = out.get(0, 0, 0);

    let mut hasher = DefaultHasher::new();
    b.hash(&mut hasher);
    assert_eq!(7541581120933061747, hasher.finish());
}

#[test]
fn test_stdev_ddof_0() {
    let a = generate_grid3();
    let out = apply_over_window(&a, WindowShape::Triple(8, 8, 1), stdev_ddof_0).unwrap();
    let b = out.get(0, 0, 0);

    let mut hasher = DefaultHasher::new();
    b.hash(&mut hasher);
    assert_eq!(7541581120933061747, hasher.finish());
}

#[test]
fn test_faster_rms_u64_adding() {
    let a = generate_grid3();
    let out = apply_over_window(&a, WindowShape::Triple(8, 8, 1), faster_rms_u64_adding).unwrap();
    let b = out.get(0, 0, 0);

    let mut hasher = DefaultHasher::new();
    b.hash(&mut hasher);
    assert_eq!(7541581120933061747, hasher.finish());
}

#[test]
fn sample_stdev_single_cell_sentinel() {
    // A one-cell window divides by zero degrees of freedom: the float result
    // is not finite, and truncating casts turn it into zero.  The sentinel
    // is pinned here so that consumers can rely on it.
    let g: Grid3<u8> = Grid3::new(2, 2, 1, vec![9, 17, 33, 65]).unwrap();
    let out = apply_over_window(&g, WindowShape::Triple(1, 1, 1), stdev_ddof_1).unwrap();
    for i in 0..2 {
        for j in 0..2 {
            assert_eq!(out.get(i, j, 0), 0);
        }
    }
}

#[test]
fn window_sum_saturating_exact() {
    let g: Grid3<u16> = Grid3::new(2, 2, 1, vec![1u16, 2, 3, 4]).unwrap();
    assert_eq!(window_sum_saturating(&g), 10);
}

#[test]
fn window_sum_saturating_clamps() {
    let g: Grid3<u64> = Grid3::new(3, 1, 1, vec![u64::MAX, 5, 7]).unwrap();
    assert_eq!(window_sum_saturating(&g), u64::MAX);
}

#[test]
fn as_u64_is_lossless_per_width() {
    assert_eq!(250u8.as_u64(), 250);
    assert_eq!(65_000u16.as_u64(), 65_000);
    assert_eq!(4_000_000_000u32.as_u64(), 4_000_000_000);
    assert_eq!(u64::MAX.as_u64(), u64::MAX);
}
