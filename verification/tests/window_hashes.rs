use std::collections::hash_map::DefaultHasher;
use std::hash::{Hash, Hasher};

use py_lens::grid::Grid3;
use py_lens::window::window_methods::{window_sum_saturating, NumConv};
use py_lens::window::{partitioned_apply_over_window, WindowShape};

const WORKERS: usize = 12;

trait FromF64 {
    fn from_f64(f: f64) -> Self;
}

impl FromF64 for u8 {
    fn from_f64(f: f64) -> Self {
        f as u8
    }
}

impl FromF64 for u16 {
    fn from_f64(f: f64) -> Self {
        f as u16
    }
}

impl FromF64 for u32 {
    fn from_f64(f: f64) -> Self {
        f as u32
    }
}

fn grid_from_fn<T, F: Fn(usize, usize, usize) -> T>(
    d0: usize,
    d1: usize,
    d2: usize,
    f: F,
) -> Grid3<T> {
    let mut data: Vec<T> = Vec::with_capacity(d0 * d1 * d2);
    for a in 0..d0 {
        for b in 0..d1 {
            for c in 0..d2 {
                data.push(f(a, b, c));
            }
        }
    }
    Grid3::new(d0, d1, d2, data).unwrap()
}

fn generate_tst_grid3u8() -> Grid3<u8> {
    grid_from_fn(500, 500, 3, |a, b, c| (a ^ b ^ c) as u8)
}

fn generate_tst_grid3u16() -> Grid3<u16> {
    grid_from_fn(500, 500, 3, |a, b, c| (a ^ b ^ c) as u16)
}

fn generate_tst_grid3u32() -> Grid3<u32> {
    grid_from_fn(500, 500, 3, |a, b, c| (a ^ b ^ c) as u32)
}

fn stdev_ddof_0<T: NumConv + FromF64 + Copy>(w: Grid3<T>) -> T {
    let (d0, d1, d2) = w.dims();
    let a =
        ndarray::Array3::from_shape_fn((d0, d1, d2), |(i, j, k)| w.get(i, j, k).as_u64() as f64);
    T::from_f64(a.std(0f64))
}

fn stdev_ddof_1<T: NumConv + FromF64 + Copy>(w: Grid3<T>) -> T {
    let (d0, d1, d2) = w.dims();
    let a =
        ndarray::Array3::from_shape_fn((d0, d1, d2), |(i, j, k)| w.get(i, j, k).as_u64() as f64);
    T::from_f64(a.std(1f64))
}

fn faster_rms_u64_adding<T: NumConv + FromF64 + Copy>(w: Grid3<T>) -> T {
    let len_inv = (w.data().len() as f64).recip();
    let mean: f64 = window_sum_saturating(&w) as f64 * len_inv;
    let flt: f64 = w
        .data()
        .iter()
        .fold(0f64, |a: f64, x: &T| a + ((x.as_u64() as f64) - mean).abs().powi(2));
    T::from_f64((flt * len_inv).sqrt() * 2.0)
}

fn hash_of<T: Copy + Hash>(out: &Grid3<T>) -> u64 {
    let (d0, d1, d2) = out.dims();
    let arr = ndarray::Array3::from_shape_fn((d0, d1, d2), |(i, j, k)| out.get(i, j, k));
    let mut hasher = DefaultHasher::new();
    arr.hash(&mut hasher);
    hasher.finish()
}

#[test]
fn u8_test_with_std_array_rms_u64() {
    let test_array = generate_tst_grid3u8();
    let win_shape = WindowShape::Triple(5, 5, 1);
    let out =
        partitioned_apply_over_window(&test_array, win_shape, faster_rms_u64_adding, WORKERS)
            .unwrap();
    assert_eq!(13253406290038557312, hash_of(&out));
}

#[test]
fn u8_test_with_std_array_stdev_ddof_1() {
    let test_array = generate_tst_grid3u8();
    let win_shape = WindowShape::Triple(5, 5, 1);
    let out =
        partitioned_apply_over_window(&test_array, win_shape, stdev_ddof_1, WORKERS).unwrap();
    assert_eq!(1348078754090702269, hash_of(&out));
}

#[test]
fn u8_test_with_std_array_stdev_ddof_0() {
    let test_array = generate_tst_grid3u8();
    let win_shape = WindowShape::Triple(5, 5, 1);
    let out =
        partitioned_apply_over_window(&test_array, win_shape, stdev_ddof_0, WORKERS).unwrap();
    assert_eq!(16665323007214972568, hash_of(&out));
}

#[test]
fn u16_test_with_std_array_rms_u64() {
    let test_array = generate_tst_grid3u16();
    let win_shape = WindowShape::Triple(5, 5, 1);
    let out =
        partitioned_apply_over_window(&test_array, win_shape, faster_rms_u64_adding, WORKERS)
            .unwrap();
    assert_eq!(8798330982248845663, hash_of(&out));
}

#[test]
fn u16_test_with_std_array_stdev_ddof_1() {
    let test_array = generate_tst_grid3u16();
    let win_shape = WindowShape::Triple(5, 5, 1);
    let out =
        partitioned_apply_over_window(&test_array, win_shape, stdev_ddof_1, WORKERS).unwrap();
    assert_eq!(11549407550617260967, hash_of(&out));
}

#[test]
fn u16_test_with_std_array_stdev_ddof_0() {
    let test_array = generate_tst_grid3u16();
    let win_shape = WindowShape::Triple(5, 5, 1);
    let out =
        partitioned_apply_over_window(&test_array, win_shape, stdev_ddof_0, WORKERS).unwrap();
    assert_eq!(8077758819790012028, hash_of(&out));
}

#[test]
fn u32_test_with_std_array_rms_u64() {
    let test_array = generate_tst_grid3u32();
    let win_shape = WindowShape::Triple(5, 5, 1);
    let out =
        partitioned_apply_over_window(&test_array, win_shape, faster_rms_u64_adding, WORKERS)
            .unwrap();
    assert_eq!(12289755379548528329, hash_of(&out));
}

#[test]
fn u32_test_with_std_array_stdev_ddof_1() {
    let test_array = generate_tst_grid3u32();
    let win_shape = WindowShape::Triple(5, 5, 1);
    let out =
        partitioned_apply_over_window(&test_array, win_shape, stdev_ddof_1, WORKERS).unwrap();
    assert_eq!(7961783534460445393, hash_of(&out));
}

#[test]
fn u32_test_with_std_array_stdev_ddof_0() {
    let test_array = generate_tst_grid3u32();
    let win_shape = WindowShape::Triple(5, 5, 1);
    let out =
        partitioned_apply_over_window(&test_array, win_shape, stdev_ddof_0, WORKERS).unwrap();
    assert_eq!(5942265300642722970, hash_of(&out));
}
