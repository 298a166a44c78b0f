use py_lens::array_reshape::{image_to_line, line_to_image};
use py_lens::grid::Grid3;

fn odd_func(a: usize, b: usize, c: usize) -> u8 {
    let us_u8_max: usize = u8::MAX as usize;
    let a = a.rem_euclid(us_u8_max) as u8;
    let b = b.rem_euclid(us_u8_max) as u8;
    let c = c as u8;
    a ^ b ^ c
}

fn grid_from_fn<T, F: Fn(usize, usize, usize) -> T>(
    d0: usize,
    d1: usize,
    d2: usize,
    f: F,
) -> Grid3<T> {
    let mut data: Vec<T> = Vec::new();
    for a in 0..d0 {
        for b in 0..d1 {
            for c in 0..d2 {
                data.push(f(a, b, c));
            }
        }
    }
    Grid3::new(d0, d1, d2, data).unwrap()
}

#[test]
fn image_to_line_to_image_square() {
    let (sh1, sh2, sh3) = (50usize, 50usize, 3usize);
    let arr: Grid3<u8> = grid_from_fn(sh1, sh2, sh3, odd_func);
    let line = image_to_line(&arr);
    let arr2 = line_to_image(&line, sh1, sh2);
    assert!(arr.eq(&arr2))
}

#[test]
fn image_to_line_to_image_rectangle() {
    let (sh1, sh2, sh3) = (50usize, 80usize, 3usize);
    let arr: Grid3<u8> = grid_from_fn(sh1, sh2, sh3, odd_func);
    let line = image_to_line(&arr);
    let arr2 = line_to_image(&line, sh1, sh2);
    assert!(arr.eq(&arr2))
}

#[test]
fn line_rows_cover_square_side() {
    let arr: Grid3<u8> = grid_from_fn(5, 9, 2, odd_func);
    let line = image_to_line(&arr);
    let (rows, cols) = line.dims();
    // Smallest covering power of two is 16, so the line has 256 rows.
    assert_eq!(rows, 256);
    assert_eq!(cols, 2);
}
