use fft_convolve_2d::transform::fft_shift;
use fft_convolve_2d::transform::transpose;

#[test]
fn shift_even_swaps_halves() {
    let mut data: Vec<i32> = vec![0, 1, 2, 3];
    fft_shift(&mut data);
    assert_eq!(data, vec![2, 3, 0, 1]);
}

#[test]
fn shift_odd_rotates_past_middle() {
    let mut data: Vec<i32> = vec![0, 1, 2, 3, 4];
    fft_shift(&mut data);
    assert_eq!(data, vec![3, 4, 0, 1, 2]);
}

#[test]
fn shift_short_rows() {
    let mut one: Vec<i32> = vec![5];
    fft_shift(&mut one);
    assert_eq!(one, vec![5]);

    let mut two: Vec<i32> = vec![5, 6];
    fft_shift(&mut two);
    assert_eq!(two, vec![6, 5]);

    let mut empty: Vec<i32> = vec![];
    fft_shift(&mut empty);
    assert!(empty.is_empty());
}

#[test]
fn shift_twice_even_is_identity() {
    let orig: Vec<i32> = vec![10, 20, 30, 40, 50, 60];
    let mut data = orig.clone();
    fft_shift(&mut data);
    fft_shift(&mut data);
    assert_eq!(data, orig);
}

#[test]
fn shift_twice_odd_rotates_by_one() {
    let mut data: Vec<i32> = vec![0, 1, 2, 3, 4];
    fft_shift(&mut data);
    fft_shift(&mut data);
    assert_eq!(data, vec![1, 2, 3, 4, 0]);
}

#[test]
fn transpose_rectangular() {
    // 3 wide, 2 tall, row major
    let m: Vec<i32> = vec![
        1, 2, 3, //
        4, 5, 6,
    ];
    let t = transpose(3, 2, &m);
    // 2 wide, 3 tall
    assert_eq!(t, vec![1, 4, 2, 5, 3, 6]);
}

#[test]
fn transpose_twice_is_identity() {
    let m: Vec<i32> = (0..12).collect();
    let t = transpose(4, 3, &m);
    let back = transpose(3, 4, &t);
    assert_eq!(back, m);
}
