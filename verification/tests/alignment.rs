use fft_convolve_2d::convolve::ImageFloat;

#[test]
fn image_float_accessors() {
    let buf: Vec<f32> = vec![0.25, 0.5, 0.75, 1.0, 0.0, 0.125];
    let img = ImageFloat::new(3, 2, &buf);
    assert_eq!(img.dimensions(), (3, 2));
    assert_eq!(img.buffer(), &buf[..]);
}

#[test]
fn centering_odd_into_odd() {
    let src: Vec<f32> = vec![1.0; 9];
    let img = ImageFloat::new(3, 3, &src);
    let res = img.extend_image_with(7, 7, 0.0);
    assert_eq!(res.len(), 49);
    for i in 0..7 {
        for j in 0..7 {
            let expected = if (2..=4).contains(&i) && (2..=4).contains(&j) { 1.0 } else { 0.0 };
            assert_eq!(res[i * 7 + j], expected, "cell ({i},{j})");
        }
    }
}

#[test]
fn centering_even_into_even() {
    let src: Vec<f32> = vec![1.0; 4];
    let img = ImageFloat::new(2, 2, &src);
    let res = img.extend_image_with(6, 6, 0.0);
    for i in 0..6 {
        for j in 0..6 {
            let expected = if (2..=3).contains(&i) && (2..=3).contains(&j) { 1.0 } else { 0.0 };
            assert_eq!(res[i * 6 + j], expected, "cell ({i},{j})");
        }
    }
}

#[test]
fn centering_even_into_odd() {
    let src: Vec<f32> = vec![1.0; 4];
    let img = ImageFloat::new(2, 2, &src);
    let res = img.extend_image_with(7, 7, 0.0);
    // offset 7/2 - 2/2 = 2: source covers rows and columns 2..=3
    for i in 0..7 {
        for j in 0..7 {
            let expected = if (2..=3).contains(&i) && (2..=3).contains(&j) { 1.0 } else { 0.0 };
            assert_eq!(res[i * 7 + j], expected, "cell ({i},{j})");
        }
    }
}

#[test]
fn centering_odd_into_even() {
    let src: Vec<f32> = vec![1.0; 9];
    let img = ImageFloat::new(3, 3, &src);
    let res = img.extend_image_with(6, 6, 0.0);
    // offset 6/2 - 3/2 = 2: source covers rows and columns 2..=4
    for i in 0..6 {
        for j in 0..6 {
            let expected = if (2..=4).contains(&i) && (2..=4).contains(&j) { 1.0 } else { 0.0 };
            assert_eq!(res[i * 6 + j], expected, "cell ({i},{j})");
        }
    }
}

#[test]
fn centering_fill_value() {
    let src: Vec<u32> = vec![7];
    let img = ImageFloat::new(1, 1, &src);
    let res = img.extend_image_with(3, 3, 9);
    assert_eq!(res, vec![9, 9, 9, 9, 7, 9, 9, 9, 9]);
}

#[test]
fn edge_clamp_2x2_into_4x4() {
    let src: Vec<f32> = vec![1.0, 2.0, 3.0, 4.0];
    let img = ImageFloat::new(2, 2, &src);
    let res = img.extend_image_repeat(4, 4);
    let expected: Vec<f32> = vec![
        1.0, 1.0, 2.0, 2.0, //
        1.0, 1.0, 2.0, 2.0, //
        3.0, 3.0, 4.0, 4.0, //
        3.0, 3.0, 4.0, 4.0,
    ];
    assert_eq!(res, expected);
}

#[test]
fn edge_clamp_keeps_interior() {
    let src: Vec<i64> = vec![1, 2, 3, 4, 5, 6, 7, 8, 9];
    let img = ImageFloat::new(3, 3, &src);
    let res = img.extend_image_repeat(5, 5);
    // offset 5/2 - 3/2 = 1: the source sits at rows and columns 1..=3
    for i in 0..3 {
        for j in 0..3 {
            assert_eq!(res[(i + 1) * 5 + (j + 1)], src[i * 3 + j]);
        }
    }
    // corners repeat the nearest source corner
    assert_eq!(res[0], 1);
    assert_eq!(res[4], 3);
    assert_eq!(res[20], 7);
    assert_eq!(res[24], 9);
}
