use fft_convolve_2d::kernel::generate_radial_grid;

#[test]
fn radial_grid_size_one() {
    assert_eq!(generate_radial_grid(1), vec![0]);
}

#[test]
fn radial_grid_size_two() {
    // every cell center is half a cell away from the middle in both axes
    assert_eq!(generate_radial_grid(2), vec![2, 2, 2, 2]);
}

#[test]
fn radial_grid_size_three() {
    let grid = generate_radial_grid(3);
    let expected: Vec<u64> = vec![
        8, 4, 8, //
        4, 0, 4, //
        8, 4, 8,
    ];
    assert_eq!(grid, expected);
}

#[test]
fn radial_grid_is_symmetric() {
    let size = 6;
    let grid = generate_radial_grid(size);
    assert_eq!(grid.len(), size * size);
    for y in 0..size {
        for x in 0..size {
            let q = grid[y * size + x];
            assert_eq!(q, grid[x * size + y], "transpose symmetry at ({x},{y})");
            assert_eq!(q, grid[y * size + (size - 1 - x)], "mirror symmetry at ({x},{y})");
            assert_eq!(q, grid[(size - 1 - y) * size + x], "flip symmetry at ({x},{y})");
        }
    }
}

#[test]
fn gaussian_weights_from_grid_normalize_to_one() {
    // evaluate a Gaussian on the quadrupled squared distances, as the
    // pipeline does, and normalize
    let size = 5;
    let sigma = 1.0f32;
    let grid = generate_radial_grid(size);
    let mut weights: Vec<f32> = grid
        .iter()
        .map(|&q| (-(q as f32 / 4.0) / (2.0 * sigma * sigma)).exp())
        .collect();
    let sum: f32 = weights.iter().sum();
    assert!(sum >= f32::EPSILON);
    for w in weights.iter_mut() {
        *w /= sum;
    }
    let total: f32 = weights.iter().sum();
    assert!((total - 1.0).abs() < 1e-5);
    // the center cell carries the largest weight
    let center = weights[(size / 2) * size + size / 2];
    assert!(weights.iter().all(|&w| w <= center));
}
