use fractals::escape::{escape_time, sample};
use fractals::MAX_ITERATIONS;
use num_complex::Complex;

fn step(z: Complex<f64>, c: Complex<f64>) -> Complex<f64> {
    z.powu(2) + c
}

fn escaped(z: Complex<f64>) -> bool {
    z.norm() > 2.0
}

fn default_view_point(size: u32) -> impl Fn(u32, u32) -> Complex<f64> {
    move |px: u32, py: u32| Complex {
        re: -1.5 + 3.0 * (px as f64 / size as f64),
        im: -1.5 + 3.0 * (py as f64 / size as f64),
    }
}

#[test]
fn grid_has_one_value_per_pixel_within_cap() {
    let grid = sample(7, 5, &default_view_point(7), None, &step, &escaped);
    assert_eq!(grid.len(), 35);
    assert!(grid.iter().all(|v| *v <= MAX_ITERATIONS));
}

#[test]
fn empty_canvas_gives_empty_grid() {
    let grid = sample(0, 4, &default_view_point(4), None, &step, &escaped);
    assert!(grid.is_empty());
}

#[test]
fn centre_of_default_view_reaches_cap() {
    let size: u32 = 100;
    let grid = sample(size, size, &default_view_point(size), None, &step, &escaped);
    assert_eq!(grid[(50 * size + 50) as usize], 200);
}

#[test]
fn far_point_escapes_at_once() {
    let z0 = Complex { re: 3.0, im: 3.0 };
    assert_eq!(escape_time(z0, z0, &step, &escaped), 0);
}

#[test]
fn corner_of_default_view_escapes_at_once() {
    let grid = sample(4, 4, &default_view_point(4), None, &step, &escaped);
    // (-1.5, -1.5) has modulus above 2.
    assert_eq!(grid[0], 0);
}

#[test]
fn escape_time_counts_steps_before_escape() {
    let count_up = |z: u64, c: u64| z + c;
    let past_five = |z: u64| z > 5;
    assert_eq!(escape_time(1, 1, &count_up, &past_five), 5);
    assert_eq!(escape_time(6, 1, &count_up, &past_five), 0);
    assert_eq!(escape_time(0, 0, &count_up, &past_five), MAX_ITERATIONS);
}

#[test]
fn grid_is_row_major() {
    let point = |px: u32, py: u32| (px as u64) + 10 * (py as u64);
    let add = |z: u64, c: u64| z + c;
    let big = |z: u64| z >= 1;
    // With the constant zero nothing moves, so a pixel escapes at once exactly
    // when its point is not zero.
    let grid = sample(3, 2, &point, Some(0u64), &add, &big);
    assert_eq!(grid, vec![MAX_ITERATIONS, 0, 0, 0, 0, 0]);
}

#[test]
fn julia_mode_uses_fixed_constant() {
    let size: u32 = 4;
    let point = default_view_point(size);
    let zero = Complex { re: 0.0, im: 0.0 };
    let julia = sample(size, size, &point, Some(zero), &step, &escaped);
    let mandelbrot = sample(size, size, &point, None, &step, &escaped);
    // Under z -> z^2 a point stays bounded exactly when |z| <= 1.
    // Pixel (2, 2) is 0 and pixel (3, 2) is 0.75: both stay.
    assert_eq!(julia[2 * 4 + 2], MAX_ITERATIONS);
    assert_eq!(julia[2 * 4 + 3], MAX_ITERATIONS);
    // Pixel (3, 3) is 0.75 + 0.75i, of modulus above 1: it escapes.
    assert!(julia[3 * 4 + 3] < MAX_ITERATIONS);
    // In Mandelbrot mode pixel (2, 2) is the constant 0, which stays, and
    // pixel (3, 2) is the constant 0.75, which escapes.
    assert_eq!(mandelbrot[2 * 4 + 2], MAX_ITERATIONS);
    assert!(mandelbrot[2 * 4 + 3] < MAX_ITERATIONS);
}
