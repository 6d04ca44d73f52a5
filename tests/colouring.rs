use fractals::palette::{colorize, escaped_count, histogram, hue_stops, palette};
use fractals::render::render;
use fractals::MAX_ITERATIONS;

#[test]
fn histogram_counts_escape_times_below_cap() {
    let grid = vec![3, 1, 3, 200, 0, 3];
    let h = histogram(&grid);
    assert_eq!(h.len(), 200);
    assert_eq!(h[0], 1);
    assert_eq!(h[1], 1);
    assert_eq!(h[2], 0);
    assert_eq!(h[3], 3);
    assert_eq!(h.iter().sum::<usize>(), 5);
}

#[test]
fn escaped_count_leaves_out_in_set_pixels() {
    assert_eq!(escaped_count(&vec![3, 1, 200, 200, 199]), 3);
    assert_eq!(escaped_count(&vec![200, 200]), 0);
    assert_eq!(escaped_count(&vec![]), 0);
}

#[test]
fn hue_stops_are_ascending_with_cumulative_counts() {
    let grid = vec![3, 1, 3, 200, 0, 199];
    assert_eq!(hue_stops(&grid), vec![(0, 1), (1, 2), (3, 4), (199, 5)]);
}

#[test]
fn all_in_set_grid_has_no_stops() {
    let grid = vec![MAX_ITERATIONS; 9];
    assert!(hue_stops(&grid).is_empty());
    assert_eq!(escaped_count(&grid), 0);
}

#[test]
fn palette_places_colours_at_stop_keys() {
    let stops = vec![(1u32, 2usize), (7, 5)];
    let colors = vec![(10u8, 20u8, 30u8), (40, 50, 60)];
    let p = palette(&stops, &colors);
    assert_eq!(p.len(), 200);
    assert_eq!(p[1], (10, 20, 30));
    assert_eq!(p[7], (40, 50, 60));
    assert_eq!(p[0], (0, 0, 0));
    assert_eq!(p[199], (0, 0, 0));
}

#[test]
fn all_in_set_grid_is_black() {
    let grid = vec![MAX_ITERATIONS; 6];
    let p = vec![(9u8, 9u8, 9u8); 200];
    let image = colorize(&grid, &p);
    assert_eq!(image.len(), 24);
    for px in image.chunks(4) {
        assert_eq!(px, &[0, 0, 0, 255]);
    }
}

#[test]
fn colorize_looks_up_each_pixel() {
    let mut p = vec![(0u8, 0u8, 0u8); 200];
    p[4] = (1, 2, 3);
    p[0] = (7, 8, 9);
    let image = colorize(&vec![4, 200, 0], &p);
    assert_eq!(image, vec![1, 2, 3, 255, 0, 0, 0, 255, 7, 8, 9, 255]);
}

#[test]
fn colorize_is_deterministic() {
    let grid = vec![5, 9, 200, 5, 0, 0, 17];
    let stops = hue_stops(&grid);
    let colors: Vec<(u8, u8, u8)> = stops.iter().map(|s| (s.0 as u8, s.1 as u8, 1)).collect();
    let first = colorize(&grid, &palette(&stops, &colors));
    let again = colorize(&grid.clone(), &palette(&hue_stops(&grid.clone()), &colors));
    assert_eq!(first, again);
}

#[test]
fn render_colours_stops_by_share_of_escaped_pixels() {
    // Points are integers: pixel (px, py) is px + 2 * py; a step adds one and
    // a point escapes above 3, so the escape time of point z is 4 - z, capped.
    let point = |px: u32, py: u32| (px + 2 * py) as u64;
    let step = |z: u64, _c: u64| z + 1;
    let escaped = |z: u64| z > 3;
    let hue_color = |count: usize, total: usize| {
        assert!(0 < count && count <= total);
        (count as u8, total as u8, 0)
    };
    let image = render(2, &point, None, &step, &escaped, &hue_color);
    // Points 0, 1, 2, 3 escape after 4, 3, 2, 1 steps.
    assert_eq!(
        image,
        vec![4, 4, 0, 255, 3, 4, 0, 255, 2, 4, 0, 255, 1, 4, 0, 255]
    );
}

#[test]
fn render_of_in_set_canvas_is_black_without_hues() {
    let point = |_px: u32, _py: u32| 0u64;
    let step = |z: u64, c: u64| z + c;
    let escaped = |z: u64| z > 3;
    let hue_color = |_count: usize, _total: usize| -> (u8, u8, u8) { panic!("no hue is needed") };
    let image = render(3, &point, None, &step, &escaped, &hue_color);
    assert_eq!(image.len(), 36);
    for px in image.chunks(4) {
        assert_eq!(px, &[0, 0, 0, 255]);
    }
}
