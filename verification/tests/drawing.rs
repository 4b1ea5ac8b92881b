use lidar_ld19::render::{draw_circle, draw_hline, draw_vline, fill_dot, set_px, HEIGHT, WIDTH};

const BG: u32 = 0x000a0a0a;
const INK: u32 = 0x00ff3030;

fn frame() -> Vec<u32> {
    vec![BG; WIDTH * HEIGHT]
}

/// The offsets from `(cx, cy)` of the pixels of `buf` that hold `INK`.
fn inked(buf: &[u32], cx: isize, cy: isize) -> Vec<(isize, isize)> {
    let mut v = Vec::new();
    for (i, &c) in buf.iter().enumerate() {
        if c == INK {
            let x = (i % WIDTH) as isize;
            let y = (i / WIDTH) as isize;
            v.push((x - cx, y - cy));
        }
    }
    v.sort();
    v
}

#[test]
fn set_px_writes_one_pixel_in_row_major_order() {
    let mut buf = frame();
    set_px(&mut buf, 3, 2, INK);
    assert_eq!(buf[2 * WIDTH + 3], INK);
    assert_eq!(buf.iter().filter(|&&c| c == INK).count(), 1);
}

#[test]
fn set_px_ignores_pixels_off_the_frame() {
    let mut buf = frame();
    set_px(&mut buf, -1, 5, INK);
    set_px(&mut buf, 5, -1, INK);
    set_px(&mut buf, WIDTH as isize, 5, INK);
    set_px(&mut buf, 5, HEIGHT as isize, INK);
    assert!(buf.iter().all(|&c| c == BG));
}

#[test]
fn lines_fill_a_row_or_a_column() {
    let mut buf = frame();
    draw_hline(&mut buf, 400, INK);
    assert!((0..WIDTH).all(|x| buf[400 * WIDTH + x] == INK));
    assert_eq!(buf.iter().filter(|&&c| c == INK).count(), WIDTH);
    let mut buf = frame();
    draw_vline(&mut buf, 7, INK);
    assert!((0..HEIGHT).all(|y| buf[y * WIDTH + 7] == INK));
    assert_eq!(buf.iter().filter(|&&c| c == INK).count(), HEIGHT);
    let mut buf = frame();
    draw_hline(&mut buf, HEIGHT, INK);
    draw_vline(&mut buf, WIDTH, INK);
    assert!(buf.iter().all(|&c| c == BG));
}

#[test]
fn dot_of_radius_one_is_a_plus() {
    let mut buf = frame();
    fill_dot(&mut buf, 100, 100, 1, INK);
    assert_eq!(inked(&buf, 100, 100), vec![(-1, 0), (0, -1), (0, 0), (0, 1), (1, 0)]);
}

#[test]
fn dot_of_radius_two_has_thirteen_pixels() {
    let mut buf = frame();
    fill_dot(&mut buf, 100, 100, 2, INK);
    let px = inked(&buf, 100, 100);
    assert_eq!(px.len(), 13);
    assert!(px.iter().all(|&(dx, dy)| dx * dx + dy * dy <= 4));
}

#[test]
fn dot_is_clipped_at_the_corner_and_empty_for_negative_radius() {
    let mut buf = frame();
    fill_dot(&mut buf, 0, 0, 2, INK);
    assert_eq!(inked(&buf, 0, 0), vec![(0, 0), (0, 1), (0, 2), (1, 0), (1, 1), (2, 0)]);
    let mut buf = frame();
    fill_dot(&mut buf, 50, 50, -3, INK);
    assert!(buf.iter().all(|&c| c == BG));
}

#[test]
fn circle_of_radius_zero_is_its_centre() {
    let mut buf = frame();
    draw_circle(&mut buf, 10, 10, 0, INK);
    assert_eq!(inked(&buf, 10, 10), vec![(0, 0)]);
    let mut buf = frame();
    draw_circle(&mut buf, 10, 10, -4, INK);
    assert!(buf.iter().all(|&c| c == BG));
}

#[test]
fn circle_of_radius_one_and_two() {
    let mut buf = frame();
    draw_circle(&mut buf, 10, 10, 1, INK);
    assert_eq!(inked(&buf, 10, 10), vec![(-1, 0), (0, -1), (0, 1), (1, 0)]);
    let mut buf = frame();
    draw_circle(&mut buf, 10, 10, 2, INK);
    assert_eq!(
        inked(&buf, 10, 10),
        vec![
            (-2, -1), (-2, 0), (-2, 1), (-1, -2), (-1, 2), (0, -2), (0, 2),
            (1, -2), (1, 2), (2, -1), (2, 0), (2, 1)
        ]
    );
}

#[test]
fn circle_pixels_are_nearest_to_the_true_radius() {
    for r in [3isize, 5, 10, 37, 100] {
        let mut buf = frame();
        draw_circle(&mut buf, 400, 400, r, INK);
        let px = inked(&buf, 400, 400);
        assert!(!px.is_empty());
        for &(dx, dy) in &px {
            let (a, b) = if dx.abs() <= dy.abs() { (dx.abs(), dy.abs()) } else { (dy.abs(), dx.abs()) };
            let v = r * r - a * a;
            assert!(b * (b - 1) < v && v <= b * (b + 1), "r={} ({},{})", r, dx, dy);
        }
        // every column of the first octant is drawn
        for x in 0..=r {
            let y = (0..=r).find(|&y| y * (y - 1) < r * r - x * x && r * r - x * x <= y * (y + 1));
            if let Some(y) = y {
                if x <= y {
                    assert!(px.contains(&(x, y)));
                }
            }
        }
    }
}

#[test]
fn circle_is_clipped_to_the_frame() {
    let mut buf = frame();
    draw_circle(&mut buf, 0, 0, 5, INK);
    let px = inked(&buf, 0, 0);
    assert!(px.contains(&(5, 0)) && px.contains(&(0, 5)) && px.contains(&(3, 4)));
    assert!(px.iter().all(|&(dx, dy)| dx >= 0 && dy >= 0));
}
