use rasterizer::draw::DisplayBuffer;
use rasterizer::geom::{Pixel, Triangle};
use rasterizer::raster::get_triangle_pixels;
use rasterizer::shade::get_brightness;

fn px(x: i32, y: i32) -> Pixel {
    Pixel { x, y }
}

// A triangle covering the lower-left half of a 10x10 grid, pixel (5,5)
// included.
fn half_grid_triangle(depth: i64, angle: u32) -> Triangle {
    Triangle::new(px(0, 0), px(10, 0), px(0, 10), depth, angle)
}

#[test]
fn nearer_depth_wins_either_draw_order() {
    // Depth 1 is nearer than depth 5; the nearer triangle is the brighter one
    // (angle of a straight angle gives 255, three quarters gives 128).
    let near = half_grid_triangle(1, 1_000_000);
    let far = half_grid_triangle(5, 750_000);
    assert_eq!(get_brightness(1_000_000), 255);
    assert_eq!(get_brightness(750_000), 128);

    let mut first = DisplayBuffer::new(10, 10);
    first.draw_mesh(&vec![near, far]);
    let mut second = DisplayBuffer::new(10, 10);
    second.draw_mesh(&vec![far, near]);

    assert_eq!(first.get(5, 5), 255);
    assert_eq!(second.get(5, 5), 255);
    for y in 0..10 {
        for x in 0..10 {
            assert_eq!(first.get(x, y), second.get(x, y));
        }
    }
}

#[test]
fn equal_depths_last_triangle_overwrites() {
    // The depth test rejects a write only when the stored depth is strictly
    // smaller, so at equal depth a later triangle overwrites an earlier one.
    let a = half_grid_triangle(3, 1_000_000);
    let b = half_grid_triangle(3, 750_000);
    let mut buf = DisplayBuffer::new(10, 10);
    buf.draw_mesh(&vec![a, b]);
    assert_eq!(buf.get(5, 5), 128);
}

#[test]
fn out_of_bounds_pixels_are_skipped() {
    // A triangle partially outside the 10x10 buffer: drawing must not fail,
    // must write exactly the in-bounds covered pixels, and must leave every
    // other pixel untouched.
    let t = Triangle::new(px(-3, -3), px(12, 2), px(2, 12), 1, 1_000_000);
    let covered = get_triangle_pixels(&t);
    let mut buf = DisplayBuffer::new(10, 10);
    buf.draw_mesh(&vec![t]);
    let mut seen_outside = false;
    for p in &covered {
        if p.x < 0 || p.y < 0 || p.x >= 10 || p.y >= 10 {
            seen_outside = true;
        }
    }
    assert!(seen_outside, "the triangle should spill out of the buffer");
    for y in 0..10i32 {
        for x in 0..10i32 {
            let expected = if covered.contains(&px(x, y)) { 255 } else { 0 };
            assert_eq!(buf.get(x as usize, y as usize), expected);
        }
    }
}

#[test]
fn rerender_of_static_mesh_is_identical() {
    let mesh = vec![
        Triangle::new(px(0, 0), px(9, 0), px(0, 9), 4, 800_000),
        Triangle::new(px(2, 2), px(8, 2), px(2, 8), 2, 1_000_000),
        Triangle::new(px(5, 5), px(9, 9), px(9, 5), 3, 600_000),
    ];
    let mut first = DisplayBuffer::new(10, 10);
    first.draw_mesh(&mesh);
    let mut second = DisplayBuffer::new(10, 10);
    second.draw_mesh(&mesh);
    for y in 0..10 {
        for x in 0..10 {
            assert_eq!(first.get(x, y), second.get(x, y));
        }
    }
    assert_eq!(first.to_text(), second.to_text());
}

#[test]
fn fresh_buffer_is_zeroed() {
    let buf = DisplayBuffer::new(3, 4);
    assert_eq!(buf.rows, 3);
    assert_eq!(buf.cols, 4);
    for y in 0..3 {
        for x in 0..4 {
            assert_eq!(buf.get(x, y), 0);
        }
    }
}

#[test]
fn set_and_get_roundtrip() {
    let mut buf = DisplayBuffer::new(4, 4);
    buf.set(1, 2, 99);
    assert_eq!(buf.get(1, 2), 99);
    assert_eq!(buf.get(2, 1), 0);
}
