use rasterizer::geom::{Pixel, Triangle};
use rasterizer::raster::get_triangle_pixels;

fn px(x: i32, y: i32) -> Pixel {
    Pixel { x, y }
}

fn tri(a: Pixel, b: Pixel, c: Pixel) -> Triangle {
    Triangle::new(a, b, c, 0, 0)
}

#[test]
fn right_triangle_fill_is_exact() {
    // Vertices (2,2), (8,2), (2,8): the covered set is exactly the points
    // with x >= 2, y >= 2 and x + y <= 10.
    let t = tri(px(2, 2), px(8, 2), px(2, 8));
    let pixels = get_triangle_pixels(&t);
    for y in -5..15 {
        for x in -5..15 {
            let inside = x >= 2 && y >= 2 && x + y <= 10;
            assert_eq!(
                pixels.contains(&px(x, y)),
                inside,
                "mismatch at ({}, {})",
                x,
                y
            );
        }
    }
}

#[test]
fn triangle_fill_has_no_duplicates() {
    let t = tri(px(2, 2), px(8, 2), px(2, 8));
    let pixels = get_triangle_pixels(&t);
    for i in 0..pixels.len() {
        for j in (i + 1)..pixels.len() {
            assert_ne!(pixels[i], pixels[j]);
        }
    }
}

#[test]
fn collinear_triangle_degenerates_to_line() {
    // Zero-area triangle: only its boundary diagonal is produced.
    let t = tri(px(0, 0), px(2, 2), px(4, 4));
    let pixels = get_triangle_pixels(&t);
    for y in -2..7 {
        for x in -2..7 {
            let on_diagonal = x == y && (0..=4).contains(&x);
            assert_eq!(pixels.contains(&px(x, y)), on_diagonal);
        }
    }
}

#[test]
fn point_triangle_is_single_pixel() {
    let t = tri(px(3, 3), px(3, 3), px(3, 3));
    let pixels = get_triangle_pixels(&t);
    assert_eq!(pixels, vec![px(3, 3)]);
}

#[test]
fn get_edges_returns_vertex_pairs() {
    let t = Triangle::new(px(1, 2), px(3, 4), px(5, 6), 7, 8);
    let edges = t.get_edges();
    assert_eq!(edges[0], (px(1, 2), px(3, 4)));
    assert_eq!(edges[1], (px(1, 2), px(5, 6)));
    assert_eq!(edges[2], (px(3, 4), px(5, 6)));
}
