use rasterizer::geom::Pixel;
use rasterizer::line::{get_bresenhams_line, interpolate_line};

fn px(x: i32, y: i32) -> Pixel {
    Pixel { x, y }
}

#[test]
fn exact_shallow_line() {
    let r = interpolate_line(0, 0, 4, 2);
    assert_eq!(r, vec![(0, 0), (1, 0), (2, 1), (3, 1), (4, 2)]);
}

#[test]
fn exact_negative_slope_truncates_toward_zero() {
    // Truncation, not floor: -0.5 rounds to 0 and -1.5 rounds to -1.
    let r = interpolate_line(0, 0, 4, -2);
    assert_eq!(r, vec![(0, 0), (1, 0), (2, -1), (3, -1), (4, -2)]);
}

#[test]
fn reversed_endpoints_give_same_points() {
    let a = interpolate_line(0, 0, 4, 2);
    let b = interpolate_line(4, 2, 0, 0);
    assert_eq!(a, b);
}

#[test]
fn endpoints_included() {
    let cases = [
        (px(0, 0), px(7, 3)),
        (px(-4, 5), px(2, -9)),
        (px(3, 3), px(3, -8)),
        (px(10, 2), px(-1, 2)),
        (px(1, 1), px(2, 2)),
    ];
    for (p0, p1) in cases {
        let line = get_bresenhams_line(p0, p1);
        assert!(line.contains(&p0));
        assert!(line.contains(&p1));
    }
}

#[test]
fn degenerate_line_is_single_point() {
    let p = px(3, 7);
    let line = get_bresenhams_line(p, p);
    assert_eq!(line, vec![p]);
}

#[test]
fn one_point_per_major_step_no_duplicates() {
    let p0 = px(-2, -1);
    let p1 = px(9, 4);
    let line = get_bresenhams_line(p0, p1);
    // x is the axis of greater extent: exactly one point per x step.
    assert_eq!(line.len(), 12);
    for (k, p) in line.iter().enumerate() {
        assert_eq!(p.x, -2 + k as i32);
    }
    for i in 0..line.len() {
        for j in (i + 1)..line.len() {
            assert_ne!(line[i], line[j]);
        }
    }
}

#[test]
fn steep_line_steps_along_y() {
    let line = get_bresenhams_line(px(0, 0), px(2, 4));
    assert_eq!(
        line,
        vec![px(0, 0), px(0, 1), px(1, 2), px(1, 3), px(2, 4)]
    );
}

#[test]
fn vertical_and_horizontal_lines() {
    let v = get_bresenhams_line(px(5, 1), px(5, 4));
    assert_eq!(v, vec![px(5, 1), px(5, 2), px(5, 3), px(5, 4)]);
    let h = get_bresenhams_line(px(1, 5), px(4, 5));
    assert_eq!(h, vec![px(1, 5), px(2, 5), px(3, 5), px(4, 5)]);
}
