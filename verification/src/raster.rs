//! The triangle scan converter: derives every covered pixel of a triangle by
//! rasterizing its three edges and filling each touched row between the row's
//! extreme edge pixels.
//!
//! For a convex triangle every interior row is crossed by at least two edges,
//! so the x-extremes of the row's edge pixels bound the filled interval. Rows
//! touched by a single edge point degenerate to that point; rows touched by no
//! edge are not part of the triangle.

use vstd::prelude::*;

use crate::geom::{Pixel, Triangle};
use crate::line::{get_bresenhams_line, line_seq};

verus! {

/// The pixels of the triangle's three rasterized edges, in edge order.
pub open spec fn edge_points(t: Triangle) -> Seq<Pixel> {
    line_seq(t.v0, t.v1) + line_seq(t.v0, t.v2) + line_seq(t.v1, t.v2)
}

/// Whether some point of `s` lies on row `y`.
pub open spec fn row_hit(s: Seq<Pixel>, y: int) -> bool {
    exists|i: int| 0 <= i < s.len() && (#[trigger] s[i]).y == y
}

/// The smallest x coordinate of the points of `s` on row `y`; 0 when the row
/// is not hit.
pub open spec fn row_min_x(s: Seq<Pixel>, y: int) -> int
    decreases s.len(),
{
    if s.len() == 0 {
        0
    } else if s.last().y == y {
        if row_hit(s.drop_last(), y) && row_min_x(s.drop_last(), y) <= s.last().x {
            row_min_x(s.drop_last(), y)
        } else {
            s.last().x as int
        }
    } else {
        row_min_x(s.drop_last(), y)
    }
}

/// The largest x coordinate of the points of `s` on row `y`; 0 when the row
/// is not hit.
pub open spec fn row_max_x(s: Seq<Pixel>, y: int) -> int
    decreases s.len(),
{
    if s.len() == 0 {
        0
    } else if s.last().y == y {
        if row_hit(s.drop_last(), y) && row_max_x(s.drop_last(), y) >= s.last().x {
            row_max_x(s.drop_last(), y)
        } else {
            s.last().x as int
        }
    } else {
        row_max_x(s.drop_last(), y)
    }
}

/// Triangle coverage: the grid point `(x, y)` belongs to the triangle's
/// scan-converted pixel set when some edge pixel lies on row `y` and `x` lies
/// in the inclusive interval between the row's extreme edge pixels.
pub open spec fn covers(t: Triangle, x: int, y: int) -> bool {
    &&& row_hit(edge_points(t), y)
    &&& row_min_x(edge_points(t), y) <= x <= row_max_x(edge_points(t), y)
}

/// The pixels collected so far are exactly the covered pixels of the rows
/// strictly below `ybound`.
spec fn rows_done(t: Triangle, o: Seq<Pixel>, ybound: int) -> bool {
    forall|p: Pixel|
        #![trigger o.contains(p)]
        o.contains(p) <==> (covers(t, p.x as int, p.y as int) && (p.y as int) < ybound)
}

/// The pixels collected so far are exactly the covered pixels of the rows
/// strictly below `y`, together with the pixels of row `y` from `minx`
/// exclusive of `xbound`.
spec fn row_partial(t: Triangle, o: Seq<Pixel>, y: int, minx: int, xbound: int) -> bool {
    forall|p: Pixel|
        #![trigger o.contains(p)]
        o.contains(p) <==> ((covers(t, p.x as int, p.y as int) && (p.y as int) < y) || ((
        p.y as int) == y && minx <= p.x as int && (p.x as int) < xbound))
}

/// Extending a prefix of `s` by its next point changes the row hit and the
/// row extremes exactly as the recursive definitions say.
proof fn lemma_row_step(s: Seq<Pixel>, j: int, y: int)
    requires
        0 <= j < s.len(),
    ensures
        row_hit(s.take(j + 1), y) == (row_hit(s.take(j), y) || s[j].y == y),
        row_min_x(s.take(j + 1), y) == (if s[j].y == y {
            if row_hit(s.take(j), y) && row_min_x(s.take(j), y) <= s[j].x {
                row_min_x(s.take(j), y)
            } else {
                s[j].x as int
            }
        } else {
            row_min_x(s.take(j), y)
        }),
        row_max_x(s.take(j + 1), y) == (if s[j].y == y {
            if row_hit(s.take(j), y) && row_max_x(s.take(j), y) >= s[j].x {
                row_max_x(s.take(j), y)
            } else {
                s[j].x as int
            }
        } else {
            row_max_x(s.take(j), y)
        }),
{
    let a = s.take(j + 1);
    let b = s.take(j);
    assert(a.drop_last() =~= b);
    assert(a.last() == s[j]);
    if row_hit(b, y) {
        let w = choose|i: int| 0 <= i < b.len() && (#[trigger] b[i]).y == y;
        assert(a[w].y == y);
    }
    if s[j].y == y {
        assert(a[j].y == y);
    }
    if row_hit(a, y) && s[j].y != y {
        let w = choose|i: int| 0 <= i < a.len() && (#[trigger] a[i]).y == y;
        assert(w != j);
        assert(b[w].y == y);
    }
}

/// On a hit row, the row extremes are ordered and are coordinates of actual
/// grid points.
proof fn lemma_row_bounds(s: Seq<Pixel>, y: int)
    requires
        row_hit(s, y),
    ensures
        i32::MIN <= row_min_x(s, y) <= row_max_x(s, y) <= i32::MAX,
    decreases s.len(),
{
    if s.len() > 0 {
        if s.last().y == y {
            if row_hit(s.drop_last(), y) {
                lemma_row_bounds(s.drop_last(), y);
            }
        } else {
            let w = choose|i: int| 0 <= i < s.len() && (#[trigger] s[i]).y == y;
            assert(s.drop_last()[w].y == y);
            lemma_row_bounds(s.drop_last(), y);
        }
    }
}

/// A covered grid point has coordinates that fit the raster's integer type.
pub proof fn lemma_covers_in_i32(t: Triangle, x: int, y: int)
    requires
        covers(t, x, y),
    ensures
        i32::MIN <= x <= i32::MAX,
        i32::MIN <= y <= i32::MAX,
{
    let s = edge_points(t);
    lemma_row_bounds(s, y);
    let w = choose|i: int| 0 <= i < s.len() && (#[trigger] s[i]).y == y;
    assert(i32::MIN <= s[w].y <= i32::MAX);
}

/// Membership in a sequence extended by one element.
proof fn lemma_contains_push(s: Seq<Pixel>, v: Pixel, q: Pixel)
    ensures
        s.push(v).contains(q) <==> (s.contains(q) || q == v),
{
    if s.contains(q) {
        let w = choose|i: int| 0 <= i < s.len() && s[i] == q;
        assert(s.push(v)[w] == q);
    }
    if q == v {
        assert(s.push(v)[s.len() as int] == q);
    }
    if s.push(v).contains(q) {
        let w = choose|i: int| 0 <= i < s.push(v).len() && s.push(v)[i] == q;
        if w < s.len() {
            assert(s[w] == q);
        }
    }
}

/// The set of grid points covering the triangle's interior and boundary: the
/// pixels of its three rasterized edges, with every touched row filled
/// between the row's extreme edge pixels. A pixel is reported exactly when
/// [`covers`] holds of it.
pub fn get_triangle_pixels(triangle: &Triangle) -> (r: Vec<Pixel>)
    ensures
        forall|p: Pixel|
            #![trigger r@.contains(p)]
            r@.contains(p) <==> covers(*triangle, p.x as int, p.y as int),
{
    let t = *triangle;
    let mut edges = get_bresenhams_line(t.v0, t.v1);
    let mut e2 = get_bresenhams_line(t.v0, t.v2);
    let mut e3 = get_bresenhams_line(t.v1, t.v2);
    edges.append(&mut e2);
    edges.append(&mut e3);
    proof {
        assert(edges@ =~= edge_points(t));
    }
    let ghost s = edges@;

    // The extreme rows touched by any edge pixel.
    let mut min_y: i32 = edges[0].y;
    let mut max_y: i32 = edges[0].y;
    let mut i: usize = 1;
    while i < edges.len()
        invariant
            s == edges@,
            1 <= i <= s.len(),
            min_y <= max_y,
            forall|j: int| 0 <= j < i ==> min_y <= (#[trigger] s[j]).y <= max_y,
        decreases s.len() - i,
    {
        let py = edges[i].y;
        if py < min_y {
            min_y = py;
        }
        if py > max_y {
            max_y = py;
        }
        i = i + 1;
    }

    let mut out: Vec<Pixel> = Vec::new();
    let mut y: i64 = min_y as i64;
    proof {
        assert forall|p: Pixel| !(covers(t, p.x as int, p.y as int) && (p.y as int) < y) by {
            if row_hit(s, p.y as int) {
                let w = choose|i: int| 0 <= i < s.len() && (#[trigger] s[i]).y == p.y as int;
                assert(min_y <= s[w].y);
            }
        }
        assert(rows_done(t, out@, y as int));
    }
    while y <= max_y as i64
        invariant
            s == edges@,
            s == edge_points(t),
            s.len() >= 1,
            min_y as int <= y <= max_y as int + 1,
            forall|j: int| 0 <= j < s.len() ==> min_y <= (#[trigger] s[j]).y <= max_y,
            rows_done(t, out@, y as int),
        decreases max_y as int + 1 - y,
    {
        let ghost yi = y as int;
        // Scan the edge pixels for this row's extremes.
        let mut found = false;
        let mut minx: i32 = 0;
        let mut maxx: i32 = 0;
        let mut j: usize = 0;
        while j < edges.len()
            invariant
                s == edges@,
                0 <= j <= s.len(),
                min_y as int <= yi <= max_y as int,
                y as int == yi,
                found == row_hit(s.take(j as int), yi),
                found ==> minx as int == row_min_x(s.take(j as int), yi),
                found ==> maxx as int == row_max_x(s.take(j as int), yi),
                found ==> minx <= maxx,
            decreases s.len() - j,
        {
            let p = edges[j];
            proof {
                lemma_row_step(s, j as int, yi);
            }
            if p.y as i64 == y {
                if !found {
                    found = true;
                    minx = p.x;
                    maxx = p.x;
                } else {
                    if p.x < minx {
                        minx = p.x;
                    }
                    if p.x > maxx {
                        maxx = p.x;
                    }
                }
            }
            j = j + 1;
        }
        proof {
            assert(s.take(s.len() as int) =~= s);
        }

        if found {
            // Fill the inclusive interval between the row's extremes.
            proof {
                assert(row_partial(t, out@, yi, minx as int, minx as int));
            }
            let mut x: i64 = minx as i64;
            while x <= maxx as i64
                invariant
                    s == edge_points(t),
                    row_hit(s, yi),
                    minx as int == row_min_x(s, yi),
                    maxx as int == row_max_x(s, yi),
                    min_y as int <= yi <= max_y as int,
                    y == yi,
                    minx as int <= x <= maxx as int + 1,
                    row_partial(t, out@, yi, minx as int, x as int),
                decreases maxx as int + 1 - x,
            {
                let px = Pixel { x: x as i32, y: y as i32 };
                let ghost prev = out@;
                out.push(px);
                proof {
                    assert forall|p: Pixel| #[trigger]
                        out@.contains(p) <==> prev.contains(p) || p == px by {
                        lemma_contains_push(prev, px, p);
                    }
                    assert(row_partial(t, out@, yi, minx as int, x + 1));
                }
                x = x + 1;
            }
            proof {
                assert(rows_done(t, out@, y + 1));
            }
        } else {
            proof {
                assert forall|p: Pixel| !(covers(t, p.x as int, p.y as int) && (p.y as int)
                    == yi) by {
                    assert(!row_hit(s, yi));
                }
                assert(rows_done(t, out@, y + 1));
            }
        }
        y = y + 1;
    }
    proof {
        assert forall|p: Pixel|
            #![trigger out@.contains(p)]
            out@.contains(p) <==> covers(t, p.x as int, p.y as int) by {
            if covers(t, p.x as int, p.y as int) {
                let w = choose|i: int| 0 <= i < s.len() && (#[trigger] s[i]).y == p.y as int;
                assert(s[w].y <= max_y);
            }
        }
    }
    out
}

} // verus!
