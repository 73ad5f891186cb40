//! The line rasterizer: converts a pair of integer grid points into the
//! ordered sequence of grid points approximating the straight segment between
//! them, inclusive of both endpoints.
//!
//! The axis of greater extent is the *independent* axis: it is stepped by
//! whole units, and the *dependent* coordinate is interpolated along it. The
//! interpolated value is the exact rational point of the segment, rounded
//! toward zero — truncation, a deliberate simplification over canonical
//! integer-only Bresenham, kept for reproducibility.

use vstd::arithmetic::div_mod::{
    lemma_div_is_ordered, lemma_div_multiples_vanish, lemma_div_pos_is_pos,
};
use vstd::prelude::*;

use crate::geom::Pixel;

verus! {

/// Absolute value of an integer.
pub open spec fn abs_i(x: int) -> int {
    if x >= 0 {
        x
    } else {
        -x
    }
}

/// Division rounded toward zero (truncation), for a positive divisor.
pub open spec fn trunc_div(n: int, d: int) -> int {
    if n >= 0 {
        n / d
    } else {
        -((-n) / d)
    }
}

/// The smaller of the two independent endpoint coordinates.
pub open spec fn lo_i(i0: int, i1: int) -> int {
    if i1 < i0 {
        i1
    } else {
        i0
    }
}

/// The larger of the two independent endpoint coordinates.
pub open spec fn hi_i(i0: int, i1: int) -> int {
    if i1 < i0 {
        i0
    } else {
        i1
    }
}

/// The dependent coordinate paired with the smaller independent coordinate.
pub open spec fn lo_d(i0: int, d0: int, i1: int, d1: int) -> int {
    if i1 < i0 {
        d1
    } else {
        d0
    }
}

/// The dependent coordinate paired with the larger independent coordinate.
pub open spec fn hi_d(i0: int, d0: int, i1: int, d1: int) -> int {
    if i1 < i0 {
        d0
    } else {
        d1
    }
}

/// Number of points of the interpolated segment: one per unit step of the
/// independent axis, endpoints included.
pub open spec fn interp_len(i0: int, i1: int) -> int {
    hi_i(i0, i1) - lo_i(i0, i1) + 1
}

/// Dependent value after `k` unit steps from the lower endpoint: the exact
/// rational `d_lo + k * (d_hi - d_lo) / di`, rounded toward zero.
pub open spec fn interp_val(d_lo: int, d_hi: int, di: int, k: int) -> int {
    trunc_div(d_lo * di + k * (d_hi - d_lo), di)
}

/// Point `k` of the interpolated segment, as (independent, dependent). A
/// degenerate segment, whose independent coordinates are equal, has the single
/// point `(i0, d0)`.
pub open spec fn interp_pt(i0: int, d0: int, i1: int, d1: int, k: int) -> (int, int) {
    if i0 == i1 {
        (i0, d0)
    } else {
        (
            lo_i(i0, i1) + k,
            interp_val(
                lo_d(i0, d0, i1, d1),
                hi_d(i0, d0, i1, d1),
                hi_i(i0, i1) - lo_i(i0, i1),
                k,
            ),
        )
    }
}

/// Truncating division maps a value between two multiples of the divisor to a
/// quotient between the two factors.
proof fn lemma_trunc_div_bounds(n: int, d: int, lo: int, hi: int)
    requires
        d > 0,
        lo * d <= n,
        n <= hi * d,
    ensures
        lo <= trunc_div(n, d) <= hi,
{
    if n >= 0 {
        assert(hi * d == d * hi) by (nonlinear_arith);
        assert(hi >= 0) by (nonlinear_arith)
            requires
                d > 0,
                hi * d >= 0,
        ;
        lemma_div_is_ordered(n, hi * d, d);
        lemma_div_multiples_vanish(hi, d);
        if lo > 0 {
            assert(lo * d == d * lo) by (nonlinear_arith);
            lemma_div_is_ordered(lo * d, n, d);
            lemma_div_multiples_vanish(lo, d);
        } else {
            lemma_div_pos_is_pos(n, d);
        }
    } else {
        let m = -n;
        assert(lo * d == -((-lo) * d)) by (nonlinear_arith);
        assert(lo < 0) by (nonlinear_arith)
            requires
                d > 0,
                lo * d < 0,
        ;
        assert((-lo) * d == d * (-lo)) by (nonlinear_arith);
        lemma_div_is_ordered(m, (-lo) * d, d);
        lemma_div_multiples_vanish(-lo, d);
        if hi >= 0 {
            lemma_div_pos_is_pos(m, d);
        } else {
            assert(hi * d == -((-hi) * d)) by (nonlinear_arith);
            assert((-hi) * d == d * (-hi)) by (nonlinear_arith);
            lemma_div_is_ordered((-hi) * d, m, d);
            lemma_div_multiples_vanish(-hi, d);
        }
    }
}

/// The interpolated dependent value starts at the lower endpoint's dependent
/// coordinate, ends at the higher endpoint's, and never leaves the interval
/// between the two.
proof fn lemma_interp_val_range(d_lo: int, d_hi: int, di: int, k: int)
    requires
        di > 0,
        0 <= k <= di,
    ensures
        d_lo <= d_hi ==> d_lo <= interp_val(d_lo, d_hi, di, k) <= d_hi,
        d_lo > d_hi ==> d_hi <= interp_val(d_lo, d_hi, di, k) <= d_lo,
        k == 0 ==> interp_val(d_lo, d_hi, di, k) == d_lo,
        k == di ==> interp_val(d_lo, d_hi, di, k) == d_hi,
{
    let n = d_lo * di + k * (d_hi - d_lo);
    if d_lo <= d_hi {
        assert(d_lo * di <= n <= d_hi * di) by (nonlinear_arith)
            requires
                di > 0,
                0 <= k <= di,
                d_lo <= d_hi,
                n == d_lo * di + k * (d_hi - d_lo),
        ;
        lemma_trunc_div_bounds(n, di, d_lo, d_hi);
    } else {
        assert(d_hi * di <= n <= d_lo * di) by (nonlinear_arith)
            requires
                di > 0,
                0 <= k <= di,
                d_lo > d_hi,
                n == d_lo * di + k * (d_hi - d_lo),
        ;
        lemma_trunc_div_bounds(n, di, d_hi, d_lo);
    }
    if k == 0 {
        assert(n == di * d_lo) by (nonlinear_arith)
            requires
                n == d_lo * di + 0 * (d_hi - d_lo),
        ;
        lemma_div_multiples_vanish(d_lo, di);
        if d_lo < 0 {
            assert(-n == di * (-d_lo)) by (nonlinear_arith)
                requires
                    n == di * d_lo,
            ;
            lemma_div_multiples_vanish(-d_lo, di);
        }
    }
    if k == di {
        assert(n == di * d_hi) by (nonlinear_arith)
            requires
                n == d_lo * di + di * (d_hi - d_lo),
        ;
        lemma_div_multiples_vanish(d_hi, di);
        if d_hi < 0 {
            assert(-n == di * (-d_hi)) by (nonlinear_arith)
                requires
                    n == di * d_hi,
            ;
            lemma_div_multiples_vanish(-d_hi, di);
        }
    }
}

/// Division rounded toward zero, on machine integers.
fn trunc_div_i128(n: i128, d: i128) -> (q: i128)
    requires
        d > 0,
        n > i128::MIN,
    ensures
        q == trunc_div(n as int, d as int),
{
    if n >= 0 {
        let q: u128 = (n as u128) / (d as u128);
        proof {
            lemma_div_pos_is_pos(n as int, d as int);
            lemma_div_is_ordered(n as int, i128::MAX as int, d as int);
            assert(i128::MAX as int / (d as int) <= i128::MAX) by {
                lemma_div_is_ordered(i128::MAX as int / (d as int), i128::MAX as int, 1);
            }
        }
        q as i128
    } else {
        let m: u128 = (-n) as u128;
        let q: u128 = m / (d as u128);
        proof {
            lemma_div_pos_is_pos(m as int, d as int);
            lemma_div_is_ordered(m as int, i128::MAX as int, d as int);
            assert(i128::MAX as int / (d as int) <= i128::MAX) by {
                lemma_div_is_ordered(i128::MAX as int / (d as int), i128::MAX as int, 1);
            }
        }
        -(q as i128)
    }
}

/// Interpolates the dependent coordinate along the independent axis, one point
/// per unit step, endpoints included: the points of the raster line from
/// `(i0, d0)` to `(i1, d1)`, as (independent, dependent) pairs, ordered by
/// increasing independent coordinate. Equal independent coordinates yield the
/// single point `(i0, d0)`.
pub fn interpolate_line(i0: i32, d0: i32, i1: i32, d1: i32) -> (r: Vec<(i32, i32)>)
    ensures
        r@.len() == interp_len(i0 as int, i1 as int),
        forall|k: int|
            0 <= k < r@.len() ==> (#[trigger] r@[k]).0 == interp_pt(
                i0 as int,
                d0 as int,
                i1 as int,
                d1 as int,
                k,
            ).0 && r@[k].1 == interp_pt(i0 as int, d0 as int, i1 as int, d1 as int, k).1,
        r@.contains((i0, d0)),
        i0 != i1 ==> r@.contains((i1, d1)),
{
    if i0 == i1 {
        let mut r: Vec<(i32, i32)> = Vec::new();
        r.push((i0, d0));
        assert(r@[0] == (i0, d0));
        return r;
    }

    // Normalize so that the independent coordinate increases.
    let (a0, b0, a1, b1) = if i1 < i0 {
        (i1, d1, i0, d0)
    } else {
        (i0, d0, i1, d1)
    };
    let di: i64 = (a1 as i64) - (a0 as i64);
    let dd: i64 = (b1 as i64) - (b0 as i64);
    let ghost gi0 = i0 as int;
    let ghost gd0 = d0 as int;
    let ghost gi1 = i1 as int;
    let ghost gd1 = d1 as int;

    let mut r: Vec<(i32, i32)> = Vec::new();
    let mut k: i64 = 0;
    while k <= di
        invariant
            a0 as int == lo_i(gi0, gi1),
            b0 as int == lo_d(gi0, gd0, gi1, gd1),
            a1 as int == hi_i(gi0, gi1),
            b1 as int == hi_d(gi0, gd0, gi1, gd1),
            gi0 != gi1,
            di == a1 as int - a0 as int,
            dd == b1 as int - b0 as int,
            di > 0,
            0 <= k <= di + 1,
            r@.len() == k,
            forall|j: int|
                0 <= j < r@.len() ==> (#[trigger] r@[j]).0 == interp_pt(gi0, gd0, gi1, gd1, j).0
                    && r@[j].1 == interp_pt(gi0, gd0, gi1, gd1, j).1,
        decreases di + 1 - k,
    {
        proof {
            assert(-0x1_0000_0000_0000_0000 <= (b0 as int) * (di as int)
                <= 0x1_0000_0000_0000_0000) by (nonlinear_arith)
                requires
                    -0x8000_0000 <= (b0 as int) <= 0x7fff_ffff,
                    0 < (di as int) < 0x2_0000_0000,
            ;
            assert(-0x4_0000_0000_0000_0000 <= (k as int) * (dd as int)
                <= 0x4_0000_0000_0000_0000) by (nonlinear_arith)
                requires
                    0 <= (k as int) < 0x2_0000_0000,
                    -0x2_0000_0000 < (dd as int) < 0x2_0000_0000,
            ;
        }
        let p1: i128 = (b0 as i128) * (di as i128);
        let p2: i128 = (k as i128) * (dd as i128);
        let num: i128 = p1 + p2;
        proof {
            assert(num == b0 as int * di + k * dd);
            lemma_interp_val_range(b0 as int, b1 as int, di as int, k as int);
        }
        let dv: i128 = trunc_div_i128(num, di as i128);
        proof {
            assert(dd == b1 as int - b0 as int);
            assert(dv == interp_val(b0 as int, b1 as int, di as int, k as int));
            assert(-0x8000_0000 <= dv <= 0x7fff_ffff);
        }
        let iv: i64 = (a0 as i64) + k;
        r.push((iv as i32, dv as i32));
        k = k + 1;
    }
    proof {
        lemma_interp_val_range(b0 as int, b1 as int, (a1 - a0) as int, 0);
        assert(r@[0] == (a0, b0));
        assert(r@[r@.len() - 1] == (a1, b1)) by {
            lemma_interp_val_range(b0 as int, b1 as int, (a1 - a0) as int, (a1 - a0) as int);
        }
        if i1 < i0 {
            assert(r@[r@.len() - 1] == (i0, d0));
            assert(r@[0] == (i1, d1));
        } else {
            assert(r@[0] == (i0, d0));
            assert(r@[r@.len() - 1] == (i1, d1));
        }
    }
    r
}

/// Whether the segment's extent is greater along the y axis than along the x
/// axis. The axis of greater extent is the independent axis of the raster
/// line; ties go to x.
pub open spec fn steep(p0: Pixel, p1: Pixel) -> bool {
    abs_i(p1.y as int - p0.y as int) > abs_i(p1.x as int - p0.x as int)
}

/// Number of points of the raster line between two grid points: one per unit
/// step of the axis of greater extent, endpoints included.
pub open spec fn line_len(p0: Pixel, p1: Pixel) -> int {
    if steep(p0, p1) {
        interp_len(p0.y as int, p1.y as int)
    } else {
        interp_len(p0.x as int, p1.x as int)
    }
}

/// Point `k` of the raster line between two grid points, ordered by
/// increasing independent coordinate.
pub open spec fn line_pt(p0: Pixel, p1: Pixel, k: int) -> Pixel {
    if steep(p0, p1) {
        Pixel {
            x: interp_pt(p0.y as int, p0.x as int, p1.y as int, p1.x as int, k).1 as i32,
            y: interp_pt(p0.y as int, p0.x as int, p1.y as int, p1.x as int, k).0 as i32,
        }
    } else {
        Pixel {
            x: interp_pt(p0.x as int, p0.y as int, p1.x as int, p1.y as int, k).0 as i32,
            y: interp_pt(p0.x as int, p0.y as int, p1.x as int, p1.y as int, k).1 as i32,
        }
    }
}

/// The raster line between two grid points, as a sequence of pixels.
pub open spec fn line_seq(p0: Pixel, p1: Pixel) -> Seq<Pixel> {
    Seq::new(line_len(p0, p1) as nat, |k: int| line_pt(p0, p1, k))
}

/// The positions of the raster line between two grid points: both endpoints
/// are included, the line holds exactly one point per unit step of the axis
/// of greater extent, no point twice, and equal endpoints yield exactly the
/// single point `p0`.
pub fn get_bresenhams_line(p0: Pixel, p1: Pixel) -> (r: Vec<Pixel>)
    ensures
        r@ == line_seq(p0, p1),
        r@.len() == line_len(p0, p1),
        forall|k: int| 0 <= k < r@.len() ==> #[trigger] r@[k] == line_pt(p0, p1, k),
        r@.contains(p0),
        r@.contains(p1),
        p0 == p1 ==> r@.len() == 1,
        !steep(p0, p1) ==> forall|k: int|
            0 <= k < r@.len() ==> (#[trigger] r@[k]).x as int == lo_i(p0.x as int, p1.x as int)
                + k,
        steep(p0, p1) ==> forall|k: int|
            0 <= k < r@.len() ==> (#[trigger] r@[k]).y as int == lo_i(p0.y as int, p1.y as int)
                + k,
        forall|j: int, k: int| 0 <= j < k < r@.len() ==> r@[j] != r@[k],
{
    let dx: i64 = (p1.x as i64) - (p0.x as i64);
    let dy: i64 = (p1.y as i64) - (p0.y as i64);
    let dx_abs: i64 = if dx < 0 {
        -dx
    } else {
        dx
    };
    let dy_abs: i64 = if dy < 0 {
        -dy
    } else {
        dy
    };
    let is_steep = dy_abs > dx_abs;
    let pts: Vec<(i32, i32)> = if is_steep {
        interpolate_line(p0.y, p0.x, p1.y, p1.x)
    } else {
        interpolate_line(p0.x, p0.y, p1.x, p1.y)
    };
    proof {
        assert(is_steep == steep(p0, p1));
    }

    let mut r: Vec<Pixel> = Vec::new();
    let mut idx: usize = 0;
    while idx < pts.len()
        invariant
            is_steep == steep(p0, p1),
            is_steep ==> pts@.len() == interp_len(p0.y as int, p1.y as int),
            is_steep ==> forall|j: int|
                0 <= j < pts@.len() ==> (#[trigger] pts@[j]).0 == interp_pt(
                    p0.y as int,
                    p0.x as int,
                    p1.y as int,
                    p1.x as int,
                    j,
                ).0 && pts@[j].1 == interp_pt(p0.y as int, p0.x as int, p1.y as int, p1.x as int, j).1,
            !is_steep ==> pts@.len() == interp_len(p0.x as int, p1.x as int),
            !is_steep ==> forall|j: int|
                0 <= j < pts@.len() ==> (#[trigger] pts@[j]).0 == interp_pt(
                    p0.x as int,
                    p0.y as int,
                    p1.x as int,
                    p1.y as int,
                    j,
                ).0 && pts@[j].1 == interp_pt(p0.x as int, p0.y as int, p1.x as int, p1.y as int, j).1,
            0 <= idx <= pts@.len(),
            r@.len() == idx,
            forall|j: int| 0 <= j < r@.len() ==> #[trigger] r@[j] == line_pt(p0, p1, j),
        decreases pts@.len() - idx,
    {
        let a = pts[idx].0;
        let b = pts[idx].1;
        let px = if is_steep {
            Pixel { x: b, y: a }
        } else {
            Pixel { x: a, y: b }
        };
        r.push(px);
        idx = idx + 1;
    }
    proof {
        assert(r@ =~= line_seq(p0, p1));
        if is_steep {
            let j0 = choose|j: int|
                0 <= j < pts@.len() && pts@[j] == (p0.y, p0.x);
            assert(r@[j0] == p0);
            let j1 = choose|j: int|
                0 <= j < pts@.len() && pts@[j] == (p1.y, p1.x);
            assert(r@[j1] == p1);
        } else {
            let j0 = choose|j: int|
                0 <= j < pts@.len() && pts@[j] == (p0.x, p0.y);
            assert(r@[j0] == p0);
            if p0.x == p1.x {
                assert(p0.y == p1.y);
                assert(r@[j0] == p1);
            } else {
                let j1 = choose|j: int|
                    0 <= j < pts@.len() && pts@[j] == (p1.x, p1.y);
                assert(r@[j1] == p1);
            }
        }
        assert forall|j: int, k: int| 0 <= j < k < r@.len() implies r@[j] != r@[k] by {
            if is_steep {
                assert(pts@[j].0 != pts@[k].0);
                assert(r@[j].y != r@[k].y);
            } else {
                assert(pts@[j].0 != pts@[k].0);
                assert(r@[j].x != r@[k].x);
            }
        }
    }
    r
}

} // verus!
