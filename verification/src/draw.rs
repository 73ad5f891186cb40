//! The frame buffer, the depth buffer and the compositing loop.
//!
//! Each triangle carries one representative depth for all of its pixels.
//! Per covered pixel, the depth buffer admits the write unless a strictly
//! nearer depth is already stored (smaller is nearer), so the final image does
//! not depend on draw order when depths are strictly ordered; out-of-bounds
//! pixels are skipped and the rest of the triangle is still drawn.

use vstd::prelude::*;

use crate::geom::{valid_triangle, Pixel, Triangle};
use crate::raster::{covers, get_triangle_pixels, lemma_covers_in_i32};
use crate::shade::{brightness_spec, get_brightness};

verus! {

/// A fixed rows x cols grid of luminance bytes, written by the compositing
/// loop and read out for display.
pub struct DisplayBuffer {
    /// Number of rows.
    pub rows: usize,
    /// Number of columns.
    pub cols: usize,
    /// The luminance values, row by row.
    pub data: Vec<Vec<u8>>,
}

/// A fixed rows x cols grid of depth values tracking, per pixel, the nearest
/// depth written so far; transient, reset for every frame.
pub struct DepthBuffer {
    /// Number of rows.
    pub rows: usize,
    /// Number of columns.
    pub cols: usize,
    /// The depth values, row by row.
    pub data: Vec<Vec<i64>>,
}

impl View for DisplayBuffer {
    type V = Seq<Seq<u8>>;

    open spec fn view(&self) -> Seq<Seq<u8>> {
        Seq::new(self.data@.len(), |y: int| self.data@[y]@)
    }
}

impl View for DepthBuffer {
    type V = Seq<Seq<i64>>;

    open spec fn view(&self) -> Seq<Seq<i64>> {
        Seq::new(self.data@.len(), |y: int| self.data@[y]@)
    }
}

impl DisplayBuffer {
    /// A buffer is well-formed when it has at least one row and one column
    /// and its grid has exactly its declared dimensions.
    pub open spec fn wf(&self) -> bool {
        &&& self.rows >= 1
        &&& self.cols >= 1
        &&& self.data@.len() == self.rows
        &&& forall|y: int| 0 <= y < self.data@.len() ==> (#[trigger] self.data@[y])@.len()
            == self.cols
    }

    /// Creates a frame buffer of the given dimensions with every luminance
    /// value zero.
    pub fn new(rows: usize, cols: usize) -> (b: DisplayBuffer)
        requires
            1 <= rows,
            1 <= cols,
        ensures
            b.wf(),
            b.rows == rows,
            b.cols == cols,
            forall|y: int, x: int|
                0 <= y < rows && 0 <= x < cols ==> b@[y][x] == 0,
    {
        let mut data: Vec<Vec<u8>> = Vec::new();
        let mut y: usize = 0;
        while y < rows
            invariant
                data@.len() == y,
                0 <= y <= rows,
                forall|i: int| 0 <= i < y ==> (#[trigger] data@[i])@.len() == cols,
                forall|i: int, j: int|
                    0 <= i < y && 0 <= j < cols ==> #[trigger] data@[i]@[j] == 0,
            decreases rows - y,
        {
            let mut row: Vec<u8> = Vec::new();
            let mut x: usize = 0;
            while x < cols
                invariant
                    row@.len() == x,
                    0 <= x <= cols,
                    forall|j: int| 0 <= j < x ==> row@[j] == 0,
                decreases cols - x,
            {
                row.push(0);
                x = x + 1;
            }
            data.push(row);
            y = y + 1;
        }
        DisplayBuffer { rows, cols, data }
    }

    /// Reads the luminance value at column `x` of row `y`.
    pub fn get(&self, x: usize, y: usize) -> (v: u8)
        requires
            self.wf(),
            x < self.cols,
            y < self.rows,
        ensures
            v == self@[y as int][x as int],
    {
        self.data[y][x]
    }

    /// Writes the luminance value at column `x` of row `y`.
    pub fn set(&mut self, x: usize, y: usize, luma: u8)
        requires
            old(self).wf(),
            x < old(self).cols,
            y < old(self).rows,
        ensures
            final(self).wf(),
            final(self).rows == old(self).rows,
            final(self).cols == old(self).cols,
            final(self)@ == old(self)@.update(
                y as int,
                old(self)@[y as int].update(x as int, luma),
            ),
    {
        self.data[y][x] = luma;
        proof {
            assert(self@ =~~= old(self)@.update(
                y as int,
                old(self)@[y as int].update(x as int, luma),
            ));
        }
    }
}

impl DepthBuffer {
    /// A depth buffer is well-formed when its grid has exactly its declared
    /// dimensions.
    pub open spec fn wf(&self) -> bool {
        &&& self.data@.len() == self.rows
        &&& forall|y: int| 0 <= y < self.data@.len() ==> (#[trigger] self.data@[y])@.len()
            == self.cols
    }

    /// Creates a depth buffer of the given dimensions with every entry at the
    /// maximum representable depth, so the first triangle to reach any pixel
    /// always wins.
    pub fn new(rows: usize, cols: usize) -> (b: DepthBuffer)
        ensures
            b.wf(),
            b.rows == rows,
            b.cols == cols,
            b@ == max_depth_grid(rows as int, cols as int),
    {
        let mut data: Vec<Vec<i64>> = Vec::new();
        let mut y: usize = 0;
        while y < rows
            invariant
                data@.len() == y,
                0 <= y <= rows,
                forall|i: int| 0 <= i < y ==> (#[trigger] data@[i])@.len() == cols,
                forall|i: int, j: int|
                    0 <= i < y && 0 <= j < cols ==> #[trigger] data@[i]@[j] == i64::MAX,
            decreases rows - y,
        {
            let mut row: Vec<i64> = Vec::new();
            let mut x: usize = 0;
            while x < cols
                invariant
                    row@.len() == x,
                    0 <= x <= cols,
                    forall|j: int| 0 <= j < x ==> row@[j] == i64::MAX,
                decreases cols - x,
            {
                row.push(i64::MAX);
                x = x + 1;
            }
            data.push(row);
            y = y + 1;
        }
        let b = DepthBuffer { rows, cols, data };
        proof {
            assert(b@ =~~= max_depth_grid(rows as int, cols as int));
        }
        b
    }

    /// Reads the depth value at column `x` of row `y`.
    pub fn get(&self, x: usize, y: usize) -> (v: i64)
        requires
            self.wf(),
            x < self.cols,
            y < self.rows,
        ensures
            v == self@[y as int][x as int],
    {
        self.data[y][x]
    }

    /// Writes the depth value at column `x` of row `y`.
    pub fn set(&mut self, x: usize, y: usize, depth: i64)
        requires
            old(self).wf(),
            x < old(self).cols,
            y < old(self).rows,
        ensures
            final(self).wf(),
            final(self).rows == old(self).rows,
            final(self).cols == old(self).cols,
            final(self)@ == old(self)@.update(
                y as int,
                old(self)@[y as int].update(x as int, depth),
            ),
    {
        self.data[y][x] = depth;
        proof {
            assert(self@ =~~= old(self)@.update(
                y as int,
                old(self)@[y as int].update(x as int, depth),
            ));
        }
    }
}

/// A depth grid with every entry at the maximum representable depth.
pub open spec fn max_depth_grid(rows: int, cols: int) -> Seq<Seq<i64>> {
    Seq::new(rows as nat, |y: int| Seq::new(cols as nat, |x: int| i64::MAX))
}

/// The luminance a triangle writes: its brightness under its shading angle.
pub open spec fn tri_luma(t: Triangle) -> u8 {
    brightness_spec(t.angle as int) as u8
}

/// One triangle's writes to the frame grid: every covered, in-bounds pixel
/// whose stored depth is not strictly nearer takes the triangle's brightness;
/// every other pixel keeps its value.
pub open spec fn paint_frame(t: Triangle, f: Seq<Seq<u8>>, z: Seq<Seq<i64>>) -> Seq<Seq<u8>> {
    Seq::new(
        f.len(),
        |y: int|
            Seq::new(
                f[y].len(),
                |x: int|
                    if covers(t, x, y) && z[y][x] >= t.depth {
                        tri_luma(t)
                    } else {
                        f[y][x]
                    },
            ),
    )
}

/// One triangle's writes to the depth grid: every covered, in-bounds pixel
/// whose stored depth is not strictly nearer takes the triangle's depth.
pub open spec fn paint_depth(t: Triangle, z: Seq<Seq<i64>>) -> Seq<Seq<i64>> {
    Seq::new(
        z.len(),
        |y: int|
            Seq::new(
                z[y].len(),
                |x: int|
                    if covers(t, x, y) && z[y][x] >= t.depth {
                        t.depth
                    } else {
                        z[y][x]
                    },
            ),
    )
}

/// The frame and depth grids after drawing a whole mesh, triangle by triangle
/// in mesh order.
pub open spec fn composite(
    mesh: Seq<Triangle>,
    f: Seq<Seq<u8>>,
    z: Seq<Seq<i64>>,
) -> (Seq<Seq<u8>>, Seq<Seq<i64>>)
    decreases mesh.len(),
{
    if mesh.len() == 0 {
        (f, z)
    } else {
        composite(mesh.drop_first(), paint_frame(mesh[0], f, z), paint_depth(mesh[0], z))
    }
}

/// While a triangle's pixels are being written, a grid cell has been claimed
/// exactly when one of the first `n` reported pixels names it and the depth
/// stored before the triangle does not beat the triangle's depth.
spec fn claimed(px: Seq<Pixel>, n: int, t: Triangle, z_pre: Seq<Seq<i64>>, x: int, y: int) -> bool {
    &&& exists|j: int| 0 <= j < n && (#[trigger] px[j]).x == x && px[j].y == y
    &&& z_pre[y][x] >= t.depth
}

impl DisplayBuffer {
    /// Draws a mesh into the frame: for each triangle in order, its brightness
    /// is computed once from its shading angle, its covered pixels are
    /// enumerated, out-of-bounds pixels are skipped, and each in-bounds pixel
    /// is written unless a strictly nearer depth is already recorded there.
    /// The resulting frame is exactly the composite of the mesh over the old
    /// frame under a freshly reset depth buffer.
    pub fn draw_mesh(&mut self, mesh: &Vec<Triangle>)
        requires
            old(self).wf(),
            forall|i: int| 0 <= i < mesh@.len() ==> valid_triangle(#[trigger] mesh@[i]),
        ensures
            final(self).wf(),
            final(self).rows == old(self).rows,
            final(self).cols == old(self).cols,
            final(self)@ == composite(
                mesh@,
                old(self)@,
                max_depth_grid(old(self).rows as int, old(self).cols as int),
            ).0,
    {
        let rows = self.rows;
        let cols = self.cols;
        let mut zbuf = DepthBuffer::new(rows, cols);
        let ghost f0 = self@;
        let ghost z0 = zbuf@;
        proof {
            assert(mesh@.skip(0) =~= mesh@);
        }

        let mut ti: usize = 0;
        while ti < mesh.len()
            invariant
                self.wf(),
                zbuf.wf(),
                self.rows == rows,
                self.cols == cols,
                zbuf.rows == rows,
                zbuf.cols == cols,
                forall|i: int| 0 <= i < mesh@.len() ==> valid_triangle(#[trigger] mesh@[i]),
                0 <= ti <= mesh@.len(),
                composite(mesh@, f0, z0) == composite(mesh@.skip(ti as int), self@, zbuf@),
            decreases mesh@.len() - ti,
        {
            let t = mesh[ti];
            let ghost f_pre = self@;
            let ghost z_pre = zbuf@;
            let avg_z = t.depth;
            let brightness = get_brightness(t.angle);
            let px = get_triangle_pixels(&t);

            let mut pi: usize = 0;
            while pi < px.len()
                invariant
                    self.wf(),
                    zbuf.wf(),
                    self.rows == rows,
                    self.cols == cols,
                    zbuf.rows == rows,
                    zbuf.cols == cols,
                    0 <= pi <= px@.len(),
                    avg_z == t.depth,
                    brightness == tri_luma(t),
                    f_pre.len() == rows,
                    z_pre.len() == rows,
                    forall|y: int| 0 <= y < rows ==> (#[trigger] f_pre[y]).len() == cols,
                    forall|y: int| 0 <= y < rows ==> (#[trigger] z_pre[y]).len() == cols,
                    forall|p: Pixel|
                        #![trigger px@.contains(p)]
                        px@.contains(p) <==> covers(t, p.x as int, p.y as int),
                    forall|y: int, x: int|
                        0 <= y < rows && 0 <= x < cols ==> #[trigger] self@[y][x] == (
                        if claimed(px@, pi as int, t, z_pre, x, y) {
                            tri_luma(t)
                        } else {
                            f_pre[y][x]
                        }),
                    forall|y: int, x: int|
                        0 <= y < rows && 0 <= x < cols ==> #[trigger] zbuf@[y][x] == (
                        if claimed(px@, pi as int, t, z_pre, x, y) {
                            t.depth
                        } else {
                            z_pre[y][x]
                        }),
                decreases px@.len() - pi,
            {
                let p = px[pi];
                proof {
                    assert(px@.contains(px@[pi as int]));
                }
                if p.x >= 0 && p.y >= 0 && (p.x as usize) < cols && (p.y as usize) < rows {
                    let ux = p.x as usize;
                    let uy = p.y as usize;
                    let stored = zbuf.get(ux, uy);
                    if !(stored < avg_z) {
                        zbuf.set(ux, uy, avg_z);
                        self.set(ux, uy, brightness);
                    }
                }
                proof {
                    assert forall|y: int, x: int|
                        0 <= y < rows && 0 <= x < cols implies #[trigger] self@[y][x] == (
                    if claimed(px@, pi + 1, t, z_pre, x, y) {
                        tri_luma(t)
                    } else {
                        f_pre[y][x]
                    }) && #[trigger] zbuf@[y][x] == (if claimed(px@, pi + 1, t, z_pre, x, y) {
                        t.depth
                    } else {
                        z_pre[y][x]
                    }) by {
                        if x == p.x as int && y == p.y as int {
                            assert(claimed(px@, pi + 1, t, z_pre, x, y) == (z_pre[y][x]
                                >= t.depth));
                        } else {
                            assert(claimed(px@, pi + 1, t, z_pre, x, y) == claimed(
                                px@,
                                pi as int,
                                t,
                                z_pre,
                                x,
                                y,
                            ));
                        }
                    }
                }
                pi = pi + 1;
            }
            proof {
                assert forall|y: int, x: int| 0 <= y < rows && 0 <= x < cols implies (
                claimed(px@, px@.len() as int, t, z_pre, x, y) == (covers(t, x, y) && z_pre[y][x]
                    >= t.depth)) by {
                    if covers(t, x, y) {
                        lemma_covers_in_i32(t, x, y);
                        let q = Pixel { x: x as i32, y: y as i32 };
                        assert(px@.contains(q));
                        let j = choose|j: int| 0 <= j < px@.len() && px@[j] == q;
                        assert(px@[j].x == x && px@[j].y == y);
                    }
                    if exists|j: int|
                        0 <= j < px@.len() && (#[trigger] px@[j]).x == x && px@[j].y == y {
                        let j = choose|j: int|
                            0 <= j < px@.len() && (#[trigger] px@[j]).x == x && px@[j].y == y;
                        assert(px@.contains(px@[j]));
                        assert(covers(t, x, y));
                    }
                }
                assert(self@ =~~= paint_frame(t, f_pre, z_pre));
                assert(zbuf@ =~~= paint_depth(t, z_pre));
                assert(mesh@.skip(ti as int).drop_first() =~= mesh@.skip(ti + 1));
                assert(mesh@.skip(ti as int)[0] == mesh@[ti as int]);
            }
            ti = ti + 1;
        }
        proof {
            assert(mesh@.skip(mesh@.len() as int) =~= Seq::<Triangle>::empty());
        }
    }
}

/// Nearest-wins is order-independent for strictly ordered depths: two
/// overlapping triangles drawn into a fresh frame leave the nearer triangle's
/// brightness at a pixel they both cover, whichever is drawn first.
pub proof fn lemma_depth_ordering(
    near: Triangle,
    far: Triangle,
    f: Seq<Seq<u8>>,
    rows: int,
    cols: int,
    x: int,
    y: int,
)
    requires
        rows == f.len(),
        forall|i: int| 0 <= i < rows ==> (#[trigger] f[i]).len() == cols,
        0 <= y < rows,
        0 <= x < cols,
        covers(near, x, y),
        covers(far, x, y),
        near.depth < far.depth,
    ensures
        composite(seq![near, far], f, max_depth_grid(rows, cols)).0[y][x] == tri_luma(near),
        composite(seq![far, near], f, max_depth_grid(rows, cols)).0[y][x] == tri_luma(near),
{
    let z0 = max_depth_grid(rows, cols);
    lemma_two_triangles(near, far, f, z0);
    lemma_two_triangles(far, near, f, z0);
    assert(paint_frame(near, f, z0)[y][x] == tri_luma(near));
    assert(paint_depth(near, z0)[y][x] == near.depth);
    assert(paint_frame(far, paint_frame(near, f, z0), paint_depth(near, z0))[y][x] == tri_luma(
        near,
    ));
    assert(paint_frame(far, f, z0)[y][x] == tri_luma(far));
    assert(paint_depth(far, z0)[y][x] == far.depth);
    assert(paint_frame(near, paint_frame(far, f, z0), paint_depth(far, z0))[y][x] == tri_luma(
        near,
    ));
}

/// Drawing a two-triangle mesh is painting the first and then the second.
proof fn lemma_two_triangles(a: Triangle, b: Triangle, f: Seq<Seq<u8>>, z: Seq<Seq<i64>>)
    ensures
        composite(seq![a, b], f, z).0 == paint_frame(b, paint_frame(a, f, z), paint_depth(a, z)),
{
    let m = seq![a, b];
    assert(m.drop_first() =~= seq![b]);
    assert(seq![b].drop_first() =~= Seq::<Triangle>::empty());
    assert(m[0] == a);
    assert(seq![b][0] == b);
    let pf1 = paint_frame(a, f, z);
    let pd1 = paint_depth(a, z);
    assert(composite(m, f, z) == composite(seq![b], pf1, pd1));
    assert(composite(seq![b], pf1, pd1) == composite(
        Seq::<Triangle>::empty(),
        paint_frame(b, pf1, pd1),
        paint_depth(b, pd1),
    ));
}

/// Rendering is a function of the mesh and the freshly reset buffers alone:
/// the same mesh drawn over equal frame and depth grids yields equal results,
/// so re-rendering a static mesh into reset buffers reproduces the frame
/// byte for byte.
pub proof fn lemma_rerender_identical(
    mesh: Seq<Triangle>,
    f1: Seq<Seq<u8>>,
    z1: Seq<Seq<i64>>,
    f2: Seq<Seq<u8>>,
    z2: Seq<Seq<i64>>,
)
    requires
        f1 == f2,
        z1 == z2,
    ensures
        composite(mesh, f1, z1) == composite(mesh, f2, z2),
{
}

} // verus!
