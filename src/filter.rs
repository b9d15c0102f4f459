use vstd::prelude::*;

verus! {

/// Width of the square window of a denoising filter whose spatial standard
/// deviation is `sigma_s` pixels: two deviations on each side of the center.
pub fn kernel_size(sigma_s: u32) -> (r: u32)
    requires
        4 * sigma_s + 1 <= u32::MAX,
    ensures
        r == 4 * sigma_s + 1,
{
    4 * sigma_s + 1
}

/// First coordinate of a window of radius `d` around `c`, clipped at 0.
pub open spec fn window_lo(c: int, d: int) -> int {
    if c >= d {
        c - d
    } else {
        0
    }
}

/// Last coordinate of a window of radius `d` around `c`, clipped at `n - 1`.
pub open spec fn window_hi(c: int, d: int, n: int) -> int {
    if c + d <= n - 1 {
        c + d
    } else {
        n - 1
    }
}

/// Squared distance between pixels `(x, y)` and `(u, v)`.
pub open spec fn dist_sq(x: int, y: int, u: int, v: int) -> int {
    (x - u) * (x - u) + (y - v) * (y - v)
}

/// The pixels of row `y` inside the window of radius `d` around `(u, v)` on
/// an image `w` pixels wide, left to right, each as (row-major index,
/// squared distance to the center).
pub open spec fn window_row(u: int, v: int, w: int, d: int, y: int) -> Seq<(usize, u64)> {
    let x0 = window_lo(u, d);
    let x1 = window_hi(u, d, w);
    Seq::new((x1 - x0 + 1) as nat, |i: int| ((y * w + x0 + i) as usize, dist_sq(x0 + i, y, u, v) as u64))
}

/// The rows of the window from its first row up to, not including, `y_end`.
pub open spec fn window_rows(u: int, v: int, w: int, h: int, d: int, y_end: int) -> Seq<(usize, u64)>
    decreases y_end - window_lo(v, d),
{
    if y_end <= window_lo(v, d) {
        Seq::empty()
    } else {
        window_rows(u, v, w, h, d, y_end - 1) + window_row(u, v, w, d, y_end - 1)
    }
}

/// The pixels of a `w` by `h` image within `d` rows and `d` columns of
/// `(u, v)`, top to bottom and left to right, each with its row-major index
/// and its squared distance to `(u, v)`.
pub fn window(u: usize, v: usize, w: usize, h: usize, d: usize) -> (r: Vec<(usize, u64)>)
    requires
        u < w,
        v < h,
        w * h <= usize::MAX,
        d < 0x8000_0000,
    ensures
        r@ == window_rows(u as int, v as int, w as int, h as int, d as int, window_hi(v as int, d as int, h as int) + 1),
{
    let x0: usize = if u >= d { u - d } else { 0 };
    let x1: usize = if d <= w - 1 - u { u + d } else { w - 1 };
    let y0: usize = if v >= d { v - d } else { 0 };
    let y1: usize = if d <= h - 1 - v { v + d } else { h - 1 };
    let ghost (ui, vi, wi, hi, di) = (u as int, v as int, w as int, h as int, d as int);
    let mut r: Vec<(usize, u64)> = Vec::new();
    let mut y: usize = y0;
    while y <= y1
        invariant
            ui == u && vi == v && wi == w && hi == h && di == d,
            x0 == window_lo(ui, di),
            x1 == window_hi(ui, di, wi),
            y0 == window_lo(vi, di),
            y1 == window_hi(vi, di, hi),
            u < w,
            v < h,
            w * h <= usize::MAX,
            d < 0x8000_0000,
            y0 <= y <= y1 + 1,
            y1 < h,
            x1 < w,
            x0 <= u <= x1,
            y0 <= v <= y1,
            x1 <= u + d,
            u <= x0 + d,
            y1 <= v + d,
            v <= y0 + d,
            r@ == window_rows(ui, vi, wi, hi, di, y as int),
        decreases y1 + 1 - y,
    {
        let ghost before = r@;
        let mut x: usize = x0;
        while x <= x1
            invariant
                ui == u && vi == v && wi == w && hi == h && di == d,
                x0 == window_lo(ui, di),
                x1 == window_hi(ui, di, wi),
                y0 <= y <= y1,
                y1 < h,
                x1 < w,
                x0 <= u <= x1,
                y0 <= v <= y1,
                x1 <= u + d,
                u <= x0 + d,
                y1 <= v + d,
                v <= y0 + d,
                u < w,
                v < h,
                w * h <= usize::MAX,
                d < 0x8000_0000,
                x0 <= x <= x1 + 1,
                r@ == before + window_row(ui, vi, wi, di, y as int).take(x - x0),
            decreases x1 + 1 - x,
        {
            proof {
                assert((y as int) * (w as int) + (x as int) < (h as int) * (w as int)) by (nonlinear_arith)
                    requires y < h, x < w;
            }
            let idx: usize = y * w + x;
            let dx: u64 = if x >= u { (x - u) as u64 } else { (u - x) as u64 };
            let dy: u64 = if y >= v { (y - v) as u64 } else { (v - y) as u64 };
            proof {
                assert(dx * dx + dy * dy < 0x8000_0000_0000_0000) by (nonlinear_arith)
                    requires dx < 0x8000_0000, dy < 0x8000_0000;
                let (xi, yi) = (x as int, y as int);
                assert(dx * dx + dy * dy == (xi - ui) * (xi - ui) + (yi - vi) * (yi - vi)) by (nonlinear_arith)
                    requires
                        dx == xi - ui || dx == ui - xi,
                        dy == yi - vi || dy == vi - yi,
                ;
            }
            let dsq: u64 = dx * dx + dy * dy;
            r.push((idx, dsq));
            proof {
                let row = window_row(ui, vi, wi, di, y as int);
                assert(row.take(x - x0 + 1) =~= row.take(x - x0).push(row[x - x0]));
                assert(row[x - x0] == (idx, dsq));
            }
            x = x + 1;
        }
        proof {
            let row = window_row(ui, vi, wi, di, y as int);
            assert(row.take(x - x0) =~= row);
        }
        y = y + 1;
    }
    r
}

} // verus!
