use vstd::prelude::*;

verus! {

/// The two corners, besides the center, of the triangle of a hexagonal lens
/// that the random number `r` selects: corners `k` and `k + 1` (mod 6) for
/// `k = r mod 6`.
pub fn hex_corners(r: u32) -> (c: (u32, u32))
    ensures
        c.0 == r % 6,
        c.1 == (r % 6 + 1) % 6,
        c.0 < 6 && c.1 < 6,
{
    let p = r % 6;
    let q = if p == 5 { 0 } else { p + 1 };
    (p, q)
}

/// Index, along one sensor axis, of sub-pixel `s` of pixel `p` on a sensor of
/// `n` pixels with `sspp` sub-pixels per pixel; `mirrored` counts pixels from
/// the far end, as the image through a lens is inverted.
pub fn sensor_cell(p: u32, s: u32, n: u32, sspp: u32, mirrored: bool) -> (r: u64)
    requires
        p < n,
        s < sspp,
    ensures
        !mirrored ==> r == p * sspp + s,
        mirrored ==> r == (n - 1 - p) * sspp + s,
{
    let q: u64 = if mirrored { (n - 1 - p) as u64 } else { p as u64 };
    proof {
        assert(q * sspp <= (u32::MAX as int) * (u32::MAX as int)) by (nonlinear_arith)
            requires q <= u32::MAX, sspp <= u32::MAX;
    }
    q * (sspp as u64) + s as u64
}

/// Number of paths traced per pixel: `spp` for each of the `sspp * sspp`
/// sub-pixels.
pub fn samples_per_pixel(spp: u32, sspp: u32) -> (r: u128)
    ensures
        r == spp * sspp * sspp,
{
    let a: u128 = sspp as u128;
    proof {
        assert(a * a <= (u32::MAX as int) * (u32::MAX as int)) by (nonlinear_arith)
            requires a <= u32::MAX;
        assert((spp as int) * (a * a) <= (u32::MAX as int) * ((u32::MAX as int) * (u32::MAX as int))) by (nonlinear_arith)
            requires spp <= u32::MAX, a * a <= (u32::MAX as int) * (u32::MAX as int);
        assert((spp as int) * (a * a) == spp * sspp * sspp) by (nonlinear_arith)
            requires a == sspp;
    }
    (spp as u128) * (a * a)
}

} // verus!
