//! The {p,q} tiling parameters.

use vstd::prelude::*;

verus! {

/// {p,q} tiling: p sides per polygon, q polygons meeting at each vertex.
/// The tiling is hyperbolic when (p-2)(q-2) > 4.
#[derive(Clone, Copy, Debug)]
pub struct TilingConfig {
    pub p: u32,
    pub q: u32,
}

/// `{p,q}` tiles the hyperbolic plane.
pub open spec fn hyperbolic(p: int, q: int) -> bool {
    p >= 2 && q >= 2 && (p - 2) * (q - 2) > 4
}

/// Whether `{p,q}` tiles the hyperbolic plane.
pub fn is_hyperbolic(p: u32, q: u32) -> (r: bool)
    ensures
        r == hyperbolic(p as int, q as int),
{
    if p < 2 || q < 2 {
        return false;
    }
    let a = (p - 2) as u64;
    let b = (q - 2) as u64;
    assert(a * b <= 0xffff_ffff * 0xffff_ffff) by (nonlinear_arith)
        requires
            a <= 0xffff_ffff,
            b <= 0xffff_ffff,
    ;
    a * b > 4
}

impl TilingConfig {
    pub fn new(p: u32, q: u32) -> (r: Self)
        requires
            hyperbolic(p as int, q as int),
            (p - 2) * (q - 2) <= u32::MAX,
        ensures
            r.p == p,
            r.q == q,
    {
        TilingConfig { p, q }
    }
}

} // verus!
