use vstd::prelude::*;

verus! {

/// The larger of a size and 1.
pub open spec fn at_least_one(x: u32) -> u32 {
    if x >= 1 {
        x
    } else {
        1
    }
}

/// A resize request is applied only when both sides are non-zero; a zero
/// side (a hidden or collapsed canvas) leaves everything as it was.
pub fn accepts_resize(width: u32, height: u32) -> (r: bool)
    ensures
        r == (width != 0 && height != 0),
{
    !(width == 0 || height == 0)
}

/// The size of the full-resolution render targets and of the surface: each
/// side at least 1.
pub fn render_extent(width: u32, height: u32) -> (r: (u32, u32))
    ensures
        r.0 == at_least_one(width),
        r.1 == at_least_one(height),
{
    (if width >= 1 { width } else { 1 }, if height >= 1 { height } else { 1 })
}

/// The side of the half-resolution bloom targets: half of the side taken as
/// at least 1, and itself at least 1.
pub fn bloom_target_side(side: u32) -> (r: u32)
    ensures
        r == at_least_one((at_least_one(side) / 2) as u32),
{
    let s = if side >= 1 { side } else { 1 };
    let h = s / 2;
    if h >= 1 { h } else { 1 }
}

/// The side the bloom blur passes take their texel size from: half of the
/// side taken as at least 2.
pub fn bloom_texel_side(side: u32) -> (r: u32)
    ensures
        r == (if side >= 2 { side } else { 2 }) / 2,
{
    let s = if side >= 2 { side } else { 2 };
    s / 2
}

/// The bloom blur steps by one texel of the bloom targets: for every side, the
/// side the texel size is taken from equals the side of the bloom targets.
pub proof fn law_bloom_texel_matches_target(side: u32)
    ensures
        (if side >= 2 { side } else { 2 }) / 2 == at_least_one((at_least_one(side) / 2) as u32),
        at_least_one((at_least_one(side) / 2) as u32) >= 1,
{
}

/// Which of the surface's supported formats to render to, given for each
/// whether it is an sRGB format: the first one that is not sRGB (so that the
/// tonemap pass applies its own gamma), or the first one when all are sRGB.
pub fn preferred_surface_format(is_srgb: &[bool]) -> (r: usize)
    requires
        is_srgb@.len() > 0,
    ensures
        r < is_srgb@.len(),
        forall|k: int| 0 <= k < r ==> #[trigger] is_srgb@[k],
        !is_srgb@[r as int] || (r == 0 && forall|k: int|
            0 <= k < is_srgb@.len() ==> #[trigger] is_srgb@[k]),
{
    let n = is_srgb.len();
    for k in 0..n
        invariant
            n == is_srgb@.len(),
            forall|j: int| 0 <= j < k ==> #[trigger] is_srgb@[j],
    {
        if !is_srgb[k] {
            return k;
        }
    }
    0
}

} // verus!
