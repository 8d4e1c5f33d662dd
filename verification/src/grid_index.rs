//! Row-major cell indexing shared by the grids.

use vstd::prelude::*;

verus! {

/// Row-major index of `(x, y)` in a grid of width `w`.
pub open spec fn cell_index(x: int, y: int, w: int) -> int {
    y * w + x
}

/// A cell inside a `w` by `h` grid has an index below `w * h`.
pub proof fn lemma_index_in_bounds(x: int, y: int, w: int, h: int)
    requires
        0 <= x < w,
        0 <= y < h,
    ensures
        0 <= y * w + x < w * h,
        y * w + x <= y * w + w - 1,
        (y + 1) * w <= w * h,
{
    assert(0 <= y * w) by (nonlinear_arith)
        requires
            0 <= y,
            0 < w,
    ;
    assert((y + 1) * w <= h * w) by (nonlinear_arith)
        requires
            y + 1 <= h,
            0 < w,
    ;
    assert(y * w + w == (y + 1) * w) by (nonlinear_arith);
    assert(h * w == w * h) by (nonlinear_arith);
}

/// The coordinates of a cell are recovered from its index.
pub proof fn lemma_index_coords(x: int, y: int, w: int)
    requires
        0 <= x < w,
        0 <= y,
    ensures
        (y * w + x) % w == x,
        (y * w + x) / w == y,
{
    vstd::arithmetic::div_mod::lemma_fundamental_div_mod_converse(y * w + x, w, y, x);
}

/// Indices decompose back into coordinates.
pub proof fn lemma_index_decompose(idx: int, w: int, h: int)
    requires
        0 <= idx < w * h,
        0 < w,
    ensures
        0 <= idx % w < w,
        0 <= idx / w < h,
        (idx / w) * w + idx % w == idx,
{
    assert(idx == w * (idx / w) + idx % w) by (nonlinear_arith)
        requires
            0 < w,
    ;
    assert((idx / w) * w == w * (idx / w)) by (nonlinear_arith);
    assert(0 <= idx % w < w) by (nonlinear_arith)
        requires
            0 < w,
    ;
    assert(idx / w < h) by (nonlinear_arith)
        requires
            0 <= idx < w * h,
            0 < w,
    ;
    assert(0 <= idx / w) by (nonlinear_arith)
        requires
            0 <= idx,
            0 < w,
    ;
}

} // verus!

verus! {

/// Whether an optional cell set contains `c` (`None` contains nothing).
pub open spec fn opt_set_has(s: Option<&std::collections::BTreeSet<(u16, u16)>>, c: (u16, u16)) -> bool {
    match s {
        Some(b) => b@.contains(c),
        None => false,
    }
}

/// Membership test on an optional cell set.
pub fn opt_set_contains(s: Option<&std::collections::BTreeSet<(u16, u16)>>, c: (u16, u16)) -> (r: bool)
    ensures
        r == opt_set_has(s, c),
{
    match s {
        Some(b) => b.contains(&c),
        None => false,
    }
}

/// Chebyshev distance between two cells.
pub open spec fn chebyshev(ax: int, ay: int, bx: int, by: int) -> int {
    let dx = if ax >= bx { ax - bx } else { bx - ax };
    let dy = if ay >= by { ay - by } else { by - ay };
    if dx >= dy { dx } else { dy }
}

} // verus!
