//! The 3x3 cell square around a target cell, used by area superweapons.

use vstd::prelude::*;

verus! {

/// `v` restricted to the 16-bit coordinate range.
pub open spec fn clamp_coord(v: int) -> u16 {
    if v < 0 {
        0
    } else if v > 65535 {
        65535
    } else {
        v as u16
    }
}

/// The `k`-th cell (row by row, from the north-west corner) of the 3x3
/// square centred on `(cx, cy)`, each coordinate saturated to `0..=65535`.
pub open spec fn grid_cell(cx: u16, cy: u16, k: int) -> (u16, u16) {
    (clamp_coord(cx + (k % 3 - 1)), clamp_coord(cy + (k / 3 - 1)))
}

/// The nine cells of the 3x3 square centred on `(center_rx, center_ry)`, row
/// by row from the north-west corner; coordinates saturate at the ends of
/// the 16-bit range.
pub fn iter_cells_3x3(center_rx: u16, center_ry: u16) -> (r: Vec<(u16, u16)>)
    ensures
        r@.len() == 9,
        forall|k: int| 0 <= k < 9 ==> #[trigger] r@[k] == grid_cell(center_rx, center_ry, k),
{
    let mut out: Vec<(u16, u16)> = Vec::new();
    let mut k: i32 = 0;
    while k < 9
        invariant
            0 <= k <= 9,
            out@.len() == k,
            forall|j: int| 0 <= j < k ==> #[trigger] out@[j] == grid_cell(center_rx, center_ry, j),
        decreases 9 - k,
    {
        let dx = k % 3 - 1;
        let dy = k / 3 - 1;
        let x = center_rx as i32 + dx;
        let y = center_ry as i32 + dy;
        let rx: u16 = if x < 0 {
            0
        } else if x > 65535 {
            65535
        } else {
            x as u16
        };
        let ry: u16 = if y < 0 {
            0
        } else if y > 65535 {
            65535
        } else {
            y as u16
        };
        out.push((rx, ry));
        k = k + 1;
    }
    out
}

} // verus!
