//! Where a finished unit leaves its factory: exit cells from the factory's
//! exit coordinate, or around its foundation.

use vstd::prelude::*;
use crate::pathfinding::foundation::foundation_dimensions;

verus! {

/// Cell offset nearest to a lepton offset (256 leptons per cell), halves
/// rounded away from zero, taken as a 16-bit number.
pub open spec fn spec_lepton_to_cell(leptons: i32) -> i16 {
    let rounded: int = if leptons >= 0 {
        (leptons + 128) / 256
    } else {
        -((128 - leptons) / 256)
    };
    rounded as i16
}

/// Convert a lepton offset to the nearest cell offset.
pub fn lepton_to_cell(leptons: i32) -> (r: i16)
    requires
        i32::MIN + 128 <= leptons <= i32::MAX - 128,
    ensures
        r == spec_lepton_to_cell(leptons),
{
    let rounded: i32 = if leptons >= 0 {
        (leptons + 128) / 256
    } else {
        let m: i64 = (128 - leptons as i64) / 256;
        -(m as i32)
    };
    #[verifier::truncate]
    (rounded as i16)
}

/// A primary exit cell and its eight neighbours, primary first.
pub open spec fn spec_exit_candidates(cx: i16, cy: i16) -> Seq<(i16, i16)> {
    seq![
        (cx, cy),
        ((cx + 1) as i16, cy),
        ((cx - 1) as i16, cy),
        (cx, (cy + 1) as i16),
        (cx, (cy - 1) as i16),
        ((cx + 1) as i16, (cy + 1) as i16),
        ((cx - 1) as i16, (cy + 1) as i16),
        ((cx + 1) as i16, (cy - 1) as i16),
        ((cx - 1) as i16, (cy - 1) as i16),
    ]
}

/// Exit candidates around a primary exit cell: the cell itself, then its
/// four side neighbours, then its four corners, as fallbacks when the
/// primary cell is blocked.
pub fn exit_candidates_around(cx: i16, cy: i16) -> (r: Vec<(i16, i16)>)
    requires
        i16::MIN < cx < i16::MAX,
        i16::MIN < cy < i16::MAX,
    ensures
        r@ == spec_exit_candidates(cx, cy),
{
    let r = vec![
        (cx, cy),
        (cx + 1, cy),
        (cx - 1, cy),
        (cx, cy + 1),
        (cx, cy - 1),
        (cx + 1, cy + 1),
        (cx - 1, cy + 1),
        (cx + 1, cy - 1),
        (cx - 1, cy - 1),
    ];
    assert(r@ =~= spec_exit_candidates(cx, cy));
    r
}

/// `n` when positive, else 0.
pub open spec fn count_of(n: i16) -> nat {
    if n > 0 {
        n as nat
    } else {
        0
    }
}

/// Exit offsets around a `w` by `h` foundation: the bottom edge (row `h`),
/// the right edge (column `w`), the top edge (row -1), the left edge
/// (column -1), then the four outside corners.
pub open spec fn spec_perimeter_offsets(w: i16, h: i16) -> Seq<(i16, i16)> {
    Seq::new(count_of(w), |i: int| (i as i16, h)) + Seq::new(count_of(h), |i: int| (w, i as i16))
        + Seq::new(count_of(w), |i: int| (i as i16, -1i16)) + Seq::new(
        count_of(h),
        |i: int| (-1i16, i as i16),
    ) + seq![(w, h), (-1i16, -1i16), (w, -1i16), (-1i16, h)]
}

/// The sizes for which the perimeter list's capacity is a valid 16-bit
/// count.
pub open spec fn perimeter_fits(w: i16, h: i16) -> bool {
    0 <= (w + h) * 2 + 8 <= i16::MAX
}

/// Append `(i, row)` for `i` in `0..n` (or `(col, i)` when `column`).
fn push_edge(v: &mut Vec<(i16, i16)>, n: i16, fixed: i16, column: bool)
    ensures
        final(v)@ == old(v)@ + Seq::new(
            count_of(n),
            |i: int|
                if column {
                    (fixed, i as i16)
                } else {
                    (i as i16, fixed)
                },
        ),
{
    let ghost start = v@;
    let mut i: i16 = 0;
    while i < n
        invariant
            0 <= i,
            i <= (if n > 0 {
                n
            } else {
                0
            }),
            v@ == start + Seq::new(
                i as nat,
                |k: int|
                    if column {
                        (fixed, k as i16)
                    } else {
                        (k as i16, fixed)
                    },
            ),
        decreases n - i,
    {
        if column {
            v.push((fixed, i));
        } else {
            v.push((i, fixed));
        }
        i = i + 1;
    }
    assert(i as nat == count_of(n));
}

/// Exit offsets around the perimeter of a `w` by `h` foundation: bottom
/// edge first, then the right edge, then the other sides and the corners.
pub fn foundation_perimeter_offsets(w: i16, h: i16) -> (r: Vec<(i16, i16)>)
    requires
        perimeter_fits(w, h),
    ensures
        r@ == spec_perimeter_offsets(w, h),
{
    let mut offsets: Vec<(i16, i16)> = Vec::new();
    push_edge(&mut offsets, w, h, false);
    push_edge(&mut offsets, h, w, true);
    push_edge(&mut offsets, w, -1, false);
    push_edge(&mut offsets, h, -1, true);
    offsets.push((w, h));
    offsets.push((-1, -1));
    offsets.push((w, -1));
    offsets.push((-1, h));
    assert(offsets@ =~= spec_perimeter_offsets(w, h));
    offsets
}

/// What the exit logic reads of a factory's type: its exit coordinate in
/// leptons, if it has one, and its foundation.
pub struct FactoryExit {
    pub exit_coord: Option<(i32, i32, i32)>,
    pub foundation: String,
}

/// The exit offsets of a factory type: the candidates around its exit
/// coordinate when it has one, else its foundation's perimeter (a 2 by 2
/// foundation for an unknown type). Foundation sizes are taken as 16-bit
/// signed numbers.
pub open spec fn spec_preferred_exit_offsets(
    exit_coord: Option<(i32, i32, i32)>,
    foundation: Option<Seq<u8>>,
) -> Seq<(i16, i16)> {
    match foundation {
        None => spec_perimeter_offsets(2, 2),
        Some(f) => match exit_coord {
            Some((lx, ly, lz)) => spec_exit_candidates(
                spec_lepton_to_cell(lx),
                spec_lepton_to_cell(ly),
            ),
            None => {
                let (w, h) = crate::pathfinding::foundation::spec_foundation_dimensions(f);
                spec_perimeter_offsets(w as i16, h as i16)
            },
        },
    }
}

/// The exit offsets of a factory type can be computed without overflow.
pub open spec fn exit_inputs_fit(exit: Option<&FactoryExit>) -> bool {
    match exit {
        None => true,
        Some(e) => match e.exit_coord {
            Some((lx, ly, lz)) => {
                &&& i32::MIN + 128 <= lx <= i32::MAX - 128
                &&& i32::MIN + 128 <= ly <= i32::MAX - 128
                &&& i16::MIN < spec_lepton_to_cell(lx) < i16::MAX
                &&& i16::MIN < spec_lepton_to_cell(ly) < i16::MAX
            },
            None => {
                let (w, h) = crate::pathfinding::foundation::spec_foundation_dimensions(
                    vstd::utf8::encode_utf8(e.foundation@),
                );
                perimeter_fits(w as i16, h as i16)
            },
        },
    }
}

/// Exit cell offsets for a factory whose type is `exit` (`None` for a type
/// the rules do not know).
pub fn preferred_exit_offsets(exit: Option<&FactoryExit>) -> (r: Vec<(i16, i16)>)
    requires
        exit_inputs_fit(exit),
    ensures
        r@ == spec_preferred_exit_offsets(
            match exit {
                Some(e) => e.exit_coord,
                None => None,
            },
            match exit {
                Some(e) => Some(vstd::utf8::encode_utf8(e.foundation@)),
                None => None,
            },
        ),
{
    match exit {
        None => foundation_perimeter_offsets(2, 2),
        Some(e) => match e.exit_coord {
            Some((lx, ly, _lz)) => {
                let px = lepton_to_cell(lx);
                let py = lepton_to_cell(ly);
                exit_candidates_around(px, py)
            },
            None => {
                let (w, h) = foundation_dimensions(e.foundation.as_str());
                foundation_perimeter_offsets(w as i16, h as i16)
            },
        },
    }
}

/// The cell at an offset from a base cell: `None` when either coordinate
/// would be negative; coordinates are taken as 16-bit numbers.
pub open spec fn spec_add_cell_offset(base_rx: u16, base_ry: u16, ox: i16, oy: i16) -> Option<
    (u16, u16),
> {
    let rx: int = base_rx + ox;
    let ry: int = base_ry + oy;
    if rx < 0 || ry < 0 {
        None
    } else {
        Some((rx as u16, ry as u16))
    }
}

/// Apply a cell offset to a base cell.
pub fn add_cell_offset(base_rx: u16, base_ry: u16, ox: i16, oy: i16) -> (r: Option<(u16, u16)>)
    ensures
        r == spec_add_cell_offset(base_rx, base_ry, ox, oy),
{
    let rx: i32 = base_rx as i32 + ox as i32;
    let ry: i32 = base_ry as i32 + oy as i32;
    if rx < 0 || ry < 0 {
        return None;
    }
    Some((rx as u16, ry as u16))
}

/// A lepton offset goes to the nearest cell (256 leptons per cell): the
/// cell's center is at most half a cell away, a half rounds away from zero,
/// and the rounding is symmetric around zero.
pub proof fn law_lepton_to_nearest_cell(leptons: i32)
    requires
        -256 * 32767 <= leptons <= 256 * 32767,
    ensures
        -128 <= leptons - 256 * spec_lepton_to_cell(leptons) <= 128,
        leptons - 256 * spec_lepton_to_cell(leptons) == 128 ==> leptons < 0,
        leptons - 256 * spec_lepton_to_cell(leptons) == -128 ==> leptons > 0,
        spec_lepton_to_cell(-leptons as i32) == -spec_lepton_to_cell(leptons),
{
    let l = leptons as int;
    if l >= 0 {
        assert(0 <= (l + 128) / 256 <= 32767);
        vstd::arithmetic::div_mod::lemma_fundamental_div_mod(l + 128, 256);
    } else {
        assert(0 <= (128 - l) / 256 <= 32767);
        vstd::arithmetic::div_mod::lemma_fundamental_div_mod(128 - l, 256);
    }
    vstd::arithmetic::div_mod::lemma_fundamental_div_mod(128 + l, 256);
    vstd::arithmetic::div_mod::lemma_fundamental_div_mod(128 - l, 256);
}

/// The exit candidates: the primary cell first, then its four side
/// neighbours, then its four corners; nine cells, no two alike, every
/// fallback next to the primary cell.
pub proof fn law_exit_candidates_ring_the_exit(cx: i16, cy: i16)
    requires
        i16::MIN < cx < i16::MAX,
        i16::MIN < cy < i16::MAX,
    ensures
        ({
            let s = spec_exit_candidates(cx, cy);
            &&& s.len() == 9
            &&& s[0] == (cx, cy)
            &&& forall|k: int| 1 <= k < 9 ==> -1 <= (#[trigger] s[k]).0 - cx <= 1 && -1 <= s[k].1 - cy <= 1
            &&& forall|k: int| 1 <= k < 5 ==> ((#[trigger] s[k]).0 == cx) != (s[k].1 == cy)
            &&& forall|k: int| 5 <= k < 9 ==> (#[trigger] s[k]).0 != cx && s[k].1 != cy
            &&& s.no_duplicates()
        }),
{
    let s = spec_exit_candidates(cx, cy);
    assert(s[1] == ((cx + 1) as i16, cy) && s[2] == ((cx - 1) as i16, cy) && s[3] == (cx, (cy + 1) as i16) && s[4] == (
    cx, (cy - 1) as i16));
    assert(s[5] == ((cx + 1) as i16, (cy + 1) as i16) && s[6] == ((cx - 1) as i16, (cy + 1) as i16) && s[7] == (
    (cx + 1) as i16, (cy - 1) as i16) && s[8] == ((cx - 1) as i16, (cy - 1) as i16));
    assert forall|i: int, j: int| 0 <= i < s.len() && 0 <= j < s.len() && i != j implies s[i] != s[j] by {
    }
}

/// Applying an offset moves the cell by exactly that offset, and fails
/// exactly when a coordinate would be negative.
pub proof fn law_cell_offset_moves_by_offset(base_rx: u16, base_ry: u16, ox: i16, oy: i16)
    ensures
        spec_add_cell_offset(base_rx, base_ry, ox, oy) is None <==> (base_rx + ox < 0 || base_ry + oy < 0),
        (base_rx + ox <= u16::MAX && base_ry + oy <= u16::MAX) ==> (spec_add_cell_offset(base_rx, base_ry, ox, oy) matches Some(
            c,
        ) ==> c.0 == base_rx + ox && c.1 == base_ry + oy),
        spec_add_cell_offset(base_rx, base_ry, 0, 0) == Some((base_rx, base_ry)),
{
}

} // verus!
