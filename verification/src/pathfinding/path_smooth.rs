//! Path post-processing: zigzag smoothing and drift correction.
//!
//! Zigzag smoothing cuts 90-degree turns: north then east becomes one
//! north-east step, and north-east then south-east becomes two east steps
//! through the cell halfway between the turn's ends, when the closure finds
//! the shortcut walkable. Drift correction looks for stretches whose displacement strays
//! from the straight line between their ends and reroutes them.
//!
//! Walkability is handed in as a closure.

use crate::grid_index::chebyshev;
use crate::movement::MovementLayer;
use vstd::prelude::*;

verus! {

/// Marker for "not an 8-neighbour step".
pub const DIR_INVALID: u8 = 255;

/// Horizontal step of compass direction `d` (N=0, NE=1, ... NW=7).
pub open spec fn dir_dx(d: u8) -> int {
    if d == 1 || d == 2 || d == 3 {
        1
    } else if d == 5 || d == 6 || d == 7 {
        -1
    } else {
        0
    }
}

/// Vertical step of compass direction `d` (north is negative).
pub open spec fn dir_dy(d: u8) -> int {
    if d == 7 || d == 0 || d == 1 {
        -1
    } else if d == 3 || d == 4 || d == 5 {
        1
    } else {
        0
    }
}

/// The compass direction of the step from `a` to `b`, or `DIR_INVALID`
/// when the cells are not 8-neighbours.
pub open spec fn spec_direction(a: (u16, u16), b: (u16, u16)) -> u8 {
    let dx = b.0 - a.0;
    let dy = b.1 - a.1;
    if dx == 0 && dy == -1 {
        0
    } else if dx == 1 && dy == -1 {
        1
    } else if dx == 1 && dy == 0 {
        2
    } else if dx == 1 && dy == 1 {
        3
    } else if dx == 0 && dy == 1 {
        4
    } else if dx == -1 && dy == 1 {
        5
    } else if dx == -1 && dy == 0 {
        6
    } else if dx == -1 && dy == -1 {
        7
    } else {
        DIR_INVALID
    }
}

/// Angular distance of two directions on the 8-direction wheel (0 to 4).
pub open spec fn spec_dir_diff(a: u8, b: u8) -> int {
    let raw = if a >= b {
        a - b
    } else {
        b - a
    };
    if raw <= 8 - raw {
        raw
    } else {
        8 - raw
    }
}

/// Whether a direction is diagonal.
pub open spec fn spec_is_diagonal(d: u8) -> bool {
    d < 8 && d % 2 == 1
}

/// The direction halfway between two directions two apart.
pub open spec fn spec_midpoint_dir(a: u8, b: u8) -> u8 {
    let lo = if a <= b {
        a
    } else {
        b
    };
    let hi = if a <= b {
        b
    } else {
        a
    };
    if hi - lo == 2 {
        (lo + 1) as u8
    } else {
        ((hi + 1) % 8) as u8
    }
}

/// The cell one step from `a` in direction `d` (coordinates wrap at the
/// edges of the 16-bit range).
pub open spec fn step_from(a: (u16, u16), d: u8) -> (u16, u16) {
    ((a.0 + dir_dx(d)) as u16, (a.1 + dir_dy(d)) as u16)
}

/// Whether cells `a`, `b`, `c` make a 90-degree turn: two 8-neighbour steps
/// whose directions are two apart.
pub open spec fn is_turn(a: (u16, u16), b: (u16, u16), c: (u16, u16)) -> bool {
    let d0 = spec_direction(a, b);
    let d1 = spec_direction(b, c);
    &&& d0 != DIR_INVALID
    &&& d1 != DIR_INVALID
    &&& spec_dir_diff(d0, d1) == 2
}

/// The shortcut cell of the turn `a`, `b`, `c`: one step from `a` in the
/// direction halfway between the turn's two directions. For two cardinal
/// steps it is `c` itself (one diagonal step); for two diagonal steps it is
/// the cell halfway between `a` and `c`.
pub open spec fn shortcut_cell(a: (u16, u16), b: (u16, u16), c: (u16, u16)) -> (u16, u16) {
    step_from(a, spec_midpoint_dir(spec_direction(a, b), spec_direction(b, c)))
}

/// Whether the closure may answer `v` for cell `c`.
pub open spec fn answers<F: Fn(u16, u16) -> bool>(f: F, c: (u16, u16), v: bool) -> bool {
    call_ensures(f, (c.0, c.1), v)
}

/// Whether the closure may have let the turn `a`, `b`, `c` be cut (`v`) or
/// refused it (`!v`): the shortcut cell must be walkable and, when the
/// shortcut is diagonal, so must the two cells beside it (one step from `a`
/// in each of the turn's directions).
pub open spec fn cut_answered<F: Fn(u16, u16) -> bool>(f: F, a: (u16, u16), b: (u16, u16), c: (u16, u16), v: bool) -> bool {
    let d0 = spec_direction(a, b);
    let d1 = spec_direction(b, c);
    let m = spec_midpoint_dir(d0, d1);
    if v {
        &&& answers(f, step_from(a, m), true)
        &&& spec_is_diagonal(m) ==> answers(f, step_from(a, d0), true) && answers(f, step_from(a, d1), true)
    } else {
        ||| answers(f, step_from(a, m), false)
        ||| spec_is_diagonal(m) && (answers(f, step_from(a, d0), false) || answers(f, step_from(a, d1), false))
    }
}

/// `r` with the turn at `i` cut: cell `i + 1` becomes the shortcut cell, and
/// when that is cell `i + 2` the duplicate goes.
pub open spec fn cut_turn(r: Seq<(u16, u16)>, i: int) -> Seq<(u16, u16)> {
    let s = shortcut_cell(r[i], r[i + 1], r[i + 2]);
    if s == r[i + 2] {
        r.update(i + 1, s).remove(i + 2)
    } else {
        r.update(i + 1, s)
    }
}

/// One smoothing step at index `i`: a turn there is cut when the closure
/// allows it and left alone when it refuses; anything else is left alone.
pub open spec fn smooth_step<F: Fn(u16, u16) -> bool>(f: F, r: Seq<(u16, u16)>, i: int, r2: Seq<(u16, u16)>) -> bool {
    if is_turn(r[i], r[i + 1], r[i + 2]) {
        ||| cut_answered(f, r[i], r[i + 1], r[i + 2], true) && r2 == cut_turn(r, i)
        ||| cut_answered(f, r[i], r[i + 1], r[i + 2], false) && r2 == r
    } else {
        r2 == r
    }
}

/// Step `k` of the smoothing trace `t`: state `k + 1` follows state `k` by a
/// smoothing step at index `k`.
pub open spec fn trace_step<F: Fn(u16, u16) -> bool>(f: F, t: Seq<Seq<(u16, u16)>>, k: int) -> bool {
    k + 2 < t[k].len() && smooth_step(f, t[k], k, t[k + 1])
}

/// Whether `r` is a smoothing of `p`: there is a trace of states from `p` to
/// `r` with a step at index 0, 1, 2, ... in turn, ending when fewer than
/// three cells are left from the current index on.
pub open spec fn smoothed<F: Fn(u16, u16) -> bool>(f: F, p: Seq<(u16, u16)>, r: Seq<(u16, u16)>) -> bool {
    exists|t: Seq<Seq<(u16, u16)>>| #[trigger] smoothing_trace(f, p, r, t)
}

/// `t` is a trace of smoothing steps from `p` that has ended at `r`.
pub open spec fn smoothing_trace<F: Fn(u16, u16) -> bool>(
    f: F,
    p: Seq<(u16, u16)>,
    r: Seq<(u16, u16)>,
    t: Seq<Seq<(u16, u16)>>,
) -> bool {
    &&& t.len() >= 1
    &&& t[0] == p
    &&& t.last() == r
    &&& r.len() <= t.len() + 1
    &&& forall|k: int| 0 <= k < t.len() - 1 ==> #[trigger] trace_step(f, t, k)
}

/// Direction of the step between two cells.
fn direction_between(from: (u16, u16), to: (u16, u16)) -> (r: u8)
    ensures
        r == spec_direction(from, to),
{
    let dx = to.0 as i32 - from.0 as i32;
    let dy = to.1 as i32 - from.1 as i32;
    if dx == 0 && dy == -1 {
        0
    } else if dx == 1 && dy == -1 {
        1
    } else if dx == 1 && dy == 0 {
        2
    } else if dx == 1 && dy == 1 {
        3
    } else if dx == 0 && dy == 1 {
        4
    } else if dx == -1 && dy == 1 {
        5
    } else if dx == -1 && dy == 0 {
        6
    } else if dx == -1 && dy == -1 {
        7
    } else {
        DIR_INVALID
    }
}

/// Step of a direction.
fn dir_delta(d: u8) -> (r: (i32, i32))
    requires
        d < 8,
    ensures
        r.0 == dir_dx(d),
        r.1 == dir_dy(d),
{
    match d {
        0 => (0, -1),
        1 => (1, -1),
        2 => (1, 0),
        3 => (1, 1),
        4 => (0, 1),
        5 => (-1, 1),
        6 => (-1, 0),
        _ => (-1, -1),
    }
}

/// Angular distance of two valid directions.
fn dir_diff(a: u8, b: u8) -> (r: u8)
    requires
        a < 8,
        b < 8,
    ensures
        r == spec_dir_diff(a, b),
{
    let raw = if a >= b {
        a - b
    } else {
        b - a
    };
    if raw <= 8 - raw {
        raw
    } else {
        8 - raw
    }
}

/// Whether a direction is diagonal.
fn is_diagonal_dir(d: u8) -> (r: bool)
    ensures
        r == spec_is_diagonal(d),
{
    d < 8 && d % 2 == 1
}

/// Direction halfway between two valid directions.
fn midpoint_dir(a: u8, b: u8) -> (r: u8)
    requires
        a < 8,
        b < 8,
    ensures
        r == spec_midpoint_dir(a, b),
        r < 8,
{
    let lo = if a <= b {
        a
    } else {
        b
    };
    let hi = if a <= b {
        b
    } else {
        a
    };
    if hi - lo == 2 {
        lo + 1
    } else {
        (hi + 1) % 8
    }
}

/// Cut the turn at `i` of `result`, which starts at `a`, `b`, `c`, when the
/// closure allows it; returns whether it did.
fn try_cut<F: Fn(u16, u16) -> bool>(result: &mut Vec<(u16, u16)>, i: usize, d0: u8, d1: u8, walkable: &F) -> (cut: bool)
    requires
        i + 2 < old(result)@.len(),
        is_turn(old(result)@[i as int], old(result)@[i + 1], old(result)@[i + 2]),
        d0 == spec_direction(old(result)@[i as int], old(result)@[i + 1]),
        d1 == spec_direction(old(result)@[i + 1], old(result)@[i + 2]),
        forall|x: u16, y: u16| call_requires(*walkable, (x, y)),
    ensures
        cut ==> cut_answered(*walkable, old(result)@[i as int], old(result)@[i + 1], old(result)@[i + 2], true)
            && final(result)@ == cut_turn(old(result)@, i as int),
        !cut ==> cut_answered(*walkable, old(result)@[i as int], old(result)@[i + 1], old(result)@[i + 2], false)
            && final(result)@ == old(result)@,
{
    let n = result.len();
    assert(i + 2 < n);
    let a = result[i];
    let shortcut_dir = midpoint_dir(d0, d1);
    let (sdx, sdy) = dir_delta(shortcut_dir);
    let sx = (a.0 as i32 + sdx) as u16;
    let sy = (a.1 as i32 + sdy) as u16;
    if !walkable(sx, sy) {
        return false;
    }
    if is_diagonal_dir(shortcut_dir) {
        let (c0x, c0y) = dir_delta(d0);
        let (c1x, c1y) = dir_delta(d1);
        let ax = (a.0 as i32 + c0x) as u16;
        let ay = (a.1 as i32 + c0y) as u16;
        let bx = (a.0 as i32 + c1x) as u16;
        let by = (a.1 as i32 + c1y) as u16;
        if !walkable(ax, ay) || !walkable(bx, by) {
            return false;
        }
    }
    result.set(i + 1, (sx, sy));
    let now = result[i + 1];
    let next = result[i + 2];
    if now.0 == next.0 && now.1 == next.1 {
        result.remove(i + 2);
    }
    true
}

/// Smooth the 90-degree turns of a path: walking the path from its start,
/// each turn (for example north then east) is cut through the shortcut cell
/// when the closure finds it walkable, and when the shortcut is diagonal the
/// two cells beside it too. Two cardinal steps become one diagonal step;
/// two diagonal steps become two cardinal steps through the halfway cell.
pub fn smooth_path<F: Fn(u16, u16) -> bool>(path: Vec<(u16, u16)>, walkable: &F) -> (r: Vec<(u16, u16)>)
    requires
        forall|x: u16, y: u16| call_requires(*walkable, (x, y)),
    ensures
        smoothed(*walkable, path@, r@),
        path@.len() < 3 ==> r@ == path@,
{
    if path.len() < 3 {
        proof {
            assert(smoothing_trace(*walkable, path@, path@, seq![path@]));
        }
        return path;
    }
    let ghost p = path@;
    let mut result = path;
    let mut i: usize = 0;
    let ghost mut tr: Seq<Seq<(u16, u16)>> = seq![p];
    while i < result.len() - 2
        invariant
            result@.len() >= 2,
            forall|x: u16, y: u16| call_requires(*walkable, (x, y)),
            tr.len() == i + 1,
            tr[0] == p,
            tr[i as int] == result@,
            forall|k: int| 0 <= k < i ==> #[trigger] trace_step(*walkable, tr, k),
        decreases result@.len() - i,
    {
        let ghost before = result@;
        let a = result[i];
        let b = result[i + 1];
        let c = result[i + 2];
        let d0 = direction_between(a, b);
        let d1 = direction_between(b, c);
        if d0 != DIR_INVALID && d1 != DIR_INVALID && dir_diff(d0, d1) == 2 {
            try_cut(&mut result, i, d0, d1, walkable);
        }
        proof {
            assert(smooth_step(*walkable, before, i as int, result@));
            let old_tr = tr;
            tr = tr.push(result@);
            assert(trace_step(*walkable, tr, i as int));
            assert forall|k: int| 0 <= k < i + 1 implies #[trigger] trace_step(*walkable, tr, k) by {
                if k < i {
                    assert(trace_step(*walkable, old_tr, k));
                    assert(tr[k] == old_tr[k] && tr[k + 1] == old_tr[k + 1]);
                }
            }
        }
        i = i + 1;
    }
    proof {
        assert(smoothing_trace(*walkable, p, result@, tr));
    }
    result
}

/// Whether the layered closure may answer `v` for cell `c` on layer `l`.
pub open spec fn answers_on<F: Fn(u16, u16, MovementLayer) -> bool>(f: F, c: (u16, u16), l: MovementLayer, v: bool) -> bool {
    call_ensures(f, (c.0, c.1, l), v)
}

/// `cut_answered` for the layered closure, asked on layer `l`.
pub open spec fn cut_answered_on<F: Fn(u16, u16, MovementLayer) -> bool>(
    f: F,
    l: MovementLayer,
    a: (u16, u16),
    b: (u16, u16),
    c: (u16, u16),
    v: bool,
) -> bool {
    let d0 = spec_direction(a, b);
    let d1 = spec_direction(b, c);
    let m = spec_midpoint_dir(d0, d1);
    if v {
        &&& answers_on(f, step_from(a, m), l, true)
        &&& spec_is_diagonal(m) ==> answers_on(f, step_from(a, d0), l, true) && answers_on(f, step_from(a, d1), l, true)
    } else {
        ||| answers_on(f, step_from(a, m), l, false)
        ||| spec_is_diagonal(m) && (answers_on(f, step_from(a, d0), l, false) || answers_on(f, step_from(a, d1), l, false))
    }
}

/// Cells and layers with the turn at `i` cut; a dropped cell drops its layer.
pub open spec fn cut_layered_turn(r: (Seq<(u16, u16)>, Seq<MovementLayer>), i: int) -> (Seq<(u16, u16)>, Seq<MovementLayer>) {
    let s = shortcut_cell(r.0[i], r.0[i + 1], r.0[i + 2]);
    if s == r.0[i + 2] {
        (r.0.update(i + 1, s).remove(i + 2), r.1.remove(i + 2))
    } else {
        (r.0.update(i + 1, s), r.1)
    }
}

/// `smooth_step` on a layered path: only a turn whose three cells share a
/// layer is considered, and the closure is asked on that layer.
pub open spec fn smooth_layered_step<F: Fn(u16, u16, MovementLayer) -> bool>(
    f: F,
    r: (Seq<(u16, u16)>, Seq<MovementLayer>),
    i: int,
    r2: (Seq<(u16, u16)>, Seq<MovementLayer>),
) -> bool {
    let c = r.0;
    let l = r.1;
    if l[i] == l[i + 1] && l[i + 1] == l[i + 2] && is_turn(c[i], c[i + 1], c[i + 2]) {
        ||| cut_answered_on(f, l[i], c[i], c[i + 1], c[i + 2], true) && r2 == cut_layered_turn(r, i)
        ||| cut_answered_on(f, l[i], c[i], c[i + 1], c[i + 2], false) && r2 == r
    } else {
        r2 == r
    }
}

/// Step `k` of a layered smoothing trace (see `trace_step`).
pub open spec fn layered_trace_step<F: Fn(u16, u16, MovementLayer) -> bool>(
    f: F,
    t: Seq<(Seq<(u16, u16)>, Seq<MovementLayer>)>,
    k: int,
) -> bool {
    &&& k + 2 < t[k].0.len()
    &&& t[k].0.len() == t[k].1.len()
    &&& smooth_layered_step(f, t[k], k, t[k + 1])
}

/// Whether `r` is a smoothing of the layered path `p` (see `smoothed`).
pub open spec fn smoothed_layered<F: Fn(u16, u16, MovementLayer) -> bool>(
    f: F,
    p: (Seq<(u16, u16)>, Seq<MovementLayer>),
    r: (Seq<(u16, u16)>, Seq<MovementLayer>),
) -> bool {
    exists|t: Seq<(Seq<(u16, u16)>, Seq<MovementLayer>)>| #[trigger] layered_smoothing_trace(f, p, r, t)
}

/// `t` is a trace of layered smoothing steps from `p` that has ended at `r`.
pub open spec fn layered_smoothing_trace<F: Fn(u16, u16, MovementLayer) -> bool>(
    f: F,
    p: (Seq<(u16, u16)>, Seq<MovementLayer>),
    r: (Seq<(u16, u16)>, Seq<MovementLayer>),
    t: Seq<(Seq<(u16, u16)>, Seq<MovementLayer>)>,
) -> bool {
    &&& t.len() >= 1
    &&& t[0] == p
    &&& t.last() == r
    &&& r.0.len() <= t.len() + 1
    &&& forall|k: int| 0 <= k < t.len() - 1 ==> #[trigger] layered_trace_step(f, t, k)
}

/// Cut the turn at `i` of a layered path on layer `layer` when the closure
/// allows it; returns whether it did.
fn try_cut_layered<F: Fn(u16, u16, MovementLayer) -> bool>(
    coords: &mut Vec<(u16, u16)>,
    lyrs: &mut Vec<MovementLayer>,
    i: usize,
    d0: u8,
    d1: u8,
    layer: MovementLayer,
    walkable: &F,
) -> (cut: bool)
    requires
        i + 2 < old(coords)@.len(),
        old(coords)@.len() == old(lyrs)@.len(),
        is_turn(old(coords)@[i as int], old(coords)@[i + 1], old(coords)@[i + 2]),
        d0 == spec_direction(old(coords)@[i as int], old(coords)@[i + 1]),
        d1 == spec_direction(old(coords)@[i + 1], old(coords)@[i + 2]),
        forall|x: u16, y: u16, l: MovementLayer| call_requires(*walkable, (x, y, l)),
    ensures
        cut ==> cut_answered_on(*walkable, layer, old(coords)@[i as int], old(coords)@[i + 1], old(coords)@[i + 2], true)
            && (final(coords)@, final(lyrs)@) == cut_layered_turn((old(coords)@, old(lyrs)@), i as int),
        !cut ==> cut_answered_on(*walkable, layer, old(coords)@[i as int], old(coords)@[i + 1], old(coords)@[i + 2], false)
            && final(coords)@ == old(coords)@ && final(lyrs)@ == old(lyrs)@,
{
    let n = coords.len();
    assert(i + 2 < n);
    let a = coords[i];
    let shortcut_dir = midpoint_dir(d0, d1);
    let (sdx, sdy) = dir_delta(shortcut_dir);
    let sx = (a.0 as i32 + sdx) as u16;
    let sy = (a.1 as i32 + sdy) as u16;
    if !walkable(sx, sy, layer) {
        return false;
    }
    if is_diagonal_dir(shortcut_dir) {
        let (c0x, c0y) = dir_delta(d0);
        let (c1x, c1y) = dir_delta(d1);
        let ax = (a.0 as i32 + c0x) as u16;
        let ay = (a.1 as i32 + c0y) as u16;
        let bx = (a.0 as i32 + c1x) as u16;
        let by = (a.1 as i32 + c1y) as u16;
        if !walkable(ax, ay, layer) || !walkable(bx, by, layer) {
            return false;
        }
    }
    coords.set(i + 1, (sx, sy));
    let now = coords[i + 1];
    let next = coords[i + 2];
    if now.0 == next.0 && now.1 == next.1 {
        coords.remove(i + 2);
        lyrs.remove(i + 2);
    }
    true
}

/// Smooth a layered path like `smooth_path`, never across a layer change:
/// a turn is cut only when its three cells share a layer, and the closure is
/// asked on that layer. A cell dropped by a cut drops its layer too.
pub fn smooth_layered_path<F: Fn(u16, u16, MovementLayer) -> bool>(
    path: Vec<(u16, u16)>,
    layers: Vec<MovementLayer>,
    walkable: &F,
) -> (r: (Vec<(u16, u16)>, Vec<MovementLayer>))
    requires
        path@.len() == layers@.len(),
        forall|x: u16, y: u16, l: MovementLayer| call_requires(*walkable, (x, y, l)),
    ensures
        smoothed_layered(*walkable, (path@, layers@), (r.0@, r.1@)),
        r.0@.len() == r.1@.len(),
        path@.len() < 3 ==> r.0@ == path@ && r.1@ == layers@,
{
    if path.len() < 3 {
        proof {
            assert(layered_smoothing_trace(*walkable, (path@, layers@), (path@, layers@), seq![(path@, layers@)]));
        }
        return (path, layers);
    }
    let ghost p = (path@, layers@);
    let mut coords = path;
    let mut lyrs = layers;
    let mut i: usize = 0;
    let ghost mut tr: Seq<(Seq<(u16, u16)>, Seq<MovementLayer>)> = seq![p];
    while i < coords.len() - 2
        invariant
            coords@.len() >= 2,
            coords@.len() == lyrs@.len(),
            forall|x: u16, y: u16, ly: MovementLayer| call_requires(*walkable, (x, y, ly)),
            tr.len() == i + 1,
            tr[0] == p,
            tr[i as int] == (coords@, lyrs@),
            forall|k: int| 0 <= k < i ==> #[trigger] layered_trace_step(*walkable, tr, k),
        decreases coords@.len() - i,
    {
        let ghost before = (coords@, lyrs@);
        if lyrs[i] == lyrs[i + 1] && lyrs[i + 1] == lyrs[i + 2] {
            let layer = lyrs[i];
            let a = coords[i];
            let b = coords[i + 1];
            let c = coords[i + 2];
            let d0 = direction_between(a, b);
            let d1 = direction_between(b, c);
            if d0 != DIR_INVALID && d1 != DIR_INVALID && dir_diff(d0, d1) == 2 {
                try_cut_layered(&mut coords, &mut lyrs, i, d0, d1, layer, walkable);
            }
        }
        proof {
            assert(smooth_layered_step(*walkable, before, i as int, (coords@, lyrs@)));
            let old_tr = tr;
            tr = tr.push((coords@, lyrs@));
            assert(layered_trace_step(*walkable, tr, i as int));
            assert forall|k: int| 0 <= k < i + 1 implies #[trigger] layered_trace_step(*walkable, tr, k) by {
                if k < i {
                    assert(layered_trace_step(*walkable, old_tr, k));
                    assert(tr[k] == old_tr[k] && tr[k + 1] == old_tr[k + 1]);
                }
            }
        }
        i = i + 1;
    }
    proof {
        assert(layered_smoothing_trace(*walkable, p, (coords@, lyrs@), tr));
    }
    (coords, lyrs)
}

// ---------------------------------------------------------------------------
// Drift correction
// ---------------------------------------------------------------------------

/// Steps examined by drift correction.
pub const MAX_OPTIMIZE_STEPS: usize = 20;

/// Drift threshold: a stretch is rerouted when its squared drift exceeds its
/// squared length times this.
pub const DRIFT_THRESHOLD: i32 = 1;

/// Largest Chebyshev distance whose square fits the 32-bit drift arithmetic.
pub const DRIFT_DISTANCE_LIMIT: i32 = 46340;

/// Chebyshev distance between two cells.
pub open spec fn cell_distance(a: (u16, u16), b: (u16, u16)) -> int {
    chebyshev(a.0 as int, a.1 as int, b.0 as int, b.1 as int)
}

/// The drift arithmetic from `start` stays within 32 bits: every cell from
/// two to `max_steps` steps after `start` lies within `DRIFT_DISTANCE_LIMIT`
/// of it.
pub open spec fn drift_window_safe(p: Seq<(u16, u16)>, start: int, max_steps: int) -> bool {
    forall|k: int|
        start + 2 <= k < p.len() && k <= start + max_steps ==> cell_distance(#[trigger] p[k], p[start])
            <= DRIFT_DISTANCE_LIMIT
}

/// A path on which drift correction runs without overflow: short paths, or
/// paths whose first 20 steps stay within `DRIFT_DISTANCE_LIMIT` of the start.
pub open spec fn drift_check_safe(p: Seq<(u16, u16)>) -> bool {
    p.len() < 4 || drift_window_safe(p, 0, MAX_OPTIMIZE_STEPS as int)
}

/// Look for the end of a stretch after `start` that drifts from the straight
/// line between its ends. Drift is measured between the summed step
/// displacement and the straight-line displacement; the two always agree,
/// so no stretch is ever reported.
fn find_drift_segment(path: &Vec<(u16, u16)>, start: usize, max_steps: usize) -> (r: Option<usize>)
    requires
        start < path@.len(),
        start + max_steps <= usize::MAX,
        drift_window_safe(path@, start as int, max_steps as int),
    ensures
        r is None,
{
    let last = path.len() - 1;
    let limit = if last < start + max_steps {
        last
    } else {
        start + max_steps
    };
    if limit - start < 2 {
        return None;
    }
    let sx = path[start].0 as i32;
    let sy = path[start].1 as i32;
    let mut cum_dx: i32 = 0;
    let mut cum_dy: i32 = 0;
    let mut i = start;
    while i < limit
        invariant
            start <= i <= limit,
            limit < path@.len(),
            limit <= start + max_steps,
            sx == path@[start as int].0,
            sy == path@[start as int].1,
            cum_dx == path@[i as int].0 - sx,
            cum_dy == path@[i as int].1 - sy,
            drift_window_safe(path@, start as int, max_steps as int),
        decreases limit - i,
    {
        let step_dx = path[i + 1].0 as i32 - path[i].0 as i32;
        let step_dy = path[i + 1].1 as i32 - path[i].1 as i32;
        cum_dx = cum_dx + step_dx;
        cum_dy = cum_dy + step_dy;
        let seg_len = i + 1 - start;
        if seg_len >= 2 {
            let ideal_dx = path[i + 1].0 as i32 - sx;
            let ideal_dy = path[i + 1].1 as i32 - sy;
            let adx = if ideal_dx < 0 {
                -ideal_dx
            } else {
                ideal_dx
            };
            let ady = if ideal_dy < 0 {
                -ideal_dy
            } else {
                ideal_dy
            };
            let ideal_dist = if adx >= ady {
                adx
            } else {
                ady
            };
            if ideal_dist >= 2 {
                proof {
                    assert(cell_distance(path@[i + 1], path@[start as int]) <= DRIFT_DISTANCE_LIMIT);
                    assert(adx <= 46340 && ady <= 46340);
                    assert(-2147395600 <= cum_dx * ideal_dy <= 2147395600) by (nonlinear_arith)
                        requires
                            -46340 <= cum_dx <= 46340,
                            -46340 <= ideal_dy <= 46340,
                    ;
                    assert(cum_dx * ideal_dy == cum_dy * ideal_dx) by (nonlinear_arith)
                        requires
                            cum_dx == ideal_dx,
                            cum_dy == ideal_dy,
                    ;
                    assert(ideal_dist * ideal_dist <= 2147395600) by (nonlinear_arith)
                        requires
                            0 <= ideal_dist <= 46340,
                    ;
                    assert(ideal_dist * ideal_dist >= 4) by (nonlinear_arith)
                        requires
                            2 <= ideal_dist,
                    ;
                }
                let c1 = cum_dx * ideal_dy;
                let c2 = cum_dy * ideal_dx;
                let raw_cross = c1 - c2;
                let cross = if raw_cross < 0 {
                    -raw_cross
                } else {
                    raw_cross
                };
                let drift_sq = cross * cross;
                let dist_sq = ideal_dist * ideal_dist;
                if drift_sq > dist_sq * DRIFT_THRESHOLD {
                    return Some(i + 1);
                }
            }
        }
        i = i + 1;
    }
    None
}

/// Number of diagonal steps on the reroute from `s` to `e`.
pub open spec fn reroute_diag_steps(s: (u16, u16), e: (u16, u16)) -> int {
    let adx = if e.0 >= s.0 { e.0 - s.0 } else { s.0 - e.0 };
    let ady = if e.1 >= s.1 { e.1 - s.1 } else { s.1 - e.1 };
    if adx <= ady { adx } else { ady }
}

/// Number of cardinal steps on the reroute from `s` to `e`.
pub open spec fn reroute_card_steps(s: (u16, u16), e: (u16, u16)) -> int {
    let adx = if e.0 >= s.0 { e.0 - s.0 } else { s.0 - e.0 };
    let ady = if e.1 >= s.1 { e.1 - s.1 } else { s.1 - e.1 };
    if adx >= ady { adx - ady } else { ady - adx }
}

/// Diagonal direction of the reroute from `s` to `e`, or `DIR_INVALID` when
/// the two cells share a row or a column.
pub open spec fn reroute_diag_dir(s: (u16, u16), e: (u16, u16)) -> u8 {
    if e.0 > s.0 && e.1 < s.1 {
        1
    } else if e.0 > s.0 && e.1 > s.1 {
        3
    } else if e.0 < s.0 && e.1 > s.1 {
        5
    } else if e.0 < s.0 && e.1 < s.1 {
        7
    } else {
        DIR_INVALID
    }
}

/// Cardinal direction of the reroute from `s` to `e`: along the longer axis.
pub open spec fn reroute_card_dir(s: (u16, u16), e: (u16, u16)) -> u8 {
    let adx = if e.0 >= s.0 { e.0 - s.0 } else { s.0 - e.0 };
    let ady = if e.1 >= s.1 { e.1 - s.1 } else { s.1 - e.1 };
    if adx > ady {
        if e.0 > s.0 { 2 } else { 6 }
    } else {
        if e.1 > s.1 { 4 } else { 0 }
    }
}

/// Whether the next reroute step is diagonal, with `dr` diagonal and `cr`
/// cardinal steps left.
pub open spec fn reroute_take_diag(dr: int, cr: int) -> bool {
    if dr == 0 {
        false
    } else if cr == 0 {
        true
    } else {
        dr * (cr + dr) >= cr * dr + dr
    }
}

/// Position and remaining diagonal and cardinal steps after `k` steps of the
/// reroute from `s` to `e`.
pub open spec fn reroute_state(s: (u16, u16), e: (u16, u16), k: nat) -> (int, int, int, int)
    decreases k,
{
    if k == 0 {
        (s.0 as int, s.1 as int, reroute_diag_steps(s, e), reroute_card_steps(s, e))
    } else {
        let p = reroute_state(s, e, (k - 1) as nat);
        if reroute_take_diag(p.2, p.3) {
            let d = reroute_diag_dir(s, e);
            (p.0 + dir_dx(d), p.1 + dir_dy(d), p.2 - 1, p.3)
        } else {
            let d = reroute_card_dir(s, e);
            (p.0 + dir_dx(d), p.1 + dir_dy(d), p.2, p.3 - 1)
        }
    }
}

/// Cell reached after `k` steps of the reroute from `s` to `e`.
pub open spec fn reroute_cell(s: (u16, u16), e: (u16, u16), k: nat) -> (u16, u16) {
    let p = reroute_state(s, e, k);
    (p.0 as u16, p.1 as u16)
}

/// The two corner cells beside diagonal step `k` of the reroute.
pub open spec fn reroute_corners(s: (u16, u16), e: (u16, u16), k: nat) -> ((u16, u16), (u16, u16)) {
    let p = reroute_state(s, e, k);
    let d = reroute_diag_dir(s, e);
    (((p.0 + dir_dx(d)) as u16, p.1 as u16), (p.0 as u16, (p.1 + dir_dy(d)) as u16))
}

/// The closure may have found step `k` of the reroute walkable: its cell,
/// and both corners beside it when the step is diagonal.
pub open spec fn reroute_step_ok<F: Fn(u16, u16) -> bool>(f: F, s: (u16, u16), e: (u16, u16), k: nat) -> bool {
    let p = reroute_state(s, e, k);
    &&& answers(f, reroute_cell(s, e, k + 1), true)
    &&& reroute_take_diag(p.2, p.3) ==> answers(f, reroute_corners(s, e, k).0, true) && answers(
        f,
        reroute_corners(s, e, k).1,
        true,
    )
}

/// The closure may have refused step `k` of the reroute: its cell, or a
/// corner beside it when the step is diagonal.
pub open spec fn reroute_step_refused<F: Fn(u16, u16) -> bool>(f: F, s: (u16, u16), e: (u16, u16), k: nat) -> bool {
    let p = reroute_state(s, e, k);
    ||| answers(f, reroute_cell(s, e, k + 1), false)
    ||| reroute_take_diag(p.2, p.3) && (answers(f, reroute_corners(s, e, k).0, false) || answers(
        f,
        reroute_corners(s, e, k).1,
        false,
    ))
}

/// Taking every diagonal and every cardinal step of the reroute from `s`
/// lands on `e`.
proof fn lemma_reroute_reaches_end(s: (u16, u16), e: (u16, u16))
    ensures
        s.0 + dir_dx(reroute_diag_dir(s, e)) * reroute_diag_steps(s, e) + dir_dx(reroute_card_dir(s, e))
            * reroute_card_steps(s, e) == e.0,
        s.1 + dir_dy(reroute_diag_dir(s, e)) * reroute_diag_steps(s, e) + dir_dy(reroute_card_dir(s, e))
            * reroute_card_steps(s, e) == e.1,
{
    let dd = reroute_diag_dir(s, e);
    let cd = reroute_card_dir(s, e);
    let ds = reroute_diag_steps(s, e);
    let cs = reroute_card_steps(s, e);
    if ds == 0 {
        assert(dir_dx(dd) * ds == 0 && dir_dy(dd) * ds == 0);
    } else {
        assert(dir_dx(dd) == 1 || dir_dx(dd) == -1);
        assert(dir_dy(dd) == 1 || dir_dy(dd) == -1);
    }
    if cs == 0 {
        assert(dir_dx(cd) * cs == 0 && dir_dy(cd) * cs == 0);
    }
}

/// Reroute from `start` to `end` by diagonal steps interleaved with
/// cardinal steps along the longer axis. The route is the cells of
/// `reroute_cell`, one per step, and always ends at `end`; `None` when the
/// closure refused a cell on the way or a corner beside a diagonal step.
#[verifier::rlimit(40)]
fn reroute_segment<F: Fn(u16, u16) -> bool>(start: (u16, u16), end: (u16, u16), walkable: &F) -> (r: Option<Vec<(u16, u16)>>)
    requires
        forall|x: u16, y: u16| call_requires(*walkable, (x, y)),
        cell_distance(start, end) <= DRIFT_DISTANCE_LIMIT,
    ensures
        r matches Some(route) ==> {
            &&& route@.len() == cell_distance(start, end) + 1
            &&& forall|k: int| 0 <= k < route@.len() ==> #[trigger] route@[k] == reroute_cell(start, end, k as nat)
            &&& route@.last() == end
            &&& forall|k: int|
                0 <= k < cell_distance(start, end) ==> #[trigger] reroute_step_ok(*walkable, start, end, k as nat)
        },
        r is None ==> exists|k: int|
            0 <= k < cell_distance(start, end) && #[trigger] reroute_step_refused(*walkable, start, end, k as nat),
{
    let dx = end.0 as i32 - start.0 as i32;
    let dy = end.1 as i32 - start.1 as i32;
    if dx == 0 && dy == 0 {
        let mut single: Vec<(u16, u16)> = Vec::new();
        single.push(start);
        proof {
            assert(single@[0] == reroute_cell(start, end, 0));
        }
        return Some(single);
    }
    let abs_dx = if dx < 0 {
        -dx
    } else {
        dx
    };
    let abs_dy = if dy < 0 {
        -dy
    } else {
        dy
    };
    let diag_steps = if abs_dx <= abs_dy {
        abs_dx
    } else {
        abs_dy
    };
    let cardinal_steps = if abs_dx >= abs_dy {
        abs_dx - abs_dy
    } else {
        abs_dy - abs_dx
    };
    let diag_dir: u8 = if dx > 0 && dy < 0 {
        1
    } else if dx > 0 && dy > 0 {
        3
    } else if dx < 0 && dy > 0 {
        5
    } else if dx < 0 && dy < 0 {
        7
    } else {
        DIR_INVALID
    };
    let card_dir: u8 = if abs_dx > abs_dy {
        if dx > 0 {
            2
        } else {
            6
        }
    } else {
        if dy > 0 {
            4
        } else {
            0
        }
    };
    let total_steps = diag_steps + cardinal_steps;
    let mut route: Vec<(u16, u16)> = Vec::new();
    route.push(start);
    let mut cx: i32 = start.0 as i32;
    let mut cy: i32 = start.1 as i32;
    let mut diag_remaining = diag_steps;
    let mut card_remaining = cardinal_steps;
    let mut step: i32 = 0;
    proof {
        assert(diag_steps == reroute_diag_steps(start, end));
        assert(cardinal_steps == reroute_card_steps(start, end));
        assert(diag_dir == reroute_diag_dir(start, end));
        assert(card_dir == reroute_card_dir(start, end));
        assert(total_steps == cell_distance(start, end));
        assert(route@[0] == reroute_cell(start, end, 0));
        assert(dir_dx(diag_dir) * (diag_steps - diag_remaining) == 0 && dir_dy(diag_dir) * (diag_steps - diag_remaining)
            == 0 && dir_dx(card_dir) * (cardinal_steps - card_remaining) == 0 && dir_dy(card_dir) * (cardinal_steps
            - card_remaining) == 0) by (nonlinear_arith)
            requires
                diag_steps == diag_remaining,
                cardinal_steps == card_remaining,
        ;
    }
    while step < total_steps
        invariant
            0 <= step <= total_steps,
            total_steps == diag_steps + cardinal_steps,
            total_steps == cell_distance(start, end),
            diag_steps == reroute_diag_steps(start, end),
            cardinal_steps == reroute_card_steps(start, end),
            diag_dir == reroute_diag_dir(start, end),
            card_dir == reroute_card_dir(start, end),
            0 <= diag_steps <= 46340,
            0 <= cardinal_steps <= 46340,
            diag_steps + cardinal_steps <= 46340,
            0 <= diag_remaining <= diag_steps,
            0 <= card_remaining <= cardinal_steps,
            diag_dir == DIR_INVALID ==> diag_steps == 0,
            diag_dir == DIR_INVALID || spec_is_diagonal(diag_dir),
            card_dir < 8 && !spec_is_diagonal(card_dir),
            diag_remaining + card_remaining == total_steps - step,
            (cx as int, cy as int, diag_remaining as int, card_remaining as int) == reroute_state(
                start,
                end,
                step as nat,
            ),
            cx == start.0 + dir_dx(diag_dir) * (diag_steps - diag_remaining) + dir_dx(card_dir) * (
            cardinal_steps - card_remaining),
            cy == start.1 + dir_dy(diag_dir) * (diag_steps - diag_remaining) + dir_dy(card_dir) * (
            cardinal_steps - card_remaining),
            -step <= cx - start.0 <= step,
            -step <= cy - start.1 <= step,
            forall|x: u16, y: u16| call_requires(*walkable, (x, y)),
            route@.len() == step + 1,
            forall|k: int| 0 <= k <= step ==> #[trigger] route@[k] == reroute_cell(start, end, k as nat),
            forall|k: int| 0 <= k < step ==> #[trigger] reroute_step_ok(*walkable, start, end, k as nat),
        decreases total_steps - step,
    {
        proof {
            assert(diag_remaining * (card_remaining + diag_remaining) <= 46340 * 46340) by (nonlinear_arith)
                requires
                    0 <= diag_remaining,
                    0 <= card_remaining,
                    diag_remaining + card_remaining <= 46340,
            ;
            assert(card_remaining * diag_remaining <= 46340 * 46340) by (nonlinear_arith)
                requires
                    0 <= diag_remaining,
                    0 <= card_remaining,
                    diag_remaining + card_remaining <= 46340,
            ;
        }
        let ghost k: nat = step as nat;
        let take_diag = if diag_remaining == 0 {
            false
        } else if card_remaining == 0 {
            true
        } else {
            diag_remaining * (card_remaining + diag_remaining) >= card_remaining * diag_remaining
                + diag_remaining
        };
        assert(take_diag == reroute_take_diag(diag_remaining as int, card_remaining as int));
        let ghost old_dr = diag_remaining;
        let ghost old_cr = card_remaining;
        let dir = if take_diag && diag_dir != DIR_INVALID {
            diag_remaining = diag_remaining - 1;
            diag_dir
        } else {
            assert(card_remaining > 0);
            card_remaining = card_remaining - 1;
            card_dir
        };
        proof {
            if take_diag {
                assert(dir_dx(diag_dir) * (diag_steps - diag_remaining) == dir_dx(diag_dir) * (diag_steps - old_dr)
                    + dir_dx(diag_dir)) by (nonlinear_arith)
                    requires
                        diag_remaining == old_dr - 1,
                ;
                assert(dir_dy(diag_dir) * (diag_steps - diag_remaining) == dir_dy(diag_dir) * (diag_steps - old_dr)
                    + dir_dy(diag_dir)) by (nonlinear_arith)
                    requires
                        diag_remaining == old_dr - 1,
                ;
            } else {
                assert(dir_dx(card_dir) * (cardinal_steps - card_remaining) == dir_dx(card_dir) * (cardinal_steps
                    - old_cr) + dir_dx(card_dir)) by (nonlinear_arith)
                    requires
                        card_remaining == old_cr - 1,
                ;
                assert(dir_dy(card_dir) * (cardinal_steps - card_remaining) == dir_dy(card_dir) * (cardinal_steps
                    - old_cr) + dir_dy(card_dir)) by (nonlinear_arith)
                    requires
                        card_remaining == old_cr - 1,
                ;
            }
        }
        let (ddx, ddy) = dir_delta(dir);
        let nx = cx + ddx;
        let ny = cy + ddy;
        proof {
            assert(reroute_state(start, end, (k + 1) as nat) == (nx as int, ny as int, diag_remaining as int,
                card_remaining as int));
            assert(reroute_cell(start, end, (k + 1) as nat) == (nx as u16, ny as u16));
        }
        let ok = walkable(nx as u16, ny as u16);
        if !ok {
            proof {
                assert(reroute_step_refused(*walkable, start, end, k));
            }
            return None;
        }
        if is_diagonal_dir(dir) {
            let side_a = walkable((cx + ddx) as u16, cy as u16);
            let side_b = walkable(cx as u16, (cy + ddy) as u16);
            proof {
                assert(reroute_corners(start, end, k) == (((cx + ddx) as u16, cy as u16), (cx as u16, (cy + ddy) as u16)));
            }
            if !side_a || !side_b {
                proof {
                    assert(reroute_step_refused(*walkable, start, end, k));
                }
                return None;
            }
        }
        proof {
            assert(reroute_step_ok(*walkable, start, end, k));
        }
        cx = nx;
        cy = ny;
        let cell = (cx as u16, cy as u16);
        route.push(cell);
        step = step + 1;
    }
    proof {
        assert(diag_remaining == 0 && card_remaining == 0);
        lemma_reroute_reaches_end(start, end);
        assert(cx == end.0 && cy == end.1);
        assert(route@.last() == route@[step as int]);
    }
    let last = route[route.len() - 1];
    if last.0 != end.0 || last.1 != end.1 {
        return None;
    }
    Some(route)
}

/// `v` with the cells `from..=to` replaced by `replacement`.
fn splice_segment(v: &Vec<(u16, u16)>, from: usize, to: usize, replacement: Vec<(u16, u16)>) -> (r: Vec<(u16, u16)>)
    requires
        from <= to < v@.len(),
    ensures
        r@ == v@.take(from as int) + replacement@ + v@.skip(to + 1),
{
    let mut out: Vec<(u16, u16)> = Vec::new();
    let mut j: usize = 0;
    while j < from
        invariant
            j <= from,
            from <= to < v@.len(),
            out@ == v@.take(j as int),
        decreases from - j,
    {
        out.push(v[j]);
        j = j + 1;
        proof {
            assert(out@ =~= v@.take(j as int));
        }
    }
    let mut rep = replacement;
    let ghost rv = rep@;
    out.append(&mut rep);
    let ghost mid = out@;
    let n = v.len();
    let mut k = to + 1;
    while k < n
        invariant
            to + 1 <= k <= v@.len(),
            n == v@.len(),
            mid == v@.take(from as int) + rv,
            out@ == mid + v@.subrange(to + 1, k as int),
        decreases v@.len() - k,
    {
        out.push(v[k]);
        k = k + 1;
        proof {
            assert(out@ =~= mid + v@.subrange(to + 1, k as int));
        }
    }
    proof {
        assert(v@.subrange(to + 1, v@.len() as int) =~= v@.skip(to + 1));
    }
    out
}

/// Drift correction. Drift is measured from the summed step displacement,
/// which always equals the straight-line displacement, so no stretch is ever
/// rerouted and the path comes back unchanged.
pub fn optimize_path<F: Fn(u16, u16) -> bool>(path: Vec<(u16, u16)>, walkable: &F) -> (r: Vec<(u16, u16)>)
    requires
        forall|x: u16, y: u16| call_requires(*walkable, (x, y)),
        drift_check_safe(path@),
    ensures
        r@ == path@,
{
    if path.len() < 4 {
        return path;
    }
    let mut result = path;
    let last = result.len() - 1;
    let steps_to_check = if last < MAX_OPTIMIZE_STEPS {
        last
    } else {
        MAX_OPTIMIZE_STEPS
    };
    let ghost p = result@;
    let mut seg_start: usize = 0;
    while seg_start + 2 < result.len() && seg_start < steps_to_check
        invariant
            result@ == p,
            p.len() >= 4,
            seg_start == 0,
            steps_to_check <= MAX_OPTIMIZE_STEPS,
            drift_check_safe(p),
            forall|x: u16, y: u16| call_requires(*walkable, (x, y)),
        decreases p.len() - seg_start,
    {
        proof {
            assert forall|k: int|
                0 + 2 <= k < p.len() && k <= 0 + steps_to_check implies cell_distance(#[trigger] p[k], p[0])
                <= DRIFT_DISTANCE_LIMIT by {
                assert(drift_window_safe(p, 0, MAX_OPTIMIZE_STEPS as int));
            }
        }
        match find_drift_segment(&result, seg_start, steps_to_check) {
            Some(seg_end) => {
                match reroute_segment(result[seg_start], result[seg_end], walkable) {
                    Some(replacement) => {
                        let new_len = replacement.len();
                        let spliced = splice_segment(&result, seg_start, seg_end, replacement);
                        result = spliced;
                        seg_start = seg_start + if new_len > 1 {
                            new_len
                        } else {
                            1
                        };
                    },
                    None => {
                        seg_start = seg_start + 1;
                    },
                }
            },
            None => {
                break;
            },
        }
    }
    result
}

/// Whether cells `a..=b` of a layer sequence all share the layer of `a`.
pub open spec fn same_layer_run(l: Seq<MovementLayer>, a: int, b: int) -> bool {
    forall|j: int| a <= j <= b ==> #[trigger] l[j] == l[a]
}

/// Whether index `s` begins a run of equal layers.
pub open spec fn run_start(l: Seq<MovementLayer>, s: int) -> bool {
    0 <= s < l.len() && (s == 0 || l[s - 1] != l[s])
}

/// Drift correction runs without overflow on every run of equal layers:
/// in each run of at least four cells, the cells two to 20 steps after its
/// first cell lie within `DRIFT_DISTANCE_LIMIT` of it.
pub open spec fn layered_drift_safe(p: Seq<(u16, u16)>, l: Seq<MovementLayer>) -> bool {
    forall|s: int, t: int|
        #![trigger cell_distance(p[t], p[s])]
        run_start(l, s) && s + 2 <= t <= s + 20 && t < p.len() && s + 3 < p.len() && same_layer_run(l, s, t)
            && same_layer_run(l, s, s + 3) ==> cell_distance(p[t], p[s]) <= DRIFT_DISTANCE_LIMIT
}

/// Whether cell `k` starts a new layer run on the same cell as the previous one.
pub open spec fn junction_duplicate(p: Seq<(u16, u16)>, l: Seq<MovementLayer>, k: int) -> bool {
    1 <= k < p.len() && l[k] != l[k - 1] && p[k] == p[k - 1]
}

/// The first `n` cells and layers with every junction duplicate dropped.
pub open spec fn drop_junction_duplicates(p: Seq<(u16, u16)>, l: Seq<MovementLayer>, n: int) -> (Seq<(u16, u16)>, Seq<MovementLayer>)
    decreases n,
{
    if n <= 0 {
        (Seq::empty(), Seq::empty())
    } else {
        let prev = drop_junction_duplicates(p, l, n - 1);
        if junction_duplicate(p, l, n - 1) {
            prev
        } else {
            (prev.0.push(p[n - 1]), prev.1.push(l[n - 1]))
        }
    }
}

/// Drift correction of a layered path, run by run of equal layers, joining
/// the runs and dropping the first cell of a run that repeats the last cell
/// of the previous run. Paths shorter than four cells come back unchanged.
pub fn optimize_layered_path<F: Fn(u16, u16, MovementLayer) -> bool>(
    path: Vec<(u16, u16)>,
    layers: Vec<MovementLayer>,
    walkable: &F,
) -> (r: (Vec<(u16, u16)>, Vec<MovementLayer>))
    requires
        path@.len() == layers@.len(),
        forall|x: u16, y: u16, l: MovementLayer| call_requires(*walkable, (x, y, l)),
        layered_drift_safe(path@, layers@),
    ensures
        path@.len() < 4 ==> r.0@ == path@ && r.1@ == layers@,
        path@.len() >= 4 ==> (r.0@, r.1@) == drop_junction_duplicates(path@, layers@, path@.len() as int),
{
    if path.len() < 4 {
        return (path, layers);
    }
    let ghost p = path@;
    let ghost l = layers@;
    let n = path.len();
    let mut result_coords: Vec<(u16, u16)> = Vec::new();
    let mut result_layers: Vec<MovementLayer> = Vec::new();
    let mut seg_start: usize = 0;
    while seg_start < n
        invariant
            n == p.len(),
            p == path@,
            l == layers@,
            l.len() == n,
            n >= 4,
            seg_start <= n,
            seg_start < n ==> run_start(l, seg_start as int),
            (result_coords@, result_layers@) == drop_junction_duplicates(p, l, seg_start as int),
            seg_start > 0 ==> result_coords@.len() > 0 && result_coords@.last() == p[seg_start - 1],
            seg_start == 0 ==> result_coords@.len() == 0,
            forall|x: u16, y: u16, ly: MovementLayer| call_requires(*walkable, (x, y, ly)),
            layered_drift_safe(p, l),
        decreases n - seg_start,
    {
        let layer = layers[seg_start];
        let mut seg_end = seg_start;
        while seg_end + 1 < n && layers[seg_end + 1] == layer
            invariant
                seg_start <= seg_end < n,
                n == l.len(),
                l == layers@,
                layer == l[seg_start as int],
                same_layer_run(l, seg_start as int, seg_end as int),
            decreases n - seg_end,
        {
            seg_end = seg_end + 1;
        }
        let mut segment: Vec<(u16, u16)> = Vec::new();
        let mut j = seg_start;
        while j <= seg_end
            invariant
                seg_start <= j <= seg_end + 1,
                seg_end < n,
                n == p.len(),
                p == path@,
                segment@ == p.subrange(seg_start as int, j as int),
            decreases seg_end + 1 - j,
        {
            segment.push(path[j]);
            j = j + 1;
            proof {
                assert(segment@ =~= p.subrange(seg_start as int, j as int));
            }
        }
        proof {
            let seg = segment@;
            if seg.len() >= 4 {
                assert forall|k: int| 0 + 2 <= k < seg.len() && k <= 0 + MAX_OPTIMIZE_STEPS as int implies cell_distance(
                    #[trigger] seg[k],
                    seg[0],
                ) <= DRIFT_DISTANCE_LIMIT by {
                    let s0 = seg_start as int;
                    let t = s0 + k;
                    assert(seg[k] == p[t]);
                    assert(seg[0] == p[s0]);
                    assert(same_layer_run(l, s0, t));
                    assert(same_layer_run(l, s0, s0 + 3));
                    assert(cell_distance(p[t], p[s0]) <= DRIFT_DISTANCE_LIMIT);
                }
            }
        }
        let layer_check = |x: u16, y: u16| -> (b: bool)
            requires
                call_requires(walkable, (x, y, layer)),
            { walkable(x, y, layer) };
        let optimized = optimize_path(segment, &layer_check);
        let ghost before_c = result_coords@;
        let ghost before_l = result_layers@;
        let skip_first = result_coords.len() > 0 && optimized.len() > 0 && {
            let a = result_coords[result_coords.len() - 1];
            let b = optimized[0];
            a.0 == b.0 && a.1 == b.1
        };
        proof {
            assert(optimized@[0] == p[seg_start as int]);
            if seg_start > 0 {
                assert(skip_first == junction_duplicate(p, l, seg_start as int));
            } else {
                assert(!skip_first);
                assert(!junction_duplicate(p, l, 0));
            }
            assert(drop_junction_duplicates(p, l, seg_start + 1) == (if skip_first {
                (before_c, before_l)
            } else {
                (before_c.push(p[seg_start as int]), before_l.push(l[seg_start as int]))
            }));
        }
        if !skip_first {
            result_coords.push(optimized[0]);
            result_layers.push(layer);
        }
        let mut k: usize = 1;
        while k < optimized.len()
            invariant
                1 <= k <= optimized@.len(),
                optimized@ == p.subrange(seg_start as int, seg_end + 1),
                seg_start <= seg_end < n,
                n == p.len(),
                l.len() == n,
                layer == l[seg_start as int],
                same_layer_run(l, seg_start as int, seg_end as int),
                (result_coords@, result_layers@) == drop_junction_duplicates(p, l, seg_start + k),
            decreases optimized@.len() - k,
        {
            proof {
                let idx = seg_start + k;
                assert(l[idx] == l[seg_start as int]);
                assert(l[idx - 1] == l[seg_start as int]);
                assert(!junction_duplicate(p, l, idx));
                assert(optimized@[k as int] == p[idx]);
            }
            result_coords.push(optimized[k]);
            result_layers.push(layer);
            k = k + 1;
        }
        proof {
            if seg_end + 1 < n {
                assert(l[seg_end + 1] != l[seg_start as int] || !(seg_end + 1 < n));
            }
        }
        seg_start = seg_end + 1;
    }
    (result_coords, result_layers)
}

/// Consecutive cells of a path are 8-neighbours.
pub open spec fn eight_connected(p: Seq<(u16, u16)>) -> bool {
    forall|k: int| #![trigger p[k]] 0 <= k < p.len() - 1 ==> spec_direction(p[k], p[k + 1]) != DIR_INVALID
}

/// The shortcut of a turn: after two diagonal steps it is a cardinal step
/// from the first cell and a cardinal step before the last; after two
/// cardinal steps it is the last cell, one diagonal step from the first.
proof fn lemma_turn_shortcut(a: (u16, u16), b: (u16, u16), c: (u16, u16))
    requires
        is_turn(a, b, c),
    ensures
        spec_is_diagonal(spec_direction(a, b)) ==> shortcut_cell(a, b, c) != c && spec_direction(a, shortcut_cell(a, b, c))
            != DIR_INVALID && spec_direction(shortcut_cell(a, b, c), c) != DIR_INVALID,
        !spec_is_diagonal(spec_direction(a, b)) ==> shortcut_cell(a, b, c) == c && spec_direction(a, c) != DIR_INVALID,
{
}

/// One smoothing step keeps the first and last cells, leaves at least two
/// cells, and keeps consecutive cells 8-neighbours.
proof fn lemma_step_keeps<F: Fn(u16, u16) -> bool>(f: F, q: Seq<(u16, u16)>, i: int, r: Seq<(u16, u16)>)
    requires
        0 <= i,
        i + 2 < q.len(),
        smooth_step(f, q, i, r),
    ensures
        r.len() >= 2,
        r[0] == q[0],
        r[r.len() - 1] == q[q.len() - 1],
        eight_connected(q) ==> eight_connected(r),
{
    if r != q {
        lemma_turn_shortcut(q[i], q[i + 1], q[i + 2]);
        let sc = shortcut_cell(q[i], q[i + 1], q[i + 2]);
        if eight_connected(q) {
            if sc == q[i + 2] {
                assert forall|k: int| #![trigger r[k]] 0 <= k < r.len() - 1 implies spec_direction(r[k], r[k + 1])
                    != DIR_INVALID by {
                    if k < i {
                        assert(spec_direction(q[k], q[k + 1]) != DIR_INVALID);
                    } else if k > i {
                        assert(spec_direction(q[k + 1], q[k + 2]) != DIR_INVALID);
                    }
                }
            } else {
                assert forall|k: int| #![trigger r[k]] 0 <= k < r.len() - 1 implies spec_direction(r[k], r[k + 1])
                    != DIR_INVALID by {
                    if k < i || k > i + 1 {
                        assert(spec_direction(q[k], q[k + 1]) != DIR_INVALID);
                    }
                }
            }
        }
    }
}

/// Every state of a smoothing trace keeps what `lemma_step_keeps` keeps.
proof fn lemma_trace_keeps<F: Fn(u16, u16) -> bool>(f: F, t: Seq<Seq<(u16, u16)>>, j: int)
    requires
        0 <= j < t.len(),
        forall|k: int| 0 <= k < t.len() - 1 ==> #[trigger] trace_step(f, t, k),
    ensures
        t[0].len() > 0 ==> t[j].len() > 0 && t[j][0] == t[0][0] && t[j][t[j].len() - 1] == t[0][t[0].len() - 1],
        eight_connected(t[0]) ==> eight_connected(t[j]),
    decreases j,
{
    if j > 0 {
        lemma_trace_keeps(f, t, j - 1);
        assert(trace_step(f, t, j - 1));
        lemma_step_keeps(f, t[j - 1], j - 1, t[j]);
    }
}

/// Smoothing keeps a path's first and last cells, and a path of
/// 8-neighbour steps stays a path of 8-neighbour steps.
pub proof fn law_smoothing_keeps_ends_and_steps<F: Fn(u16, u16) -> bool>(p: Seq<(u16, u16)>, r: Seq<(u16, u16)>, f: F)
    requires
        smoothed(f, p, r),
    ensures
        p.len() > 0 ==> r.len() > 0 && r[0] == p[0] && r[r.len() - 1] == p[p.len() - 1],
        eight_connected(p) ==> eight_connected(r),
{
    let t = choose|t: Seq<Seq<(u16, u16)>>| #[trigger] smoothing_trace(f, p, r, t);
    lemma_trace_keeps(f, t, t.len() - 1);
}

/// Directions name the eight neighbours clockwise from north (0) with the
/// east step 2, the south step 4 and the west step 6; a direction is given
/// exactly when the cells are 8-neighbours, and the reverse step has the
/// opposite direction (four further round the compass).
pub proof fn law_directions_are_compass_steps(a: (u16, u16), b: (u16, u16))
    ensures
        (spec_direction(a, b) != DIR_INVALID) <==> chebyshev(a.0 as int, a.1 as int, b.0 as int, b.1 as int) == 1,
        spec_direction(a, b) != DIR_INVALID ==> spec_direction(a, b) < 8 && spec_direction(b, a) == (spec_direction(a, b)
            + 4) % 8,
        spec_direction(a, b) == 0 <==> (b.0 == a.0 && b.1 + 1 == a.1),
        spec_direction(a, b) == 2 <==> (b.0 == a.0 + 1 && b.1 == a.1),
        spec_direction(a, b) == 4 <==> (b.0 == a.0 && b.1 == a.1 + 1),
        spec_direction(a, b) == 6 <==> (b.0 + 1 == a.0 && b.1 == a.1),
        spec_direction(a, b) % 2 == 1 && spec_direction(a, b) != DIR_INVALID ==> (a.0 != b.0 && a.1 != b.1),
{
}

} // verus!
