//! Selling buildings: the refund, and how many crew survive.

use vstd::prelude::*;

verus! {

/// Sell refund: half the cost, scaled by health.
pub const SELL_REFUND_PERCENT: u32 = 50;

/// Current and maximum health of an object.
#[derive(Debug, Clone, Copy, PartialEq, Eq, Structural)]
pub struct Health {
    pub current: u16,
    pub max: u16,
}

/// Health as a whole percentage, rounded down and at most 100; 100 when the
/// maximum is 0.
pub open spec fn spec_health_percent(current: u16, max: u16) -> u32 {
    if max == 0 {
        100
    } else if (current as int) * 100 / (max as int) > 100 {
        100
    } else {
        ((current as int) * 100 / (max as int)) as u32
    }
}

/// Health as an integer percentage (0 to 100).
pub fn health_percent(current: u16, max: u16) -> (r: u32)
    ensures
        r == spec_health_percent(current, max),
{
    if max == 0 {
        return 100;
    }
    let p: u32 = (current as u32) * 100 / (max as u32);
    if p > 100 {
        100
    } else {
        p
    }
}

/// Health percentage of an optional health record: full when absent.
pub open spec fn health_pct_of(health: Option<Health>) -> u32 {
    match health {
        Some(h) => spec_health_percent(h.current, h.max),
        None => 100,
    }
}

/// Cost counted for a refund: negative costs count as 0.
pub open spec fn refund_cost(cost: i32) -> int {
    if cost < 0 {
        0
    } else {
        cost as int
    }
}

/// The refund arithmetic stays within 32 bits.
pub open spec fn refund_fits(cost: i32, health: Option<Health>) -> bool {
    refund_cost(cost) * 50 * health_pct_of(health) <= u32::MAX
}

/// Refund for selling a building of this cost and health:
/// `cost * 50% * health%`, rounded down.
pub open spec fn spec_sell_refund(cost: i32, health: Option<Health>) -> i32 {
    (refund_cost(cost) * 50 * health_pct_of(health) / 10000) as i32
}

/// Refund for selling a building that costs `cost`, with its health.
pub fn sell_refund_for_building(cost: i32, health: Option<Health>) -> (r: i32)
    requires
        refund_fits(cost, health),
    ensures
        r == spec_sell_refund(cost, health),
{
    let hp_pct: u32 = match health {
        Some(h) => health_percent(h.current, h.max),
        None => 100,
    };
    let c: u32 = if cost < 0 {
        0
    } else {
        cost as u32
    };
    let base: u32 = if hp_pct == 0 {
        0
    } else {
        assert(c * 50 <= c * 50 * hp_pct) by (nonlinear_arith)
            requires
                hp_pct >= 1,
                c >= 0,
        ;
        c * SELL_REFUND_PERCENT
    };
    assert(base * hp_pct == c * 50 * hp_pct) by (nonlinear_arith)
        requires
            hp_pct == 0 ==> base == 0,
            hp_pct != 0 ==> base == c * 50,
    ;
    let total: u32 = base * hp_pct;
    assert(total / 10000 <= u32::MAX / 10000) by (nonlinear_arith)
        requires
            total <= u32::MAX,
    ;
    (total / 10000) as i32
}

/// Crew surviving a sale: none for an uncrewed type or a refund of zero or
/// less; otherwise the refund divided by the owner's survivor divisor (at
/// least 1), rounded toward zero.
pub open spec fn spec_survivor_limit(
    crewed: bool,
    cost: i32,
    health: Option<Health>,
    divisor: i32,
) -> int {
    if !crewed || spec_sell_refund(cost, health) <= 0 {
        0
    } else {
        let d: int = if divisor < 1 {
            1
        } else {
            divisor as int
        };
        spec_sell_refund(cost, health) as int / d
    }
}

/// Number of crew that survive selling a building: the sell refund divided
/// by `divisor`, the survivor divisor of the owner's side.
pub fn sell_survivor_limit(crewed: bool, cost: i32, health: Option<Health>, divisor: i32) -> (r:
    usize)
    requires
        refund_fits(cost, health),
    ensures
        r == spec_survivor_limit(crewed, cost, health, divisor),
{
    if !crewed {
        return 0;
    }
    let refund = sell_refund_for_building(cost, health);
    if refund <= 0 {
        return 0;
    }
    let d: i32 = if divisor < 1 {
        1
    } else {
        divisor
    };
    let q: i32 = refund / d;
    assert(0 <= q <= refund) by (nonlinear_arith)
        requires
            q == refund / d,
            refund > 0,
            d >= 1,
    ;
    q as usize
}

/// Whether cell `c` lies in the ring just around a `w` by `h` building at
/// `(rx, ry)`: within one cell of the foundation but not on it.
pub open spec fn in_ring(rx: u16, ry: u16, w: u16, h: u16, c: (u16, u16)) -> bool {
    &&& rx - 1 <= c.0 <= rx + w
    &&& ry - 1 <= c.1 <= ry + h
    &&& !(rx <= c.0 < rx + w && ry <= c.1 < ry + h)
}

/// Squared distance of cell `c` from the foundation's far corner
/// `(rx + w - 1, ry + h - 1)`.
pub open spec fn ring_dist(rx: u16, ry: u16, w: u16, h: u16, c: (u16, u16)) -> int {
    let dx: int = c.0 - (rx + w - 1);
    let dy: int = c.1 - (ry + h - 1);
    dx * dx + dy * dy
}

/// Order of survivor cells: by distance from the far corner, then by row,
/// then by column.
pub open spec fn ring_before(rx: u16, ry: u16, w: u16, h: u16, a: (u16, u16), b: (u16, u16)) -> bool {
    let da = ring_dist(rx, ry, w, h, a);
    let db = ring_dist(rx, ry, w, h, b);
    da < db || (da == db && (a.1 < b.1 || (a.1 == b.1 && a.0 < b.0)))
}

/// The survivor cells of a building can be listed without overflow: the
/// ring stays within 16-bit coordinates and every distance fits in 32 bits.
pub open spec fn ring_fits(rx: u16, ry: u16, w: u16, h: u16) -> bool {
    &&& rx + w <= u16::MAX
    &&& ry + h <= u16::MAX
    &&& forall|c: (u16, u16)| in_ring(rx, ry, w, h, c) ==> ring_dist(rx, ry, w, h, c) <= i32::MAX
}

/// Sort key of a cell in exact arithmetic.
fn ring_key(rx: u16, ry: u16, w: u16, h: u16, c: (u16, u16)) -> (r: i64)
    requires
        rx + w <= u16::MAX,
        ry + h <= u16::MAX,
    ensures
        r == ring_dist(rx, ry, w, h, c),
{
    let dx: i64 = c.0 as i64 - (rx as i64 + w as i64 - 1);
    let dy: i64 = c.1 as i64 - (ry as i64 + h as i64 - 1);
    assert(dx * dx <= 0x1_0000_0000) by (nonlinear_arith)
        requires
            -0x10000 <= dx <= 0x10000,
    ;
    assert(dy * dy <= 0x1_0000_0000) by (nonlinear_arith)
        requires
            -0x10000 <= dy <= 0x10000,
    ;
    assert(dx * dx >= 0 && dy * dy >= 0) by (nonlinear_arith);
    dx * dx + dy * dy
}

/// The cells of the ring around the building, in rows from the top.
fn ring_cells(rx: u16, ry: u16, w: u16, h: u16) -> (cells: Vec<(u16, u16)>)
    requires
        rx + w <= u16::MAX,
        ry + h <= u16::MAX,
    ensures
        forall|c: (u16, u16)| cells@.contains(c) <==> in_ring(rx, ry, w, h, c),
{
    let mut cells: Vec<(u16, u16)> = Vec::new();
    let min_x: i32 = rx as i32 - 1;
    let max_x: i32 = rx as i32 + w as i32;
    let min_y: i32 = ry as i32 - 1;
    let max_y: i32 = ry as i32 + h as i32;
    let mut y: i32 = min_y;
    while y <= max_y
        invariant
            min_x == rx - 1,
            max_x == rx + w,
            min_y == ry - 1,
            max_y == ry + h,
            rx + w <= u16::MAX,
            ry + h <= u16::MAX,
            min_y <= y <= max_y + 1,
            forall|c: (u16, u16)|
                cells@.contains(c) <==> (in_ring(rx, ry, w, h, c) && c.1 < y),
        decreases max_y + 1 - y,
    {
        let mut x: i32 = min_x;
        while x <= max_x
            invariant
                min_x == rx - 1,
                max_x == rx + w,
                min_y == ry - 1,
                max_y == ry + h,
                rx + w <= u16::MAX,
                ry + h <= u16::MAX,
                min_y <= y <= max_y,
                min_x <= x <= max_x + 1,
                forall|c: (u16, u16)|
                    cells@.contains(c) <==> (in_ring(rx, ry, w, h, c) && (c.1 < y || (c.1 == y
                        && c.0 < x))),
            decreases max_x + 1 - x,
        {
            let inside_x = x >= rx as i32 && x < rx as i32 + w as i32;
            let inside_y = y >= ry as i32 && y < ry as i32 + h as i32;
            if x >= 0 && y >= 0 && !(inside_x && inside_y) {
                let ghost old_cells = cells@;
                let c: (u16, u16) = (x as u16, y as u16);
                cells.push(c);
                proof {
                    assert(c.0 == x && c.1 == y);
                    assert(in_ring(rx, ry, w, h, c));
                    assert forall|d: (u16, u16)|
                        cells@.contains(d) <==> (in_ring(rx, ry, w, h, d) && (d.1 < y || (d.1 == y
                            && d.0 < x + 1))) by {
                        assert(old_cells.contains(d) <==> (in_ring(rx, ry, w, h, d) && (d.1 < y
                            || (d.1 == y && d.0 < x))));
                        if d == c {
                            assert(cells@[old_cells.len() as int] == d);
                        } else {
                            assert(cells@.contains(d) <==> old_cells.contains(d)) by {
                                if cells@.contains(d) {
                                    let k = choose|k: int| 0 <= k < cells@.len() && cells@[k] == d;
                                    assert(k < old_cells.len());
                                    assert(old_cells[k] == d);
                                }
                                if old_cells.contains(d) {
                                    let k = choose|k: int|
                                        0 <= k < old_cells.len() && old_cells[k] == d;
                                    assert(cells@[k] == d);
                                }
                            }
                            assert(!(d.1 == y && d.0 == x));
                        }
                    }
                }
            } else {
                proof {
                    assert(x < 0 || y < 0 || (rx <= x < rx + w && ry <= y < ry + h));
                    assert forall|d: (u16, u16)|
                        cells@.contains(d) <==> (in_ring(rx, ry, w, h, d) && (d.1 < y || (d.1 == y
                            && d.0 < x + 1))) by {
                        if d.1 == y && d.0 == x {
                            assert(!in_ring(rx, ry, w, h, d));
                        }
                        assert(cells@.contains(d) <==> (in_ring(rx, ry, w, h, d) && (d.1 < y || (
                        d.1 == y && d.0 < x))));
                    }
                }
            }
            x = x + 1;
        }
        proof {
            assert forall|c: (u16, u16)|
                cells@.contains(c) <==> (in_ring(rx, ry, w, h, c) && c.1 < y + 1) by {
                if in_ring(rx, ry, w, h, c) && c.1 == y {
                    assert(c.0 <= max_x);
                }
            }
        }
        y = y + 1;
    }
    proof {
        assert forall|c: (u16, u16)| cells@.contains(c) <==> in_ring(rx, ry, w, h, c) by {
            if in_ring(rx, ry, w, h, c) {
                assert(c.1 <= max_y);
            }
        }
    }
    cells
}

/// Whether key `(d, y, x)` comes before key `(e, v, u)`.
fn key_before(a: (i64, u16, u16), b: (i64, u16, u16)) -> (r: bool)
    ensures
        r == (a.0 < b.0 || (a.0 == b.0 && (a.1 < b.1 || (a.1 == b.1 && a.2 < b.2)))),
{
    a.0 < b.0 || (a.0 == b.0 && (a.1 < b.1 || (a.1 == b.1 && a.2 < b.2)))
}

/// The first cell of `cells` in ring order that comes after `last` (any,
/// when `last` is `None`).
fn next_ring_cell(
    rx: u16,
    ry: u16,
    w: u16,
    h: u16,
    cells: &Vec<(u16, u16)>,
    last: Option<(u16, u16)>,
) -> (r: Option<(u16, u16)>)
    requires
        rx + w <= u16::MAX,
        ry + h <= u16::MAX,
    ensures
        match r {
            Some(c) => {
                &&& cells@.contains(c)
                &&& (last matches Some(l) ==> ring_before(rx, ry, w, h, l, c))
                &&& forall|d: (u16, u16)|
                    cells@.contains(d) && (last matches Some(l) ==> ring_before(rx, ry, w, h, l, d))
                        && d != c ==> ring_before(rx, ry, w, h, c, d)
            },
            None => forall|d: (u16, u16)|
                cells@.contains(d) ==> (last matches Some(l) && !ring_before(rx, ry, w, h, l, d)),
        },
{
    let last_key: Option<(i64, u16, u16)> = match last {
        Some(l) => Some((ring_key(rx, ry, w, h, l), l.1, l.0)),
        None => None,
    };
    let mut best: Option<(u16, u16)> = None;
    let mut best_key: (i64, u16, u16) = (0, 0, 0);
    let mut i: usize = 0;
    while i < cells.len()
        invariant
            rx + w <= u16::MAX,
            ry + h <= u16::MAX,
            i <= cells@.len(),
            last matches Some(l) ==> (last_key matches Some(lk) && lk.0 == ring_dist(
                rx,
                ry,
                w,
                h,
                l,
            ) && lk.1 == l.1 && lk.2 == l.0),
            last is None ==> last_key is None,
            match best {
                Some(c) => {
                    &&& best_key.0 == ring_dist(rx, ry, w, h, c)
                    &&& best_key.1 == c.1
                    &&& best_key.2 == c.0
                    &&& cells@.contains(c)
                    &&& (last matches Some(l) ==> ring_before(rx, ry, w, h, l, c))
                    &&& forall|k: int|
                        0 <= k < i && (last matches Some(l) ==> ring_before(
                            rx,
                            ry,
                            w,
                            h,
                            l,
                            #[trigger] cells@[k],
                        )) && cells@[k] != c ==> ring_before(rx, ry, w, h, c, cells@[k])
                },
                None => forall|k: int|
                    0 <= k < i ==> (last matches Some(l) && !ring_before(
                        rx,
                        ry,
                        w,
                        h,
                        l,
                        #[trigger] cells@[k],
                    )),
            },
        decreases cells@.len() - i,
    {
        let c = cells[i];
        let ck: (i64, u16, u16) = (ring_key(rx, ry, w, h, c), c.1, c.0);
        let after = match last_key {
            Some(lk) => key_before(lk, ck),
            None => true,
        };
        if after {
            let better = match best {
                Some(_) => key_before(ck, best_key),
                None => true,
            };
            if better {
                proof {
                    assert(cells@.contains(c)) by {
                        assert(cells@[i as int] == c);
                    }
                }
                best = Some(c);
                best_key = ck;
            }
        }
        i = i + 1;
    }
    proof {
        match best {
            Some(c) => {
                assert forall|d: (u16, u16)|
                    cells@.contains(d) && (last matches Some(l) ==> ring_before(rx, ry, w, h, l, d))
                        && d != c implies ring_before(rx, ry, w, h, c, d) by {
                    let k = choose|k: int| 0 <= k < cells@.len() && cells@[k] == d;
                    assert(cells@[k] == d);
                }
            },
            None => {
                assert forall|d: (u16, u16)| cells@.contains(d) implies (last matches Some(l)
                    && !ring_before(rx, ry, w, h, l, d)) by {
                    let k = choose|k: int| 0 <= k < cells@.len() && cells@[k] == d;
                    assert(cells@[k] == d);
                }
            },
        }
    }
    best
}

/// Cells where the crew of a sold `width` by `height` building at
/// `(rx, ry)` appear: every cell just around the foundation, nearest to the
/// foundation's far corner first, ties broken by row and then by column.
pub fn sell_survivor_positions(rx: u16, ry: u16, width: u16, height: u16) -> (r: Vec<(u16, u16)>)
    requires
        ring_fits(rx, ry, width, height),
    ensures
        forall|c: (u16, u16)| r@.contains(c) <==> in_ring(rx, ry, width, height, c),
        forall|i: int, j: int|
            0 <= i < j < r@.len() ==> ring_before(rx, ry, width, height, r@[i], r@[j]),
{
    let cells = ring_cells(rx, ry, width, height);
    let mut out: Vec<(u16, u16)> = Vec::new();
    let mut last: Option<(u16, u16)> = None;
    let mut done = false;
    while !done
        invariant
            rx + width <= u16::MAX,
            ry + height <= u16::MAX,
            forall|c: (u16, u16)| cells@.contains(c) <==> in_ring(rx, ry, width, height, c),
            forall|i: int, j: int|
                0 <= i < j < out@.len() ==> ring_before(rx, ry, width, height, out@[i], out@[j]),
            forall|k: int| 0 <= k < out@.len() ==> cells@.contains(#[trigger] out@[k]),
            last is None <==> out@.len() == 0,
            last matches Some(l) ==> l == out@[out@.len() - 1],
            forall|c: (u16, u16)|
                cells@.contains(c) && (last matches Some(l) && !ring_before(
                    rx,
                    ry,
                    width,
                    height,
                    l,
                    c,
                )) ==> out@.contains(c),
            done ==> forall|c: (u16, u16)| cells@.contains(c) ==> out@.contains(c),
            out@.len() <= cells@.len(),
        decreases (if done {
            0int
        } else {
            1int
        }), cells@.len() - out@.len(),
    {
        match next_ring_cell(rx, ry, width, height, &cells, last) {
            Some(c) => {
                proof {
                    let o = out@;
                    assert forall|k: int| 0 <= k < o.len() implies ring_before(
                        rx,
                        ry,
                        width,
                        height,
                        #[trigger] o[k],
                        c,
                    ) by {
                        if k < o.len() - 1 {
                            assert(ring_before(rx, ry, width, height, o[k], o[o.len() - 1]));
                        }
                    }
                    let no = o.push(c);
                    assert(no.no_duplicates()) by {
                        assert forall|i: int, j: int|
                            0 <= i < no.len() && 0 <= j < no.len() && i != j implies no[i]
                            != no[j] by {
                            if i < j {
                                if j < o.len() {
                                    assert(ring_before(rx, ry, width, height, o[i], o[j]));
                                } else {
                                    assert(ring_before(rx, ry, width, height, o[i], c));
                                }
                            } else {
                                if i < o.len() {
                                    assert(ring_before(rx, ry, width, height, o[j], o[i]));
                                } else {
                                    assert(ring_before(rx, ry, width, height, o[j], c));
                                }
                            }
                        }
                    }
                    no.unique_seq_to_set();
                    cells@.lemma_cardinality_of_set();
                    vstd::seq_lib::seq_to_set_is_finite(cells@);
                    assert(no.to_set().subset_of(cells@.to_set())) by {
                        assert forall|d: (u16, u16)| no.to_set().contains(d) implies cells@.to_set().contains(d) by {
                            assert(no.contains(d));
                            let k = choose|k: int| 0 <= k < no.len() && no[k] == d;
                            if k < o.len() {
                                assert(cells@.contains(o[k]));
                            }
                        }
                    }
                    vstd::set_lib::lemma_len_subset(no.to_set(), cells@.to_set());
                }
                let ghost o = out@;
                out.push(c);
                last = Some(c);
                proof {
                    assert forall|d: (u16, u16)|
                        cells@.contains(d) && !ring_before(rx, ry, width, height, c, d) implies out@.contains(d) by {
                        if d == c {
                            assert(out@[o.len() as int] == c);
                        } else {
                            assert(o.contains(d));
                            let k = choose|k: int| 0 <= k < o.len() && o[k] == d;
                            assert(out@[k] == d);
                        }
                    }
                    assert forall|k: int| 0 <= k < out@.len() implies cells@.contains(#[trigger] out@[k]) by {
                        if k < o.len() {
                            assert(out@[k] == o[k]);
                        }
                    }
                    assert forall|i: int, j: int|
                        0 <= i < j < out@.len() implies ring_before(rx, ry, width, height, out@[i], out@[j]) by {
                        assert(out@[i] == o[i]);
                        if j < o.len() {
                            assert(out@[j] == o[j]);
                        }
                    }
                }
            },
            None => {
                done = true;
            },
        }
    }
    out
}

/// Health percentages lie between 0 and 100.
pub proof fn law_health_percent_in_range(current: u16, max: u16)
    ensures
        0 <= spec_health_percent(current, max) <= 100,
{
}

/// A sale refunds at most half the cost, and never a negative amount.
pub proof fn law_refund_at_most_half_cost(cost: i32, health: Option<Health>)
    requires
        refund_fits(cost, health),
    ensures
        0 <= spec_sell_refund(cost, health) <= refund_cost(cost) / 2,
{
    let p = health_pct_of(health);
    let c = refund_cost(cost);
    assert(0 <= p <= 100) by {
        match health {
            Some(h) => law_health_percent_in_range(h.current, h.max),
            None => {},
        }
    }
    assert(c * 50 * p <= c * 50 * 100) by (nonlinear_arith)
        requires
            0 <= p <= 100,
            c >= 0,
    ;
    assert(c * 50 * p / 10000 <= c / 2) by (nonlinear_arith)
        requires
            c * 50 * p <= c * 5000,
            c >= 0,
            p >= 0,
    ;
    assert(c * 50 * p / 10000 >= 0) by (nonlinear_arith)
        requires
            c >= 0,
            p >= 0,
    ;
}

/// The first exit cell that is not in `blocked`, if any.
pub open spec fn first_free_exit(exits: Seq<(u16, u16)>, blocked: Seq<(u16, u16)>) -> Option<(u16, u16)>
    decreases exits.len(),
{
    if exits.len() == 0 {
        None
    } else if !blocked.contains(exits[0]) {
        Some(exits[0])
    } else {
        first_free_exit(exits.drop_first(), blocked)
    }
}

/// Where the first `j` ejected occupants go, taken from the last passenger
/// backwards: each occupant gets the first exit cell that is neither
/// occupied nor taken by an earlier occupant, or `None` (it is killed) when
/// no exit is left. Also returns the exit cells taken so far.
pub open spec fn garrison_plan(
    exits: Seq<(u16, u16)>,
    occupied: Seq<(u16, u16)>,
    passengers: Seq<u64>,
    j: nat,
) -> (Seq<(u64, Option<(u16, u16)>)>, Seq<(u16, u16)>)
    decreases j,
{
    if j == 0 {
        (Seq::empty(), Seq::empty())
    } else {
        let prev = garrison_plan(exits, occupied, passengers, (j - 1) as nat);
        let id = passengers[passengers.len() - j];
        let e = first_free_exit(exits, occupied + prev.1);
        (prev.0.push((id, e)), match e {
            Some(c) => prev.1.push(c),
            None => prev.1,
        })
    }
}

/// Whether `c` is one of `cells`.
fn cell_listed(cells: &Vec<(u16, u16)>, c: (u16, u16)) -> (r: bool)
    ensures
        r == cells@.contains(c),
{
    let mut i: usize = 0;
    while i < cells.len()
        invariant
            i <= cells@.len(),
            forall|k: int| 0 <= k < i ==> cells@[k] != c,
        decreases cells@.len() - i,
    {
        let d = cells[i];
        if d.0 == c.0 && d.1 == c.1 {
            return true;
        }
        i = i + 1;
    }
    false
}

/// `first_free_exit` over the exits from `k` on.
proof fn lemma_first_free_exit_skip(exits: Seq<(u16, u16)>, blocked: Seq<(u16, u16)>, k: int)
    requires
        0 <= k <= exits.len(),
        forall|i: int| 0 <= i < k ==> blocked.contains(#[trigger] exits[i]),
    ensures
        first_free_exit(exits, blocked) == first_free_exit(exits.subrange(k, exits.len() as int), blocked),
    decreases k,
{
    if k == 0 {
        assert(exits.subrange(0, exits.len() as int) =~= exits);
    } else {
        assert(blocked.contains(exits[0]));
        assert forall|i: int| 0 <= i < k - 1 implies blocked.contains(#[trigger] exits.drop_first()[i]) by {
            assert(exits.drop_first()[i] == exits[i + 1]);
        }
        lemma_first_free_exit_skip(exits.drop_first(), blocked, k - 1);
        assert(exits.drop_first().subrange(k - 1, exits.len() - 1) =~= exits.subrange(k, exits.len() as int));
    }
}

/// Exit cells for the occupants of a garrisoned building that is sold or
/// destroyed: the passengers leave from the last one backwards, each to the
/// first of `exits` that no standing unit occupies and no occupant before it
/// took; an occupant with no exit left is killed (`None`).
pub fn garrison_exits(exits: &Vec<(u16, u16)>, occupied: &Vec<(u16, u16)>, passengers: &Vec<u64>) -> (r: Vec<
    (u64, Option<(u16, u16)>),
>)
    ensures
        r@ == garrison_plan(exits@, occupied@, passengers@, passengers@.len()).0,
{
    let mut out: Vec<(u64, Option<(u16, u16)>)> = Vec::new();
    let mut used: Vec<(u16, u16)> = Vec::new();
    let n = passengers.len();
    let mut j: usize = 0;
    while j < n
        invariant
            j <= n,
            n == passengers@.len(),
            (out@, used@) == garrison_plan(exits@, occupied@, passengers@, j as nat),
        decreases n - j,
    {
        let id = passengers[n - 1 - j];
        let ghost blocked = occupied@ + used@;
        let mut found: Option<(u16, u16)> = None;
        let mut k: usize = 0;
        while k < exits.len()
            invariant_except_break
                found is None,
                forall|i: int| 0 <= i < k ==> blocked.contains(#[trigger] exits@[i]),
            invariant
                k <= exits@.len(),
                blocked == occupied@ + used@,
            ensures
                blocked == occupied@ + used@,
                found is None ==> forall|i: int| 0 <= i < exits@.len() ==> blocked.contains(#[trigger] exits@[i]),
                found is Some ==> found == first_free_exit(exits@, blocked),
            decreases exits@.len() - k,
        {
            let c = exits[k];
            if !cell_listed(occupied, c) && !cell_listed(&used, c) {
                proof {
                    lemma_first_free_exit_skip(exits@, blocked, k as int);
                    assert(exits@.subrange(k as int, exits@.len() as int)[0] == c);
                    assert(!blocked.contains(c)) by {
                        if blocked.contains(c) {
                            let t = choose|t: int| 0 <= t < blocked.len() && blocked[t] == c;
                            if t < occupied@.len() {
                                assert(occupied@[t] == c);
                            } else {
                                assert(used@[t - occupied@.len()] == c);
                            }
                        }
                    }
                }
                found = Some(c);
                break;
            }
            proof {
                assert(blocked.contains(c)) by {
                    if occupied@.contains(c) {
                        let t = choose|t: int| 0 <= t < occupied@.len() && occupied@[t] == c;
                        assert(blocked[t] == c);
                    } else {
                        let t = choose|t: int| 0 <= t < used@.len() && used@[t] == c;
                        assert(blocked[occupied@.len() + t] == c);
                    }
                }
            }
            k = k + 1;
        }
        proof {
            if found is None {
                lemma_first_free_exit_skip(exits@, blocked, exits@.len() as int);
                assert(exits@.subrange(exits@.len() as int, exits@.len() as int).len() == 0);
            }
            assert(passengers@[passengers@.len() - (j + 1)] == id);
        }
        out.push((id, found));
        match found {
            Some(c) => {
                used.push(c);
            },
            None => {},
        }
        j = j + 1;
    }
    out
}

/// Crew surviving a sale: none for an uncrewed building or when nothing is
/// refunded; otherwise as many whole survivors as the refund pays for at
/// the divisor's price each (a divisor below 1 counts as 1), so never more
/// than the refund.
pub proof fn law_survivors_paid_by_refund(crewed: bool, cost: i32, health: Option<Health>, divisor: i32)
    ensures
        ({
            let n = spec_survivor_limit(crewed, cost, health, divisor);
            let refund = spec_sell_refund(cost, health) as int;
            let d: int = if divisor < 1 {
                1
            } else {
                divisor as int
            };
            &&& (!crewed || refund <= 0) ==> n == 0
            &&& (crewed && refund > 0) ==> (n * d <= refund && refund < (n + 1) * d && 0 <= n <= refund)
        }),
{
    let refund = spec_sell_refund(cost, health) as int;
    let d: int = if divisor < 1 {
        1
    } else {
        divisor as int
    };
    if crewed && refund > 0 {
        let n = refund / d;
        vstd::arithmetic::div_mod::lemma_fundamental_div_mod(refund, d);
        assert(n * d <= refund && refund < (n + 1) * d && 0 <= n <= refund) by (nonlinear_arith)
            requires
                refund == d * n + refund % d,
                0 <= refund % d < d,
                d >= 1,
                refund > 0,
        ;
    }
}

} // verus!
