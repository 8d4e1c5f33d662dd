//! Per-cell speed modifiers applied while a unit moves.
//!
//! Terrain speed is a runtime modifier, not a path cost. Three factors are
//! multiplied each tick: the land class of the destination cell, the slope
//! between the two cells, and how crowded the unit's surroundings are.

use std::collections::BTreeSet;

use crate::fixed_math::{SimFixed, ONE_RAW};
use crate::map::ResolvedTerrainGrid;
use crate::rules::{LocomotorKind, SpeedType};
use vstd::prelude::*;

verus! {

/// Smallest terrain factor (0.5): a 0% land class still lets units move.
pub const TERRAIN_SPEED_MIN_RAW: i64 = 32768;

/// Largest terrain factor (1.0).
pub const TERRAIN_SPEED_MAX_RAW: i64 = 65536;

/// Largest combined modifier (1.2, rounded to the nearest raw value).
pub const COMBINED_MAX_RAW: i64 = 78643;

/// Smallest combined modifier (0.3, rounded to the nearest raw value).
pub const COMBINED_MIN_RAW: i64 = 19661;

/// Occupied neighbour cells tolerated before the crowd slowdown.
pub const DEFAULT_CROWD_DENSITY_THRESHOLD: u8 = 3;

/// Default crowd slowdown (0.7, rounded to the nearest raw value).
pub const DEFAULT_CROWD_JAM_FACTOR_RAW: i64 = 45875;

/// Default uphill factor (0.6, rounded to the nearest raw value).
pub const DEFAULT_SLOPE_CLIMB_RAW: i64 = 39322;

/// Default downhill factor (1.2, rounded to the nearest raw value).
pub const DEFAULT_SLOPE_DESCEND_RAW: i64 = 78643;

/// Cells that hold at least one unit.
pub struct OccupancyGrid {
    occupied: BTreeSet<(u16, u16)>,
}

impl View for OccupancyGrid {
    type V = Set<(u16, u16)>;

    closed spec fn view(&self) -> Set<(u16, u16)> {
        self.occupied@
    }
}

impl OccupancyGrid {
    /// A grid with no occupied cell.
    pub fn new() -> (r: Self)
        ensures
            r@ == Set::<(u16, u16)>::empty(),
    {
        OccupancyGrid { occupied: BTreeSet::new() }
    }

    /// Mark `(x, y)` occupied.
    pub fn mark_occupied(&mut self, x: u16, y: u16)
        ensures
            final(self)@ == old(self)@.insert((x, y)),
    {
        proof {
            crate::keys::lemma_pair_keys_ordered();
        }
        self.occupied.insert((x, y));
    }

    /// Whether `(x, y)` holds a unit.
    pub fn is_occupied(&self, x: u16, y: u16) -> (r: bool)
        ensures
            r == self@.contains((x, y)),
    {
        proof {
            crate::keys::lemma_pair_keys_ordered();
        }
        self.occupied.contains(&(x, y))
    }
}

/// Speed-modifier settings from the general rules.
#[derive(Debug, Clone, Copy, PartialEq, Eq, Structural)]
pub struct TerrainSpeedConfig {
    /// Factor when the next cell is higher than the current one.
    pub slope_climb: SimFixed,
    /// Factor when the next cell is lower than the current one.
    pub slope_descend: SimFixed,
    /// Occupied neighbour cells tolerated before the crowd slowdown.
    pub crowd_density_threshold: u8,
    /// Factor applied when more neighbour cells than that are occupied.
    pub crowd_jam_factor: SimFixed,
}

impl Default for TerrainSpeedConfig {
    fn default() -> (r: Self)
        ensures
            r.slope_climb.raw == DEFAULT_SLOPE_CLIMB_RAW,
            r.slope_descend.raw == DEFAULT_SLOPE_DESCEND_RAW,
            r.crowd_density_threshold == DEFAULT_CROWD_DENSITY_THRESHOLD,
            r.crowd_jam_factor.raw == DEFAULT_CROWD_JAM_FACTOR_RAW,
    {
        TerrainSpeedConfig {
            slope_climb: SimFixed { raw: DEFAULT_SLOPE_CLIMB_RAW },
            slope_descend: SimFixed { raw: DEFAULT_SLOPE_DESCEND_RAW },
            crowd_density_threshold: DEFAULT_CROWD_DENSITY_THRESHOLD,
            crowd_jam_factor: SimFixed { raw: DEFAULT_CROWD_JAM_FACTOR_RAW },
        }
    }
}

impl TerrainSpeedConfig {
    /// Settings with the given slope factors and the default crowd settings.
    pub fn from_general(slope_climb: SimFixed, slope_descend: SimFixed) -> (r: Self)
        ensures
            r.slope_climb == slope_climb,
            r.slope_descend == slope_descend,
            r.crowd_density_threshold == DEFAULT_CROWD_DENSITY_THRESHOLD,
            r.crowd_jam_factor.raw == DEFAULT_CROWD_JAM_FACTOR_RAW,
    {
        let d = TerrainSpeedConfig::default();
        TerrainSpeedConfig { slope_climb, slope_descend, ..d }
    }
}

/// `v` restricted to `[lo, hi]`.
pub open spec fn clamp_int(v: int, lo: int, hi: int) -> int {
    if v < lo {
        lo
    } else if v > hi {
        hi
    } else {
        v
    }
}

/// Fixed-point product of two raw values, rounded down.
pub open spec fn fixed_mul(a: int, b: int) -> int {
    (a * b) / 65536
}

/// Terrain factor: the destination's land-class multiplier restricted to
/// `[0.5, 1.0]`; 1.0 outside the map.
pub open spec fn spec_terrain_factor(st: SpeedType, next: (u16, u16), terrain: ResolvedTerrainGrid) -> int {
    match terrain.spec_cell(next.0, next.1) {
        Some(c) => clamp_int(c.speed_costs.spec_speed_multiplier(st), TERRAIN_SPEED_MIN_RAW as int, TERRAIN_SPEED_MAX_RAW as int),
        None => ONE_RAW as int,
    }
}

/// Ground locomotors feel slopes; hovering and flying ones do not.
pub open spec fn spec_slope_affected(k: LocomotorKind) -> bool {
    k == LocomotorKind::Drive || k == LocomotorKind::Walk || k == LocomotorKind::Mech
        || k == LocomotorKind::Ship || k == LocomotorKind::Tunnel
}

/// Height level of a cell, 0 outside the map.
pub open spec fn level_or_zero(terrain: ResolvedTerrainGrid, c: (u16, u16)) -> u8 {
    match terrain.spec_cell(c.0, c.1) {
        Some(cell) => cell.level,
        None => 0,
    }
}

/// Slope factor: climb when the next cell is higher, descend when lower.
pub open spec fn spec_slope_factor(
    k: LocomotorKind,
    cur: (u16, u16),
    next: (u16, u16),
    terrain: ResolvedTerrainGrid,
    config: TerrainSpeedConfig,
) -> int {
    if !spec_slope_affected(k) {
        ONE_RAW as int
    } else if level_or_zero(terrain, next) > level_or_zero(terrain, cur) {
        config.slope_climb.raw as int
    } else if level_or_zero(terrain, next) < level_or_zero(terrain, cur) {
        config.slope_descend.raw as int
    } else {
        ONE_RAW as int
    }
}

/// Whether the `k`-th cell of the 5x5 square around `c` (row by row) is an
/// occupied neighbour: not `c` itself, not at a negative coordinate, and
/// occupied (coordinates beyond 65535 wrap around).
pub open spec fn crowd_hit(c: (u16, u16), occupied: Set<(u16, u16)>, k: int) -> bool {
    let dx = k % 5 - 2;
    let dy = k / 5 - 2;
    let nx = c.0 + dx;
    let ny = c.1 + dy;
    &&& !(dx == 0 && dy == 0)
    &&& nx >= 0
    &&& ny >= 0
    &&& occupied.contains(((nx % 65536) as u16, (ny % 65536) as u16))
}

/// Occupied neighbours among the first `n` cells of the 5x5 square.
pub open spec fn crowd_count(c: (u16, u16), occupied: Set<(u16, u16)>, n: int) -> nat
    decreases n,
{
    if n <= 0 {
        0
    } else {
        crowd_count(c, occupied, n - 1) + if crowd_hit(c, occupied, n - 1) {
            1nat
        } else {
            0nat
        }
    }
}

/// Crowd factor: the jam factor when more occupied neighbours than the
/// threshold lie within two cells, else 1.0.
pub open spec fn spec_crowd_factor(c: (u16, u16), occupied: Set<(u16, u16)>, config: TerrainSpeedConfig) -> int {
    if crowd_count(c, occupied, 25) > config.crowd_density_threshold {
        config.crowd_jam_factor.raw as int
    } else {
        ONE_RAW as int
    }
}

/// Combined modifier: the product of the three factors restricted to
/// `[0.3, 1.2]`.
pub open spec fn spec_cell_speed_modifier(
    st: SpeedType,
    k: LocomotorKind,
    cur: (u16, u16),
    next: (u16, u16),
    terrain: ResolvedTerrainGrid,
    occupied: Set<(u16, u16)>,
    config: TerrainSpeedConfig,
) -> int {
    clamp_int(
        fixed_mul(
            fixed_mul(spec_terrain_factor(st, next, terrain), spec_slope_factor(k, cur, next, terrain, config)),
            spec_crowd_factor(cur, occupied, config),
        ),
        COMBINED_MIN_RAW as int,
        COMBINED_MAX_RAW as int,
    )
}

/// Terrain factor of the destination cell.
fn terrain_speed_factor(speed_type: SpeedType, next_cell: (u16, u16), terrain: &ResolvedTerrainGrid) -> (r: SimFixed)
    ensures
        r.raw == spec_terrain_factor(speed_type, next_cell, *terrain),
{
    match terrain.cell(next_cell.0, next_cell.1) {
        None => SimFixed::one(),
        Some(cell) => {
            let m = cell.speed_costs.speed_multiplier_for(speed_type);
            m.clamp(SimFixed { raw: TERRAIN_SPEED_MIN_RAW }, SimFixed { raw: TERRAIN_SPEED_MAX_RAW })
        },
    }
}

/// Whether a locomotor feels slopes.
fn is_slope_affected(kind: LocomotorKind) -> (r: bool)
    ensures
        r == spec_slope_affected(kind),
{
    match kind {
        LocomotorKind::Drive | LocomotorKind::Walk | LocomotorKind::Mech | LocomotorKind::Ship
        | LocomotorKind::Tunnel => true,
        _ => false,
    }
}

/// Height level of a cell, 0 outside the map.
fn level_at(terrain: &ResolvedTerrainGrid, c: (u16, u16)) -> (r: u8)
    ensures
        r == level_or_zero(*terrain, c),
{
    match terrain.cell(c.0, c.1) {
        Some(cell) => cell.level,
        None => 0,
    }
}

/// Slope factor between the current and the next cell.
fn slope_speed_factor(
    locomotor_kind: LocomotorKind,
    current_cell: (u16, u16),
    next_cell: (u16, u16),
    terrain: &ResolvedTerrainGrid,
    config: &TerrainSpeedConfig,
) -> (r: SimFixed)
    ensures
        r.raw == spec_slope_factor(locomotor_kind, current_cell, next_cell, *terrain, *config),
{
    if !is_slope_affected(locomotor_kind) {
        return SimFixed::one();
    }
    let cur_level = level_at(terrain, current_cell);
    let next_level = level_at(terrain, next_cell);
    if next_level > cur_level {
        config.slope_climb
    } else if next_level < cur_level {
        config.slope_descend
    } else {
        SimFixed::one()
    }
}

/// Crowd factor: counts the occupied cells within two cells of the current
/// one (not the cell itself) and applies the jam factor above the threshold.
pub fn crowd_speed_factor(current_cell: (u16, u16), occupancy: &OccupancyGrid, config: &TerrainSpeedConfig) -> (r: SimFixed)
    ensures
        r.raw == spec_crowd_factor(current_cell, occupancy@, *config),
{
    let cx = current_cell.0 as i32;
    let cy = current_cell.1 as i32;
    let mut count: u8 = 0;
    let mut k: i32 = 0;
    while k < 25
        invariant
            0 <= k <= 25,
            cx == current_cell.0,
            cy == current_cell.1,
            count == crowd_count(current_cell, occupancy@, k as int),
            count <= k,
        decreases 25 - k,
    {
        let dx = k % 5 - 2;
        let dy = k / 5 - 2;
        let nx = cx + dx;
        let ny = cy + dy;
        let hit = if dx == 0 && dy == 0 {
            false
        } else if nx < 0 || ny < 0 {
            false
        } else {
            let ux = (nx % 65536) as u16;
            let uy = (ny % 65536) as u16;
            occupancy.is_occupied(ux, uy)
        };
        proof {
            assert(hit == crowd_hit(current_cell, occupancy@, k as int));
        }
        if hit {
            count = count + 1;
        }
        k = k + 1;
    }
    if count > config.crowd_density_threshold {
        config.crowd_jam_factor
    } else {
        SimFixed::one()
    }
}

/// `x / 65536` rounded down.
fn floor_div_one(x: i128) -> (r: i128)
    requires
        -0x4000_0000_0000_0000_0000_0000_0000_0000 <= x <= 0x4000_0000_0000_0000_0000_0000_0000_0000,
    ensures
        r == x / 65536,
{
    if x >= 0 {
        x / 65536
    } else {
        let q = (-x - 1) / 65536;
        proof {
            let y = -x - 1;
            assert(y == 65536 * (y / 65536) + y % 65536) by (nonlinear_arith);
            assert(0 <= y % 65536 < 65536) by (nonlinear_arith);
            assert(x == 65536 * (-q - 1) + (65535 - y % 65536));
            assert(x / 65536 == -q - 1) by (nonlinear_arith)
                requires
                    x == 65536 * (-q - 1) + (65535 - y % 65536),
                    0 <= 65535 - y % 65536 < 65536,
            ;
        }
        -q - 1
    }
}

/// Combined speed multiplier for a unit stepping from `current_cell` to
/// `next_cell`: terrain factor times slope factor times crowd factor (each
/// product rounded down), restricted to `[0.3, 1.2]`.
pub fn compute_cell_speed_modifier(
    speed_type: SpeedType,
    locomotor_kind: LocomotorKind,
    current_cell: (u16, u16),
    next_cell: (u16, u16),
    terrain: &ResolvedTerrainGrid,
    occupancy: &OccupancyGrid,
    config: &TerrainSpeedConfig,
) -> (r: SimFixed)
    ensures
        r.raw == spec_cell_speed_modifier(
            speed_type,
            locomotor_kind,
            current_cell,
            next_cell,
            *terrain,
            occupancy@,
            *config,
        ),
        COMBINED_MIN_RAW <= r.raw <= COMBINED_MAX_RAW,
{
    let t = terrain_speed_factor(speed_type, next_cell, terrain);
    let s = slope_speed_factor(locomotor_kind, current_cell, next_cell, terrain, config);
    let c = crowd_speed_factor(current_cell, occupancy, config);
    proof {
        assert(32768 <= t.raw <= 65536);
        assert(-0x1_0000_0000_0000_0000_0000 < t.raw * s.raw < 0x1_0000_0000_0000_0000_0000) by (nonlinear_arith)
            requires
                32768 <= t.raw <= 65536,
                i64::MIN <= s.raw <= i64::MAX,
        ;
    }
    let ts_wide = t.raw as i128 * s.raw as i128;
    let ts = floor_div_one(ts_wide);
    proof {
        assert(-0x8000_0000_0000_0000 <= ts <= 0x8000_0000_0000_0000) by (nonlinear_arith)
            requires
                ts == ts_wide / 65536,
                ts_wide == t.raw * s.raw,
                32768 <= t.raw <= 65536,
                i64::MIN <= s.raw <= i64::MAX,
        ;
    }
    proof {
        assert(-0x4000_0000_0000_0000_0000_0000_0000_0000 <= ts * c.raw <= 0x4000_0000_0000_0000_0000_0000_0000_0000)
            by (nonlinear_arith)
            requires
                -0x8000_0000_0000_0000 <= ts <= 0x8000_0000_0000_0000,
                -0x8000_0000_0000_0000 <= c.raw <= 0x8000_0000_0000_0000,
        ;
    }
    let all_wide = ts * c.raw as i128;
    let all = floor_div_one(all_wide);
    let clamped = if all < COMBINED_MIN_RAW as i128 {
        COMBINED_MIN_RAW
    } else if all > COMBINED_MAX_RAW as i128 {
        COMBINED_MAX_RAW
    } else {
        all as i64
    };
    SimFixed { raw: clamped }
}

/// No occupied neighbour is counted around any cell when nothing is occupied.
proof fn lemma_empty_crowd_count(c: (u16, u16), n: int)
    ensures
        crowd_count(c, Set::<(u16, u16)>::empty(), n) == 0,
    decreases n,
{
    if n > 0 {
        lemma_empty_crowd_count(c, n - 1);
    }
}

/// Without occupied cells there is no crowd slowdown: the crowd factor is 1.0
/// whatever the settings.
pub proof fn law_no_crowd_no_slowdown(c: (u16, u16), config: TerrainSpeedConfig)
    ensures
        spec_crowd_factor(c, Set::<(u16, u16)>::empty(), config) == ONE_RAW,
{
    lemma_empty_crowd_count(c, 25);
}

/// The terrain factor lies between 0.5 and 1.0 for every cell and speed type.
pub proof fn law_terrain_factor_bounds(st: SpeedType, next: (u16, u16), terrain: ResolvedTerrainGrid)
    ensures
        TERRAIN_SPEED_MIN_RAW <= spec_terrain_factor(st, next, terrain) <= TERRAIN_SPEED_MAX_RAW,
{
}

} // verus!
