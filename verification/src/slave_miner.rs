//! Slave miner harvesting: the harvest state of each slave and the ore it
//! carries back to its master.

use vstd::prelude::*;

verus! {

/// Deployment state of a slave miner (mobile vehicle or deployed refinery).
#[derive(Debug, Clone, Copy, PartialEq, Eq, Structural)]
pub enum SlaveMinerMode {
    /// Vehicle form, moving toward an ore field.
    Mobile,
    /// Deploying into the refinery form.
    Deploying,
    /// Refinery form; the slaves are working.
    Deployed,
    /// Packing up into the vehicle form.
    Undeploying,
}

/// Harvest state of one slave.
#[derive(Debug, Clone, Copy, PartialEq, Eq, Structural)]
pub enum SlaveHarvestState {
    /// Looking for ore near the master.
    SearchOre,
    /// Walking to the target ore cell.
    MoveToOre,
    /// Extracting bales.
    Harvest,
    /// Walking back to the master.
    ReturnToMaster,
    /// Handing the cargo over; credits are paid at once.
    Deposit,
    /// No ore found; waiting near the master.
    Idle,
}

/// Kind of harvested resource.
#[derive(Debug, Clone, Copy, PartialEq, Eq, Structural)]
pub enum ResourceType {
    Ore,
    Gem,
}

/// One bale of harvested resource and its credit value.
#[derive(Debug, Clone, Copy, PartialEq, Eq, Structural)]
pub struct CargoBale {
    pub resource_type: ResourceType,
    pub value: u16,
}

/// Harvest state carried by a slave.
#[derive(Debug, Clone)]
pub struct SlaveHarvester {
    /// Id of the master (deployed refinery or mobile miner).
    pub master_id: u64,
    /// Current harvest state.
    pub state: SlaveHarvestState,
    /// Bales carried.
    pub cargo: Vec<CargoBale>,
    /// Most bales the slave can carry.
    pub capacity: u16,
    /// Countdown of the current harvest action.
    pub harvest_timer: u32,
    /// Ore cell being targeted.
    pub target_cell: Option<(u16, u16)>,
}

/// Total credit value of a sequence of bales.
pub open spec fn cargo_total(bales: Seq<CargoBale>) -> nat
    decreases bales.len(),
{
    if bales.len() == 0 {
        0
    } else {
        cargo_total(bales.drop_last()) + bales.last().value as nat
    }
}

impl SlaveHarvester {
    /// A slave bound to `master_id`, searching for ore with empty cargo.
    pub fn new(master_id: u64, capacity: u16) -> (r: Self)
        ensures
            r.master_id == master_id,
            r.state == SlaveHarvestState::SearchOre,
            r.cargo@.len() == 0,
            r.capacity == capacity,
            r.harvest_timer == 0,
            r.target_cell is None,
    {
        SlaveHarvester {
            master_id,
            state: SlaveHarvestState::SearchOre,
            cargo: Vec::new(),
            capacity,
            harvest_timer: 0,
            target_cell: None,
        }
    }

    /// Whether the cargo is at capacity (the bale count is taken as a 16-bit
    /// number).
    pub fn is_full(&self) -> (r: bool)
        ensures
            r == ((self.cargo@.len() as u16) >= self.capacity),
    {
        (self.cargo.len() as u16) >= self.capacity
    }

    /// Total credit value of the carried bales.
    pub fn cargo_value(&self) -> (r: u32)
        requires
            cargo_total(self.cargo@) <= u32::MAX,
        ensures
            r == cargo_total(self.cargo@),
    {
        let mut total: u32 = 0;
        let mut i: usize = 0;
        while i < self.cargo.len()
            invariant
                i <= self.cargo@.len(),
                total == cargo_total(self.cargo@.take(i as int)),
                cargo_total(self.cargo@) <= u32::MAX,
            decreases self.cargo@.len() - i,
        {
            proof {
                assert(self.cargo@.take(i + 1).drop_last() =~= self.cargo@.take(i as int));
                lemma_cargo_total_prefix(self.cargo@, i + 1);
            }
            total = total + self.cargo[i].value as u32;
            i = i + 1;
        }
        proof {
            assert(self.cargo@.take(i as int) =~= self.cargo@);
        }
        total
    }
}

/// The value of a prefix of the bales is at most the value of all of them.
proof fn lemma_cargo_total_prefix(bales: Seq<CargoBale>, n: int)
    requires
        0 <= n <= bales.len(),
    ensures
        cargo_total(bales.take(n)) <= cargo_total(bales),
    decreases bales.len() - n,
{
    if n < bales.len() {
        lemma_cargo_total_prefix(bales, n + 1);
        assert(bales.take(n + 1).drop_last() =~= bales.take(n));
    } else {
        assert(bales.take(n) =~= bales);
    }
}

/// Manhattan distance between two cells.
pub fn manhattan_distance(ax: u16, ay: u16, bx: u16, by: u16) -> (r: u16)
    requires
        (if ax >= bx {
            ax - bx
        } else {
            bx - ax
        }) + (if ay >= by {
            ay - by
        } else {
            by - ay
        }) <= u16::MAX,
    ensures
        r == (if ax >= bx {
            ax - bx
        } else {
            bx - ax
        }) + (if ay >= by {
            ay - by
        } else {
            by - ay
        }),
{
    let dx = if ax >= bx {
        ax - bx
    } else {
        bx - ax
    };
    let dy = if ay >= by {
        ay - by
    } else {
        by - ay
    };
    dx + dy
}

/// Manhattan distance between two cells, as a mathematical integer.
pub open spec fn cell_manhattan(a: (u16, u16), b: (u16, u16)) -> int {
    (if a.0 >= b.0 {
        a.0 - b.0
    } else {
        b.0 - a.0
    }) + (if a.1 >= b.1 {
        a.1 - b.1
    } else {
        b.1 - a.1
    })
}

/// The distances that a scan correction compares fit in 16 bits.
pub open spec fn scan_distances_fit(
    master: Option<(u16, u16)>,
    nearest: Option<(u16, u16)>,
    farther: Option<(u16, u16)>,
) -> bool {
    match (master, nearest) {
        (Some(m), Some(c)) => {
            &&& cell_manhattan(m, c) <= u16::MAX
            &&& farther matches Some(b) ==> cell_manhattan(m, b) <= u16::MAX
        },
        _ => true,
    }
}

/// Where a deployed slave miner should move: the ore found by the long
/// scan, when the master still exists, both scans found ore, and the long
/// scan's ore is closer to the master by at least the correction (a
/// negative correction counts as 0, and the correction is taken modulo
/// 65536).
pub open spec fn spec_scan_correction(
    master: Option<(u16, u16)>,
    nearest: Option<(u16, u16)>,
    farther: Option<(u16, u16)>,
    correction: i32,
) -> Option<(u16, u16)> {
    match (master, nearest, farther) {
        (Some(m), Some(c), Some(b)) => {
            let cd = cell_manhattan(m, c);
            let bd = cell_manhattan(m, b);
            let corr = (if correction < 0 {
                0
            } else {
                correction
            }) as u16;
            if cd > bd && cd - bd >= corr {
                Some(b)
            } else {
                None
            }
        },
        _ => None,
    }
}

/// Whether a deployed slave miner should reposition to a closer ore patch.
/// `master` is the master's cell (`None` once it is gone), `nearest` the
/// nearest ore within the short scan and `farther` the nearest ore within
/// the long scan, both searched from the master's cell; `scan_correction`
/// is the improvement in cells that makes the move worthwhile.
pub fn check_scan_correction(
    master: Option<(u16, u16)>,
    nearest: Option<(u16, u16)>,
    farther: Option<(u16, u16)>,
    scan_correction: i32,
) -> (r: Option<(u16, u16)>)
    requires
        scan_distances_fit(master, nearest, farther),
    ensures
        r == spec_scan_correction(master, nearest, farther, scan_correction),
{
    let (mrx, mry) = match master {
        Some(p) => p,
        None => return None,
    };
    let correction: u16 = if scan_correction < 0 {
        0
    } else {
        scan_correction as u16
    };
    let current = match nearest {
        Some(c) => c,
        None => return None,
    };
    let current_dist = manhattan_distance(mrx, mry, current.0, current.1);
    let better = match farther {
        Some(b) => b,
        None => return None,
    };
    let better_dist = manhattan_distance(mrx, mry, better.0, better.1);
    if current_dist > better_dist && current_dist - better_dist >= correction {
        Some(better)
    } else {
        None
    }
}

/// Ticks between two bales of a slave's harvest.
pub const SLAVE_HARVEST_RATE_TICKS: u32 = 150;

/// What one tick of a slave learns from the world before deciding.
#[derive(Debug, Clone, Copy, PartialEq, Eq)]
pub struct SlaveView {
    /// The slave's cell.
    pub cell: (u16, u16),
    /// The master's cell; `None` once the master is gone.
    pub master_cell: Option<(u16, u16)>,
    /// Ore found by the local ore search around the master, if any.
    pub ore_nearby: Option<(u16, u16)>,
    /// Whether the slave's target cell still holds ore.
    pub target_has_ore: bool,
}

/// Work that a slave's tick hands back to the world.
#[derive(Debug, Clone, Copy, PartialEq, Eq)]
pub enum SlaveAction {
    /// Nothing to do this tick.
    Wait,
    /// Extract one bale from this ore cell and hand the result to
    /// `SlaveHarvester::finish_harvest`.
    ExtractBale { cell: (u16, u16) },
    /// Pay this bale out to the slave's owner.
    Deposit { bale: CargoBale },
}

/// Absolute difference of two coordinates.
pub open spec fn coord_gap(a: u16, b: u16) -> int {
    if a >= b {
        a - b
    } else {
        b - a
    }
}

/// Whether cell `a` is within `r` cells of `b` along both axes.
pub open spec fn within(a: (u16, u16), b: (u16, u16), r: int) -> bool {
    coord_gap(a.0, b.0) <= r && coord_gap(a.1, b.1) <= r
}

/// Harvest state after one tick of `h` that saw `v`.
pub open spec fn next_slave_state(h: SlaveHarvester, v: SlaveView) -> SlaveHarvestState {
    if v.master_cell is None {
        SlaveHarvestState::Idle
    } else {
        match h.state {
            SlaveHarvestState::SearchOre => if v.ore_nearby is Some {
                SlaveHarvestState::MoveToOre
            } else {
                SlaveHarvestState::Idle
            },
            SlaveHarvestState::MoveToOre => match h.target_cell {
                None => SlaveHarvestState::SearchOre,
                Some(t) => if within(v.cell, t, 1) {
                    SlaveHarvestState::Harvest
                } else {
                    SlaveHarvestState::MoveToOre
                },
            },
            SlaveHarvestState::Harvest => if h.target_cell is None {
                SlaveHarvestState::SearchOre
            } else if !v.target_has_ore {
                if h.cargo@.len() == 0 {
                    SlaveHarvestState::SearchOre
                } else {
                    SlaveHarvestState::ReturnToMaster
                }
            } else {
                SlaveHarvestState::Harvest
            },
            SlaveHarvestState::ReturnToMaster => if within(v.cell, v.master_cell.unwrap(), 2) {
                SlaveHarvestState::Deposit
            } else {
                SlaveHarvestState::ReturnToMaster
            },
            SlaveHarvestState::Deposit => if h.cargo@.len() == 0 {
                SlaveHarvestState::SearchOre
            } else {
                SlaveHarvestState::Deposit
            },
            SlaveHarvestState::Idle => if v.ore_nearby is Some {
                SlaveHarvestState::MoveToOre
            } else {
                SlaveHarvestState::Idle
            },
        }
    }
}

/// Target cell after one tick of `h` that saw `v`.
pub open spec fn next_slave_target(h: SlaveHarvester, v: SlaveView) -> Option<(u16, u16)> {
    if v.master_cell is None {
        h.target_cell
    } else {
        match h.state {
            SlaveHarvestState::SearchOre | SlaveHarvestState::Idle => if v.ore_nearby is Some {
                v.ore_nearby
            } else {
                h.target_cell
            },
            SlaveHarvestState::Harvest => if h.target_cell is Some && !v.target_has_ore {
                None
            } else {
                h.target_cell
            },
            _ => h.target_cell,
        }
    }
}

/// Harvest timer after one tick of `h` that saw `v`.
pub open spec fn next_slave_timer(h: SlaveHarvester, v: SlaveView) -> u32 {
    if v.master_cell is None {
        h.harvest_timer
    } else {
        match h.state {
            SlaveHarvestState::MoveToOre => match h.target_cell {
                Some(t) => if within(v.cell, t, 1) {
                    0
                } else {
                    h.harvest_timer
                },
                None => h.harvest_timer,
            },
            SlaveHarvestState::Harvest => if h.target_cell is Some && v.target_has_ore
                && h.harvest_timer > 0 {
                (h.harvest_timer - 1) as u32
            } else {
                h.harvest_timer
            },
            _ => h.harvest_timer,
        }
    }
}

/// Whether the tick of `h` that saw `v` hands over the first bale.
pub open spec fn slave_deposits(h: SlaveHarvester, v: SlaveView) -> bool {
    v.master_cell is Some && h.state == SlaveHarvestState::Deposit && h.cargo@.len() > 0
}

/// What the tick of `h` that saw `v` asks of the world.
pub open spec fn slave_action(h: SlaveHarvester, v: SlaveView) -> SlaveAction {
    if slave_deposits(h, v) {
        SlaveAction::Deposit { bale: h.cargo@[0] }
    } else if v.master_cell is Some && h.state == SlaveHarvestState::Harvest && h.target_cell is Some
        && v.target_has_ore && h.harvest_timer == 0 {
        SlaveAction::ExtractBale { cell: h.target_cell.unwrap() }
    } else {
        SlaveAction::Wait
    }
}

impl SlaveHarvester {
    /// One tick of the slave's harvest state machine. A slave whose master
    /// is gone goes idle. Searching or idle, it targets the ore found near
    /// the master (a searching slave without ore goes idle); walking to ore,
    /// it starts harvesting once within one cell of the target; harvesting,
    /// it counts its timer down, asks for a bale when the timer is out, and
    /// leaves a depleted cell (back to searching with empty cargo, else back
    /// to the master); returning, it deposits once within two cells of the
    /// master; depositing, it hands over its first bale, or searches again
    /// when the cargo is empty. Walking itself is left to the movement code.
    pub fn step(&mut self, view: SlaveView) -> (action: SlaveAction)
        ensures
            final(self).master_id == old(self).master_id,
            final(self).capacity == old(self).capacity,
            final(self).state == next_slave_state(*old(self), view),
            final(self).target_cell == next_slave_target(*old(self), view),
            final(self).harvest_timer == next_slave_timer(*old(self), view),
            final(self).cargo@ == if slave_deposits(*old(self), view) {
                old(self).cargo@.remove(0)
            } else {
                old(self).cargo@
            },
            action == slave_action(*old(self), view),
    {
        let master = match view.master_cell {
            Some(m) => m,
            None => {
                self.state = SlaveHarvestState::Idle;
                return SlaveAction::Wait;
            },
        };
        match self.state {
            SlaveHarvestState::SearchOre => {
                match view.ore_nearby {
                    Some(c) => {
                        self.target_cell = Some(c);
                        self.state = SlaveHarvestState::MoveToOre;
                    },
                    None => {
                        self.state = SlaveHarvestState::Idle;
                    },
                }
                SlaveAction::Wait
            },
            SlaveHarvestState::MoveToOre => {
                match self.target_cell {
                    None => {
                        self.state = SlaveHarvestState::SearchOre;
                    },
                    Some(t) => {
                        let dx: i32 = view.cell.0 as i32 - t.0 as i32;
                        let dy: i32 = view.cell.1 as i32 - t.1 as i32;
                        if -1 <= dx && dx <= 1 && -1 <= dy && dy <= 1 {
                            self.state = SlaveHarvestState::Harvest;
                            self.harvest_timer = 0;
                        }
                    },
                }
                SlaveAction::Wait
            },
            SlaveHarvestState::Harvest => {
                let cell = match self.target_cell {
                    Some(c) => c,
                    None => {
                        self.state = SlaveHarvestState::SearchOre;
                        return SlaveAction::Wait;
                    },
                };
                if !view.target_has_ore {
                    self.target_cell = None;
                    if self.cargo.len() == 0 {
                        self.state = SlaveHarvestState::SearchOre;
                    } else {
                        self.state = SlaveHarvestState::ReturnToMaster;
                    }
                    return SlaveAction::Wait;
                }
                if self.harvest_timer > 0 {
                    self.harvest_timer = self.harvest_timer - 1;
                    return SlaveAction::Wait;
                }
                SlaveAction::ExtractBale { cell }
            },
            SlaveHarvestState::ReturnToMaster => {
                let dx: i32 = view.cell.0 as i32 - master.0 as i32;
                let dy: i32 = view.cell.1 as i32 - master.1 as i32;
                if -2 <= dx && dx <= 2 && -2 <= dy && dy <= 2 {
                    self.state = SlaveHarvestState::Deposit;
                }
                SlaveAction::Wait
            },
            SlaveHarvestState::Deposit => {
                if self.cargo.len() == 0 {
                    self.state = SlaveHarvestState::SearchOre;
                    return SlaveAction::Wait;
                }
                let bale = self.cargo.remove(0);
                SlaveAction::Deposit { bale }
            },
            SlaveHarvestState::Idle => {
                if let Some(c) = view.ore_nearby {
                    self.target_cell = Some(c);
                    self.state = SlaveHarvestState::MoveToOre;
                }
                SlaveAction::Wait
            },
        }
    }

    /// Finish a harvest action with the bale the ore cell gave (if any): the
    /// bale is loaded, and a full slave heads back to its master while the
    /// others wait `SLAVE_HARVEST_RATE_TICKS` ticks for the next bale.
    pub fn finish_harvest(&mut self, bale: Option<CargoBale>)
        ensures
            final(self).master_id == old(self).master_id,
            final(self).capacity == old(self).capacity,
            final(self).target_cell == old(self).target_cell,
            final(self).cargo@ == match bale {
                Some(b) => old(self).cargo@.push(b),
                None => old(self).cargo@,
            },
            (final(self).cargo@.len() as u16) >= final(self).capacity ==> final(self).state
                == SlaveHarvestState::ReturnToMaster && final(self).harvest_timer
                == old(self).harvest_timer,
            (final(self).cargo@.len() as u16) < final(self).capacity ==> final(self).state
                == old(self).state && final(self).harvest_timer == SLAVE_HARVEST_RATE_TICKS,
    {
        if let Some(b) = bale {
            self.cargo.push(b);
        }
        if self.is_full() {
            self.state = SlaveHarvestState::ReturnToMaster;
        } else {
            self.harvest_timer = SLAVE_HARVEST_RATE_TICKS;
        }
    }
}

/// Manhattan distance is a metric: symmetric, zero exactly between equal
/// cells, and never longer through a third cell than directly.
pub proof fn law_manhattan_is_a_metric(a: (u16, u16), b: (u16, u16), c: (u16, u16))
    ensures
        cell_manhattan(a, b) == cell_manhattan(b, a),
        cell_manhattan(a, b) >= 0,
        (cell_manhattan(a, b) == 0) <==> a == b,
        cell_manhattan(a, c) <= cell_manhattan(a, b) + cell_manhattan(b, c),
{
}

/// A deployed slave miner moves only to the ore of the long scan, and only
/// when that ore is closer to the master than the short scan's ore by at
/// least the correction (a negative correction counts as 0); with the
/// master gone or either scan empty it stays.
pub proof fn law_scan_correction_moves_only_closer(
    master: Option<(u16, u16)>,
    nearest: Option<(u16, u16)>,
    farther: Option<(u16, u16)>,
    correction: i32,
)
    requires
        correction <= u16::MAX,
    ensures
        (master is None || nearest is None || farther is None) ==> spec_scan_correction(master, nearest, farther, correction)
            is None,
        spec_scan_correction(master, nearest, farther, correction) matches Some(t) ==> (t == farther->0 && cell_manhattan(
            master->0,
            t,
        ) + (if correction < 0 {
            0
        } else {
            correction as int
        }) <= cell_manhattan(master->0, nearest->0) && cell_manhattan(master->0, t) < cell_manhattan(
            master->0,
            nearest->0,
        )),
        (master matches Some(m) && nearest matches Some(c) && farther matches Some(b) && cell_manhattan(m, b) + (if correction
            < 0 {
            0
        } else {
            correction as int
        }) <= cell_manhattan(m, c) && cell_manhattan(m, b) < cell_manhattan(m, c)) ==> spec_scan_correction(
            master,
            nearest,
            farther,
            correction,
        ) == farther,
{
}

/// A slave whose master is gone goes idle and asks for nothing, keeping its
/// target, timer and cargo; a slave never deposits from an empty cargo.
pub proof fn law_orphaned_slave_idles(h: SlaveHarvester, v: SlaveView)
    ensures
        v.master_cell is None ==> next_slave_state(h, v) == SlaveHarvestState::Idle && next_slave_target(h, v)
            == h.target_cell && next_slave_timer(h, v) == h.harvest_timer && slave_action(h, v) == SlaveAction::Wait
            && !slave_deposits(h, v),
        h.cargo@.len() == 0 ==> !slave_deposits(h, v),
        slave_action(h, v) matches SlaveAction::Deposit { bale } ==> h.cargo@.len() > 0 && bale == h.cargo@[0],
        slave_action(h, v) matches SlaveAction::ExtractBale { cell } ==> h.target_cell == Some(cell) && v.target_has_ore
            && h.harvest_timer == 0,
{
}

} // verus!
