//! Per-player power: what each player's buildings generate and drain, the
//! low-power state that follows, power blackouts, and the slow damage that
//! powered consumers take while their owner is short of power.
//!
//! Generators (positive power) produce their rated power scaled by health,
//! rounded down; consumers (negative power) always drain their full rating.
//! A player whose drain exceeds the output is in low power.

use std::collections::BTreeMap;
use vstd::prelude::*;
use crate::fixed_math::SimFixed;

verus! {

/// Per-player power state, updated each simulation tick.
#[derive(Debug, Clone, Copy, PartialEq, Eq, Structural)]
pub struct PowerState {
    /// Health-scaled output of the finished generators.
    pub total_output: i32,
    /// Full rated drain of the finished consumers.
    pub total_drain: i32,
    /// Whether the output is below the drain.
    pub is_low_power: bool,
    /// Frames of blackout left; while above zero the output is zero.
    pub power_blackout_remaining: u32,
    /// Milliseconds accumulated toward the next degradation damage.
    pub degradation_accum_ms: u32,
    /// Low-power state of the previous tick.
    pub was_low_power: bool,
    /// Sum of the absolute power ratings of every owned building, finished
    /// or not.
    pub theoretical_total_power: i32,
}

/// The state of a player that has not been seen yet: all zero.
pub open spec fn initial_power_state() -> PowerState {
    PowerState {
        total_output: 0,
        total_drain: 0,
        is_low_power: false,
        power_blackout_remaining: 0,
        degradation_accum_ms: 0,
        was_low_power: false,
        theoretical_total_power: 0,
    }
}

impl Default for PowerState {
    fn default() -> (r: Self)
        ensures
            r == initial_power_state(),
    {
        PowerState {
            total_output: 0,
            total_drain: 0,
            is_low_power: false,
            power_blackout_remaining: 0,
            degradation_accum_ms: 0,
            was_low_power: false,
            theoretical_total_power: 0,
        }
    }
}

/// A change of a player's power state.
#[derive(Debug, Clone, Copy, PartialEq, Eq, Structural)]
pub enum PowerEvent {
    /// The player's drain now exceeds the output.
    EnteredLowPower { owner: u32 },
    /// The player's deficit is over.
    PowerRestored { owner: u32 },
}

/// The player a power event is about.
pub open spec fn event_owner(e: PowerEvent) -> u32 {
    match e {
        PowerEvent::EnteredLowPower { owner } => owner,
        PowerEvent::PowerRestored { owner } => owner,
    }
}

/// What the power rules read of one entity: its identity and owner, whether
/// it is a structure and still under construction, its health, and the power
/// settings of its type. An entity whose type is unknown has power 0 and is
/// neither powered nor a radar.
#[derive(Debug, Clone, Copy, PartialEq, Eq, Structural)]
pub struct PowerEntity {
    pub stable_id: u64,
    pub owner: u32,
    pub is_structure: bool,
    pub under_construction: bool,
    pub hp: u16,
    pub max_hp: u16,
    /// Rated power: positive generates, negative consumes.
    pub power: i32,
    /// Whether the type is shut down by low power (`Powered=yes`).
    pub powered: bool,
    /// Whether the type provides radar (a radar or a spy satellite).
    pub radar: bool,
}

/// Whether `e` is a structure of `owner`.
pub open spec fn owned_structure(e: PowerEntity, owner: u32) -> bool {
    e.is_structure && e.owner == owner
}

/// Output of one entity for `owner`: a finished generator of that owner
/// yields `power * hp / max_hp`, rounded down (a zero maximum counts as 1).
pub open spec fn output_of(e: PowerEntity, owner: u32) -> int {
    if owned_structure(e, owner) && !e.under_construction && e.power > 0 {
        let max_hp: int = if e.max_hp == 0 {
            1
        } else {
            e.max_hp as int
        };
        (e.power * e.hp) / max_hp
    } else {
        0
    }
}

/// Drain of one entity for `owner`: a finished consumer of that owner drains
/// its full rating, whatever its health (the most negative rating saturates).
pub open spec fn drain_of(e: PowerEntity, owner: u32) -> int {
    if owned_structure(e, owner) && !e.under_construction && e.power < 0 {
        if e.power == i32::MIN {
            i32::MAX as int
        } else {
            -e.power
        }
    } else {
        0
    }
}

/// Absolute rating of one entity for `owner`, finished or not.
pub open spec fn rating_of(e: PowerEntity, owner: u32) -> int {
    if owned_structure(e, owner) {
        if e.power < 0 {
            -e.power
        } else {
            e.power as int
        }
    } else {
        0
    }
}

/// Total output of `owner` over the entities `s`.
pub open spec fn sum_output(s: Seq<PowerEntity>, owner: u32) -> int
    decreases s.len(),
{
    if s.len() == 0 {
        0
    } else {
        sum_output(s.drop_last(), owner) + output_of(s.last(), owner)
    }
}

/// Total drain of `owner` over the entities `s`.
pub open spec fn sum_drain(s: Seq<PowerEntity>, owner: u32) -> int
    decreases s.len(),
{
    if s.len() == 0 {
        0
    } else {
        sum_drain(s.drop_last(), owner) + drain_of(s.last(), owner)
    }
}

/// Total absolute rating of `owner` over the entities `s`.
pub open spec fn sum_rating(s: Seq<PowerEntity>, owner: u32) -> int
    decreases s.len(),
{
    if s.len() == 0 {
        0
    } else {
        sum_rating(s.drop_last(), owner) + rating_of(s.last(), owner)
    }
}

/// The totals of `owner` fit in 32 bits, and so does each generator's
/// product of power and health.
pub open spec fn power_fits(s: Seq<PowerEntity>, owner: u32) -> bool {
    &&& sum_output(s, owner) <= i32::MAX
    &&& sum_drain(s, owner) <= i32::MAX
    &&& sum_rating(s, owner) <= i32::MAX
    &&& forall|i: int|
        0 <= i < s.len() && owned_structure(#[trigger] s[i], owner) && !s[i].under_construction
            && s[i].power > 0 ==> s[i].power * s[i].hp <= i32::MAX
}

/// The output after a blackout check: zero while a blackout lasts.
pub open spec fn effective_output(st: PowerState, s: Seq<PowerEntity>, owner: u32) -> int {
    if st.power_blackout_remaining > 0 {
        0
    } else {
        sum_output(s, owner)
    }
}

/// `st` with the totals of `owner` recomputed from the entities `s`.
pub open spec fn recalculated(st: PowerState, s: Seq<PowerEntity>, owner: u32) -> PowerState {
    PowerState {
        total_output: effective_output(st, s, owner) as i32,
        total_drain: sum_drain(s, owner) as i32,
        is_low_power: effective_output(st, s, owner) < sum_drain(s, owner),
        power_blackout_remaining: st.power_blackout_remaining,
        degradation_accum_ms: st.degradation_accum_ms,
        was_low_power: st.was_low_power,
        theoretical_total_power: sum_rating(s, owner) as i32,
    }
}

proof fn lemma_sums_nonneg(s: Seq<PowerEntity>, owner: u32)
    ensures
        sum_output(s, owner) >= 0,
        sum_drain(s, owner) >= 0,
        sum_rating(s, owner) >= 0,
    decreases s.len(),
{
    if s.len() > 0 {
        lemma_sums_nonneg(s.drop_last(), owner);
        let e = s.last();
        if owned_structure(e, owner) && !e.under_construction && e.power > 0 {
            let m: int = if e.max_hp == 0 {
                1
            } else {
                e.max_hp as int
            };
            assert(e.power * e.hp >= 0) by (nonlinear_arith)
                requires
                    e.power > 0,
                    e.hp >= 0,
            ;
            assert((e.power * e.hp) / m >= 0) by (nonlinear_arith)
                requires
                    e.power * e.hp >= 0,
                    m >= 1,
            ;
        }
    }
}

proof fn lemma_prefix_sums_bounded(s: Seq<PowerEntity>, owner: u32, k: int)
    requires
        0 <= k <= s.len(),
    ensures
        sum_output(s.take(k), owner) <= sum_output(s, owner),
        sum_drain(s.take(k), owner) <= sum_drain(s, owner),
        sum_rating(s.take(k), owner) <= sum_rating(s, owner),
    decreases s.len(),
{
    if k < s.len() {
        assert(s.drop_last().take(k) =~= s.take(k));
        lemma_prefix_sums_bounded(s.drop_last(), owner, k);
        lemma_sums_nonneg(s, owner);
        let e = s.last();
        if owned_structure(e, owner) && !e.under_construction && e.power > 0 {
            let m: int = if e.max_hp == 0 {
                1
            } else {
                e.max_hp as int
            };
            assert(e.power * e.hp >= 0) by (nonlinear_arith)
                requires
                    e.power > 0,
                    e.hp >= 0,
            ;
            assert((e.power * e.hp) / m >= 0) by (nonlinear_arith)
                requires
                    e.power * e.hp >= 0,
                    m >= 1,
            ;
        }
    } else {
        assert(s.take(k) =~= s);
    }
}

/// Recompute the totals of `owner` from the entities: the output of the
/// finished generators scaled by health (zero while a blackout lasts), the
/// full drain of the finished consumers, the low-power flag and the absolute
/// rating of every building. The timers and the previous flag are kept.
pub fn recalculate_power_for_owner(state: &mut PowerState, entities: &Vec<PowerEntity>, owner: u32)
    requires
        power_fits(entities@, owner),
    ensures
        *final(state) == recalculated(*old(state), entities@, owner),
{
    let ghost s = entities@;
    let mut produced: i32 = 0;
    let mut drained: i32 = 0;
    let mut theoretical: i32 = 0;
    let mut i: usize = 0;
    while i < entities.len()
        invariant
            s == entities@,
            power_fits(s, owner),
            i <= s.len(),
            produced == sum_output(s.take(i as int), owner),
            drained == sum_drain(s.take(i as int), owner),
            theoretical == sum_rating(s.take(i as int), owner),
        decreases s.len() - i,
    {
        let e = entities[i];
        proof {
            assert(s.take(i + 1).drop_last() =~= s.take(i as int));
            assert(s.take(i + 1).last() == e);
            lemma_prefix_sums_bounded(s, owner, i + 1);
            lemma_sums_nonneg(s.take(i as int), owner);
        }
        if e.is_structure && e.owner == owner {
            let rating: i64 = if e.power < 0 {
                -(e.power as i64)
            } else {
                e.power as i64
            };
            theoretical = (theoretical as i64 + rating) as i32;
            if !e.under_construction {
                if e.power > 0 {
                    let max_hp: u64 = if e.max_hp == 0 {
                        1
                    } else {
                        e.max_hp as u64
                    };
                    proof {
                        assert(e.power * e.hp <= i32::MAX);
                        assert(e.power * e.hp >= 0) by (nonlinear_arith)
                            requires
                                e.power > 0,
                                e.hp >= 0,
                        ;
                    }
                    let product: u64 = (e.power as u64) * (e.hp as u64);
                    let share: u64 = product / max_hp;
                    proof {
                        assert(share <= product) by (nonlinear_arith)
                            requires
                                share == product / max_hp,
                                max_hp >= 1,
                        ;
                    }
                    produced = (produced as i64 + share as i64) as i32;
                } else if e.power < 0 {
                    let d: i32 = if e.power == i32::MIN {
                        i32::MAX
                    } else {
                        -e.power
                    };
                    drained = drained + d;
                }
            }
        }
        i = i + 1;
    }
    proof {
        assert(s.take(s.len() as int) =~= s);
    }
    if state.power_blackout_remaining > 0 {
        produced = 0;
    }
    state.total_output = produced;
    state.total_drain = drained;
    state.is_low_power = produced < drained;
    state.theoretical_total_power = theoretical;
}

/// The state kept for `owner` in `m`, or the initial state.
pub open spec fn state_of(m: Map<u32, PowerState>, owner: u32) -> PowerState {
    if m.contains_key(owner) {
        m[owner]
    } else {
        initial_power_state()
    }
}

/// Whether `owner` has a structure among `s`.
pub open spec fn has_structure(s: Seq<PowerEntity>, owner: u32) -> bool {
    exists|i: int| 0 <= i < s.len() && owned_structure(#[trigger] s[i], owner)
}

/// `st` with the degradation time set to `ms`.
pub open spec fn with_accum(st: PowerState, ms: u32) -> PowerState {
    PowerState {
        total_output: st.total_output,
        total_drain: st.total_drain,
        is_low_power: st.is_low_power,
        power_blackout_remaining: st.power_blackout_remaining,
        degradation_accum_ms: ms,
        was_low_power: st.was_low_power,
        theoretical_total_power: st.theoretical_total_power,
    }
}

/// First half of a tick for `owner`: the previous flag is remembered, the
/// blackout counts down by one frame, the totals are recomputed, and the
/// degradation time is cleared unless the player is in low power.
pub open spec fn refreshed(st: PowerState, s: Seq<PowerEntity>, owner: u32) -> PowerState {
    let pre = PowerState {
        total_output: st.total_output,
        total_drain: st.total_drain,
        is_low_power: st.is_low_power,
        power_blackout_remaining: if st.power_blackout_remaining > 0 {
            (st.power_blackout_remaining - 1) as u32
        } else {
            0
        },
        degradation_accum_ms: st.degradation_accum_ms,
        was_low_power: st.is_low_power,
        theoretical_total_power: st.theoretical_total_power,
    };
    let r = recalculated(pre, s, owner);
    if r.is_low_power {
        r
    } else {
        with_accum(r, 0)
    }
}

/// Degradation time after adding one tick, saturating at the 32-bit limit.
pub open spec fn accumulated(st: PowerState, tick_ms: u32) -> u32 {
    if st.degradation_accum_ms + tick_ms > u32::MAX {
        u32::MAX
    } else {
        (st.degradation_accum_ms + tick_ms) as u32
    }
}

/// Whether a player in state `st` takes degradation damage this tick.
pub open spec fn degradation_due(st: PowerState, tick_ms: u32, delay_ms: u32) -> bool {
    st.is_low_power && accumulated(st, tick_ms) >= delay_ms
}

/// Second half of a tick: a player in low power accumulates the tick's
/// time, and pays one delay's worth of it when the damage is due.
pub open spec fn degraded(st: PowerState, tick_ms: u32, delay_ms: u32) -> PowerState {
    if !st.is_low_power {
        st
    } else if accumulated(st, tick_ms) >= delay_ms {
        with_accum(st, (accumulated(st, tick_ms) - delay_ms) as u32)
    } else {
        with_accum(st, accumulated(st, tick_ms))
    }
}

/// The state of `owner` after a whole tick.
pub open spec fn ticked(
    st: PowerState,
    s: Seq<PowerEntity>,
    owner: u32,
    tick_ms: u32,
    delay_ms: u32,
) -> PowerState {
    degraded(refreshed(st, s, owner), tick_ms, delay_ms)
}

/// Whether `owner`, in state `st` before the tick, takes degradation damage.
pub open spec fn owner_degrades(
    st: PowerState,
    s: Seq<PowerEntity>,
    owner: u32,
    tick_ms: u32,
    delay_ms: u32,
) -> bool {
    degradation_due(refreshed(st, s, owner), tick_ms, delay_ms)
}

/// The event a tick reports for `owner`: entering low power, or leaving it.
pub open spec fn owner_event(st: PowerState, s: Seq<PowerEntity>, owner: u32) -> Option<
    PowerEvent,
> {
    let r = refreshed(st, s, owner);
    if r.is_low_power && !r.was_low_power {
        Some(PowerEvent::EnteredLowPower { owner })
    } else if !r.is_low_power && r.was_low_power {
        Some(PowerEvent::PowerRestored { owner })
    } else {
        None
    }
}

/// Whether degradation damage reaches `e`: a finished, powered structure
/// that does not generate power.
pub open spec fn degrades(e: PowerEntity) -> bool {
    e.is_structure && !e.under_construction && e.powered && e.power <= 0
}

/// `e` after one point of degradation damage.
pub open spec fn worn(e: PowerEntity) -> PowerEntity {
    PowerEntity {
        hp: if e.hp > 0 {
            (e.hp - 1) as u16
        } else {
            0
        },
        ..e
    }
}

/// The damage delay fits the arithmetic: the delay in seconds, rounded
/// down, is a 32-bit signed number.
pub open spec fn delay_fits(minutes_raw: i64) -> bool {
    i32::MIN * 65536 <= minutes_raw * 60 < (i32::MAX + 1) * 65536
}

/// Damage delay in milliseconds for a delay given in minutes: whole seconds
/// rounded down and at least zero, times 1000 saturating at the 32-bit
/// limit, and at least 1.
pub open spec fn damage_delay_spec(minutes_raw: i64) -> u32 {
    let v = minutes_raw * 60;
    let secs: int = if v <= 0 {
        0
    } else {
        v / 65536
    };
    let ms: int = if secs * 1000 > u32::MAX {
        u32::MAX as int
    } else {
        secs * 1000
    };
    if ms == 0 {
        1
    } else {
        ms as u32
    }
}

/// Degradation delay in milliseconds for a delay in minutes.
pub fn damage_delay_ms(delay_minutes: SimFixed) -> (r: u32)
    requires
        delay_fits(delay_minutes.raw),
    ensures
        r == damage_delay_spec(delay_minutes.raw),
{
    let v: i64 = delay_minutes.raw * 60;
    let secs: i64 = if v <= 0 {
        0
    } else {
        v / 65536
    };
    let ms: u64 = (secs as u64) * 1000;
    let ms32: u32 = if ms > 0xffff_ffff {
        0xffff_ffff
    } else {
        ms as u32
    };
    if ms32 == 0 {
        1
    } else {
        ms32
    }
}

/// Smallest structure owner above `prev` (any, when `prev` is `None`).
fn next_owner_after(entities: &Vec<PowerEntity>, prev: Option<u32>) -> (r: Option<u32>)
    ensures
        match r {
            Some(o) => {
                &&& has_structure(entities@, o)
                &&& (prev matches Some(p) ==> o > p)
                &&& forall|o2: u32|
                    has_structure(entities@, o2) && (prev matches Some(p) ==> o2 > p) ==> o <= o2
            },
            None => forall|o2: u32|
                has_structure(entities@, o2) ==> (prev matches Some(p) && o2 <= p),
        },
{
    let ghost s = entities@;
    let mut best: Option<u32> = None;
    let mut i: usize = 0;
    while i < entities.len()
        invariant
            s == entities@,
            i <= s.len(),
            match best {
                Some(o) => {
                    &&& has_structure(s, o)
                    &&& (prev matches Some(p) ==> o > p)
                    &&& forall|k: int|
                        0 <= k < i && s[k].is_structure && (prev matches Some(p) ==> s[k].owner
                            > p) ==> o <= s[k].owner
                },
                None => forall|k: int|
                    0 <= k < i && s[k].is_structure ==> (prev matches Some(p) && s[k].owner <= p),
            },
        decreases s.len() - i,
    {
        let e = entities[i];
        if e.is_structure {
            let above = match prev {
                Some(p) => e.owner > p,
                None => true,
            };
            if above {
                let better = match best {
                    Some(b) => e.owner < b,
                    None => true,
                };
                if better {
                    proof {
                        assert(owned_structure(s[i as int], e.owner));
                    }
                    best = Some(e.owner);
                }
            }
        }
        i = i + 1;
    }
    proof {
        match best {
            Some(o) => {
                assert forall|o2: u32|
                    has_structure(s, o2) && (prev matches Some(p) ==> o2 > p) implies o <= o2 by {
                    let k = choose|k: int| 0 <= k < s.len() && owned_structure(#[trigger] s[k], o2);
                    assert(s[k].is_structure);
                }
            },
            None => {
                assert forall|o2: u32| has_structure(s, o2) implies (prev matches Some(p) && o2
                    <= p) by {
                    let k = choose|k: int| 0 <= k < s.len() && owned_structure(#[trigger] s[k], o2);
                    assert(s[k].is_structure);
                }
            },
        }
    }
    best
}

/// Owners of structures, each once, in ascending order.
fn sorted_structure_owners(entities: &Vec<PowerEntity>) -> (owners: Vec<u32>)
    ensures
        forall|a: int, b: int| 0 <= a < b < owners.len() ==> owners[a] < owners[b],
        forall|k: int| 0 <= k < owners.len() ==> has_structure(entities@, #[trigger] owners[k]),
        forall|o: u32| has_structure(entities@, o) ==> owners@.contains(o),
{
    let mut owners: Vec<u32> = Vec::new();
    let mut prev: Option<u32> = None;
    let mut done = false;
    while !done
        invariant
            forall|a: int, b: int| 0 <= a < b < owners.len() ==> owners[a] < owners[b],
            forall|k: int| 0 <= k < owners.len() ==> has_structure(entities@, #[trigger] owners[k]),
            prev is None <==> owners.len() == 0,
            prev matches Some(p) ==> p == owners[owners.len() - 1],
            forall|o: u32|
                has_structure(entities@, o) && (prev matches Some(p) && o <= p) ==> owners@.contains(o),
            done ==> forall|o: u32| has_structure(entities@, o) ==> owners@.contains(o),
        decreases (if done { 0int } else { 1int }), (match prev {
            Some(p) => u32::MAX - p,
            None => u32::MAX + 1,
        }),
    {
        match next_owner_after(entities, prev) {
            Some(o) => {
                proof {
                    assert forall|o2: u32|
                        has_structure(entities@, o2) && o2 <= o implies owners@.push(o).contains(
                        o2,
                    ) by {
                        if o2 == o {
                            assert(owners@.push(o)[owners.len() as int] == o);
                        } else {
                            let k = choose|k: int| 0 <= k < owners.len() && owners@[k] == o2;
                            assert(owners@.push(o)[k] == o2);
                        }
                    }
                }
                owners.push(o);
                prev = Some(o);
            },
            None => {
                done = true;
            },
        }
    }
    owners
}

/// Apply one point of degradation damage to every finished, powered,
/// non-generating structure of `owner`.
fn apply_degradation_damage(entities: &mut Vec<PowerEntity>, owner: u32)
    ensures
        final(entities)@.len() == old(entities)@.len(),
        forall|i: int|
            0 <= i < old(entities)@.len() ==> final(entities)@[i] == if degrades(
                old(entities)@[i],
            ) && old(entities)@[i].owner == owner {
                worn(old(entities)@[i])
            } else {
                old(entities)@[i]
            },
{
    let ghost s = entities@;
    let mut i: usize = 0;
    while i < entities.len()
        invariant
            entities@.len() == s.len(),
            i <= s.len(),
            forall|k: int|
                0 <= k < i ==> entities@[k] == if degrades(s[k]) && s[k].owner == owner {
                    worn(s[k])
                } else {
                    s[k]
                },
            forall|k: int| i <= k < s.len() ==> entities@[k] == s[k],
        decreases s.len() - i,
    {
        let e = entities[i];
        if e.is_structure && !e.under_construction && e.powered && e.power <= 0 && e.owner == owner {
            let hp: u16 = if e.hp > 0 {
                e.hp - 1
            } else {
                0
            };
            let w = PowerEntity { hp, ..e };
            entities.set(i, w);
        }
        i = i + 1;
    }
}

/// `st` with `frames` frames of blackout left.
pub open spec fn with_blackout(st: PowerState, frames: u32) -> PowerState {
    PowerState { power_blackout_remaining: frames, ..st }
}

/// Start a power blackout of `duration_frames` frames for `owner_id`, whose
/// state is created when missing.
pub fn trigger_spy_blackout(
    power_states: &mut BTreeMap<u32, PowerState>,
    owner_id: u32,
    duration_frames: u32,
)
    ensures
        final(power_states)@ == old(power_states)@.insert(
            owner_id,
            with_blackout(state_of(old(power_states)@, owner_id), duration_frames),
        ),
{
    proof {
        crate::keys::lemma_u32_keys_ordered();
    }
    let mut st: PowerState = match power_states.get(&owner_id) {
        Some(x) => *x,
        None => PowerState::default(),
    };
    st.power_blackout_remaining = duration_frames;
    power_states.insert(owner_id, st);
}

/// Whether building `e` works under the power states `m`: anything but a
/// powered consumer works, and a powered consumer works unless its owner is
/// in low power.
pub open spec fn building_powered(m: Map<u32, PowerState>, e: PowerEntity) -> bool {
    !e.is_structure || e.power > 0 || !e.powered || !(m.contains_key(e.owner)
        && m[e.owner].is_low_power)
}

/// Whether `entity` is working: generators, non-structures and buildings
/// that do not need power always are; a powered consumer is shut down while
/// its owner is in low power.
pub fn is_building_powered(power_states: &BTreeMap<u32, PowerState>, entity: &PowerEntity) -> (r:
    bool)
    ensures
        r == building_powered(power_states@, *entity),
{
    proof {
        crate::keys::lemma_u32_keys_ordered();
    }
    if !entity.is_structure {
        return true;
    }
    if entity.power > 0 {
        return true;
    }
    if !entity.powered {
        return true;
    }
    let is_low = match power_states.get(&entity.owner) {
        Some(st) => st.is_low_power,
        None => false,
    };
    !is_low
}

/// Whether entity `e` gives `owner` a working radar.
pub open spec fn active_radar(m: Map<u32, PowerState>, e: PowerEntity, owner: u32) -> bool {
    owned_structure(e, owner) && !e.under_construction && e.radar && building_powered(m, e)
}

/// Whether `owner_id` has a finished radar building that is working.
pub fn has_active_radar(
    entities: &Vec<PowerEntity>,
    power_states: &BTreeMap<u32, PowerState>,
    owner_id: u32,
) -> (r: bool)
    ensures
        r == exists|i: int|
            0 <= i < entities@.len() && active_radar(power_states@, #[trigger] entities@[i], owner_id),
{
    let mut i: usize = 0;
    while i < entities.len()
        invariant
            i <= entities@.len(),
            forall|k: int| 0 <= k < i ==> !active_radar(power_states@, #[trigger] entities@[k], owner_id),
        decreases entities@.len() - i,
    {
        let e = entities[i];
        if e.is_structure && e.owner == owner_id && !e.under_construction && e.radar {
            if is_building_powered(power_states, &e) {
                return true;
            }
        }
        i = i + 1;
    }
    false
}

/// A player has radar only through a finished radar structure of its own:
/// when some entity gives `owner` a working radar, a finished radar
/// structure of `owner` exists, so while all of its radar structures are
/// under construction it has none. A finished radar structure of `owner`
/// gives radar when it needs no power or the owner is not in low power;
/// in low power, radar structures that need power give none.
pub proof fn law_radar_needs_finished_radar(m: Map<u32, PowerState>, s: Seq<PowerEntity>, owner: u32)
    ensures
        (exists|i: int| 0 <= i < s.len() && active_radar(m, #[trigger] s[i], owner)) ==> exists|i: int|
            0 <= i < s.len() && (#[trigger] s[i]).is_structure && s[i].owner == owner && s[i].radar
                && !s[i].under_construction,
        (forall|i: int|
            0 <= i < s.len() && (#[trigger] s[i]).is_structure && s[i].owner == owner && s[i].radar
                ==> s[i].under_construction) ==> !exists|i: int| 0 <= i < s.len() && active_radar(m, #[trigger] s[i], owner),
        (exists|i: int|
            0 <= i < s.len() && (#[trigger] s[i]).is_structure && s[i].owner == owner && s[i].radar
                && !s[i].under_construction && (s[i].power > 0 || !s[i].powered || !(m.contains_key(owner)
                && m[owner].is_low_power))) ==> exists|i: int| 0 <= i < s.len() && active_radar(m, #[trigger] s[i], owner),
        (m.contains_key(owner) && m[owner].is_low_power && forall|i: int|
            0 <= i < s.len() && (#[trigger] s[i]).is_structure && s[i].owner == owner && s[i].radar ==> s[i].powered
                && s[i].power <= 0) ==> !exists|i: int| 0 <= i < s.len() && active_radar(m, #[trigger] s[i], owner),
{
    if exists|i: int|
        0 <= i < s.len() && (#[trigger] s[i]).is_structure && s[i].owner == owner && s[i].radar
            && !s[i].under_construction && (s[i].power > 0 || !s[i].powered || !(m.contains_key(owner)
            && m[owner].is_low_power)) {
        let i = choose|i: int|
            0 <= i < s.len() && (#[trigger] s[i]).is_structure && s[i].owner == owner && s[i].radar
                && !s[i].under_construction && (s[i].power > 0 || !s[i].powered || !(m.contains_key(owner)
                && m[owner].is_low_power));
        assert(active_radar(m, s[i], owner));
    }
}

/// A generator's output follows its health: a finished generator at full
/// health (hp equal to a nonzero maximum) yields its full rating, a damaged
/// one never more than that, and more health never yields less; other
/// entities yield nothing.
pub proof fn law_output_follows_health(e: PowerEntity, owner: u32, hp2: u16)
    requires
        e.hp <= hp2 <= e.max_hp,
    ensures
        !(owned_structure(e, owner) && !e.under_construction && e.power > 0) ==> output_of(e, owner) == 0,
        (owned_structure(e, owner) && !e.under_construction && e.power > 0) ==> {
            &&& 0 <= output_of(e, owner) <= output_of(PowerEntity { hp: hp2, ..e }, owner) <= e.power
            &&& (e.max_hp > 0 ==> output_of(PowerEntity { hp: e.max_hp, ..e }, owner) == e.power)
        },
{
    if owned_structure(e, owner) && !e.under_construction && e.power > 0 {
        let m: int = if e.max_hp == 0 {
            1
        } else {
            e.max_hp as int
        };
        let p = e.power as int;
        let h1 = e.hp as int;
        let h2 = hp2 as int;
        assert(p * h1 <= p * h2) by (nonlinear_arith)
            requires
                p > 0,
                h1 <= h2,
        ;
        vstd::arithmetic::div_mod::lemma_div_is_ordered(p * h1, p * h2, m);
        assert(0 <= p * h1) by (nonlinear_arith)
            requires
                p > 0,
                h1 >= 0,
        ;
        vstd::arithmetic::div_mod::lemma_div_pos_is_pos(p * h1, m);
        if e.max_hp == 0 {
            assert(h2 == 0);
        } else {
            assert(p * h2 <= p * m) by (nonlinear_arith)
                requires
                    p > 0,
                    h2 <= m,
            ;
            vstd::arithmetic::div_mod::lemma_div_is_ordered(p * h2, p * m, m);
            vstd::arithmetic::div_mod::lemma_div_multiples_vanish(p, m);
        }
    }
}

/// Owners in strictly ascending order, each owning a structure of `s`.
pub open spec fn owners_listed(owners: Seq<u32>, s: Seq<PowerEntity>) -> bool {
    &&& forall|a: int, b: int| 0 <= a < b < owners.len() ==> owners[a] < owners[b]
    &&& forall|k: int| 0 <= k < owners.len() ==> has_structure(s, #[trigger] owners[k])
}

/// First half of a tick for each listed owner, in order; returns the
/// transition events.
#[verifier::rlimit(60)]
fn refresh_owners(
    power_states: &mut BTreeMap<u32, PowerState>,
    entities: &Vec<PowerEntity>,
    owners: &Vec<u32>,
) -> (events: Vec<PowerEvent>)
    requires
        owners_listed(owners@, entities@),
        forall|o: u32| power_fits(entities@, o),
    ensures
        forall|o: u32|
            #[trigger] final(power_states)@.contains_key(o) <==> (old(power_states)@.contains_key(o)
                || owners@.contains(o)),
        forall|k: int|
            0 <= k < owners.len() ==> final(power_states)@[#[trigger] owners[k]] == refreshed(
                state_of(old(power_states)@, owners[k]),
                entities@,
                owners[k],
            ),
        forall|o: u32|
            !owners@.contains(o) && old(power_states)@.contains_key(o) ==> final(power_states)@[o]
                == old(power_states)@[o],
        forall|j: int|
            0 <= j < events.len() ==> owners@.contains(event_owner(#[trigger] events[j]))
                && owner_event(
                state_of(old(power_states)@, event_owner(events[j])),
                entities@,
                event_owner(events[j]),
            ) == Some(events[j]),
        forall|i: int, j: int|
            0 <= i < j < events.len() ==> event_owner(events[i]) < event_owner(events[j]),
        forall|k: int|
            0 <= k < owners.len() && owner_event(
                state_of(old(power_states)@, #[trigger] owners[k]),
                entities@,
                owners[k],
            ) is Some ==> exists|j: int| 0 <= j < events.len() && event_owner(events[j]) == owners[k],
{
    proof {
        crate::keys::lemma_u32_keys_ordered();
    }
    let ghost s = entities@;
    let ghost m = power_states@;
    let n = owners.len();
    let mut events: Vec<PowerEvent> = Vec::new();
    let mut idx: usize = 0;
    while idx < n
        invariant
            s == entities@,
            n == owners.len(),
            idx <= n,
            forall|o: u32| power_fits(s, o),
            owners_listed(owners@, s),
            forall|o: u32|
                power_states@.contains_key(o) <==> (m.contains_key(o) || exists|k: int|
                    0 <= k < idx && owners[k] == o),
            forall|k: int|
                0 <= k < idx ==> power_states@[#[trigger] owners[k]] == refreshed(
                    state_of(m, owners[k]),
                    s,
                    owners[k],
                ),
            forall|o: u32|
                (forall|k: int| 0 <= k < idx ==> owners[k] != o) ==> state_of(power_states@, o)
                    == state_of(m, o) && (power_states@.contains_key(o) ==> power_states@[o]
                    == m[o]),
            forall|j: int|
                0 <= j < events.len() ==> exists|k: int|
                    0 <= k < idx && owners[k] == event_owner(#[trigger] events[j]),
            forall|j: int|
                0 <= j < events.len() ==> owner_event(
                    state_of(m, event_owner(#[trigger] events[j])),
                    s,
                    event_owner(events[j]),
                ) == Some(events[j]),
            forall|i: int, j: int|
                0 <= i < j < events.len() ==> event_owner(events[i]) < event_owner(events[j]),
            forall|k: int|
                0 <= k < idx && owner_event(state_of(m, #[trigger] owners[k]), s, owners[k]) is Some
                    ==> exists|j: int| 0 <= j < events.len() && event_owner(events[j]) == owners[k],
        decreases n - idx,
    {
        let o = owners[idx];
        proof {
            assert forall|k: int| 0 <= k < idx implies owners[k] != o by {
                assert(owners[k] < owners[idx as int]);
            }
        }
        let mut st: PowerState = match power_states.get(&o) {
            Some(x) => *x,
            None => PowerState::default(),
        };
        let ghost before = st;
        assert(before == state_of(m, o));
        st.was_low_power = st.is_low_power;
        if st.power_blackout_remaining > 0 {
            st.power_blackout_remaining = st.power_blackout_remaining - 1;
        }
        recalculate_power_for_owner(&mut st, entities, o);
        let ghost pushed = events@;
        if st.is_low_power && !st.was_low_power {
            events.push(PowerEvent::EnteredLowPower { owner: o });
        } else if !st.is_low_power && st.was_low_power {
            events.push(PowerEvent::PowerRestored { owner: o });
        }
        if !st.is_low_power {
            st.degradation_accum_ms = 0;
        }
        assert(st == refreshed(before, s, o));
        let ghost states_before = power_states@;
        power_states.insert(o, st);
        proof {
            assert forall|o2: u32|
                power_states@.contains_key(o2) <==> (m.contains_key(o2) || exists|k: int|
                    0 <= k < idx + 1 && owners[k] == o2) by {
                if o2 == o {
                    assert(owners[idx as int] == o2);
                } else if exists|k: int| 0 <= k < idx + 1 && owners[k] == o2 {
                    let k0 = choose|k: int| 0 <= k < idx + 1 && owners[k] == o2;
                    assert(k0 < idx);
                }
            }
            assert forall|k: int| 0 <= k < idx + 1 implies power_states@[#[trigger] owners[k]]
                == refreshed(state_of(m, owners[k]), s, owners[k]) by {
                if k < idx {
                    assert(owners[k] != o);
                    assert(states_before[owners[k]] == refreshed(state_of(m, owners[k]), s, owners[k]));
                }
            }
            assert forall|j: int| 0 <= j < events.len() implies exists|k: int|
                0 <= k < idx + 1 && owners[k] == event_owner(#[trigger] events[j]) by {
                if j < pushed.len() {
                    assert(events[j] == pushed[j]);
                    let k0 = choose|k: int| 0 <= k < idx && owners[k] == event_owner(pushed[j]);
                    assert(owners[k0] == event_owner(events[j]));
                } else {
                    assert(owners[idx as int] == event_owner(events[j]));
                }
            }
            assert forall|j: int| 0 <= j < events.len() implies owner_event(
                state_of(m, event_owner(#[trigger] events[j])),
                s,
                event_owner(events[j]),
            ) == Some(events[j]) by {
                if j < pushed.len() {
                    assert(events[j] == pushed[j]);
                }
            }
            assert forall|i: int, j: int|
                0 <= i < j < events.len() implies event_owner(events[i]) < event_owner(
                events[j],
            ) by {
                assert(events[i] == pushed[i]);
                if j >= pushed.len() {
                    let k0 = choose|k: int| 0 <= k < idx && owners[k] == event_owner(pushed[i]);
                    assert(owners[k0] < owners[idx as int]);
                } else {
                    assert(events[j] == pushed[j]);
                }
            }
            assert forall|k: int|
                0 <= k < idx + 1 && owner_event(state_of(m, #[trigger] owners[k]), s, owners[k])
                    is Some implies exists|j: int|
                0 <= j < events.len() && event_owner(events[j]) == owners[k] by {
                if k < idx {
                    let j0 = choose|j: int|
                        0 <= j < pushed.len() && event_owner(pushed[j]) == owners[k];
                    assert(events[j0] == pushed[j0]);
                } else {
                    assert(event_owner(events[events.len() - 1]) == o);
                }
            }
            assert forall|o2: u32|
                (forall|k: int| 0 <= k < idx + 1 ==> owners[k] != o2) implies state_of(
                power_states@,
                o2,
            ) == state_of(m, o2) && (power_states@.contains_key(o2) ==> power_states@[o2]
                == m[o2]) by {
                assert(owners[idx as int] != o2);
            }
        }
        idx = idx + 1;
    }
    proof {
        assert forall|o: u32|
            power_states@.contains_key(o) <==> (m.contains_key(o) || owners@.contains(o)) by {
            if owners@.contains(o) {
                let k0 = choose|k: int| 0 <= k < n && owners@[k] == o;
                assert(owners[k0] == o);
            }
        }
        assert forall|o: u32| !owners@.contains(o) && m.contains_key(o) implies power_states@[o]
            == m[o] by {
            assert forall|k: int| 0 <= k < n implies owners[k] != o by {
                assert(owners@[k] == owners[k]);
            }
        }
        assert forall|j: int| 0 <= j < events.len() implies owners@.contains(
            event_owner(#[trigger] events[j]),
        ) by {
            let k0 = choose|k: int| 0 <= k < n && owners[k] == event_owner(events[j]);
            assert(owners@[k0] == event_owner(events[j]));
        }
    }
    events
}

/// Second half of a tick for each listed owner: accumulate the tick's time
/// in low power and, when a delay's worth has gathered, pay it and damage the
/// owner's powered consumers.
fn degrade_owners(
    power_states: &mut BTreeMap<u32, PowerState>,
    entities: &mut Vec<PowerEntity>,
    owners: &Vec<u32>,
    tick_ms: u32,
    delay: u32,
    Ghost(m): Ghost<Map<u32, PowerState>>,
)
    requires
        owners_listed(owners@, old(entities)@),
        forall|o: u32| has_structure(old(entities)@, o) ==> owners@.contains(o),
        forall|k: int|
            0 <= k < owners.len() ==> old(power_states)@.contains_key(#[trigger] owners[k])
                && old(power_states)@[owners[k]] == refreshed(
                state_of(m, owners[k]),
                old(entities)@,
                owners[k],
            ),
    ensures
        forall|o: u32|
            #[trigger] final(power_states)@.contains_key(o) <==> old(power_states)@.contains_key(o),
        forall|k: int|
            0 <= k < owners.len() ==> final(power_states)@[#[trigger] owners[k]] == ticked(
                state_of(m, owners[k]),
                old(entities)@,
                owners[k],
                tick_ms,
                delay,
            ),
        forall|o: u32|
            !owners@.contains(o) && old(power_states)@.contains_key(o) ==> final(power_states)@[o]
                == old(power_states)@[o],
        final(entities)@.len() == old(entities)@.len(),
        forall|i: int|
            0 <= i < old(entities)@.len() ==> final(entities)@[i] == if degrades(
                old(entities)@[i],
            ) && owner_degrades(
                state_of(m, old(entities)@[i].owner),
                old(entities)@,
                old(entities)@[i].owner,
                tick_ms,
                delay,
            ) {
                worn(old(entities)@[i])
            } else {
                old(entities)@[i]
            },
{
    proof {
        crate::keys::lemma_u32_keys_ordered();
    }
    let ghost s = entities@;
    let ghost m0 = power_states@;
    let n = owners.len();
    let mut idx: usize = 0;
    proof {
        assert forall|i: int| 0 <= i < s.len() && degrades(s[i]) implies !(n == 0 || s[i].owner
            < owners[0]) by {
            assert(owned_structure(s[i], s[i].owner));
            assert(has_structure(s, s[i].owner));
            assert(owners@.contains(s[i].owner));
            let k0 = choose|k: int| 0 <= k < n && owners@[k] == s[i].owner;
            if k0 > 0 {
                assert(owners[0] < owners[k0]);
            }
        }
    }
    while idx < n
        invariant
            n == owners.len(),
            idx <= n,
            entities@.len() == s.len(),
            owners_listed(owners@, s),
            forall|o: u32| has_structure(s, o) ==> owners@.contains(o),
            forall|o: u32| power_states@.contains_key(o) <==> m0.contains_key(o),
            forall|k: int|
                0 <= k < idx ==> power_states@[#[trigger] owners[k]] == ticked(
                    state_of(m, owners[k]),
                    s,
                    owners[k],
                    tick_ms,
                    delay,
                ),
            forall|k: int|
                idx <= k < n ==> m0.contains_key(#[trigger] owners[k]) && power_states@[owners[k]]
                    == m0[owners[k]],
            forall|k: int|
                0 <= k < n ==> m0.contains_key(#[trigger] owners[k]) && m0[owners[k]] == refreshed(
                    state_of(m, owners[k]),
                    s,
                    owners[k],
                ),
            forall|o: u32| !owners@.contains(o) && m0.contains_key(o) ==> power_states@[o] == m0[o],
            forall|i: int|
                0 <= i < s.len() ==> entities@[i] == if degrades(s[i]) && (idx == n || s[i].owner
                    < owners[idx as int]) && owner_degrades(
                    state_of(m, s[i].owner),
                    s,
                    s[i].owner,
                    tick_ms,
                    delay,
                ) {
                    worn(s[i])
                } else {
                    s[i]
                },
        decreases n - idx,
    {
        let o = owners[idx];
        let mut st: PowerState = match power_states.get(&o) {
            Some(x) => *x,
            None => PowerState::default(),
        };
        assert(st == refreshed(state_of(m, o), s, o));
        let ghost ents_before = entities@;
        let ghost states_before = power_states@;
        if st.is_low_power {
            st.degradation_accum_ms = st.degradation_accum_ms.saturating_add(tick_ms);
            if st.degradation_accum_ms >= delay {
                st.degradation_accum_ms = st.degradation_accum_ms - delay;
                apply_degradation_damage(entities, o);
            }
        }
        assert(st == ticked(state_of(m, o), s, o, tick_ms, delay));
        power_states.insert(o, st);
        proof {
            assert forall|i: int| 0 <= i < s.len() implies entities@[i] == if degrades(s[i]) && (
            idx + 1 == n || s[i].owner < owners[idx + 1]) && owner_degrades(
                state_of(m, s[i].owner),
                s,
                s[i].owner,
                tick_ms,
                delay,
            ) {
                worn(s[i])
            } else {
                s[i]
            } by {
                if degrades(s[i]) {
                    assert(owned_structure(s[i], s[i].owner));
                    assert(has_structure(s, s[i].owner));
                    assert(owners@.contains(s[i].owner));
                    let k0 = choose|k: int| 0 <= k < n && owners@[k] == s[i].owner;
                    if k0 < idx {
                        assert(owners[k0] < owners[idx as int]);
                    } else if k0 > idx {
                        assert(owners[idx as int] < owners[k0]);
                        if idx + 1 < n {
                            assert(owners[idx + 1] <= owners[k0]);
                        }
                    }
                }
            }
            assert forall|k: int| 0 <= k < idx + 1 implies power_states@[#[trigger] owners[k]]
                == ticked(state_of(m, owners[k]), s, owners[k], tick_ms, delay) by {
                if k < idx {
                    assert(owners[k] < owners[idx as int]);
                    assert(states_before[owners[k]] == ticked(state_of(m, owners[k]), s, owners[k], tick_ms, delay));
                }
            }
            assert forall|k: int| idx + 1 <= k < n implies m0.contains_key(#[trigger] owners[k])
                && power_states@[owners[k]] == m0[owners[k]] by {
                assert(owners[idx as int] < owners[k]);
                assert(states_before[owners[k]] == m0[owners[k]]);
            }
            assert forall|o2: u32| !owners@.contains(o2) && m0.contains_key(o2) implies power_states@[o2] == m0[o2] by {
                assert(owners@[idx as int] == o);
            }
        }
        idx = idx + 1;
    }
}

/// One power tick. For every player owning a structure, in ascending order
/// of owner: the previous flag is remembered, the blackout counts down one
/// frame, the totals are recomputed from the entities, an event is reported
/// when the low-power state changed, and the degradation time is cleared
/// unless the player is in low power. Then every player in low power
/// accumulates `tick_ms`; when a delay's worth has gathered it is paid, and
/// each finished, powered, non-generating structure of that player loses one
/// point of health. States of players without structures are untouched.
pub fn tick_power_states(
    power_states: &mut BTreeMap<u32, PowerState>,
    entities: &mut Vec<PowerEntity>,
    tick_ms: u32,
    damage_delay_minutes: SimFixed,
) -> (events: Vec<PowerEvent>)
    requires
        forall|o: u32| power_fits(old(entities)@, o),
        delay_fits(damage_delay_minutes.raw),
    ensures
        forall|o: u32|
            final(power_states)@.contains_key(o) <==> (old(power_states)@.contains_key(o)
                || has_structure(old(entities)@, o)),
        forall|o: u32|
            has_structure(old(entities)@, o) ==> final(power_states)@[o] == ticked(
                state_of(old(power_states)@, o),
                old(entities)@,
                o,
                tick_ms,
                damage_delay_spec(damage_delay_minutes.raw),
            ),
        forall|o: u32|
            !has_structure(old(entities)@, o) && old(power_states)@.contains_key(o)
                ==> final(power_states)@[o] == old(power_states)@[o],
        final(entities)@.len() == old(entities)@.len(),
        forall|i: int|
            0 <= i < old(entities)@.len() ==> final(entities)@[i] == if degrades(
                old(entities)@[i],
            ) && owner_degrades(
                state_of(old(power_states)@, old(entities)@[i].owner),
                old(entities)@,
                old(entities)@[i].owner,
                tick_ms,
                damage_delay_spec(damage_delay_minutes.raw),
            ) {
                worn(old(entities)@[i])
            } else {
                old(entities)@[i]
            },
        forall|k: int|
            0 <= k < events.len() ==> has_structure(old(entities)@, event_owner(#[trigger] events[k]))
                && owner_event(
                state_of(old(power_states)@, event_owner(events[k])),
                old(entities)@,
                event_owner(events[k]),
            ) == Some(events[k]),
        forall|j: int, k: int|
            0 <= j < k < events.len() ==> event_owner(events[j]) < event_owner(events[k]),
        forall|o: u32|
            has_structure(old(entities)@, o) && owner_event(
                state_of(old(power_states)@, o),
                old(entities)@,
                o,
            ) is Some ==> exists|k: int| 0 <= k < events.len() && event_owner(events[k]) == o,
{
    let ghost s = entities@;
    let ghost m = power_states@;
    let delay = damage_delay_ms(damage_delay_minutes);
    let owners = sorted_structure_owners(entities);
    let events = refresh_owners(power_states, entities, &owners);
    proof {
        assert forall|k: int| 0 <= k < owners.len() implies power_states@.contains_key(
            #[trigger] owners[k],
        ) by {
            assert(owners@.contains(owners[k]));
        }
    }
    let ghost m1 = power_states@;
    degrade_owners(power_states, entities, &owners, tick_ms, delay, Ghost(m));
    proof {
        assert forall|o: u32|
            power_states@.contains_key(o) <==> (m.contains_key(o) || has_structure(s, o)) by {
            assert(power_states@.contains_key(o) <==> m1.contains_key(o));
            assert(m1.contains_key(o) <==> (m.contains_key(o) || owners@.contains(o)));
            if owners@.contains(o) {
                let k0 = choose|k: int| 0 <= k < owners.len() && owners@[k] == o;
                assert(has_structure(s, owners[k0]));
            }
        }
        assert forall|o: u32| owners@.contains(o) <==> has_structure(s, o) by {
            if owners@.contains(o) {
                let k0 = choose|k: int| 0 <= k < owners.len() && owners@[k] == o;
                assert(has_structure(s, owners[k0]));
            }
        }
        assert forall|o: u32| has_structure(s, o) implies power_states@[o] == ticked(
            state_of(m, o),
            s,
            o,
            tick_ms,
            delay,
        ) by {
            let k0 = choose|k: int| 0 <= k < owners.len() && owners@[k] == o;
            assert(power_states@[owners[k0]] == ticked(state_of(m, owners[k0]), s, owners[k0], tick_ms, delay));
        }
        assert forall|o: u32| has_structure(s, o) && owner_event(state_of(m, o), s, o) is Some
            implies exists|k: int| 0 <= k < events.len() && event_owner(events[k]) == o by {
            let k0 = choose|k: int| 0 <= k < owners.len() && owners@[k] == o;
            assert(owner_event(state_of(m, owners[k0]), s, owners[k0]) is Some);
        }
    }
    events
}

/// A player is in low power exactly when the recomputed output is below the
/// recomputed drain.
pub proof fn law_low_power_iff_deficit(st: PowerState, s: Seq<PowerEntity>, owner: u32)
    requires
        power_fits(s, owner),
    ensures
        recalculated(st, s, owner).is_low_power <==> recalculated(st, s, owner).total_output
            < recalculated(st, s, owner).total_drain,
{
    lemma_sums_nonneg(s, owner);
}

/// While a blackout lasts the output is zero, and any drain puts the player
/// in low power.
pub proof fn law_blackout_zeroes_output(st: PowerState, s: Seq<PowerEntity>, owner: u32)
    requires
        st.power_blackout_remaining > 0,
        power_fits(s, owner),
    ensures
        recalculated(st, s, owner).total_output == 0,
        sum_drain(s, owner) > 0 ==> recalculated(st, s, owner).is_low_power,
{
}

/// The drain does not depend on health: two entity lists that differ only
/// in health drain the same.
pub proof fn law_drain_ignores_health(s: Seq<PowerEntity>, t: Seq<PowerEntity>, owner: u32)
    requires
        s.len() == t.len(),
        forall|i: int|
            0 <= i < s.len() ==> (PowerEntity { hp: t[i].hp, max_hp: t[i].max_hp, ..s[i] }) == t[i],
    ensures
        sum_drain(s, owner) == sum_drain(t, owner),
    decreases s.len(),
{
    if s.len() > 0 {
        assert forall|i: int| 0 <= i < s.len() - 1 implies (PowerEntity {
            hp: t.drop_last()[i].hp,
            max_hp: t.drop_last()[i].max_hp,
            ..s.drop_last()[i]
        }) == t.drop_last()[i] by {
            assert(s.drop_last()[i] == s[i]);
            assert(t.drop_last()[i] == t[i]);
        }
        law_drain_ignores_health(s.drop_last(), t.drop_last(), owner);
        let l = s.len() - 1;
        assert((PowerEntity { hp: t[l].hp, max_hp: t[l].max_hp, ..s[l] }) == t[l]);
    }
}

/// Buildings under construction neither generate nor drain.
pub proof fn law_unfinished_buildings_are_inert(e: PowerEntity, owner: u32)
    requires
        e.under_construction,
    ensures
        output_of(e, owner) == 0,
        drain_of(e, owner) == 0,
{
}

/// Generators are never shut down by low power.
pub proof fn law_generators_never_shut_down(m: Map<u32, PowerState>, e: PowerEntity)
    requires
        e.power > 0,
    ensures
        building_powered(m, e),
{
}

/// Each tick counts a running blackout down by exactly one frame.
pub proof fn law_blackout_counts_down(
    st: PowerState,
    s: Seq<PowerEntity>,
    owner: u32,
    tick_ms: u32,
    delay_ms: u32,
)
    ensures
        ticked(st, s, owner, tick_ms, delay_ms).power_blackout_remaining == if st.power_blackout_remaining
            > 0 {
            st.power_blackout_remaining - 1
        } else {
            0
        },
{
}

} // verus!
