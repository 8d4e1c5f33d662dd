//! Lightning storm: one storm at a time, a deferment countdown, then centre
//! and scatter bolts on their own timers until the storm's duration runs
//! out; a storm launched meanwhile waits its turn.

use vstd::prelude::*;

verus! {

/// A storm launch waiting for the active storm to end.
#[derive(Debug, Clone, Copy, PartialEq, Eq, Structural)]
pub struct QueuedLightningStorm {
    pub owner: u32,
    pub target_rx: u16,
    pub target_ry: u16,
}

/// The active lightning storm.
#[derive(Debug, Clone, Copy, PartialEq, Eq, Structural)]
pub struct LightningStormState {
    /// House that launched the storm.
    pub owner: u32,
    /// Storm centre cell.
    pub target_rx: u16,
    pub target_ry: u16,
    /// Ticks left before bolts begin.
    pub deferment_remaining: i32,
    /// Ticks left of bolt generation.
    pub duration_remaining: i32,
    /// Ticks until the next centre bolt.
    pub center_bolt_timer: i32,
    /// Ticks until the next scatter bolt.
    pub scatter_bolt_timer: i32,
    /// Cell of the last scatter bolt (the centre before the first one).
    pub last_bolt_rx: u16,
    pub last_bolt_ry: u16,
}

/// Storm timings from the general rules, in ticks.
#[derive(Debug, Clone, Copy, PartialEq, Eq, Structural)]
pub struct LightningSettings {
    pub deferment: i32,
    pub storm_duration: i32,
    pub hit_delay: i32,
    pub scatter_delay: i32,
}

/// What one tick of the storm asks of the world.
#[derive(Debug, Clone, Copy, PartialEq, Eq, Structural)]
pub enum StormStep {
    /// No storm is active.
    Idle,
    /// The storm is still counting down its deferment.
    Deferred,
    /// The storm ended; `restarted` tells whether a queued storm started.
    Ended { restarted: bool },
    /// The storm is raging: strike a centre bolt and/or a scatter bolt.
    Strike { center: bool, scatter: bool },
}

/// A fresh storm at `(rx, ry)` launched by `owner`.
pub open spec fn fresh_storm(s: LightningSettings, owner: u32, rx: u16, ry: u16) -> LightningStormState {
    LightningStormState {
        owner,
        target_rx: rx,
        target_ry: ry,
        deferment_remaining: s.deferment,
        duration_remaining: s.storm_duration,
        center_bolt_timer: s.hit_delay,
        scatter_bolt_timer: s.scatter_delay,
        last_bolt_rx: rx,
        last_bolt_ry: ry,
    }
}

/// Launch a storm at `(target_rx, target_ry)`. With a storm already
/// active, the launch is queued (replacing any queued one) instead.
/// Always succeeds.
pub fn start(
    active: &mut Option<LightningStormState>,
    queued: &mut Option<QueuedLightningStorm>,
    settings: LightningSettings,
    owner: u32,
    target_rx: u16,
    target_ry: u16,
) -> (started: bool)
    ensures
        started,
        old(active).is_some() ==> *final(active) == *old(active) && *final(queued) == Some(
            QueuedLightningStorm { owner, target_rx, target_ry },
        ),
        old(active).is_none() ==> *final(active) == Some(
            fresh_storm(settings, owner, target_rx, target_ry),
        ) && *final(queued) == *old(queued),
{
    if active.is_some() {
        *queued = Some(QueuedLightningStorm { owner, target_rx, target_ry });
        return true;
    }
    *active = Some(
        LightningStormState {
            owner,
            target_rx,
            target_ry,
            deferment_remaining: settings.deferment,
            duration_remaining: settings.storm_duration,
            center_bolt_timer: settings.hit_delay,
            scatter_bolt_timer: settings.scatter_delay,
            last_bolt_rx: target_rx,
            last_bolt_ry: target_ry,
        },
    );
    true
}

/// The storm's timers stay within 32 bits over a tick.
pub open spec fn storm_in_range(active: Option<LightningStormState>) -> bool {
    active matches Some(st) ==> st.duration_remaining > i32::MIN && st.center_bolt_timer > i32::MIN
        && st.scatter_bolt_timer > i32::MIN
}

/// One tick of the active storm, given the storm slots before it: the
/// slots after it and the step taken.
pub open spec fn storm_ticked(
    active: Option<LightningStormState>,
    queued: Option<QueuedLightningStorm>,
    s: LightningSettings,
) -> (Option<LightningStormState>, Option<QueuedLightningStorm>, StormStep) {
    match active {
        None => (active, queued, StormStep::Idle),
        Some(st) => if st.deferment_remaining > 0 {
            (
                Some(LightningStormState { deferment_remaining: (st.deferment_remaining - 1) as i32, ..st }),
                queued,
                StormStep::Deferred,
            )
        } else if st.duration_remaining - 1 <= 0 {
            match queued {
                Some(q) => (
                    Some(fresh_storm(s, q.owner, q.target_rx, q.target_ry)),
                    None,
                    StormStep::Ended { restarted: true },
                ),
                None => (None, None, StormStep::Ended { restarted: false }),
            }
        } else {
            let center = st.center_bolt_timer - 1 <= 0;
            let scatter = st.scatter_bolt_timer - 1 <= 0;
            (
                Some(
                    LightningStormState {
                        duration_remaining: (st.duration_remaining - 1) as i32,
                        center_bolt_timer: if center {
                            s.hit_delay
                        } else {
                            (st.center_bolt_timer - 1) as i32
                        },
                        scatter_bolt_timer: if scatter {
                            s.scatter_delay
                        } else {
                            (st.scatter_bolt_timer - 1) as i32
                        },
                        ..st
                    },
                ),
                queued,
                StormStep::Strike { center, scatter },
            )
        },
    }
}

/// Advance the storm by one tick: count the deferment down; then count the
/// duration down, ending the storm (and starting a queued one) when it runs
/// out; otherwise count both bolt timers down, rearming each that fires,
/// and report which bolts to strike. The centre bolt strikes the storm's
/// centre; the caller picks the scatter cell and records it with
/// `record_scatter_bolt`.
pub fn process(
    active: &mut Option<LightningStormState>,
    queued: &mut Option<QueuedLightningStorm>,
    settings: LightningSettings,
) -> (step: StormStep)
    requires
        storm_in_range(*old(active)),
    ensures
        (*final(active), *final(queued), step) == storm_ticked(*old(active), *old(queued), settings),
{
    let mut st = match *active {
        Some(s) => s,
        None => return StormStep::Idle,
    };
    if st.deferment_remaining > 0 {
        st.deferment_remaining = st.deferment_remaining - 1;
        *active = Some(st);
        return StormStep::Deferred;
    }
    st.duration_remaining = st.duration_remaining - 1;
    if st.duration_remaining <= 0 {
        *active = None;
        let next = queued.take();
        match next {
            Some(q) => {
                start(active, queued, settings, q.owner, q.target_rx, q.target_ry);
                return StormStep::Ended { restarted: true };
            },
            None => return StormStep::Ended { restarted: false },
        }
    }
    st.center_bolt_timer = st.center_bolt_timer - 1;
    let center = st.center_bolt_timer <= 0;
    if center {
        st.center_bolt_timer = settings.hit_delay;
    }
    st.scatter_bolt_timer = st.scatter_bolt_timer - 1;
    let scatter = st.scatter_bolt_timer <= 0;
    if scatter {
        st.scatter_bolt_timer = settings.scatter_delay;
    }
    *active = Some(st);
    StormStep::Strike { center, scatter }
}

/// Remember where the last scatter bolt struck.
pub fn record_scatter_bolt(active: &mut Option<LightningStormState>, rx: u16, ry: u16)
    ensures
        match *old(active) {
            Some(st) => *final(active) == Some(
                LightningStormState { last_bolt_rx: rx, last_bolt_ry: ry, ..st },
            ),
            None => final(active).is_none(),
        },
{
    if let Some(st) = *active {
        *active = Some(LightningStormState { last_bolt_rx: rx, last_bolt_ry: ry, ..st });
    }
}

/// A scatter candidate: the centre moved by an offset drawn in
/// `[0, 2 * spread]` and shifted by `-spread`, clamped at 0 and taken as a
/// 16-bit coordinate.
pub open spec fn spec_scatter_cell(center: u16, draw: u32, spread: i32) -> u16 {
    let c: int = center + draw - spread;
    (if c < 0 {
        0
    } else {
        c
    }) as u16
}

/// The scatter candidate for one axis from a random draw.
pub fn scatter_coordinate(center: u16, draw: u32, spread: i32) -> (r: u16)
    requires
        draw <= 2 * spread + 1,
        0 <= spread <= 0x3fff_ffff,
    ensures
        r == spec_scatter_cell(center, draw, spread),
{
    let c: i64 = center as i64 + draw as i64 - spread as i64;
    let clamped: i64 = if c < 0 {
        0
    } else {
        c
    };
    #[verifier::truncate]
    (clamped as u16)
}

/// Whether a scatter candidate is at least `separation` cells (Manhattan
/// distance) from the last bolt.
pub fn far_enough(rx: u16, ry: u16, last_rx: u16, last_ry: u16, separation: i32) -> (r: bool)
    ensures
        r == ((if rx >= last_rx {
            rx - last_rx
        } else {
            last_rx - rx
        }) + (if ry >= last_ry {
            ry - last_ry
        } else {
            last_ry - ry
        }) >= separation),
{
    let dx: i32 = if rx >= last_rx {
        (rx - last_rx) as i32
    } else {
        (last_rx - rx) as i32
    };
    let dy: i32 = if ry >= last_ry {
        (ry - last_ry) as i32
    } else {
        (last_ry - ry) as i32
    };
    dx + dy >= separation
}

/// A queued storm starts as soon as the active one ends: after the last
/// tick of a storm, the queued launch is the new active storm with its
/// full timers, and nothing is queued any more.
pub proof fn law_queued_storm_follows(
    st: LightningStormState,
    q: QueuedLightningStorm,
    s: LightningSettings,
)
    requires
        st.deferment_remaining <= 0,
        st.duration_remaining == 1,
    ensures
        storm_ticked(Some(st), Some(q), s) == (
            Some(fresh_storm(s, q.owner, q.target_rx, q.target_ry)),
            None::<QueuedLightningStorm>,
            StormStep::Ended { restarted: true },
        ),
{
}

} // verus!
