//! Runtime of map-authored triggers: the state that trigger actions change
//! (global and local variables, disabled and fired triggers, the last
//! mission announcement), the queue of triggers to evaluate, and the effects
//! that actions hand to the rest of the game.
//!
//! Trigger ids are interned: the caller maps each upper-cased trigger id to
//! a number, and parses action parameters into numbers.

use std::collections::{BTreeSet, VecDeque};
use vstd::prelude::*;

verus! {

/// Action kind: queue another trigger for evaluation.
pub const ACTION_FORCE_TRIGGER: i32 = 22;

/// Action kind: set a global variable.
pub const ACTION_SET_GLOBAL: i32 = 28;

/// Action kind: clear a global variable.
pub const ACTION_CLEAR_GLOBAL: i32 = 29;

/// Action kind: center the camera on a waypoint.
pub const ACTION_CENTER_CAMERA: i32 = 48;

/// Action kind: enable a trigger.
pub const ACTION_ENABLE_TRIGGER: i32 = 53;

/// Action kind: disable a trigger.
pub const ACTION_DISABLE_TRIGGER: i32 = 54;

/// Action kind: set a local variable.
pub const ACTION_SET_LOCAL: i32 = 56;

/// Action kind: clear a local variable.
pub const ACTION_CLEAR_LOCAL: i32 = 57;

/// Action kind: announce a victory.
pub const ACTION_ANNOUNCE_WIN: i32 = 67;

/// Action kind: announce a defeat.
pub const ACTION_ANNOUNCE_LOSE: i32 = 68;

/// Action kind: end the scenario.
pub const ACTION_END_SCENARIO: i32 = 69;

/// Action kind: jump the camera to a waypoint.
pub const ACTION_JUMP_CAMERA: i32 = 112;

/// One trigger action with its parameters already read: the first
/// parameter as a number and as an interned trigger id (each `None` when it
/// does not read as one), and the seventh parameter as a number.
pub struct ActionEntry {
    pub kind: i32,
    pub number: Option<u32>,
    pub target: Option<u32>,
    pub waypoint: Option<u32>,
}

/// What a trigger action asks of the rest of the game.
pub enum TriggerEffect {
    CenterCameraAtWaypoint { waypoint: u32, immediate: bool },
    MissionAnnouncement { text: String },
    MissionResult { title: String, detail: String },
}

/// The last mission announcement made.
#[derive(Debug, Clone, Copy, PartialEq, Eq, Structural)]
pub enum MissionAnnouncementKind {
    Victory,
    Defeat,
}

/// An effect as plain values: a tag (0 camera, 1 announcement, 2 result),
/// the waypoint and whether the camera jumps, and the texts.
pub open spec fn effect_view(e: TriggerEffect) -> (u8, u32, bool, Seq<char>, Seq<char>) {
    match e {
        TriggerEffect::CenterCameraAtWaypoint { waypoint, immediate } => (0, waypoint, immediate, Seq::empty(), Seq::empty()),
        TriggerEffect::MissionAnnouncement { text } => (1, 0, false, text@, Seq::empty()),
        TriggerEffect::MissionResult { title, detail } => (2, 0, false, title@, detail@),
    }
}

/// Effects as plain values.
pub open spec fn effects_view(s: Seq<TriggerEffect>) -> Seq<(u8, u32, bool, Seq<char>, Seq<char>)> {
    Seq::new(s.len(), |i: int| effect_view(s[i]))
}

/// Trigger runtime state.
pub struct TriggerRuntime {
    pub elapsed_scenario_ticks: u64,
    pub globals_set: BTreeSet<u32>,
    pub locals_set: BTreeSet<u32>,
    pub disabled_triggers: BTreeSet<u32>,
    pub fired_one_shot_triggers: BTreeSet<u32>,
    pub last_announcement: Option<MissionAnnouncementKind>,
}

/// The runtime state as sets.
pub struct TriggerState {
    pub elapsed: u64,
    pub globals: Set<u32>,
    pub locals: Set<u32>,
    pub disabled: Set<u32>,
    pub fired: Set<u32>,
    pub last: Option<MissionAnnouncementKind>,
}

impl View for TriggerRuntime {
    type V = TriggerState;

    open spec fn view(&self) -> TriggerState {
        TriggerState {
            elapsed: self.elapsed_scenario_ticks,
            globals: self.globals_set@,
            locals: self.locals_set@,
            disabled: self.disabled_triggers@,
            fired: self.fired_one_shot_triggers@,
            last: self.last_announcement,
        }
    }
}

/// The trigger queue and its membership set after queueing `id`: appended
/// unless it is queued already.
pub open spec fn enqueued(q: Seq<u32>, s: Set<u32>, id: u32) -> (Seq<u32>, Set<u32>) {
    if s.contains(id) {
        (q, s)
    } else {
        (q.push(id), s.insert(id))
    }
}

/// Title and detail of the scenario's end, by the last announcement.
pub open spec fn end_texts(last: Option<MissionAnnouncementKind>) -> (Seq<char>, Seq<char>) {
    match last {
        Some(MissionAnnouncementKind::Victory) => (
            "Mission Accomplished"@,
            "The scenario ended after a victory announcement."@,
        ),
        Some(MissionAnnouncementKind::Defeat) => (
            "Mission Failed"@,
            "The scenario ended after a defeat announcement."@,
        ),
        None => ("Scenario Ended"@, "A map trigger ended the scenario."@),
    }
}

/// What one action does to the state, the effects, and the trigger queue.
/// Kinds not listed, and actions whose parameter does not read, change
/// nothing.
pub open spec fn spec_apply_action(
    st: TriggerState,
    a: ActionEntry,
    fx: Seq<(u8, u32, bool, Seq<char>, Seq<char>)>,
    q: Seq<u32>,
    qd: Set<u32>,
    triggers: Set<u32>,
) -> (TriggerState, Seq<(u8, u32, bool, Seq<char>, Seq<char>)>, Seq<u32>, Set<u32>) {
    if a.kind == ACTION_FORCE_TRIGGER && a.target is Some {
        let e = enqueued(q, qd, a.target->0);
        (st, fx, e.0, e.1)
    } else if a.kind == ACTION_SET_GLOBAL && a.number is Some {
        (TriggerState { globals: st.globals.insert(a.number->0), ..st }, fx, q, qd)
    } else if a.kind == ACTION_CLEAR_GLOBAL && a.number is Some {
        (TriggerState { globals: st.globals.remove(a.number->0), ..st }, fx, q, qd)
    } else if a.kind == ACTION_ENABLE_TRIGGER && a.target is Some {
        let t = a.target->0;
        let e = if triggers.contains(t) {
            enqueued(q, qd, t)
        } else {
            (q, qd)
        };
        (TriggerState { disabled: st.disabled.remove(t), ..st }, fx, e.0, e.1)
    } else if a.kind == ACTION_DISABLE_TRIGGER && a.target is Some {
        (TriggerState { disabled: st.disabled.insert(a.target->0), ..st }, fx, q, qd)
    } else if a.kind == ACTION_SET_LOCAL && a.number is Some {
        (TriggerState { locals: st.locals.insert(a.number->0), ..st }, fx, q, qd)
    } else if a.kind == ACTION_CLEAR_LOCAL && a.number is Some {
        (TriggerState { locals: st.locals.remove(a.number->0), ..st }, fx, q, qd)
    } else if a.kind == ACTION_CENTER_CAMERA && a.waypoint is Some {
        (st, fx.push((0, a.waypoint->0, false, Seq::empty(), Seq::empty())), q, qd)
    } else if a.kind == ACTION_JUMP_CAMERA && a.waypoint is Some {
        (st, fx.push((0, a.waypoint->0, true, Seq::empty(), Seq::empty())), q, qd)
    } else if a.kind == ACTION_ANNOUNCE_WIN {
        (
            TriggerState { last: Some(MissionAnnouncementKind::Victory), ..st },
            fx.push((1, 0, false, "Mission Accomplished"@, Seq::empty())),
            q,
            qd,
        )
    } else if a.kind == ACTION_ANNOUNCE_LOSE {
        (
            TriggerState { last: Some(MissionAnnouncementKind::Defeat), ..st },
            fx.push((1, 0, false, "Mission Failed"@, Seq::empty())),
            q,
            qd,
        )
    } else if a.kind == ACTION_END_SCENARIO {
        (st, fx.push((2, 0, false, end_texts(st.last).0, end_texts(st.last).1)), q, qd)
    } else {
        (st, fx, q, qd)
    }
}

/// Queue `id` for evaluation unless it is queued already.
pub fn enqueue_trigger(queue: &mut VecDeque<u32>, queued: &mut BTreeSet<u32>, id: u32)
    ensures
        (final(queue)@, final(queued)@) == enqueued(old(queue)@, old(queued)@, id),
{
    proof {
        crate::keys::lemma_u32_keys_ordered();
    }
    if queued.insert(id) {
        queue.push_back(id);
    } else {
        assert(old(queued)@.insert(id) =~= old(queued)@);
    }
}

impl TriggerRuntime {
    /// The runtime at the start of a scenario: the triggers that are
    /// disabled or not played at medium difficulty start disabled, and the
    /// local variables that start set are set. Each trigger is given as its
    /// id, whether it is enabled, and whether it is played at medium
    /// difficulty; each local variable as its index and whether it starts
    /// set.
    pub fn from_map(triggers: &Vec<(u32, bool, bool)>, locals: &Vec<(u32, bool)>) -> (r: Self)
        ensures
            r@.elapsed == 0,
            r@.globals == Set::<u32>::empty(),
            r@.fired == Set::<u32>::empty(),
            r@.last is None,
            forall|t: u32|
                #[trigger] r@.disabled.contains(t) <==> exists|i: int|
                    0 <= i < triggers@.len() && #[trigger] triggers@[i].0 == t && !(triggers@[i].1 && triggers@[i].2),
            forall|v: u32|
                #[trigger] r@.locals.contains(v) <==> exists|i: int|
                    0 <= i < locals@.len() && #[trigger] locals@[i].0 == v && locals@[i].1,
    {
        proof {
            crate::keys::lemma_u32_keys_ordered();
        }
        let mut disabled: BTreeSet<u32> = BTreeSet::new();
        let mut i: usize = 0;
        while i < triggers.len()
            invariant
                i <= triggers@.len(),
                crate::keys::u32_keys_ordered(),
                forall|t: u32|
                    #[trigger] disabled@.contains(t) <==> exists|k: int|
                        0 <= k < i && #[trigger] triggers@[k].0 == t && !(triggers@[k].1 && triggers@[k].2),
            decreases triggers@.len() - i,
        {
            let (id, enabled, medium) = triggers[i];
            if !enabled || !medium {
                disabled.insert(id);
            }
            proof {
                assert forall|t: u32|
                    #[trigger] disabled@.contains(t) <==> exists|k: int|
                        0 <= k < i + 1 && #[trigger] triggers@[k].0 == t && !(triggers@[k].1 && triggers@[k].2) by {
                    if t == id && !(enabled && medium) {
                        assert(triggers@[i as int].0 == t);
                    }
                }
            }
            i = i + 1;
        }
        let mut set_locals: BTreeSet<u32> = BTreeSet::new();
        let mut j: usize = 0;
        while j < locals.len()
            invariant
                j <= locals@.len(),
                crate::keys::u32_keys_ordered(),
                forall|v: u32|
                    #[trigger] set_locals@.contains(v) <==> exists|k: int|
                        0 <= k < j && #[trigger] locals@[k].0 == v && locals@[k].1,
            decreases locals@.len() - j,
        {
            let (index, initially_set) = locals[j];
            if initially_set {
                set_locals.insert(index);
            }
            proof {
                assert forall|v: u32|
                    #[trigger] set_locals@.contains(v) <==> exists|k: int|
                        0 <= k < j + 1 && #[trigger] locals@[k].0 == v && locals@[k].1 by {
                    if v == index && initially_set {
                        assert(locals@[j as int].0 == v);
                    }
                }
            }
            j = j + 1;
        }
        let r = TriggerRuntime {
            elapsed_scenario_ticks: 0,
            globals_set: BTreeSet::new(),
            locals_set: set_locals,
            disabled_triggers: disabled,
            fired_one_shot_triggers: BTreeSet::new(),
            last_announcement: None,
        };
        r
    }

    /// Apply one action (see `spec_apply_action`); `triggers` are the ids of
    /// the map's triggers.
    pub fn apply_action(
        &mut self,
        action: &ActionEntry,
        effects: &mut Vec<TriggerEffect>,
        queue: &mut VecDeque<u32>,
        queued: &mut BTreeSet<u32>,
        triggers: &BTreeSet<u32>,
    )
        ensures
            (final(self)@, effects_view(final(effects)@), final(queue)@, final(queued)@) == spec_apply_action(
                old(self)@,
                *action,
                effects_view(old(effects)@),
                old(queue)@,
                old(queued)@,
                triggers@,
            ),
    {
        proof {
            crate::keys::lemma_u32_keys_ordered();
        }
        let ghost fx0 = effects@;
        let kind = action.kind;
        if kind == ACTION_FORCE_TRIGGER && action.target.is_some() {
            let t = action.target.unwrap();
            enqueue_trigger(queue, queued, t);
        } else if kind == ACTION_SET_GLOBAL && action.number.is_some() {
            let i = action.number.unwrap();
            self.globals_set.insert(i);
        } else if kind == ACTION_CLEAR_GLOBAL && action.number.is_some() {
            let i = action.number.unwrap();
            self.globals_set.remove(&i);
        } else if kind == ACTION_ENABLE_TRIGGER && action.target.is_some() {
            let t = action.target.unwrap();
            self.disabled_triggers.remove(&t);
            if triggers.contains(&t) {
                enqueue_trigger(queue, queued, t);
            }
        } else if kind == ACTION_DISABLE_TRIGGER && action.target.is_some() {
            let t = action.target.unwrap();
            self.disabled_triggers.insert(t);
        } else if kind == ACTION_SET_LOCAL && action.number.is_some() {
            let i = action.number.unwrap();
            self.locals_set.insert(i);
        } else if kind == ACTION_CLEAR_LOCAL && action.number.is_some() {
            let i = action.number.unwrap();
            self.locals_set.remove(&i);
        } else if kind == ACTION_CENTER_CAMERA && action.waypoint.is_some() {
            let w = action.waypoint.unwrap();
            effects.push(TriggerEffect::CenterCameraAtWaypoint { waypoint: w, immediate: false });
        } else if kind == ACTION_JUMP_CAMERA && action.waypoint.is_some() {
            let w = action.waypoint.unwrap();
            effects.push(TriggerEffect::CenterCameraAtWaypoint { waypoint: w, immediate: true });
        } else if kind == ACTION_ANNOUNCE_WIN {
            self.last_announcement = Some(MissionAnnouncementKind::Victory);
            effects.push(TriggerEffect::MissionAnnouncement { text: String::from_str("Mission Accomplished") });
        } else if kind == ACTION_ANNOUNCE_LOSE {
            self.last_announcement = Some(MissionAnnouncementKind::Defeat);
            effects.push(TriggerEffect::MissionAnnouncement { text: String::from_str("Mission Failed") });
        } else if kind == ACTION_END_SCENARIO {
            let (title, detail) = match self.last_announcement {
                Some(MissionAnnouncementKind::Victory) => (
                    String::from_str("Mission Accomplished"),
                    String::from_str("The scenario ended after a victory announcement."),
                ),
                Some(MissionAnnouncementKind::Defeat) => (
                    String::from_str("Mission Failed"),
                    String::from_str("The scenario ended after a defeat announcement."),
                ),
                None => (String::from_str("Scenario Ended"), String::from_str("A map trigger ended the scenario.")),
            };
            effects.push(TriggerEffect::MissionResult { title, detail });
        }
        proof {
            assert(effects_view(effects@) =~= spec_apply_action(
                old(self)@,
                *action,
                effects_view(fx0),
                old(queue)@,
                old(queued)@,
                triggers@,
            ).1);
        }
    }
}

/// Event kind: a global variable is set.
pub const EVENT_GLOBAL_IS_SET: i32 = 27;

/// Event kind: a global variable is clear.
pub const EVENT_GLOBAL_IS_CLEAR: i32 = 28;

/// Event kind: a local variable is set.
pub const EVENT_LOCAL_IS_SET: i32 = 36;

/// Event kind: a local variable is clear.
pub const EVENT_LOCAL_IS_CLEAR: i32 = 37;

/// Event kind: the scenario has run for a number of seconds.
pub const EVENT_ELAPSED_SCENARIO_TIME: i32 = 47;

/// Event kind: at least a number (1 by default) of objects of a type exist.
pub const EVENT_TECHTYPE_EXISTS: i32 = 60;

/// Event kind: no object of a type exists.
pub const EVENT_TECHTYPE_DOES_NOT_EXIST: i32 = 61;

/// Scenario ticks per second.
pub const TICKS_PER_SECOND: u64 = 30;

/// One event condition with its parameters already read: the first
/// parameter as a number (`None` when it does not read as one), and, for
/// the object-type events, how many objects of the named type the world
/// holds (`None` when there is no world to ask or the type is not named).
pub struct EventCondition {
    pub kind: i32,
    pub number: Option<u32>,
    pub type_count: Option<u64>,
}

/// Whether one condition holds in state `st`. Kinds not listed, and
/// conditions whose parameter does not read, never hold.
pub open spec fn spec_event_holds(st: TriggerState, c: EventCondition) -> bool {
    if c.kind == EVENT_ELAPSED_SCENARIO_TIME {
        match c.number {
            Some(s) => st.elapsed >= s * 30,
            None => false,
        }
    } else if c.kind == EVENT_GLOBAL_IS_SET || c.kind == EVENT_GLOBAL_IS_CLEAR {
        match c.number {
            Some(i) => st.globals.contains(i) == (c.kind == EVENT_GLOBAL_IS_SET),
            None => false,
        }
    } else if c.kind == EVENT_LOCAL_IS_SET || c.kind == EVENT_LOCAL_IS_CLEAR {
        match c.number {
            Some(i) => st.locals.contains(i) == (c.kind == EVENT_LOCAL_IS_SET),
            None => false,
        }
    } else if c.kind == EVENT_TECHTYPE_EXISTS {
        match c.type_count {
            Some(n) => n >= match c.number {
                Some(m) => m,
                None => 1,
            },
            None => false,
        }
    } else if c.kind == EVENT_TECHTYPE_DOES_NOT_EXIST {
        c.type_count == Some(0u64)
    } else {
        false
    }
}

/// Whether trigger `id` may fire: it is not disabled, it belongs to the
/// map (`repeating` gives whether it repeats), a one-shot trigger has not
/// fired yet, and it has an event whose conditions are not empty and all
/// hold.
pub open spec fn spec_trigger_ready(st: TriggerState, id: u32, repeating: Option<bool>, conditions: Option<Seq<EventCondition>>) -> bool {
    &&& !st.disabled.contains(id)
    &&& repeating is Some
    &&& (repeating->0 || !st.fired.contains(id))
    &&& conditions is Some
    &&& conditions->0.len() > 0
    &&& forall|i: int| 0 <= i < conditions->0.len() ==> spec_event_holds(st, #[trigger] conditions->0[i])
}

/// The actions of `acts` applied in order.
pub open spec fn spec_apply_actions(
    st: TriggerState,
    acts: Seq<ActionEntry>,
    fx: Seq<(u8, u32, bool, Seq<char>, Seq<char>)>,
    q: Seq<u32>,
    qd: Set<u32>,
    triggers: Set<u32>,
) -> (TriggerState, Seq<(u8, u32, bool, Seq<char>, Seq<char>)>, Seq<u32>, Set<u32>)
    decreases acts.len(),
{
    if acts.len() == 0 {
        (st, fx, q, qd)
    } else {
        let p = spec_apply_actions(st, acts.drop_last(), fx, q, qd, triggers);
        spec_apply_action(p.0, acts.last(), p.1, p.2, p.3, triggers)
    }
}

/// What firing a trigger does: its actions in order, then its linked
/// trigger (when the map has it) is queued, then a one-shot trigger is
/// marked fired.
pub open spec fn spec_fire_trigger(
    st: TriggerState,
    id: u32,
    repeating: bool,
    linked: Option<u32>,
    acts: Seq<ActionEntry>,
    fx: Seq<(u8, u32, bool, Seq<char>, Seq<char>)>,
    q: Seq<u32>,
    qd: Set<u32>,
    triggers: Set<u32>,
) -> (TriggerState, Seq<(u8, u32, bool, Seq<char>, Seq<char>)>, Seq<u32>, Set<u32>) {
    let a = spec_apply_actions(st, acts, fx, q, qd, triggers);
    let e = match linked {
        Some(l) => if triggers.contains(l) {
            enqueued(a.2, a.3, l)
        } else {
            (a.2, a.3)
        },
        None => (a.2, a.3),
    };
    let st2 = if repeating {
        a.0
    } else {
        TriggerState { fired: a.0.fired.insert(id), ..a.0 }
    };
    (st2, a.1, e.0, e.1)
}

impl TriggerRuntime {
    /// Let `tick_count` ticks of scenario time pass (saturating).
    pub fn add_elapsed_ticks(&mut self, tick_count: u32)
        ensures
            final(self)@ == (TriggerState {
                elapsed: if old(self)@.elapsed + tick_count > u64::MAX {
                    u64::MAX
                } else {
                    (old(self)@.elapsed + tick_count) as u64
                },
                ..old(self)@
            }),
    {
        self.elapsed_scenario_ticks = self.elapsed_scenario_ticks.saturating_add(tick_count as u64);
    }

    /// Whether one event condition holds (see `spec_event_holds`).
    pub fn evaluate_event(&self, condition: &EventCondition) -> (r: bool)
        ensures
            r == spec_event_holds(self@, *condition),
    {
        proof {
            crate::keys::lemma_u32_keys_ordered();
        }
        let kind = condition.kind;
        if kind == EVENT_ELAPSED_SCENARIO_TIME {
            match condition.number {
                Some(s) => self.elapsed_scenario_ticks >= s as u64 * TICKS_PER_SECOND,
                None => false,
            }
        } else if kind == EVENT_GLOBAL_IS_SET || kind == EVENT_GLOBAL_IS_CLEAR {
            match condition.number {
                Some(i) => self.globals_set.contains(&i) == (kind == EVENT_GLOBAL_IS_SET),
                None => false,
            }
        } else if kind == EVENT_LOCAL_IS_SET || kind == EVENT_LOCAL_IS_CLEAR {
            match condition.number {
                Some(i) => self.locals_set.contains(&i) == (kind == EVENT_LOCAL_IS_SET),
                None => false,
            }
        } else if kind == EVENT_TECHTYPE_EXISTS {
            match condition.type_count {
                Some(n) => {
                    let min_count: u64 = match condition.number {
                        Some(m) => m as u64,
                        None => 1,
                    };
                    n >= min_count
                },
                None => false,
            }
        } else if kind == EVENT_TECHTYPE_DOES_NOT_EXIST {
            match condition.type_count {
                Some(n) => n == 0,
                None => false,
            }
        } else {
            false
        }
    }

    /// Whether trigger `id` may fire (see `spec_trigger_ready`):
    /// `repeating` is `None` when the map has no such trigger, and
    /// `conditions` is `None` when the trigger has no event.
    pub fn is_trigger_ready(&self, id: u32, repeating: Option<bool>, conditions: Option<&Vec<EventCondition>>) -> (r: bool)
        ensures
            r == spec_trigger_ready(
                self@,
                id,
                repeating,
                match conditions {
                    Some(c) => Some(c@),
                    None => None,
                },
            ),
    {
        proof {
            crate::keys::lemma_u32_keys_ordered();
        }
        if self.disabled_triggers.contains(&id) {
            return false;
        }
        let rep = match repeating {
            Some(r) => r,
            None => {
                return false;
            },
        };
        if !rep && self.fired_one_shot_triggers.contains(&id) {
            return false;
        }
        let conds = match conditions {
            Some(c) => c,
            None => {
                return false;
            },
        };
        if conds.len() == 0 {
            return false;
        }
        let mut i: usize = 0;
        while i < conds.len()
            invariant
                i <= conds@.len(),
                conditions == Some(conds),
                forall|j: int| 0 <= j < i ==> spec_event_holds(self@, #[trigger] conds@[j]),
            decreases conds@.len() - i,
        {
            if !self.evaluate_event(&conds[i]) {
                proof {
                    let cs: Option<Seq<EventCondition>> = Some(conds@);
                    assert(!spec_event_holds(self@, cs->0[i as int]));
                    assert(!spec_trigger_ready(self@, id, repeating, cs));
                }
                return false;
            }
            i = i + 1;
        }
        true
    }

    /// Fire trigger `id` (see `spec_fire_trigger`): run its actions in
    /// order, queue its linked trigger when the map has it, and mark a
    /// one-shot trigger fired.
    pub fn fire_trigger(
        &mut self,
        id: u32,
        repeating: bool,
        linked: Option<u32>,
        actions: &Vec<ActionEntry>,
        effects: &mut Vec<TriggerEffect>,
        queue: &mut VecDeque<u32>,
        queued: &mut BTreeSet<u32>,
        triggers: &BTreeSet<u32>,
    )
        ensures
            (final(self)@, effects_view(final(effects)@), final(queue)@, final(queued)@) == spec_fire_trigger(
                old(self)@,
                id,
                repeating,
                linked,
                actions@,
                effects_view(old(effects)@),
                old(queue)@,
                old(queued)@,
                triggers@,
            ),
    {
        proof {
            crate::keys::lemma_u32_keys_ordered();
        }
        let ghost st0 = self@;
        let ghost fx0 = effects_view(effects@);
        let ghost q0 = queue@;
        let ghost qd0 = queued@;
        let mut i: usize = 0;
        proof {
            assert(actions@.take(0) =~= Seq::<ActionEntry>::empty());
        }
        while i < actions.len()
            invariant
                i <= actions@.len(),
                (self@, effects_view(effects@), queue@, queued@) == spec_apply_actions(
                    st0,
                    actions@.take(i as int),
                    fx0,
                    q0,
                    qd0,
                    triggers@,
                ),
            decreases actions@.len() - i,
        {
            proof {
                assert(actions@.take(i as int + 1).drop_last() =~= actions@.take(i as int));
            }
            self.apply_action(&actions[i], effects, queue, queued, triggers);
            i = i + 1;
        }
        proof {
            assert(actions@.take(actions@.len() as int) =~= actions@);
        }
        if let Some(l) = linked {
            if triggers.contains(&l) {
                enqueue_trigger(queue, queued, l);
            }
        }
        if !repeating {
            self.fired_one_shot_triggers.insert(id);
        }
    }
}

/// What a variable or time condition asks: "local is set" holds exactly
/// when the local variable is set and "local is clear" exactly when it is
/// not, so the two never hold together and one of them always holds (the
/// same for globals); the elapsed-time condition holds once the scenario has
/// run 30 ticks per second asked for. None of them depends on object counts.
pub proof fn law_variable_conditions_are_complementary(st: TriggerState, i: u32, n: Option<u64>)
    ensures
        spec_event_holds(st, (EventCondition { kind: EVENT_LOCAL_IS_SET, number: Some(i), type_count: n }))
            == st.locals.contains(i),
        spec_event_holds(st, (EventCondition { kind: EVENT_LOCAL_IS_CLEAR, number: Some(i), type_count: n }))
            == !st.locals.contains(i),
        spec_event_holds(st, (EventCondition { kind: EVENT_GLOBAL_IS_SET, number: Some(i), type_count: n }))
            == st.globals.contains(i),
        spec_event_holds(st, (EventCondition { kind: EVENT_GLOBAL_IS_CLEAR, number: Some(i), type_count: n }))
            == !st.globals.contains(i),
        spec_event_holds(st, (EventCondition { kind: EVENT_ELAPSED_SCENARIO_TIME, number: Some(i), type_count: n }))
            == (st.elapsed >= 30 * i),
        !spec_event_holds(st, (EventCondition { kind: EVENT_LOCAL_IS_SET, number: None, type_count: n })),
        !spec_event_holds(st, (EventCondition { kind: EVENT_LOCAL_IS_CLEAR, number: None, type_count: n })),
        !spec_event_holds(st, (EventCondition { kind: EVENT_GLOBAL_IS_SET, number: None, type_count: n })),
        !spec_event_holds(st, (EventCondition { kind: EVENT_GLOBAL_IS_CLEAR, number: None, type_count: n })),
{
}

/// What an object-type condition asks: "exists" holds exactly when the
/// world holds at least the number asked for (1 when none is given), "does
/// not exist" exactly when it holds none; with no world to ask, neither holds.
pub proof fn law_object_conditions_count_objects(st: TriggerState, number: Option<u32>, count: u64)
    ensures
        spec_event_holds(st, (EventCondition { kind: EVENT_TECHTYPE_EXISTS, number: number, type_count: Some(count) }))
            == (count >= match number {
            Some(k) => k as u64,
            None => 1u64,
        }),
        spec_event_holds(st, (EventCondition { kind: EVENT_TECHTYPE_DOES_NOT_EXIST, number: number, type_count: Some(count) }))
            == (count == 0),
        !spec_event_holds(st, (EventCondition { kind: EVENT_TECHTYPE_EXISTS, number: number, type_count: None })),
        !spec_event_holds(st, (EventCondition { kind: EVENT_TECHTYPE_DOES_NOT_EXIST, number: number, type_count: None })),
{
}

/// A trigger is never ready while disabled, nor when the map lacks it, nor
/// without an event or with one whose conditions are empty, nor when one of
/// its conditions fails; a one-shot trigger that has fired is never ready
/// again. Firing a one-shot trigger marks it fired, whatever its actions do,
/// so it is not ready afterwards; firing keeps the effects that came before.
pub proof fn law_trigger_readiness_and_firing(
    st: TriggerState,
    id: u32,
    repeating: Option<bool>,
    conditions: Option<Seq<EventCondition>>,
    linked: Option<u32>,
    acts: Seq<ActionEntry>,
    fx: Seq<(u8, u32, bool, Seq<char>, Seq<char>)>,
    q: Seq<u32>,
    qd: Set<u32>,
    triggers: Set<u32>,
)
    ensures
        st.disabled.contains(id) ==> !spec_trigger_ready(st, id, repeating, conditions),
        repeating is None ==> !spec_trigger_ready(st, id, repeating, conditions),
        (conditions is None || conditions == Some(Seq::<EventCondition>::empty())) ==> !spec_trigger_ready(
            st,
            id,
            repeating,
            conditions,
        ),
        (conditions matches Some(cs) && exists|k: int| 0 <= k < cs.len() && !spec_event_holds(st, #[trigger] cs[k]))
            ==> !spec_trigger_ready(st, id, repeating, conditions),
        (repeating == Some(false) && st.fired.contains(id)) ==> !spec_trigger_ready(st, id, repeating, conditions),
        ({
            let after = spec_fire_trigger(st, id, false, linked, acts, fx, q, qd, triggers);
            &&& after.0.fired.contains(id)
            &&& !spec_trigger_ready(after.0, id, Some(false), conditions)
        }),
        fx.is_prefix_of(spec_fire_trigger(st, id, false, linked, acts, fx, q, qd, triggers).1),
{
    lemma_actions_keep_effects(st, acts, fx, q, qd, triggers);
}

/// Actions only add effects: those that came before stay in front.
proof fn lemma_actions_keep_effects(
    st: TriggerState,
    acts: Seq<ActionEntry>,
    fx: Seq<(u8, u32, bool, Seq<char>, Seq<char>)>,
    q: Seq<u32>,
    qd: Set<u32>,
    triggers: Set<u32>,
)
    ensures
        fx.is_prefix_of(spec_apply_actions(st, acts, fx, q, qd, triggers).1),
    decreases acts.len(),
{
    if acts.len() > 0 {
        lemma_actions_keep_effects(st, acts.drop_last(), fx, q, qd, triggers);
        let p = spec_apply_actions(st, acts.drop_last(), fx, q, qd, triggers);
        let r = spec_apply_action(p.0, acts.last(), p.1, p.2, p.3, triggers);
        assert(p.1.is_prefix_of(r.1));
    }
}

/// The trigger queue never holds a trigger twice: when the queue has no
/// repeats and its set of members is the membership set, both stay so
/// after any action and after firing a trigger.
pub proof fn law_queue_holds_each_trigger_once(
    st: TriggerState,
    a: ActionEntry,
    id: u32,
    repeating: bool,
    linked: Option<u32>,
    acts: Seq<ActionEntry>,
    fx: Seq<(u8, u32, bool, Seq<char>, Seq<char>)>,
    q: Seq<u32>,
    qd: Set<u32>,
    triggers: Set<u32>,
)
    requires
        q.no_duplicates(),
        q.to_set() == qd,
    ensures
        ({
            let r = spec_apply_action(st, a, fx, q, qd, triggers);
            r.2.no_duplicates() && r.2.to_set() == r.3
        }),
        ({
            let r = spec_fire_trigger(st, id, repeating, linked, acts, fx, q, qd, triggers);
            r.2.no_duplicates() && r.2.to_set() == r.3
        }),
{
    lemma_action_keeps_queue(st, a, fx, q, qd, triggers);
    lemma_actions_keep_queue(st, acts, fx, q, qd, triggers);
    let p = spec_apply_actions(st, acts, fx, q, qd, triggers);
    if let Some(l) = linked {
        lemma_enqueued_keeps_queue(p.2, p.3, l);
    }
}

/// Queueing keeps the queue free of repeats and its members the set.
proof fn lemma_enqueued_keeps_queue(q: Seq<u32>, qd: Set<u32>, id: u32)
    requires
        q.no_duplicates(),
        q.to_set() == qd,
    ensures
        enqueued(q, qd, id).0.no_duplicates(),
        enqueued(q, qd, id).0.to_set() == enqueued(q, qd, id).1,
{
    if !qd.contains(id) {
        assert(!q.contains(id)) by {
            if q.contains(id) {
                let k = choose|k: int| 0 <= k < q.len() && q[k] == id;
                assert(q.to_set().contains(q[k]));
            }
        }
        assert(q.push(id).to_set() =~= q.to_set().insert(id)) by {
            assert forall|x: u32| q.push(id).to_set().contains(x) <==> q.to_set().insert(id).contains(x) by {
                if q.push(id).contains(x) {
                    let k = choose|k: int| 0 <= k < q.push(id).len() && q.push(id)[k] == x;
                    if k < q.len() {
                        assert(q[k] == x);
                        assert(q.contains(x));
                    }
                }
                if q.contains(x) {
                    let k = choose|k: int| 0 <= k < q.len() && q[k] == x;
                    assert(q.push(id)[k] == x);
                }
                if x == id {
                    assert(q.push(id)[q.len() as int] == id);
                }
            }
        }
        assert forall|i: int, j: int| 0 <= i < q.push(id).len() && 0 <= j < q.push(id).len() && i != j implies q.push(id)[i]
            != q.push(id)[j] by {
            if i < q.len() && j < q.len() {
            } else if i < q.len() {
                assert(q.contains(q[i]));
            } else {
                assert(q.contains(q[j]));
            }
        }
    }
}

/// One action keeps the queue free of repeats and its members the set.
proof fn lemma_action_keeps_queue(
    st: TriggerState,
    a: ActionEntry,
    fx: Seq<(u8, u32, bool, Seq<char>, Seq<char>)>,
    q: Seq<u32>,
    qd: Set<u32>,
    triggers: Set<u32>,
)
    requires
        q.no_duplicates(),
        q.to_set() == qd,
    ensures
        spec_apply_action(st, a, fx, q, qd, triggers).2.no_duplicates(),
        spec_apply_action(st, a, fx, q, qd, triggers).2.to_set() == spec_apply_action(st, a, fx, q, qd, triggers).3,
{
    if a.target is Some {
        lemma_enqueued_keeps_queue(q, qd, a.target->0);
    }
}

/// Actions in order keep the queue free of repeats and its members the set.
proof fn lemma_actions_keep_queue(
    st: TriggerState,
    acts: Seq<ActionEntry>,
    fx: Seq<(u8, u32, bool, Seq<char>, Seq<char>)>,
    q: Seq<u32>,
    qd: Set<u32>,
    triggers: Set<u32>,
)
    requires
        q.no_duplicates(),
        q.to_set() == qd,
    ensures
        spec_apply_actions(st, acts, fx, q, qd, triggers).2.no_duplicates(),
        spec_apply_actions(st, acts, fx, q, qd, triggers).2.to_set() == spec_apply_actions(st, acts, fx, q, qd, triggers).3,
    decreases acts.len(),
{
    if acts.len() > 0 {
        lemma_actions_keep_queue(st, acts.drop_last(), fx, q, qd, triggers);
        let p = spec_apply_actions(st, acts.drop_last(), fx, q, qd, triggers);
        lemma_action_keeps_queue(p.0, acts.last(), p.1, p.2, p.3, triggers);
    }
}

/// Setting a variable and clearing it again leaves it clear, and the other
/// way round it is left set; disabling a trigger then enabling it leaves it
/// enabled, and the other way round disabled. Other variables and triggers
/// keep their state.
pub proof fn law_set_and_clear_undo_each_other(
    st: TriggerState,
    i: u32,
    j: u32,
    fx: Seq<(u8, u32, bool, Seq<char>, Seq<char>)>,
    q: Seq<u32>,
    qd: Set<u32>,
    triggers: Set<u32>,
)
    ensures
        ({
            let set_g = ActionEntry { kind: ACTION_SET_GLOBAL, number: Some(i), target: None, waypoint: None };
            let clear_g = ActionEntry { kind: ACTION_CLEAR_GLOBAL, number: Some(i), target: None, waypoint: None };
            let set_l = ActionEntry { kind: ACTION_SET_LOCAL, number: Some(i), target: None, waypoint: None };
            let clear_l = ActionEntry { kind: ACTION_CLEAR_LOCAL, number: Some(i), target: None, waypoint: None };
            let enable = ActionEntry { kind: ACTION_ENABLE_TRIGGER, number: None, target: Some(i), waypoint: None };
            let disable = ActionEntry { kind: ACTION_DISABLE_TRIGGER, number: None, target: Some(i), waypoint: None };
            let a1 = spec_apply_action(st, set_g, fx, q, qd, triggers);
            let a2 = spec_apply_action(a1.0, clear_g, a1.1, a1.2, a1.3, triggers);
            let b1 = spec_apply_action(st, clear_g, fx, q, qd, triggers);
            let b2 = spec_apply_action(b1.0, set_g, b1.1, b1.2, b1.3, triggers);
            let c1 = spec_apply_action(st, set_l, fx, q, qd, triggers);
            let c2 = spec_apply_action(c1.0, clear_l, c1.1, c1.2, c1.3, triggers);
            let d1 = spec_apply_action(st, clear_l, fx, q, qd, triggers);
            let d2 = spec_apply_action(d1.0, set_l, d1.1, d1.2, d1.3, triggers);
            let e1 = spec_apply_action(st, disable, fx, q, qd, triggers);
            let e2 = spec_apply_action(e1.0, enable, e1.1, e1.2, e1.3, triggers);
            let f1 = spec_apply_action(st, enable, fx, q, qd, triggers);
            let f2 = spec_apply_action(f1.0, disable, f1.1, f1.2, f1.3, triggers);
            &&& a1.0.globals.contains(i) && !a2.0.globals.contains(i)
            &&& !b1.0.globals.contains(i) && b2.0.globals.contains(i)
            &&& c1.0.locals.contains(i) && !c2.0.locals.contains(i)
            &&& !d1.0.locals.contains(i) && d2.0.locals.contains(i)
            &&& e1.0.disabled.contains(i) && !e2.0.disabled.contains(i)
            &&& !f1.0.disabled.contains(i) && f2.0.disabled.contains(i)
            &&& (j != i ==> (a2.0.globals.contains(j) == st.globals.contains(j) && c2.0.locals.contains(j)
                == st.locals.contains(j) && e2.0.disabled.contains(j) == st.disabled.contains(j)))
            &&& a2.0.locals == st.locals && c2.0.globals == st.globals && a2.1 == fx && c2.1 == fx
        }),
{
}

} // verus!
