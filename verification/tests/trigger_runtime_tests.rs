//! Trigger actions and the runtime at the start of a scenario.

use std::collections::{BTreeSet, VecDeque};
use vera20k::trigger_runtime::{
    ActionEntry, EventCondition, MissionAnnouncementKind, TriggerEffect, TriggerRuntime, ACTION_ANNOUNCE_WIN, ACTION_CENTER_CAMERA,
    ACTION_CLEAR_GLOBAL, ACTION_DISABLE_TRIGGER, ACTION_ENABLE_TRIGGER, ACTION_END_SCENARIO, ACTION_FORCE_TRIGGER,
    ACTION_JUMP_CAMERA, ACTION_SET_GLOBAL, ACTION_SET_LOCAL, EVENT_ELAPSED_SCENARIO_TIME, EVENT_GLOBAL_IS_CLEAR,
    EVENT_GLOBAL_IS_SET, EVENT_LOCAL_IS_SET, EVENT_TECHTYPE_DOES_NOT_EXIST, EVENT_TECHTYPE_EXISTS,
};

fn action(kind: i32, number: Option<u32>, target: Option<u32>, waypoint: Option<u32>) -> ActionEntry {
    ActionEntry { kind, number, target, waypoint }
}

#[test]
fn from_map_disables_off_and_non_medium_triggers_and_sets_initial_locals() {
    let rt = TriggerRuntime::from_map(&vec![(1, true, true), (2, false, true), (3, true, false)], &vec![(4, true), (5, false)]);
    assert_eq!(rt.disabled_triggers, BTreeSet::from([2, 3]));
    assert_eq!(rt.locals_set, BTreeSet::from([4]));
    assert!(rt.globals_set.is_empty());
    assert_eq!(rt.elapsed_scenario_ticks, 0);
}

#[test]
fn actions_change_variables_triggers_and_effects() {
    let mut rt = TriggerRuntime::from_map(&vec![(7, false, true)], &vec![]);
    let mut effects: Vec<TriggerEffect> = Vec::new();
    let mut queue: VecDeque<u32> = VecDeque::new();
    let mut queued: BTreeSet<u32> = BTreeSet::new();
    let triggers = BTreeSet::from([7, 8]);
    rt.apply_action(&action(ACTION_SET_GLOBAL, Some(3), None, None), &mut effects, &mut queue, &mut queued, &triggers);
    rt.apply_action(&action(ACTION_SET_LOCAL, Some(9), None, None), &mut effects, &mut queue, &mut queued, &triggers);
    assert_eq!(rt.globals_set, BTreeSet::from([3]));
    assert_eq!(rt.locals_set, BTreeSet::from([9]));
    rt.apply_action(&action(ACTION_CLEAR_GLOBAL, Some(3), None, None), &mut effects, &mut queue, &mut queued, &triggers);
    assert!(rt.globals_set.is_empty());
    // Enabling a known trigger queues it once.
    rt.apply_action(&action(ACTION_ENABLE_TRIGGER, None, Some(7), None), &mut effects, &mut queue, &mut queued, &triggers);
    rt.apply_action(&action(ACTION_FORCE_TRIGGER, None, Some(7), None), &mut effects, &mut queue, &mut queued, &triggers);
    assert!(rt.disabled_triggers.is_empty());
    assert_eq!(queue, VecDeque::from([7]));
    // Enabling an unknown trigger queues nothing.
    rt.apply_action(&action(ACTION_ENABLE_TRIGGER, None, Some(99), None), &mut effects, &mut queue, &mut queued, &triggers);
    assert_eq!(queue.len(), 1);
    rt.apply_action(&action(ACTION_DISABLE_TRIGGER, None, Some(8), None), &mut effects, &mut queue, &mut queued, &triggers);
    assert_eq!(rt.disabled_triggers, BTreeSet::from([8]));
    // A parameter that does not read leaves everything alone.
    rt.apply_action(&action(ACTION_SET_GLOBAL, None, None, None), &mut effects, &mut queue, &mut queued, &triggers);
    assert!(rt.globals_set.is_empty());
    rt.apply_action(&action(ACTION_CENTER_CAMERA, None, None, Some(4)), &mut effects, &mut queue, &mut queued, &triggers);
    rt.apply_action(&action(ACTION_JUMP_CAMERA, None, None, Some(5)), &mut effects, &mut queue, &mut queued, &triggers);
    rt.apply_action(&action(ACTION_END_SCENARIO, None, None, None), &mut effects, &mut queue, &mut queued, &triggers);
    rt.apply_action(&action(ACTION_ANNOUNCE_WIN, None, None, None), &mut effects, &mut queue, &mut queued, &triggers);
    rt.apply_action(&action(ACTION_END_SCENARIO, None, None, None), &mut effects, &mut queue, &mut queued, &triggers);
    assert_eq!(rt.last_announcement, Some(MissionAnnouncementKind::Victory));
    assert_eq!(effects.len(), 5);
    assert!(matches!(effects[0], TriggerEffect::CenterCameraAtWaypoint { waypoint: 4, immediate: false }));
    assert!(matches!(effects[1], TriggerEffect::CenterCameraAtWaypoint { waypoint: 5, immediate: true }));
    match &effects[2] {
        TriggerEffect::MissionResult { title, detail } => {
            assert_eq!(title, "Scenario Ended");
            assert_eq!(detail, "A map trigger ended the scenario.");
        }
        _ => panic!("expected a mission result"),
    }
    match &effects[3] {
        TriggerEffect::MissionAnnouncement { text } => assert_eq!(text, "Mission Accomplished"),
        _ => panic!("expected an announcement"),
    }
    match &effects[4] {
        TriggerEffect::MissionResult { title, .. } => assert_eq!(title, "Mission Accomplished"),
        _ => panic!("expected a mission result"),
    }
}

fn cond(kind: i32, number: Option<u32>, type_count: Option<u64>) -> EventCondition {
    EventCondition { kind, number, type_count }
}

#[test]
fn events_read_time_variables_and_object_counts() {
    let mut rt = TriggerRuntime::from_map(&vec![], &vec![(2, true)]);
    rt.add_elapsed_ticks(59);
    assert!(!rt.evaluate_event(&cond(EVENT_ELAPSED_SCENARIO_TIME, Some(2), None)));
    rt.add_elapsed_ticks(1);
    assert!(rt.evaluate_event(&cond(EVENT_ELAPSED_SCENARIO_TIME, Some(2), None)));
    assert!(!rt.evaluate_event(&cond(EVENT_ELAPSED_SCENARIO_TIME, None, None)));
    assert!(!rt.evaluate_event(&cond(EVENT_GLOBAL_IS_SET, Some(1), None)));
    assert!(rt.evaluate_event(&cond(EVENT_GLOBAL_IS_CLEAR, Some(1), None)));
    assert!(rt.evaluate_event(&cond(EVENT_LOCAL_IS_SET, Some(2), None)));
    assert!(rt.evaluate_event(&cond(EVENT_TECHTYPE_EXISTS, None, Some(1))));
    assert!(!rt.evaluate_event(&cond(EVENT_TECHTYPE_EXISTS, Some(3), Some(2))));
    assert!(!rt.evaluate_event(&cond(EVENT_TECHTYPE_EXISTS, None, None)));
    assert!(rt.evaluate_event(&cond(EVENT_TECHTYPE_DOES_NOT_EXIST, None, Some(0))));
    assert!(!rt.evaluate_event(&cond(999, Some(1), Some(0))));
    rt.elapsed_scenario_ticks = u64::MAX - 1;
    rt.add_elapsed_ticks(5);
    assert_eq!(rt.elapsed_scenario_ticks, u64::MAX);
}

#[test]
fn readiness_needs_an_enabled_unfired_trigger_with_holding_conditions() {
    let mut rt = TriggerRuntime::from_map(&vec![(1, true, true), (2, false, true)], &vec![(4, true)]);
    let holds = vec![cond(EVENT_LOCAL_IS_SET, Some(4), None)];
    let fails = vec![cond(EVENT_LOCAL_IS_SET, Some(4), None), cond(EVENT_GLOBAL_IS_SET, Some(9), None)];
    assert!(rt.is_trigger_ready(1, Some(false), Some(&holds)));
    assert!(!rt.is_trigger_ready(1, Some(false), Some(&fails)));
    assert!(!rt.is_trigger_ready(1, Some(false), Some(&vec![])));
    assert!(!rt.is_trigger_ready(1, Some(false), None));
    assert!(!rt.is_trigger_ready(1, None, Some(&holds)));
    assert!(!rt.is_trigger_ready(2, Some(false), Some(&holds)));
    rt.fired_one_shot_triggers.insert(1);
    assert!(!rt.is_trigger_ready(1, Some(false), Some(&holds)));
    assert!(rt.is_trigger_ready(1, Some(true), Some(&holds)));
}

#[test]
fn firing_runs_actions_queues_the_linked_trigger_and_marks_one_shots() {
    let mut rt = TriggerRuntime::from_map(&vec![], &vec![]);
    let mut effects: Vec<TriggerEffect> = Vec::new();
    let mut queue: VecDeque<u32> = VecDeque::new();
    let mut queued: BTreeSet<u32> = BTreeSet::new();
    let triggers = BTreeSet::from([1, 2, 3]);
    let acts = vec![action(ACTION_SET_GLOBAL, Some(5), None, None), action(ACTION_FORCE_TRIGGER, None, Some(3), None)];
    rt.fire_trigger(1, false, Some(2), &acts, &mut effects, &mut queue, &mut queued, &triggers);
    assert_eq!(rt.globals_set, BTreeSet::from([5]));
    assert_eq!(queue, VecDeque::from([3, 2]));
    assert_eq!(rt.fired_one_shot_triggers, BTreeSet::from([1]));
    // A repeating trigger is not marked; a linked trigger the map lacks is not queued.
    rt.fire_trigger(3, true, Some(77), &vec![], &mut effects, &mut queue, &mut queued, &triggers);
    assert_eq!(rt.fired_one_shot_triggers, BTreeSet::from([1]));
    assert_eq!(queue, VecDeque::from([3, 2]));
}
