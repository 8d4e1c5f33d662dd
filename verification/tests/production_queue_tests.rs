//! Build queues: queueing, progress, completion and cancelling.

use std::collections::{BTreeMap, VecDeque};

use vera20k::production::queue::{
    advance_queue, advance_queue_item, cancel_by_type_for_owner, cancel_last_for_owner,
    effective_progress_rate_ppm, refresh_queue_states, tick_production, BuildQueueItem, ProductionState,
};
use vera20k::production::{BuildQueueState, ProductionCategory};

const AMERICANS: u32 = 1;
const E1: u32 = 10;
const MTNK: u32 = 11;
const GAREFN: u32 = 12;

fn costs() -> BTreeMap<u32, i32> {
    BTreeMap::from([(E1, 200), (MTNK, 700), (GAREFN, 2000)])
}

fn item(type_id: u32, remaining: u32, order: u64, state: BuildQueueState) -> BuildQueueItem {
    BuildQueueItem {
        owner: AMERICANS,
        type_id,
        queue_category: ProductionCategory::Vehicle,
        state,
        total_base_frames: 100,
        remaining_base_frames: remaining,
        progress_carry: 0,
        enqueue_order: order,
    }
}

#[test]
fn cancel_last_for_owner_cancels_latest_item_across_categories() {
    let mut production = ProductionState::new();
    let mut credits: BTreeMap<u32, i32> = BTreeMap::from([(AMERICANS, 1000)]);
    production.enqueue_item(AMERICANS, E1, ProductionCategory::Infantry, 100);
    production.enqueue_item(AMERICANS, MTNK, ProductionCategory::Vehicle, 100);
    assert_eq!(
        production.queue_items(AMERICANS, ProductionCategory::Infantry)[0].state,
        BuildQueueState::Building
    );

    let canceled = cancel_last_for_owner(&mut production, &costs(), &mut credits, AMERICANS);
    assert!(canceled);
    assert_eq!(credits.get(&AMERICANS), Some(&1700));

    assert_eq!(production.queue_items(AMERICANS, ProductionCategory::Infantry).len(), 1);
    assert!(production.queue_items(AMERICANS, ProductionCategory::Vehicle).is_empty());
}

#[test]
fn cancel_last_with_nothing_queued_does_nothing() {
    let mut production = ProductionState::new();
    let mut credits: BTreeMap<u32, i32> = BTreeMap::new();
    assert!(!cancel_last_for_owner(&mut production, &costs(), &mut credits, AMERICANS));
    assert!(credits.is_empty());
}

#[test]
fn cancel_refund_opens_account_with_starting_credits() {
    let mut production = ProductionState::new();
    let mut credits: BTreeMap<u32, i32> = BTreeMap::new();
    production.enqueue_item(AMERICANS, MTNK, ProductionCategory::Vehicle, 100);
    assert!(cancel_last_for_owner(&mut production, &costs(), &mut credits, AMERICANS));
    assert_eq!(credits.get(&AMERICANS), Some(&5700));
}

#[test]
fn enqueue_orders_and_states() {
    let mut production = ProductionState::new();
    assert_eq!(production.enqueue_item(AMERICANS, MTNK, ProductionCategory::Vehicle, 50), 1);
    assert_eq!(production.enqueue_item(AMERICANS, MTNK, ProductionCategory::Vehicle, 60), 2);
    let q = production.queue_items(AMERICANS, ProductionCategory::Vehicle);
    assert_eq!(q.len(), 2);
    assert_eq!(q[0].state, BuildQueueState::Building);
    assert_eq!(q[1].state, BuildQueueState::Queued);
    assert_eq!(q[1].remaining_base_frames, 60);
    assert_eq!(q[1].enqueue_order, 2);
}

#[test]
fn cancel_by_type_takes_last_of_type_in_queue() {
    let mut production = ProductionState::new();
    let mut credits: BTreeMap<u32, i32> = BTreeMap::from([(AMERICANS, 0)]);
    production.enqueue_item(AMERICANS, MTNK, ProductionCategory::Vehicle, 10);
    production.enqueue_item(AMERICANS, E1, ProductionCategory::Vehicle, 20);
    production.enqueue_item(AMERICANS, MTNK, ProductionCategory::Vehicle, 30);
    assert!(cancel_by_type_for_owner(&mut production, &costs(), &mut credits, AMERICANS, MTNK));
    let q = production.queue_items(AMERICANS, ProductionCategory::Vehicle);
    assert_eq!(q.len(), 2);
    assert_eq!(q[0].remaining_base_frames, 10);
    assert_eq!(q[1].type_id, E1);
    assert_eq!(credits.get(&AMERICANS), Some(&700));
}

#[test]
fn cancel_by_type_removes_ready_building_and_refunds() {
    let mut production = ProductionState::new();
    let mut credits: BTreeMap<u32, i32> = BTreeMap::from([(AMERICANS, 1000)]);
    production.push_ready(AMERICANS, GAREFN);
    let before = *credits.get(&AMERICANS).unwrap();
    assert!(cancel_by_type_for_owner(&mut production, &costs(), &mut credits, AMERICANS, GAREFN));
    assert!(production.ready_items(AMERICANS).is_empty());
    assert_eq!(*credits.get(&AMERICANS).unwrap(), before + 2000);
}

#[test]
fn cancel_by_type_prefers_build_queue_over_ready_queue() {
    let mut production = ProductionState::new();
    let mut credits: BTreeMap<u32, i32> = BTreeMap::from([(AMERICANS, 0)]);
    production.push_ready(AMERICANS, GAREFN);
    production.enqueue_item(AMERICANS, GAREFN, ProductionCategory::Building, 100);
    assert!(cancel_by_type_for_owner(&mut production, &costs(), &mut credits, AMERICANS, GAREFN));
    assert!(production.queue_items(AMERICANS, ProductionCategory::Building).is_empty());
    assert_eq!(production.ready_items(AMERICANS), vec![GAREFN]);
    // Nothing of the type left anywhere but the ready list, then nothing.
    assert!(cancel_by_type_for_owner(&mut production, &costs(), &mut credits, AMERICANS, GAREFN));
    assert!(!cancel_by_type_for_owner(&mut production, &costs(), &mut credits, AMERICANS, GAREFN));
    assert_eq!(credits.get(&AMERICANS), Some(&4000));
}

#[test]
fn refresh_marks_front_building_unless_paused() {
    let mut q: VecDeque<BuildQueueItem> = VecDeque::from([
        item(MTNK, 10, 1, BuildQueueState::Queued),
        item(MTNK, 10, 2, BuildQueueState::Building),
    ]);
    refresh_queue_states(&mut q);
    assert_eq!(q[0].state, BuildQueueState::Building);
    assert_eq!(q[1].state, BuildQueueState::Queued);

    let mut p: VecDeque<BuildQueueItem> = VecDeque::from([item(MTNK, 10, 1, BuildQueueState::Paused)]);
    refresh_queue_states(&mut p);
    assert_eq!(p[0].state, BuildQueueState::Paused);
}

#[test]
fn advance_item_counts_frames_and_carries_the_rest() {
    // 100 ms at full speed: 100_000_000 units; one frame is 66_000_000.
    let mut it = item(MTNK, 10, 1, BuildQueueState::Building);
    advance_queue_item(&mut it, 100, 1_000_000);
    assert_eq!(it.remaining_base_frames, 9);
    assert_eq!(it.progress_carry, 34_000_000);
    advance_queue_item(&mut it, 100, 1_000_000);
    assert_eq!(it.remaining_base_frames, 7);
    assert_eq!(it.progress_carry, 2_000_000);
    // No time, or nothing left: unchanged.
    let before = it;
    advance_queue_item(&mut it, 0, 1_000_000);
    assert_eq!(it, before);
    // Finishing clears the carry.
    advance_queue_item(&mut it, 1000, 1_000_000);
    assert_eq!(it.remaining_base_frames, 0);
    assert_eq!(it.progress_carry, 0);
}

#[test]
fn advance_queue_completes_front_and_promotes_next() {
    let mut q: VecDeque<BuildQueueItem> = VecDeque::from([
        item(MTNK, 1, 1, BuildQueueState::Building),
        item(E1, 5, 2, BuildQueueState::Queued),
    ]);
    let done = advance_queue(&mut q, 100, 1_000_000).expect("front item completes");
    assert_eq!(done.state, BuildQueueState::Done);
    assert_eq!(done.type_id, MTNK);
    assert_eq!(q.len(), 1);
    assert_eq!(q[0].state, BuildQueueState::Building);
    assert_eq!(q[0].remaining_base_frames, 5);
}

#[test]
fn paused_queue_does_not_advance() {
    let mut q: VecDeque<BuildQueueItem> = VecDeque::from([item(MTNK, 1, 1, BuildQueueState::Paused)]);
    assert!(advance_queue(&mut q, 1000, 1_000_000).is_none());
    assert_eq!(q[0].remaining_base_frames, 1);
}

#[test]
fn advance_category_drops_emptied_queue() {
    let mut production = ProductionState::new();
    production.enqueue_item(AMERICANS, MTNK, ProductionCategory::Vehicle, 1);
    let done = production.advance_category(AMERICANS, ProductionCategory::Vehicle, 100, 1_000_000);
    assert!(done.is_some());
    assert!(production.queue_items(AMERICANS, ProductionCategory::Vehicle).is_empty());
    assert!(production
        .advance_category(AMERICANS, ProductionCategory::Vehicle, 100, 1_000_000)
        .is_none());
}

#[test]
fn tick_production_completes_each_owner_queue_in_key_order() {
    let mut production = ProductionState::new();
    production.enqueue_item(AMERICANS, E1, ProductionCategory::Infantry, 1);
    production.enqueue_item(AMERICANS, GAREFN, ProductionCategory::Building, 1);
    production.enqueue_item(2, E1, ProductionCategory::Infantry, 1);
    let rates: BTreeMap<(u32, u8), u64> = BTreeMap::new();
    let is_building = BTreeMap::from([(GAREFN, true), (E1, false)]);
    let none = tick_production(&mut production, &rates, &is_building, 0);
    assert!(none.is_empty());
    assert_eq!(production.queue_items(AMERICANS, ProductionCategory::Infantry).len(), 1);
    let units = tick_production(&mut production, &rates, &is_building, 100);
    let owners: Vec<u32> = units.iter().map(|u| u.owner).collect();
    assert_eq!(owners, vec![AMERICANS, 2]);
    assert!(units.iter().all(|u| u.type_id == E1 && u.state == BuildQueueState::Done));
    assert_eq!(production.ready_items(AMERICANS), vec![GAREFN]);
    assert!(production.queue_items(AMERICANS, ProductionCategory::Infantry).is_empty());
    assert!(production.queue_items(2, ProductionCategory::Infantry).is_empty());
}

#[test]
fn tick_production_uses_each_queue_rate() {
    let mut production = ProductionState::new();
    production.enqueue_item(AMERICANS, E1, ProductionCategory::Infantry, 1);
    let rates = BTreeMap::from([((AMERICANS, 2u8), 500_000u64)]);
    let units = tick_production(&mut production, &rates, &BTreeMap::new(), 100);
    // At half speed 100 ms is less than one 66 ms frame of progress.
    assert!(units.is_empty());
    assert_eq!(production.queue_items(AMERICANS, ProductionCategory::Infantry).len(), 1);
}

#[test]
fn effective_progress_rate_divides_power_by_factory_time() {
    assert_eq!(effective_progress_rate_ppm(1_000_000, 500_000), 2_000_000);
    assert_eq!(effective_progress_rate_ppm(1_000_000, 0), 1_000_000_000_000);
    assert_eq!(effective_progress_rate_ppm(0, 1_000_000), 1);
}
