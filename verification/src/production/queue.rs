//! Build queues: queued items, their progress, completion and cancelling.
//!
//! Each owner has one queue per production category. Only the front item of
//! a queue is built; it advances by production frames scaled by the owner's
//! production rate.

use std::collections::{BTreeMap, VecDeque};
use vstd::std_specs::iter::IteratorSpec;
use vstd::prelude::*;
use crate::production::{BuildQueueState, ProductionCategory};
use crate::production::tech::{PRODUCTION_RATE_SCALE, RA2_QUEUE_FRAME_MS};

verus! {

/// One queued build item.
#[derive(Debug, Clone, Copy, PartialEq, Eq, Structural)]
pub struct BuildQueueItem {
    pub owner: u32,
    pub type_id: u32,
    pub queue_category: ProductionCategory,
    pub state: BuildQueueState,
    /// Base build time in production frames, before rate scaling.
    pub total_base_frames: u32,
    /// Base build time still to go.
    pub remaining_base_frames: u32,
    /// Progress below one frame carried to the next tick, in frame-scale
    /// units (66 ms times the rate scale per frame).
    pub progress_carry: u64,
    /// Order in which the item was queued.
    pub enqueue_order: u64,
}

/// `item` with state `s`.
pub open spec fn with_state(item: BuildQueueItem, s: BuildQueueState) -> BuildQueueItem {
    BuildQueueItem { state: s, ..item }
}

/// The state an item at position `idx` of a queue shows: the front item is
/// building unless paused, the others are queued.
pub open spec fn refreshed_state(s: BuildQueueState, idx: int) -> BuildQueueState {
    if idx == 0 {
        if s == BuildQueueState::Paused {
            BuildQueueState::Paused
        } else {
            BuildQueueState::Building
        }
    } else {
        BuildQueueState::Queued
    }
}

/// A queue with every item showing the state of its position.
pub open spec fn refreshed_queue(q: Seq<BuildQueueItem>) -> Seq<BuildQueueItem> {
    Seq::new(q.len(), |i: int| with_state(q[i], refreshed_state(q[i].state, i)))
}

/// Give every item of the queue the state of its position: the front item
/// builds (unless paused), the others wait.
pub fn refresh_queue_states(queue: &mut VecDeque<BuildQueueItem>)
    ensures
        final(queue)@ == refreshed_queue(old(queue)@),
{
    let ghost q = queue@;
    let n = queue.len();
    let mut out: VecDeque<BuildQueueItem> = VecDeque::new();
    let mut idx: usize = 0;
    while idx < n
        invariant
            n == q.len(),
            idx <= n,
            queue@ == q.subrange(idx as int, n as int),
            out@ == refreshed_queue(q).subrange(0, idx as int),
        decreases n - idx,
    {
        let item = match queue.pop_front() {
            Some(it) => it,
            None => {
                assert(false);
                return;
            },
        };
        let s = if idx == 0 {
            match item.state {
                BuildQueueState::Paused => BuildQueueState::Paused,
                _ => BuildQueueState::Building,
            }
        } else {
            BuildQueueState::Queued
        };
        out.push_back(BuildQueueItem { state: s, ..item });
        proof {
            assert(item == q[idx as int]);
            assert(out@ =~= refreshed_queue(q).subrange(0, idx + 1));
            assert(queue@ =~= q.subrange(idx + 1, n as int));
        }
        idx = idx + 1;
    }
    proof {
        assert(out@ =~= refreshed_queue(q));
    }
    *queue = out;
}

/// Production frames in frame-scale units: 66 ms times the rate scale.
pub open spec fn frame_scale() -> int {
    66_000_000int
}

/// Progress of one tick in frame-scale units, saturating at the 64-bit
/// limit: the tick's milliseconds times the rate, plus the carry.
pub open spec fn scaled_progress(item: BuildQueueItem, tick_ms: u32, rate_ppm: u64) -> int {
    let p: int = if tick_ms * rate_ppm > u64::MAX {
        u64::MAX as int
    } else {
        tick_ms * rate_ppm
    };
    if p + item.progress_carry > u64::MAX {
        u64::MAX as int
    } else {
        p + item.progress_carry
    }
}

/// `item` after one tick of `tick_ms` at `rate_ppm`: whole frames of
/// progress (taken as a 32-bit number) come off the remaining frames, the
/// rest is carried; an item that reaches zero keeps no carry. An item with
/// nothing left, or a tick of no time, is unchanged.
pub open spec fn advanced_item(item: BuildQueueItem, tick_ms: u32, rate_ppm: u64) -> BuildQueueItem {
    if item.remaining_base_frames == 0 || tick_ms == 0 {
        item
    } else {
        let sp = scaled_progress(item, tick_ms, rate_ppm);
        let frames = (sp / frame_scale()) as u32;
        if frames >= item.remaining_base_frames {
            BuildQueueItem { remaining_base_frames: 0, progress_carry: 0, ..item }
        } else {
            BuildQueueItem {
                remaining_base_frames: (item.remaining_base_frames - frames) as u32,
                progress_carry: (sp % frame_scale()) as u64,
                ..item
            }
        }
    }
}

/// Advance a queue item by one tick of `tick_ms` milliseconds at `rate_ppm`
/// parts per million of full speed.
pub fn advance_queue_item(item: &mut BuildQueueItem, tick_ms: u32, rate_ppm: u64)
    ensures
        *final(item) == advanced_item(*old(item), tick_ms, rate_ppm),
{
    if item.remaining_base_frames == 0 || tick_ms == 0 {
        return;
    }
    let frame_scale: u64 = RA2_QUEUE_FRAME_MS * PRODUCTION_RATE_SCALE;
    assert(tick_ms * rate_ppm <= 0xffff_ffff * 0xffff_ffff_ffff_ffff) by (nonlinear_arith);
    let prod: u128 = (tick_ms as u128) * (rate_ppm as u128);
    let p: u64 = if prod > 0xffff_ffff_ffff_ffff {
        0xffff_ffff_ffff_ffff
    } else {
        prod as u64
    };
    let scaled: u64 = p.saturating_add(item.progress_carry);
    #[verifier::truncate]
    let frames: u32 = (scaled / frame_scale) as u32;
    item.progress_carry = scaled % frame_scale;
    if frames >= item.remaining_base_frames {
        item.remaining_base_frames = 0;
        item.progress_carry = 0;
    } else {
        item.remaining_base_frames = item.remaining_base_frames - frames;
    }
}

/// One tick of a queue: states are refreshed; an unpaused front item
/// advances, and when it has no frames left it leaves the queue marked done
/// and the rest of the queue is refreshed again.
pub open spec fn ticked_queue(q: Seq<BuildQueueItem>, tick_ms: u32, rate_ppm: u64) -> (Seq<
    BuildQueueItem,
>, Option<BuildQueueItem>) {
    let r = refreshed_queue(q);
    if r.len() == 0 || r[0].state == BuildQueueState::Paused {
        (r, None)
    } else {
        let f = advanced_item(r[0], tick_ms, rate_ppm);
        if f.remaining_base_frames > 0 {
            (r.update(0, f), None)
        } else {
            (refreshed_queue(r.drop_first()), Some(with_state(f, BuildQueueState::Done)))
        }
    }
}

/// Advance one queue by a tick and return the item it completed, if any.
pub fn advance_queue(queue: &mut VecDeque<BuildQueueItem>, tick_ms: u32, rate_ppm: u64) -> (done:
    Option<BuildQueueItem>)
    ensures
        (final(queue)@, done) == ticked_queue(old(queue)@, tick_ms, rate_ppm),
{
    refresh_queue_states(queue);
    let ghost r = queue@;
    let mut front: BuildQueueItem = match queue.pop_front() {
        Some(f) => f,
        None => {
            return None;
        },
    };
    if front.state == BuildQueueState::Paused {
        queue.push_front(front);
        assert(queue@ =~= r);
        return None;
    }
    advance_queue_item(&mut front, tick_ms, rate_ppm);
    if front.remaining_base_frames > 0 {
        queue.push_front(front);
        assert(queue@ =~= r.update(0, front));
        return None;
    }
    front.state = BuildQueueState::Done;
    assert(queue@ =~= r.drop_first());
    refresh_queue_states(queue);
    Some(front)
}

/// Credits of a player who has no account yet.
pub const STARTING_CREDITS: i32 = 5000;

/// Position of a production category in sidebar order.
pub open spec fn category_rank(c: ProductionCategory) -> u8 {
    match c {
        ProductionCategory::Building => 0,
        ProductionCategory::Defense => 1,
        ProductionCategory::Infantry => 2,
        ProductionCategory::Vehicle => 3,
        ProductionCategory::Aircraft => 4,
    }
}

/// Position of a production category in sidebar order.
pub fn category_index(c: ProductionCategory) -> (r: u8)
    ensures
        r == category_rank(c),
{
    match c {
        ProductionCategory::Building => 0,
        ProductionCategory::Defense => 1,
        ProductionCategory::Infantry => 2,
        ProductionCategory::Vehicle => 3,
        ProductionCategory::Aircraft => 4,
    }
}

/// Queue of `owner` in category slot `slot` (empty when there is none).
pub open spec fn slot_queue(m: Map<(u32, u8), Seq<BuildQueueItem>>, owner: u32, slot: u8) -> Seq<
    BuildQueueItem,
> {
    if m.contains_key((owner, slot)) {
        m[(owner, slot)]
    } else {
        Seq::empty()
    }
}

/// `m` with the queue at `k` set to `q`; an empty queue is dropped.
pub open spec fn store_queue(
    m: Map<(u32, u8), Seq<BuildQueueItem>>,
    k: (u32, u8),
    q: Seq<BuildQueueItem>,
) -> Map<(u32, u8), Seq<BuildQueueItem>> {
    if q.len() == 0 {
        m.remove(k)
    } else {
        m.insert(k, q)
    }
}

/// Ready list of `owner` (empty when there is none).
pub open spec fn owner_ready(r: Map<u32, Seq<u32>>, owner: u32) -> Seq<u32> {
    if r.contains_key(owner) {
        r[owner]
    } else {
        Seq::empty()
    }
}

/// Credits of `owner`: `STARTING_CREDITS` when the player has no account.
pub open spec fn credit_of(credits: Map<u32, i32>, owner: u32) -> int {
    if credits.contains_key(owner) {
        credits[owner] as int
    } else {
        STARTING_CREDITS as int
    }
}

/// A refund of type `t`'s cost (negative costs count as 0) to `owner`
/// stays within 32 bits; types without a known cost refund nothing.
pub open spec fn refund_ok(credits: Map<u32, i32>, costs: Map<u32, i32>, owner: u32, t: u32) -> bool {
    costs.contains_key(t) ==> credit_of(credits, owner) + (if costs[t] < 0 {
        0
    } else {
        costs[t] as int
    }) <= i32::MAX
}

/// Credits after refunding type `t`'s cost to `owner`; the account is
/// opened when missing. Types without a known cost refund nothing.
pub open spec fn refunded(credits: Map<u32, i32>, costs: Map<u32, i32>, owner: u32, t: u32) -> Map<
    u32,
    i32,
> {
    if costs.contains_key(t) {
        credits.insert(
            owner,
            (credit_of(credits, owner) + (if costs[t] < 0 {
                0
            } else {
                costs[t] as int
            })) as i32,
        )
    } else {
        credits
    }
}

/// Among the slots from `slot` on, the one whose last item was queued
/// latest, starting from the candidate `best`; of equally late ones the
/// higher slot wins.
pub open spec fn latest_slot_from(
    m: Map<(u32, u8), Seq<BuildQueueItem>>,
    owner: u32,
    slot: int,
    best: Option<u8>,
) -> Option<u8>
    decreases 5 - slot,
{
    if slot >= 5 || slot < 0 {
        best
    } else {
        let q = slot_queue(m, owner, slot as u8);
        let better = q.len() > 0 && match best {
            None => true,
            Some(b) => q.last().enqueue_order >= slot_queue(m, owner, b).last().enqueue_order,
        };
        latest_slot_from(m, owner, slot + 1, if better { Some(slot as u8) } else { best })
    }
}

/// The slot holding the owner's most recently queued item, if any.
pub open spec fn latest_slot(m: Map<(u32, u8), Seq<BuildQueueItem>>, owner: u32) -> Option<u8> {
    latest_slot_from(m, owner, 0, None)
}

/// Index of the last item of type `t` in `q`, or -1.
pub open spec fn last_index_of_type(q: Seq<BuildQueueItem>, t: u32) -> int
    decreases q.len(),
{
    if q.len() == 0 {
        -1
    } else if q.last().type_id == t {
        q.len() - 1
    } else {
        last_index_of_type(q.drop_last(), t)
    }
}

/// Index of the last `t` in `r`, or -1.
pub open spec fn last_index_of(r: Seq<u32>, t: u32) -> int
    decreases r.len(),
{
    if r.len() == 0 {
        -1
    } else if r.last() == t {
        r.len() - 1
    } else {
        last_index_of(r.drop_last(), t)
    }
}

/// The first slot from `slot` on whose queue holds an item of type `t`.
pub open spec fn type_slot_from(
    m: Map<(u32, u8), Seq<BuildQueueItem>>,
    owner: u32,
    t: u32,
    slot: int,
) -> Option<u8>
    decreases 5 - slot,
{
    if slot >= 5 || slot < 0 {
        None
    } else if last_index_of_type(slot_queue(m, owner, slot as u8), t) >= 0 {
        Some(slot as u8)
    } else {
        type_slot_from(m, owner, t, slot + 1)
    }
}

proof fn lemma_last_index_of_type(q: Seq<BuildQueueItem>, t: u32)
    ensures
        -1 <= last_index_of_type(q, t) < q.len(),
        last_index_of_type(q, t) >= 0 ==> q[last_index_of_type(q, t)].type_id == t,
        forall|j: int| last_index_of_type(q, t) < j < q.len() ==> q[j].type_id != t,
    decreases q.len(),
{
    if q.len() > 0 && q.last().type_id != t {
        lemma_last_index_of_type(q.drop_last(), t);
        assert forall|j: int| last_index_of_type(q, t) < j < q.len() implies q[j].type_id != t by {
            if j < q.len() - 1 {
                assert(q.drop_last()[j] == q[j]);
            }
        }
    }
}

proof fn lemma_last_index_of(r: Seq<u32>, t: u32)
    ensures
        -1 <= last_index_of(r, t) < r.len(),
        last_index_of(r, t) >= 0 ==> r[last_index_of(r, t)] == t,
        forall|j: int| last_index_of(r, t) < j < r.len() ==> r[j] != t,
    decreases r.len(),
{
    if r.len() > 0 && r.last() != t {
        lemma_last_index_of(r.drop_last(), t);
        assert forall|j: int| last_index_of(r, t) < j < r.len() implies r[j] != t by {
            if j < r.len() - 1 {
                assert(r.drop_last()[j] == r[j]);
            }
        }
    }
}

/// Index of the last item of type `t` in the queue, if any.
fn find_last_of_type(q: &VecDeque<BuildQueueItem>, t: u32) -> (r: Option<usize>)
    ensures
        match r {
            Some(i) => i == last_index_of_type(q@, t),
            None => last_index_of_type(q@, t) < 0,
        },
{
    let mut i = q.len();
    assert(q@.subrange(0, i as int) =~= q@);
    while i > 0
        invariant
            i <= q@.len(),
            last_index_of_type(q@, t) == last_index_of_type(q@.subrange(0, i as int), t),
        decreases i,
    {
        proof {
            assert(q@.subrange(0, i as int).drop_last() =~= q@.subrange(0, i - 1));
        }
        if q[i - 1].type_id == t {
            return Some(i - 1);
        }
        i = i - 1;
    }
    None
}

/// Index of the last `t` in the list, if any.
fn find_last(r: &VecDeque<u32>, t: u32) -> (res: Option<usize>)
    ensures
        match res {
            Some(i) => i == last_index_of(r@, t),
            None => last_index_of(r@, t) < 0,
        },
{
    let mut i = r.len();
    assert(r@.subrange(0, i as int) =~= r@);
    while i > 0
        invariant
            i <= r@.len(),
            last_index_of(r@, t) == last_index_of(r@.subrange(0, i as int), t),
        decreases i,
    {
        proof {
            assert(r@.subrange(0, i as int).drop_last() =~= r@.subrange(0, i - 1));
        }
        if r[i - 1] == t {
            return Some(i - 1);
        }
        i = i - 1;
    }
    None
}

/// Refund type `t`'s cost to `owner`.
fn refund(credits: &mut BTreeMap<u32, i32>, costs: &BTreeMap<u32, i32>, owner: u32, t: u32)
    requires
        refund_ok(old(credits)@, costs@, owner, t),
    ensures
        final(credits)@ == refunded(old(credits)@, costs@, owner, t),
{
    proof {
        crate::keys::lemma_u32_keys_ordered();
    }
    match costs.get(&t) {
        Some(c) => {
            let add: i32 = if *c < 0 {
                0
            } else {
                *c
            };
            let cur: i32 = match credits.get(&owner) {
                Some(v) => *v,
                None => STARTING_CREDITS,
            };
            credits.insert(owner, cur + add);
        },
        None => {},
    }
}

/// Build queues and completed buildings waiting for placement, for every
/// player. A player's queues are kept by category; an empty queue is never
/// kept.
pub struct ProductionState {
    queues: BTreeMap<(u32, u8), VecDeque<BuildQueueItem>>,
    ready: BTreeMap<u32, VecDeque<u32>>,
    next_enqueue_order: u64,
}

impl ProductionState {
    /// Order number that the next queued item gets.
    pub closed spec fn next_order(&self) -> u64 {
        self.next_enqueue_order
    }

    /// The queues, keyed by owner and category slot.
    pub closed spec fn queue_map(&self) -> Map<(u32, u8), Seq<BuildQueueItem>> {
        Map::new(|k: (u32, u8)| self.queues@.contains_key(k), |k: (u32, u8)| self.queues@[k]@)
    }

    /// The completed buildings waiting for placement, by owner.
    pub closed spec fn ready_map(&self) -> Map<u32, Seq<u32>> {
        Map::new(|o: u32| self.ready@.contains_key(o), |o: u32| self.ready@[o]@)
    }

    /// No queues, nothing ready, and order numbers starting at 1.
    pub fn new() -> (r: Self)
        ensures
            r.queue_map() == Map::<(u32, u8), Seq<BuildQueueItem>>::empty(),
            r.ready_map() == Map::<u32, Seq<u32>>::empty(),
            r.next_order() == 1,
    {
        let r = ProductionState { queues: BTreeMap::new(), ready: BTreeMap::new(), next_enqueue_order: 1 };
        assert(r.queue_map() =~= Map::<(u32, u8), Seq<BuildQueueItem>>::empty());
        assert(r.ready_map() =~= Map::<u32, Seq<u32>>::empty());
        r
    }

    /// Take the queue at `k` out of the map (empty when there is none).
    fn take_queue(&mut self, k: (u32, u8)) -> (q: VecDeque<BuildQueueItem>)
        ensures
            q@ == slot_queue(old(self).queue_map(), k.0, k.1),
            final(self).queue_map() == old(self).queue_map().remove(k),
            final(self).ready_map() == old(self).ready_map(),
            final(self).next_order() == old(self).next_order(),
    {
        proof {
            crate::keys::lemma_owner_slot_keys_ordered();
        }
        let q = match self.queues.remove(&k) {
            Some(q) => q,
            None => VecDeque::new(),
        };
        assert(self.queue_map() =~= old(self).queue_map().remove(k));
        assert(self.ready_map() =~= old(self).ready_map());
        q
    }

    /// The keys of the queues, in some order.
    fn queue_keys(&self) -> (r: Vec<(u32, u8)>)
        ensures
            forall|k: (u32, u8)| #[trigger] self.queue_map().contains_key(k) <==> r@.contains(k),
    {
        proof {
            crate::keys::lemma_owner_slot_keys_ordered();
        }
        broadcast use vstd::std_specs::btree::group_btree_axioms;
        let ghost ks = vstd::std_specs::btree::spec_keys_iter(&self.queues).remaining();
        let mut out: Vec<(u32, u8)> = Vec::new();
        for k in it: self.queues.keys()
            invariant
                it.seq() == ks,
                out@.len() == it.index(),
                forall|i: int| 0 <= i < out@.len() ==> out@[i] == *ks[i],
        {
            out.push(*k);
        }
        proof {
            assert(out@ =~= ks.unref());
            assert forall|k: (u32, u8)| #[trigger] self.queue_map().contains_key(k) <==> out@.contains(k) by {
                assert(self.queues@.dom().contains(k) <==> ks.unref().to_set().contains(k));
            }
        }
        out
    }

    /// Advance the queue at `k` by one tick at `rate_ppm`; returns the item it
    /// completed, if any. An emptied queue is dropped.
    fn advance_slot(&mut self, k: (u32, u8), tick_ms: u32, rate_ppm: u64) -> (done: Option<BuildQueueItem>)
        ensures
            done == ticked_queue(slot_queue(old(self).queue_map(), k.0, k.1), tick_ms, rate_ppm).1,
            final(self).queue_map() == store_queue(
                old(self).queue_map(),
                k,
                ticked_queue(slot_queue(old(self).queue_map(), k.0, k.1), tick_ms, rate_ppm).0,
            ),
            final(self).ready_map() == old(self).ready_map(),
            final(self).next_order() == old(self).next_order(),
    {
        let mut q = self.take_queue(k);
        let done = advance_queue(&mut q, tick_ms, rate_ppm);
        self.put_queue(k, q);
        proof {
            let m0 = old(self).queue_map();
            if q@.len() == 0 {
                assert(m0.remove(k).remove(k) =~= m0.remove(k));
            } else {
                assert(m0.remove(k).insert(k, q@) =~= m0.insert(k, q@));
            }
        }
        done
    }

    /// Put `q` back at `k`, or leave `k` empty when `q` is empty.
    fn put_queue(&mut self, k: (u32, u8), q: VecDeque<BuildQueueItem>)
        ensures
            final(self).queue_map() == store_queue(old(self).queue_map(), k, q@),
            final(self).ready_map() == old(self).ready_map(),
            final(self).next_order() == old(self).next_order(),
    {
        proof {
            crate::keys::lemma_owner_slot_keys_ordered();
        }
        if q.len() == 0 {
            self.queues.remove(&k);
        } else {
            self.queues.insert(k, q);
        }
        assert(self.queue_map() =~= store_queue(old(self).queue_map(), k, q@));
        assert(self.ready_map() =~= old(self).ready_map());
    }

    /// Copy of the queue of `owner` in `category`.
    pub fn queue_items(&self, owner: u32, category: ProductionCategory) -> (r: Vec<BuildQueueItem>)
        ensures
            r@ == slot_queue(self.queue_map(), owner, category_rank(category)),
    {
        proof {
            crate::keys::lemma_owner_slot_keys_ordered();
        }
        let slot = category_index(category);
        let mut out: Vec<BuildQueueItem> = Vec::new();
        match self.queues.get(&(owner, slot)) {
            Some(q) => {
                let mut i: usize = 0;
                while i < q.len()
                    invariant
                        i <= q@.len(),
                        out@ == q@.subrange(0, i as int),
                    decreases q@.len() - i,
                {
                    out.push(q[i]);
                    proof {
                        assert(out@ =~= q@.subrange(0, i + 1));
                    }
                    i = i + 1;
                }
                assert(out@ =~= q@);
            },
            None => {
                assert(out@ =~= Seq::<BuildQueueItem>::empty());
            },
        }
        out
    }

    /// Copy of the completed buildings of `owner` waiting for placement.
    pub fn ready_items(&self, owner: u32) -> (r: Vec<u32>)
        ensures
            r@ == owner_ready(self.ready_map(), owner),
    {
        proof {
            crate::keys::lemma_u32_keys_ordered();
        }
        let mut out: Vec<u32> = Vec::new();
        match self.ready.get(&owner) {
            Some(q) => {
                let mut i: usize = 0;
                while i < q.len()
                    invariant
                        i <= q@.len(),
                        out@ == q@.subrange(0, i as int),
                    decreases q@.len() - i,
                {
                    out.push(q[i]);
                    proof {
                        assert(out@ =~= q@.subrange(0, i + 1));
                    }
                    i = i + 1;
                }
                assert(out@ =~= q@);
            },
            None => {
                assert(out@ =~= Seq::<u32>::empty());
            },
        }
        out
    }

    /// Queue a new item of `type_id` for `owner` in `category` with
    /// `total_base_frames` frames to build, and return its order number;
    /// the order counter advances (saturating) and the queue's states are
    /// refreshed.
    pub fn enqueue_item(
        &mut self,
        owner: u32,
        type_id: u32,
        category: ProductionCategory,
        total_base_frames: u32,
    ) -> (order: u64)
        ensures
            order == old(self).next_order(),
            final(self).next_order() == if old(self).next_order() == u64::MAX {
                u64::MAX
            } else {
                (old(self).next_order() + 1) as u64
            },
            final(self).queue_map() == old(self).queue_map().insert(
                (owner, category_rank(category)),
                refreshed_queue(
                    slot_queue(old(self).queue_map(), owner, category_rank(category)).push(
                        BuildQueueItem {
                            owner,
                            type_id,
                            queue_category: category,
                            state: BuildQueueState::Queued,
                            total_base_frames,
                            remaining_base_frames: total_base_frames,
                            progress_carry: 0,
                            enqueue_order: order,
                        },
                    ),
                ),
            ),
            final(self).ready_map() == old(self).ready_map(),
    {
        let order = self.next_enqueue_order;
        self.next_enqueue_order = self.next_enqueue_order.saturating_add(1);
        let slot = category_index(category);
        let mut q = self.take_queue((owner, slot));
        q.push_back(
            BuildQueueItem {
                owner,
                type_id,
                queue_category: category,
                state: BuildQueueState::Queued,
                total_base_frames,
                remaining_base_frames: total_base_frames,
                progress_carry: 0,
                enqueue_order: order,
            },
        );
        refresh_queue_states(&mut q);
        self.put_queue((owner, slot), q);
        proof {
            assert(q@.len() > 0);
            assert(self.queue_map() =~= old(self).queue_map().insert(
                (owner, category_rank(category)),
                q@,
            ));
        }
        order
    }

    /// Advance `owner`'s queue in `category` by one tick at `rate_ppm` and
    /// return the item it completed, if any; an emptied queue is dropped.
    pub fn advance_category(
        &mut self,
        owner: u32,
        category: ProductionCategory,
        tick_ms: u32,
        rate_ppm: u64,
    ) -> (done: Option<BuildQueueItem>)
        ensures
            done == ticked_queue(
                slot_queue(old(self).queue_map(), owner, category_rank(category)),
                tick_ms,
                rate_ppm,
            ).1,
            final(self).queue_map() == store_queue(
                old(self).queue_map(),
                (owner, category_rank(category)),
                ticked_queue(
                    slot_queue(old(self).queue_map(), owner, category_rank(category)),
                    tick_ms,
                    rate_ppm,
                ).0,
            ),
            final(self).ready_map() == old(self).ready_map(),
            final(self).next_order() == old(self).next_order(),
    {
        let slot = category_index(category);
        let mut q = self.take_queue((owner, slot));
        let done = advance_queue(&mut q, tick_ms, rate_ppm);
        self.put_queue((owner, slot), q);
        proof {
            let k = (owner, slot);
            let m0 = old(self).queue_map();
            if q@.len() == 0 {
                assert(m0.remove(k).remove(k) =~= m0.remove(k));
            } else {
                assert(m0.remove(k).insert(k, q@) =~= m0.insert(k, q@));
            }
        }
        done
    }

    /// Add a completed building of `type_id` to `owner`'s ready list.
    pub fn push_ready(&mut self, owner: u32, type_id: u32)
        ensures
            final(self).ready_map() == old(self).ready_map().insert(
                owner,
                owner_ready(old(self).ready_map(), owner).push(type_id),
            ),
            final(self).queue_map() == old(self).queue_map(),
            final(self).next_order() == old(self).next_order(),
    {
        proof {
            crate::keys::lemma_u32_keys_ordered();
        }
        let mut r = match self.ready.remove(&owner) {
            Some(r) => r,
            None => VecDeque::new(),
        };
        r.push_back(type_id);
        self.ready.insert(owner, r);
        assert(self.ready_map() =~= old(self).ready_map().insert(
            owner,
            owner_ready(old(self).ready_map(), owner).push(type_id),
        ));
        assert(self.queue_map() =~= old(self).queue_map());
    }
}

/// The ready lists with `owner`'s list set to `r`; an empty list is dropped.
pub open spec fn store_ready(m: Map<u32, Seq<u32>>, owner: u32, r: Seq<u32>) -> Map<u32, Seq<u32>> {
    if r.len() == 0 {
        m.remove(owner)
    } else {
        m.insert(owner, r)
    }
}

impl ProductionState {
    /// The slot and order number of the owner's latest queued item.
    fn find_latest_slot(&self, owner: u32) -> (r: Option<u8>)
        ensures
            r == latest_slot(self.queue_map(), owner),
            r matches Some(s) ==> s < 5 && slot_queue(self.queue_map(), owner, s).len() > 0,
    {
        proof {
            crate::keys::lemma_owner_slot_keys_ordered();
        }
        let ghost m = self.queue_map();
        let mut best: Option<u8> = None;
        let mut best_order: u64 = 0;
        let mut slot: u8 = 0;
        while slot < 5
            invariant
                m == self.queue_map(),
                slot <= 5,
                latest_slot_from(m, owner, slot as int, best) == latest_slot(m, owner),
                best matches Some(b) ==> b < slot && slot_queue(m, owner, b).len() > 0
                    && best_order == slot_queue(m, owner, b).last().enqueue_order,
            decreases 5 - slot,
        {
            match self.queues.get(&(owner, slot)) {
                Some(q) => {
                    if q.len() > 0 {
                        let order = q[q.len() - 1].enqueue_order;
                        let better = match best {
                            None => true,
                            Some(_) => order >= best_order,
                        };
                        if better {
                            best = Some(slot);
                            best_order = order;
                        }
                    }
                },
                None => {},
            }
            slot = slot + 1;
        }
        best
    }

    /// The first category slot whose queue holds an item of type `t`.
    fn find_type_slot(&self, owner: u32, t: u32) -> (r: Option<(u8, usize)>)
        ensures
            match r {
                Some((s, i)) => type_slot_from(self.queue_map(), owner, t, 0) == Some(s) && i
                    == last_index_of_type(slot_queue(self.queue_map(), owner, s), t),
                None => type_slot_from(self.queue_map(), owner, t, 0) is None,
            },
    {
        proof {
            crate::keys::lemma_owner_slot_keys_ordered();
        }
        let ghost m = self.queue_map();
        let mut slot: u8 = 0;
        while slot < 5
            invariant
                m == self.queue_map(),
                slot <= 5,
                type_slot_from(m, owner, t, slot as int) == type_slot_from(m, owner, t, 0),
            decreases 5 - slot,
        {
            let found = match self.queues.get(&(owner, slot)) {
                Some(q) => find_last_of_type(q, t),
                None => {
                    assert(last_index_of_type(Seq::<BuildQueueItem>::empty(), t) == -1);
                    None
                },
            };
            if let Some(i) = found {
                return Some((slot, i));
            }
            slot = slot + 1;
        }
        None
    }

    /// Cancel the last completed building of `type_id` awaiting placement
    /// for `owner`, refunding its full cost.
    fn cancel_ready_by_type_for_owner(
        &mut self,
        costs: &BTreeMap<u32, i32>,
        credits: &mut BTreeMap<u32, i32>,
        owner: u32,
        type_id: u32,
    ) -> (cancelled: bool)
        requires
            last_index_of(owner_ready(old(self).ready_map(), owner), type_id) >= 0 ==> refund_ok(
                old(credits)@,
                costs@,
                owner,
                type_id,
            ),
        ensures
            final(self).next_order() == old(self).next_order(),
            final(self).queue_map() == old(self).queue_map(),
            ({
                let rd = owner_ready(old(self).ready_map(), owner);
                let i = last_index_of(rd, type_id);
                &&& cancelled == (i >= 0)
                &&& i >= 0 ==> final(self).ready_map() == store_ready(
                    old(self).ready_map(),
                    owner,
                    rd.remove(i),
                )
                &&& i >= 0 ==> final(credits)@ == refunded(old(credits)@, costs@, owner, type_id)
                &&& i < 0 ==> final(self).ready_map() == old(self).ready_map()
                &&& i < 0 ==> final(credits)@ == old(credits)@
            }),
    {
        proof {
            crate::keys::lemma_u32_keys_ordered();
        }
        let ghost rm = self.ready_map();
        let mut r = match self.ready.remove(&owner) {
            Some(r) => r,
            None => {
                assert(self.ready_map() =~= rm);
                assert(self.queue_map() =~= old(self).queue_map());
                assert(owner_ready(rm, owner) =~= Seq::<u32>::empty());
                return false;
            },
        };
        assert(r@ == owner_ready(rm, owner));
        let idx = match find_last(&r, type_id) {
            Some(i) => i,
            None => {
                self.ready.insert(owner, r);
                assert(self.ready_map() =~= rm);
                assert(self.queue_map() =~= old(self).queue_map());
                return false;
            },
        };
        proof {
            lemma_last_index_of(r@, type_id);
        }
        let _removed = r.remove(idx);
        let ghost rest = r@;
        if r.len() > 0 {
            self.ready.insert(owner, r);
        }
        assert(self.ready_map() =~= store_ready(rm, owner, rest));
        assert(self.queue_map() =~= old(self).queue_map());
        refund(credits, costs, owner, type_id);
        true
    }
}

/// Cancel `owner`'s most recently queued item, across all categories,
/// and refund its type's full cost from `costs` into `credits` (an
/// account is opened with `STARTING_CREDITS` when missing). Returns
/// whether there was an item to cancel.
pub fn cancel_last_for_owner(
    production: &mut ProductionState,
    costs: &BTreeMap<u32, i32>,
    credits: &mut BTreeMap<u32, i32>,
    owner: u32,
) -> (cancelled: bool)
    requires
        latest_slot(old(production).queue_map(), owner) matches Some(s) ==> refund_ok(
            old(credits)@,
            costs@,
            owner,
            slot_queue(old(production).queue_map(), owner, s).last().type_id,
        ),
    ensures
        final(production).ready_map() == old(production).ready_map(),
        final(production).next_order() == old(production).next_order(),
        match latest_slot(old(production).queue_map(), owner) {
            None => {
                &&& !cancelled
                &&& final(production).queue_map() == old(production).queue_map()
                &&& final(credits)@ == old(credits)@
            },
            Some(s) => {
                &&& cancelled
                &&& final(production).queue_map() == store_queue(
                    old(production).queue_map(),
                    (owner, s),
                    refreshed_queue(slot_queue(old(production).queue_map(), owner, s).drop_last()),
                )
                &&& final(credits)@ == refunded(
                    old(credits)@,
                    costs@,
                    owner,
                    slot_queue(old(production).queue_map(), owner, s).last().type_id,
                )
            },
        },
{
    let slot = match production.find_latest_slot(owner) {
        Some(s) => s,
        None => return false,
    };
    let ghost m = production.queue_map();
    let mut q = production.take_queue((owner, slot));
    let item = match q.pop_back() {
        Some(it) => it,
        None => {
            assert(false);
            return false;
        },
    };
    assert(q@ =~= slot_queue(m, owner, slot).drop_last());
    refresh_queue_states(&mut q);
    production.put_queue((owner, slot), q);
    proof {
        let k = (owner, slot);
        if q@.len() == 0 {
            assert(m.remove(k).remove(k) =~= m.remove(k));
        } else {
            assert(m.remove(k).insert(k, q@) =~= m.insert(k, q@));
        }
    }
    refund(credits, costs, owner, item.type_id);
    true
}

/// Cancel the last queued item of `type_id` for `owner` (from the first
/// category, in sidebar order, that queues that type), or else the last
/// completed building of that type awaiting placement, and refund the
/// type's full cost from `costs` into `credits`. Returns whether an item
/// was cancelled.
pub fn cancel_by_type_for_owner(
    production: &mut ProductionState,
    costs: &BTreeMap<u32, i32>,
    credits: &mut BTreeMap<u32, i32>,
    owner: u32,
    type_id: u32,
) -> (cancelled: bool)
    requires
        type_slot_from(old(production).queue_map(), owner, type_id, 0) is Some || last_index_of(
            owner_ready(old(production).ready_map(), owner),
            type_id,
        ) >= 0 ==> refund_ok(old(credits)@, costs@, owner, type_id),
    ensures
        final(production).next_order() == old(production).next_order(),
        match type_slot_from(old(production).queue_map(), owner, type_id, 0) {
            Some(s) => {
                &&& cancelled
                &&& final(production).queue_map() == store_queue(
                    old(production).queue_map(),
                    (owner, s),
                    refreshed_queue(
                        slot_queue(old(production).queue_map(), owner, s).remove(
                            last_index_of_type(
                                slot_queue(old(production).queue_map(), owner, s),
                                type_id,
                            ),
                        ),
                    ),
                )
                &&& final(production).ready_map() == old(production).ready_map()
                &&& final(credits)@ == refunded(old(credits)@, costs@, owner, type_id)
            },
            None => {
                let rd = owner_ready(old(production).ready_map(), owner);
                let i = last_index_of(rd, type_id);
                &&& final(production).queue_map() == old(production).queue_map()
                &&& cancelled == (i >= 0)
                &&& i >= 0 ==> final(production).ready_map() == store_ready(
                    old(production).ready_map(),
                    owner,
                    rd.remove(i),
                )
                &&& i >= 0 ==> final(credits)@ == refunded(
                    old(credits)@,
                    costs@,
                    owner,
                    type_id,
                )
                &&& i < 0 ==> final(production).ready_map() == old(production).ready_map()
                &&& i < 0 ==> final(credits)@ == old(credits)@
            },
        },
{
    proof {
        crate::keys::lemma_u32_keys_ordered();
    }
    let ghost m = production.queue_map();
    match production.find_type_slot(owner, type_id) {
        Some((slot, idx)) => {
            proof {
                lemma_last_index_of_type(slot_queue(m, owner, slot), type_id);
            }
            let mut q = production.take_queue((owner, slot));
            let _removed = q.remove(idx);
            refresh_queue_states(&mut q);
            production.put_queue((owner, slot), q);
            proof {
                let k = (owner, slot);
                if q@.len() == 0 {
                    assert(m.remove(k).remove(k) =~= m.remove(k));
                } else {
                    assert(m.remove(k).insert(k, q@) =~= m.insert(k, q@));
                }
            }
            refund(credits, costs, owner, type_id);
            true
        },
        None => production.cancel_ready_by_type_for_owner(costs, credits, owner, type_id),
    }
}

/// Every stored queue is non-empty and each item shows the state of its
/// position.
pub open spec fn queues_consistent(m: Map<(u32, u8), Seq<BuildQueueItem>>) -> bool {
    forall|k: (u32, u8)|
        #![trigger m[k]]
        m.contains_key(k) ==> m[k].len() > 0 && refreshed_queue(m[k]) == m[k]
}

/// Every stored item was queued with an order number below `next`.
pub open spec fn orders_below(m: Map<(u32, u8), Seq<BuildQueueItem>>, next: u64) -> bool {
    forall|k: (u32, u8), i: int|
        m.contains_key(k) && 0 <= i < m[k].len() ==> #[trigger] m[k][i].enqueue_order < next
}

/// The item `enqueue_item` adds.
pub open spec fn new_queue_item(
    owner: u32,
    type_id: u32,
    category: ProductionCategory,
    total_base_frames: u32,
    order: u64,
) -> BuildQueueItem {
    BuildQueueItem {
        owner,
        type_id,
        queue_category: category,
        state: BuildQueueState::Queued,
        total_base_frames,
        remaining_base_frames: total_base_frames,
        progress_carry: 0,
        enqueue_order: order,
    }
}

proof fn lemma_refresh_idempotent(q: Seq<BuildQueueItem>)
    ensures
        refreshed_queue(refreshed_queue(q)) == refreshed_queue(q),
{
    assert(refreshed_queue(refreshed_queue(q)) =~= refreshed_queue(q));
}

proof fn lemma_refresh_push_drop(q: Seq<BuildQueueItem>, x: BuildQueueItem)
    ensures
        refreshed_queue(q.push(x)).drop_last() == refreshed_queue(q),
{
    assert(refreshed_queue(q.push(x)).drop_last() =~= refreshed_queue(q));
}

/// Slots from `slot` on, up to and including `target`, whose last item is
/// queued before `next`, while the target's last item has order `next`:
/// the search ends at the target.
proof fn lemma_latest_reaches_target(
    m: Map<(u32, u8), Seq<BuildQueueItem>>,
    owner: u32,
    target: u8,
    next: u64,
    slot: int,
    best: Option<u8>,
)
    requires
        0 <= slot <= target < 5,
        orders_below(m.remove((owner, target)), next),
        slot_queue(m, owner, target).len() > 0,
        slot_queue(m, owner, target).last().enqueue_order == next,
        best matches Some(b) ==> b < slot && slot_queue(m, owner, b).len() > 0
            && slot_queue(m, owner, b).last().enqueue_order < next,
    ensures
        latest_slot_from(m, owner, slot, best) == latest_slot_from(m, owner, target + 1, Some(target)),
    decreases target - slot,
{
    let q = slot_queue(m, owner, slot as u8);
    let better = q.len() > 0 && match best {
        None => true,
        Some(b) => q.last().enqueue_order >= slot_queue(m, owner, b).last().enqueue_order,
    };
    let nb = if better {
        Some(slot as u8)
    } else {
        best
    };
    if slot < target {
        if q.len() > 0 {
            let k = (owner, slot as u8);
            assert(m.remove((owner, target)).contains_key(k));
            assert(m.remove((owner, target))[k][q.len() - 1].enqueue_order < next);
        }
        lemma_latest_reaches_target(m, owner, target, next, slot + 1, nb);
    } else {
        match best {
            Some(b) => {},
            None => {},
        }
    }
}

/// After the target slot, no slot whose last item is queued before `next`
/// displaces the target.
proof fn lemma_latest_keeps_target(
    m: Map<(u32, u8), Seq<BuildQueueItem>>,
    owner: u32,
    target: u8,
    next: u64,
    slot: int,
)
    requires
        target < slot <= 5,
        target < 5,
        orders_below(m.remove((owner, target)), next),
        slot_queue(m, owner, target).len() > 0,
        slot_queue(m, owner, target).last().enqueue_order == next,
    ensures
        latest_slot_from(m, owner, slot, Some(target)) == Some(target),
    decreases 5 - slot,
{
    if slot < 5 {
        let q = slot_queue(m, owner, slot as u8);
        if q.len() > 0 {
            let k = (owner, slot as u8);
            assert(m.remove((owner, target)).contains_key(k));
            assert(m.remove((owner, target))[k][q.len() - 1].enqueue_order < next);
        }
        lemma_latest_keeps_target(m, owner, target, next, slot + 1);
    }
}

/// `last_index_of_type` finds an item of the type, and misses only when
/// none is there.
proof fn lemma_last_index_of_type_found(q: Seq<BuildQueueItem>, t: u32)
    ensures
        last_index_of_type(q, t) < q.len(),
        last_index_of_type(q, t) >= 0 ==> q[last_index_of_type(q, t)].type_id == t,
        last_index_of_type(q, t) < 0 <==> forall|i: int| 0 <= i < q.len() ==> #[trigger] q[i].type_id != t,
        last_index_of_type(q, t) >= -1,
    decreases q.len(),
{
    if q.len() > 0 {
        lemma_last_index_of_type_found(q.drop_last(), t);
        if q.last().type_id != t {
            assert forall|i: int| 0 <= i < q.len() - 1 implies #[trigger] q[i].type_id == q.drop_last()[i].type_id by {
            }
        }
    }
}

/// After the queue of `s` lost its only item of type `t`, and no other
/// queue of the owner holds one, no slot from `slot` on holds one.
proof fn lemma_no_type_slot(m: Map<(u32, u8), Seq<BuildQueueItem>>, owner: u32, t: u32, slot: int)
    requires
        0 <= slot <= 5,
        forall|s2: u8, i: int|
            slot <= s2 < 5 && 0 <= i < slot_queue(m, owner, s2).len() ==> #[trigger] slot_queue(m, owner, s2)[i].type_id != t,
    ensures
        type_slot_from(m, owner, t, slot) is None,
    decreases 5 - slot,
{
    if slot < 5 {
        lemma_last_index_of_type_found(slot_queue(m, owner, slot as u8), t);
        lemma_no_type_slot(m, owner, t, slot + 1);
    }
}

/// Calling `cancel_by_type_for_owner` twice for a type that is queued once
/// (in slot `s`) and also waits ready for placement: the first call takes
/// the queued item (slot `s` is the first that queues the type) and leaves
/// the ready list alone; after it no slot queues the type, so the second
/// call takes the ready item; each refunds the type's cost, twice the cost
/// in all.
pub proof fn law_cancel_by_type_twice_takes_queue_then_ready(
    m: Map<(u32, u8), Seq<BuildQueueItem>>,
    r: Map<u32, Seq<u32>>,
    c: Map<u32, i32>,
    costs: Map<u32, i32>,
    owner: u32,
    t: u32,
    s: u8,
)
    requires
        s < 5,
        last_index_of_type(slot_queue(m, owner, s), t) >= 0,
        forall|i: int|
            0 <= i < slot_queue(m, owner, s).len() && #[trigger] slot_queue(m, owner, s)[i].type_id == t ==> i
                == last_index_of_type(slot_queue(m, owner, s), t),
        forall|s2: u8, i: int|
            s2 < 5 && s2 != s && 0 <= i < slot_queue(m, owner, s2).len() ==> #[trigger] slot_queue(m, owner, s2)[i].type_id
                != t,
        last_index_of(owner_ready(r, owner), t) >= 0,
    ensures
        ({
            let q = slot_queue(m, owner, s);
            let m1 = store_queue(m, (owner, s), refreshed_queue(q.remove(last_index_of_type(q, t))));
            &&& type_slot_from(m, owner, t, 0) == Some(s)
            &&& type_slot_from(m1, owner, t, 0) is None
            &&& last_index_of(owner_ready(r, owner), t) >= 0
        }),
        costs.contains_key(t) && credit_of(c, owner) + 2 * (if costs[t] < 0 {
            0
        } else {
            costs[t] as int
        }) <= i32::MAX ==> credit_of(refunded(refunded(c, costs, owner, t), costs, owner, t), owner) == credit_of(c, owner)
            + 2 * (if costs[t] < 0 {
            0
        } else {
            costs[t] as int
        }),
{
    let q = slot_queue(m, owner, s);
    let idx = last_index_of_type(q, t);
    let nq = refreshed_queue(q.remove(idx));
    let m1 = store_queue(m, (owner, s), nq);
    lemma_last_index_of_type_found(q, t);
    assert forall|s2: u8| 0 <= s2 < s implies last_index_of_type(#[trigger] slot_queue(m, owner, s2), t) < 0 by {
        lemma_last_index_of_type_found(slot_queue(m, owner, s2), t);
        assert forall|i: int| 0 <= i < slot_queue(m, owner, s2).len() implies #[trigger] slot_queue(
            m,
            owner,
            s2,
        )[i].type_id != t by {
            assert(slot_queue(m, owner, s2)[i].type_id != t);
        }
    }
    lemma_type_slot_reaches(m, owner, t, s, 0);
    assert forall|s2: u8, i: int|
        0 <= s2 < 5 && 0 <= i < slot_queue(m1, owner, s2).len() implies #[trigger] slot_queue(m1, owner, s2)[i].type_id != t by {
        if s2 == s {
            assert(slot_queue(m1, owner, s) == nq);
            assert(nq[i].type_id == q.remove(idx)[i].type_id);
            if i < idx {
                assert(q.remove(idx)[i] == q[i]);
            } else {
                assert(q.remove(idx)[i] == q[i + 1]);
            }
        } else {
            assert(slot_queue(m1, owner, s2) == slot_queue(m, owner, s2));
        }
    }
    lemma_no_type_slot(m1, owner, t, 0);
}

/// `type_slot_from` passes over slots without the type and stops at `s`.
proof fn lemma_type_slot_reaches(m: Map<(u32, u8), Seq<BuildQueueItem>>, owner: u32, t: u32, s: u8, slot: int)
    requires
        0 <= slot <= s,
        s < 5,
        last_index_of_type(slot_queue(m, owner, s), t) >= 0,
        forall|s2: u8| slot <= s2 < s ==> last_index_of_type(#[trigger] slot_queue(m, owner, s2), t) < 0,
    ensures
        type_slot_from(m, owner, t, slot) == Some(s),
    decreases s - slot,
{
    if slot < s {
        assert(last_index_of_type(slot_queue(m, owner, slot as u8), t) < 0);
        lemma_type_slot_reaches(m, owner, t, s, slot + 1);
    }
}

/// Cancelling the last item right after queueing one gives back the queues
/// as they were: the new item is the owner's latest, and removing it leaves
/// the other items as before (for queues that are consistent and hold only
/// items queued before the new one).
pub proof fn law_cancel_last_undoes_enqueue(
    m: Map<(u32, u8), Seq<BuildQueueItem>>,
    next: u64,
    owner: u32,
    type_id: u32,
    category: ProductionCategory,
    total_base_frames: u32,
)
    requires
        queues_consistent(m),
        orders_below(m, next),
    ensures
        ({
            let k = (owner, category_rank(category));
            let m1 = m.insert(
                k,
                refreshed_queue(
                    slot_queue(m, owner, category_rank(category)).push(
                        new_queue_item(owner, type_id, category, total_base_frames, next),
                    ),
                ),
            );
            &&& latest_slot(m1, owner) == Some(category_rank(category))
            &&& slot_queue(m1, owner, category_rank(category)).last().type_id == type_id
            &&& slot_queue(m1, owner, category_rank(category)).last().enqueue_order == next
            &&& store_queue(
                m1,
                k,
                refreshed_queue(slot_queue(m1, owner, category_rank(category)).drop_last()),
            ) == m
        }),
{
    let r = category_rank(category);
    let k = (owner, r);
    let x = new_queue_item(owner, type_id, category, total_base_frames, next);
    let q = slot_queue(m, owner, r);
    let nq = refreshed_queue(q.push(x));
    let m1 = m.insert(k, nq);
    assert(nq.last().enqueue_order == next && nq.last().type_id == type_id);
    assert(orders_below(m1.remove(k), next)) by {
        assert(m1.remove(k) =~= m.remove(k));
        assert forall|k2: (u32, u8), i: int|
            m1.remove(k).contains_key(k2) && 0 <= i < m1.remove(k)[k2].len() implies #[trigger] m1.remove(
            k,
        )[k2][i].enqueue_order < next by {
            assert(m.contains_key(k2));
            assert(m[k2][i].enqueue_order < next);
        }
    }
    lemma_latest_reaches_target(m1, owner, r, next, 0, None);
    lemma_latest_keeps_target(m1, owner, r, next, r + 1);
    lemma_refresh_push_drop(q, x);
    lemma_refresh_idempotent(q);
    if m.contains_key(k) {
        assert(refreshed_queue(m[k]) == m[k]);
        assert(m1.insert(k, refreshed_queue(refreshed_queue(q))) =~= m);
    } else {
        assert(refreshed_queue(Seq::<BuildQueueItem>::empty()) =~= Seq::<BuildQueueItem>::empty());
        assert(m1.remove(k) =~= m);
    }
}

/// Each queue operation keeps the queues consistent: queueing an item,
/// advancing a category by a tick, and cancelling the latest item.
pub proof fn law_queue_operations_keep_consistency(
    m: Map<(u32, u8), Seq<BuildQueueItem>>,
    owner: u32,
    category: ProductionCategory,
    item: BuildQueueItem,
    tick_ms: u32,
    rate_ppm: u64,
)
    requires
        queues_consistent(m),
    ensures
        queues_consistent(
            m.insert(
                (owner, category_rank(category)),
                refreshed_queue(slot_queue(m, owner, category_rank(category)).push(item)),
            ),
        ),
        queues_consistent(
            store_queue(
                m,
                (owner, category_rank(category)),
                ticked_queue(slot_queue(m, owner, category_rank(category)), tick_ms, rate_ppm).0,
            ),
        ),
        latest_slot(m, owner) matches Some(s) ==> queues_consistent(
            store_queue(m, (owner, s), refreshed_queue(slot_queue(m, owner, s).drop_last())),
        ),
{
    let k = (owner, category_rank(category));
    let q = slot_queue(m, owner, category_rank(category));
    lemma_refresh_idempotent(q.push(item));
    let m1 = m.insert(k, refreshed_queue(q.push(item)));
    assert forall|k2: (u32, u8)| #![trigger m1[k2]] m1.contains_key(k2) implies m1[k2].len() > 0
        && refreshed_queue(m1[k2]) == m1[k2] by {
        if k2 != k {
            assert(m[k2] == m1[k2]);
        }
    }
    let t = ticked_queue(q, tick_ms, rate_ppm).0;
    let rq = refreshed_queue(q);
    lemma_refresh_idempotent(q);
    if !(rq.len() == 0 || rq[0].state == BuildQueueState::Paused) {
        let f = advanced_item(rq[0], tick_ms, rate_ppm);
        if f.remaining_base_frames > 0 {
            assert(refreshed_queue(rq.update(0, f)) =~= rq.update(0, f));
        } else {
            lemma_refresh_idempotent(rq.drop_first());
        }
    }
    assert(refreshed_queue(t) == t);
    let m2 = store_queue(m, k, t);
    assert forall|k2: (u32, u8)| #![trigger m2[k2]] m2.contains_key(k2) implies m2[k2].len() > 0
        && refreshed_queue(m2[k2]) == m2[k2] by {
        if k2 != k {
            assert(m[k2] == m2[k2]);
        }
    }
    match latest_slot(m, owner) {
        Some(s) => {
            let ks = (owner, s);
            let d = refreshed_queue(slot_queue(m, owner, s).drop_last());
            lemma_refresh_idempotent(slot_queue(m, owner, s).drop_last());
            let m3 = store_queue(m, ks, d);
            assert forall|k2: (u32, u8)| #![trigger m3[k2]] m3.contains_key(k2) implies m3[k2].len()
                > 0 && refreshed_queue(m3[k2]) == m3[k2] by {
                if k2 != ks {
                    assert(m[k2] == m3[k2]);
                }
            }
        },
        None => {},
    }
}

/// Owner-and-slot key `a` comes before `b`: by owner, then by slot.
pub open spec fn key_before(a: (u32, u8), b: (u32, u8)) -> bool {
    a.0 < b.0 || (a.0 == b.0 && a.1 < b.1)
}

/// Keys in strictly increasing order.
pub open spec fn keys_sorted(s: Seq<(u32, u8)>) -> bool {
    forall|i: int, j: int| 0 <= i < j < s.len() ==> key_before(#[trigger] s[i], #[trigger] s[j])
}

/// Insert `k` into the sorted keys `v` unless it is there already.
fn insert_key(v: &mut Vec<(u32, u8)>, k: (u32, u8))
    requires
        keys_sorted(old(v)@),
    ensures
        keys_sorted(final(v)@),
        forall|x: (u32, u8)| #[trigger] final(v)@.contains(x) <==> old(v)@.contains(x) || x == k,
{
    let mut p: usize = 0;
    while p < v.len() && (v[p].0 < k.0 || (v[p].0 == k.0 && v[p].1 < k.1))
        invariant
            p <= v@.len(),
            v@ == old(v)@,
            keys_sorted(v@),
            forall|i: int| 0 <= i < p ==> key_before(#[trigger] v@[i], k),
        decreases v@.len() - p,
    {
        p = p + 1;
    }
    if p < v.len() && v[p].0 == k.0 && v[p].1 == k.1 {
        proof {
            assert(v@[p as int] == k);
        }
        return;
    }
    let ghost before = v@;
    v.insert(p, k);
    proof {
        assert forall|i: int, j: int| 0 <= i < j < v@.len() implies key_before(#[trigger] v@[i], #[trigger] v@[j]) by {
            if j < p {
                assert(v@[i] == before[i] && v@[j] == before[j]);
            } else if j == p {
                assert(v@[i] == before[i]);
            } else if i < p {
                assert(v@[i] == before[i] && v@[j] == before[j - 1]);
                assert(key_before(before[i], k));
                assert(!key_before(before[p as int], k));
            } else if i == p {
                assert(v@[j] == before[j - 1]);
                assert(!key_before(before[p as int], k));
            } else {
                assert(v@[i] == before[i - 1] && v@[j] == before[j - 1]);
            }
        }
        assert forall|x: (u32, u8)| #[trigger] v@.contains(x) <==> before.contains(x) || x == k by {
            if v@.contains(x) {
                let i = choose|i: int| 0 <= i < v@.len() && v@[i] == x;
                if i < p {
                    assert(before[i] == x);
                } else if i > p {
                    assert(before[i - 1] == x);
                }
            }
            if before.contains(x) {
                let i = choose|i: int| 0 <= i < before.len() && before[i] == x;
                if i < p {
                    assert(v@[i] == x);
                } else {
                    assert(v@[i + 1] == x);
                }
            }
            if x == k {
                assert(v@[p as int] == k);
            }
        }
    }
}

/// The rate of the queue at `k`: its entry in `rates`, or full speed.
pub open spec fn queue_rate(rates: Map<(u32, u8), u64>, k: (u32, u8)) -> u64 {
    if rates.contains_key(k) {
        rates[k]
    } else {
        PRODUCTION_RATE_SCALE
    }
}

/// Whether a type is a building (types not listed are not).
pub open spec fn is_building_type(is_building: Map<u32, bool>, t: u32) -> bool {
    is_building.contains_key(t) && is_building[t]
}

/// Production advanced one tick over the queues at `ks`, in order: each
/// queue advances by `ticked_queue` at its rate; a completed building joins
/// its owner's ready list, and any other completed item is returned, in
/// order.
pub open spec fn production_tick(
    m: Map<(u32, u8), Seq<BuildQueueItem>>,
    r: Map<u32, Seq<u32>>,
    ks: Seq<(u32, u8)>,
    rates: Map<(u32, u8), u64>,
    is_building: Map<u32, bool>,
    tick_ms: u32,
) -> (Map<(u32, u8), Seq<BuildQueueItem>>, Map<u32, Seq<u32>>, Seq<BuildQueueItem>)
    decreases ks.len(),
{
    if ks.len() == 0 {
        (m, r, Seq::empty())
    } else {
        let k = ks[0];
        let t = ticked_queue(slot_queue(m, k.0, k.1), tick_ms, queue_rate(rates, k));
        let m1 = store_queue(m, k, t.0);
        let r1 = match t.1 {
            Some(d) => if is_building_type(is_building, d.type_id) {
                r.insert(d.owner, owner_ready(r, d.owner).push(d.type_id))
            } else {
                r
            },
            None => r,
        };
        let u1: Seq<BuildQueueItem> = match t.1 {
            Some(d) => if is_building_type(is_building, d.type_id) {
                Seq::empty()
            } else {
                seq![d]
            },
            None => Seq::empty(),
        };
        let rest = production_tick(m1, r1, ks.drop_first(), rates, is_building, tick_ms);
        (rest.0, rest.1, u1 + rest.2)
    }
}

/// Advance every build queue by one tick of `tick_ms` milliseconds, owner
/// by owner and category by category, each at its rate in `rates` (full
/// speed when missing). Completed buildings join their owner's ready list;
/// the other completed items are returned, in that order, to be spawned.
/// A tick of 0 changes nothing.
pub fn tick_production(
    production: &mut ProductionState,
    rates: &BTreeMap<(u32, u8), u64>,
    is_building: &BTreeMap<u32, bool>,
    tick_ms: u32,
) -> (units: Vec<BuildQueueItem>)
    ensures
        final(production).next_order() == old(production).next_order(),
        tick_ms == 0 ==> *final(production) == *old(production) && units@ == Seq::<BuildQueueItem>::empty(),
        tick_ms > 0 ==> exists|ks: Seq<(u32, u8)>|
            #[trigger] keys_sorted(ks) && (forall|k: (u32, u8)|
                #[trigger] old(production).queue_map().contains_key(k) <==> ks.contains(k)) && (
            final(production).queue_map(),
            final(production).ready_map(),
            units@,
            ) == production_tick(
                old(production).queue_map(),
                old(production).ready_map(),
                ks,
                rates@,
                is_building@,
                tick_ms,
            ),
{
    let mut units: Vec<BuildQueueItem> = Vec::new();
    if tick_ms == 0 {
        return units;
    }
    proof {
        crate::keys::lemma_owner_slot_keys_ordered();
        crate::keys::lemma_u32_keys_ordered();
    }
    let raw = production.queue_keys();
    let mut keys: Vec<(u32, u8)> = Vec::new();
    let mut i: usize = 0;
    while i < raw.len()
        invariant
            i <= raw@.len(),
            keys_sorted(keys@),
            forall|x: (u32, u8)| #[trigger] keys@.contains(x) <==> exists|t: int| 0 <= t < i && #[trigger] raw@[t] == x,
        decreases raw@.len() - i,
    {
        insert_key(&mut keys, raw[i]);
        proof {
            assert forall|x: (u32, u8)| #[trigger] keys@.contains(x) <==> exists|t: int|
                0 <= t < i + 1 && #[trigger] raw@[t] == x by {
                if x == raw@[i as int] {
                    assert(raw@[i as int] == x);
                }
            }
        }
        i = i + 1;
    }
    proof {
        assert forall|x: (u32, u8)| #[trigger] keys@.contains(x) <==> raw@.contains(x) by {
            if raw@.contains(x) {
                let t = choose|t: int| 0 <= t < raw@.len() && raw@[t] == x;
                assert(raw@[t] == x);
            }
        }
    }
    let ghost ks = keys@;
    let ghost m0 = production.queue_map();
    let ghost r0 = production.ready_map();
    proof {
        assert(ks.skip(0) =~= ks);
        let t = production_tick(m0, r0, ks, rates@, is_building@, tick_ms);
        assert(units@ + t.2 =~= t.2);
    }
    let mut j: usize = 0;
    while j < keys.len()
        invariant
            j <= keys@.len(),
            keys@ == ks,
            production.next_order() == old(production).next_order(),
            ({
                let t = production_tick(
                    production.queue_map(),
                    production.ready_map(),
                    ks.skip(j as int),
                    rates@,
                    is_building@,
                    tick_ms,
                );
                (t.0, t.1, units@ + t.2) == production_tick(m0, r0, ks, rates@, is_building@, tick_ms)
            }),
        decreases keys@.len() - j,
    {
        let k = keys[j];
        let rate: u64 = match rates.get(&k) {
            Some(v) => *v,
            None => PRODUCTION_RATE_SCALE,
        };
        proof {
            assert(rate == queue_rate(rates@, k));
            assert(ks.skip(j as int)[0] == k);
            assert(ks.skip(j as int).drop_first() =~= ks.skip(j + 1));
        }
        let ghost mb = production.queue_map();
        let ghost rb = production.ready_map();
        let ghost ub = units@;
        let done = production.advance_slot(k, tick_ms, rate);
        match done {
            Some(d) => {
                let b = match is_building.get(&d.type_id) {
                    Some(v) => *v,
                    None => false,
                };
                proof {
                    assert(b == is_building_type(is_building@, d.type_id));
                }
                if b {
                    production.push_ready(d.owner, d.type_id);
                } else {
                    units.push(d);
                }
            },
            None => {},
        }
        proof {
            let t = production_tick(production.queue_map(), production.ready_map(), ks.skip(j + 1), rates@, is_building@, tick_ms);
            let t0 = production_tick(mb, rb, ks.skip(j as int), rates@, is_building@, tick_ms);
            assert(t0.0 == t.0 && t0.1 == t.1);
            assert(ub + t0.2 =~= units@ + t.2);
        }
        j = j + 1;
    }
    proof {
        assert(ks.skip(ks.len() as int) =~= Seq::<(u32, u8)>::empty());
        assert(keys_sorted(ks));
    }
    units
}

/// The production rate of an owner's queue, in parts per million: the
/// owner's power speed over the factories' time multiplier (a multiplier of
/// 0 counts as 1), truncated to 64 bits, and at least 1.
pub open spec fn spec_effective_rate(power_speed_ppm: u64, queue_time_ppm: u64) -> u64 {
    let q: int = if queue_time_ppm < 1 { 1 } else { queue_time_ppm as int };
    let rate = ((power_speed_ppm as int * PRODUCTION_RATE_SCALE as int / q) as u128) as u64;
    if rate < 1 { 1 } else { rate }
}

/// See `spec_effective_rate`.
pub fn effective_progress_rate_ppm(power_speed_ppm: u64, queue_time_ppm: u64) -> (r: u64)
    ensures
        r == spec_effective_rate(power_speed_ppm, queue_time_ppm),
        r >= 1,
{
    let q: u128 = if queue_time_ppm < 1 {
        1
    } else {
        queue_time_ppm as u128
    };
    proof {
        assert(power_speed_ppm as int * 1_000_000 <= 0xffff_ffff_ffff_ffff * 1_000_000) by (nonlinear_arith);
    }
    let num: u128 = power_speed_ppm as u128 * PRODUCTION_RATE_SCALE as u128;
    let quot: u128 = num / q;
    let rate: u64 = quot as u64;
    if rate < 1 {
        1
    } else {
        rate
    }
}

/// The production rate: at full power with factories at the normal time
/// multiplier it is full speed (one million parts per million); it never
/// drops below 1; more power never slows production and a larger time
/// multiplier never speeds it up (while the rate fits in 64 bits); and the
/// rate times the multiplier never exceeds the power speed's share.
pub proof fn law_production_rate_scales(p1: u64, p2: u64, q1: u64, q2: u64)
    requires
        p1 <= p2,
        1 <= q2 <= q1,
        p2 as int * 1_000_000 <= u64::MAX,
    ensures
        spec_effective_rate(1_000_000, 1_000_000) == 1_000_000,
        spec_effective_rate(p1, q1) >= 1,
        spec_effective_rate(p1, q1) <= spec_effective_rate(p2, q1),
        spec_effective_rate(p2, q1) <= spec_effective_rate(p2, q2),
        p2 as int * 1_000_000 >= q1 ==> spec_effective_rate(p2, q1) as int * q1 <= p2 as int * 1_000_000,
{
    let a1 = p1 as int * 1_000_000;
    let a2 = p2 as int * 1_000_000;
    assert(a1 <= a2) by (nonlinear_arith)
        requires
            p1 <= p2,
            a1 == p1 as int * 1_000_000,
            a2 == p2 as int * 1_000_000,
    ;
    assert(a1 / (q1 as int) <= a2 / (q1 as int)) by {
        vstd::arithmetic::div_mod::lemma_div_is_ordered(a1, a2, q1 as int);
    }
    assert(a2 / (q1 as int) <= a2 / (q2 as int)) by {
        vstd::arithmetic::div_mod::lemma_div_is_ordered_by_denominator(a2, q2 as int, q1 as int);
    }
    vstd::arithmetic::div_mod::lemma_div_pos_is_pos(a2, q1 as int);
    vstd::arithmetic::div_mod::lemma_div_pos_is_pos(a1, q1 as int);
    vstd::arithmetic::div_mod::lemma_div_pos_is_pos(a2, q2 as int);
    assert(a2 / (q1 as int) <= a2) by {
        vstd::arithmetic::div_mod::lemma_div_is_ordered_by_denominator(a2, 1, q1 as int);
    }
    assert(a2 / (q2 as int) <= a2) by {
        vstd::arithmetic::div_mod::lemma_div_is_ordered_by_denominator(a2, 1, q2 as int);
    }
    vstd::arithmetic::div_mod::lemma_fundamental_div_mod(a2, q1 as int);
    assert((a2 / (q1 as int)) * (q1 as int) <= a2) by (nonlinear_arith)
        requires
            a2 == (q1 as int) * (a2 / (q1 as int)) + a2 % (q1 as int),
            0 <= a2 % (q1 as int),
    ;
}

} // verus!
