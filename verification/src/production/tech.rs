//! Build limits, build-time estimates, and why an item cannot be built.

use crate::production::queue::{category_index, category_rank};
use crate::production::{BuildDisabledReason, ProductionCategory};
use vstd::prelude::*;

verus! {

/// Scale of production rates: 1,000,000 parts per million is full speed.
pub const PRODUCTION_RATE_SCALE: u64 = 1_000_000;

/// Milliseconds of one production frame.
pub const RA2_QUEUE_FRAME_MS: u64 = 66;

/// The build limit a `BuildLimit=` value sets: none for 0, otherwise its
/// absolute value (a negative limit counts like a positive one).
pub open spec fn spec_build_limit(build_limit: i32) -> Option<u32> {
    if build_limit == 0 {
        None
    } else if build_limit < 0 {
        Some((-build_limit) as u32)
    } else {
        Some(build_limit as u32)
    }
}

/// Interpret a `BuildLimit=` value; `None` means unlimited.
pub fn effective_build_limit(build_limit: i32) -> (r: Option<u32>)
    ensures
        r == spec_build_limit(build_limit),
{
    if build_limit == 0 {
        return None;
    }
    if build_limit < 0 {
        let v: i64 = -(build_limit as i64);
        Some(v as u32)
    } else {
        Some(build_limit as u32)
    }
}

/// Real time of a build: `base_frames` frames of 66 ms at `rate_ppm` parts
/// per million of full speed (a zero rate counts as 1), rounded up and
/// capped at the 32-bit limit; 0 for no frames.
pub open spec fn spec_estimated_real_time_ms(base_frames: u32, rate_ppm: u64) -> u32 {
    if base_frames == 0 {
        0
    } else {
        let denom: int = if rate_ppm == 0 {
            1
        } else {
            rate_ppm as int
        };
        let numer: int = base_frames * 66 * 1_000_000;
        let up: int = (numer + denom - 1) / denom;
        if up > u32::MAX {
            u32::MAX
        } else {
            up as u32
        }
    }
}

/// Estimated real time in milliseconds for a build of `base_frames` frames
/// at `rate_ppm`.
pub fn estimated_real_time_ms(base_frames: u32, rate_ppm: u64) -> (r: u32)
    ensures
        r == spec_estimated_real_time_ms(base_frames, rate_ppm),
{
    if base_frames == 0 {
        return 0;
    }
    let denom: u128 = if rate_ppm == 0 {
        1
    } else {
        rate_ppm as u128
    };
    assert(base_frames * 66 * 1_000_000 <= 0xffff_ffff * 66 * 1_000_000) by (nonlinear_arith);
    let numer: u128 = (base_frames as u128) * (RA2_QUEUE_FRAME_MS as u128) * (
    PRODUCTION_RATE_SCALE as u128);
    let up: u128 = (numer + denom - 1) / denom;
    if up > 0xffff_ffff {
        0xffff_ffff
    } else {
        up as u32
    }
}

/// Highest tech level a match allows.
pub const MATCH_TECH_LEVEL: i32 = 10;

/// What decides whether an owner can build a type, as plain facts: the
/// type's tech level, whether the strict checks apply, the outcome of each
/// owner and house check, the first prerequisite the owner lacks (unless a
/// prerequisite override is satisfied), whether the owner has a factory for
/// the type's queue, the `BuildLimit=` value with the number owned, queued
/// and ready, and the type's cost with the owner's credits.
pub struct BuildFacts {
    pub tech_level: i32,
    pub strict: bool,
    pub owner_allowed: bool,
    pub required_house_ok: bool,
    pub forbidden_house: bool,
    pub requires_stolen_tech: bool,
    pub override_satisfied: bool,
    pub missing_prerequisite: Option<String>,
    pub has_factory: bool,
    pub build_limit: i32,
    pub owned_and_queued: u32,
    pub cost: i32,
    pub credits: i32,
}

/// The first check that fails, in this order: tech level; then, when the
/// checks are strict, owner, required house, forbidden house, stolen tech,
/// prerequisites (skipped when an override is satisfied), factory and build
/// limit; then credits (a cost of 0 or less counts as unaffordable). `None`
/// when every check passes.
pub open spec fn spec_build_disabled_reason(f: BuildFacts) -> Option<BuildDisabledReason> {
    if f.tech_level < 0 || f.tech_level > MATCH_TECH_LEVEL {
        Some(BuildDisabledReason::UnbuildableTechLevel)
    } else if f.strict && !f.owner_allowed {
        Some(BuildDisabledReason::WrongOwner)
    } else if f.strict && !f.required_house_ok {
        Some(BuildDisabledReason::WrongHouse)
    } else if f.strict && f.forbidden_house {
        Some(BuildDisabledReason::ForbiddenHouse)
    } else if f.strict && f.requires_stolen_tech {
        Some(BuildDisabledReason::RequiresStolenTech)
    } else if f.strict && !f.override_satisfied && f.missing_prerequisite is Some {
        Some(BuildDisabledReason::MissingPrerequisite(f.missing_prerequisite->0))
    } else if f.strict && !f.has_factory {
        Some(BuildDisabledReason::NoFactory)
    } else if f.strict && spec_build_limit(f.build_limit) is Some && f.owned_and_queued >= spec_build_limit(
        f.build_limit,
    )->0 {
        Some(BuildDisabledReason::AtBuildLimit)
    } else if f.cost <= 0 || f.credits < f.cost {
        Some(BuildDisabledReason::InsufficientCredits)
    } else {
        None
    }
}

/// Why the owner described by `facts` cannot build the type, or `None` when
/// it can (the option is then enabled).
pub fn build_disabled_reason(facts: BuildFacts) -> (r: Option<BuildDisabledReason>)
    ensures
        r == spec_build_disabled_reason(facts),
{
    let ghost f = facts;
    let BuildFacts {
        tech_level,
        strict,
        owner_allowed,
        required_house_ok,
        forbidden_house,
        requires_stolen_tech,
        override_satisfied,
        missing_prerequisite,
        has_factory,
        build_limit,
        owned_and_queued,
        cost,
        credits,
    } = facts;
    if tech_level < 0 || tech_level > MATCH_TECH_LEVEL {
        return Some(BuildDisabledReason::UnbuildableTechLevel);
    }
    if strict {
        if !owner_allowed {
            return Some(BuildDisabledReason::WrongOwner);
        }
        if !required_house_ok {
            return Some(BuildDisabledReason::WrongHouse);
        }
        if forbidden_house {
            return Some(BuildDisabledReason::ForbiddenHouse);
        }
        if requires_stolen_tech {
            return Some(BuildDisabledReason::RequiresStolenTech);
        }
        if !override_satisfied {
            if let Some(p) = missing_prerequisite {
                return Some(BuildDisabledReason::MissingPrerequisite(p));
            }
        }
        if !has_factory {
            return Some(BuildDisabledReason::NoFactory);
        }
        if let Some(limit) = effective_build_limit(build_limit) {
            if owned_and_queued >= limit {
                return Some(BuildDisabledReason::AtBuildLimit);
            }
        }
    }
    if cost <= 0 || credits < cost {
        return Some(BuildDisabledReason::InsufficientCredits);
    }
    None
}

/// One sidebar entry for a type: its display data, and whether it can be
/// built now and why not.
pub struct BuildOption {
    pub type_id: u32,
    pub display_name: String,
    pub cost: i32,
    pub object_category: u8,
    pub queue_category: ProductionCategory,
    pub enabled: bool,
    pub reason: Option<BuildDisabledReason>,
}

/// A type that may go on an owner's sidebar, with the plain facts its
/// build option is decided from: the facts of `build_disabled_reason`, the
/// upper-cased image key that identifies look-alike variants (if the type is
/// known), whether the owner is one of its required houses, and how
/// specific its owner list is (65535 less the number of listed owners).
pub struct BuildCandidate {
    pub type_id: u32,
    pub display_name: String,
    pub object_category: u8,
    pub queue_category: ProductionCategory,
    pub sidebar_key: Option<u32>,
    pub required_house_match: bool,
    pub owner_specificity: u16,
    pub facts: BuildFacts,
}

/// A build option with what sidebar deduplication compares.
pub struct SidebarEntry {
    pub option: BuildOption,
    pub key: Option<u32>,
    pub house_match: bool,
    pub owner_specificity: u16,
}

/// The build option of a candidate.
pub open spec fn spec_option_of(c: BuildCandidate) -> BuildOption {
    let reason = spec_build_disabled_reason(c.facts);
    BuildOption {
        type_id: c.type_id,
        display_name: c.display_name,
        cost: c.facts.cost,
        object_category: c.object_category,
        queue_category: c.queue_category,
        enabled: reason is None,
        reason,
    }
}

/// The sidebar entry of a candidate.
pub open spec fn spec_entry_of(c: BuildCandidate) -> SidebarEntry {
    SidebarEntry {
        option: spec_option_of(c),
        key: c.sidebar_key,
        house_match: c.required_house_match,
        owner_specificity: c.owner_specificity,
    }
}

/// Whether an option is shown: buildable, or held back only by credits or
/// the build limit.
pub open spec fn spec_shown(o: BuildOption) -> bool {
    o.enabled || o.reason == Some(BuildDisabledReason::InsufficientCredits) || o.reason == Some(
        BuildDisabledReason::AtBuildLimit,
    )
}

/// The shown entries of sidebar category `r`, in order.
pub open spec fn shown_in(s: Seq<SidebarEntry>, r: u8) -> Seq<SidebarEntry>
    decreases s.len(),
{
    if s.len() == 0 {
        Seq::empty()
    } else if spec_shown(s[0].option) && category_rank(s[0].option.queue_category) == r {
        seq![s[0]] + shown_in(s.drop_first(), r)
    } else {
        shown_in(s.drop_first(), r)
    }
}

/// The entries not of sidebar category `r`, in order.
pub open spec fn not_in(s: Seq<SidebarEntry>, r: u8) -> Seq<SidebarEntry>
    decreases s.len(),
{
    if s.len() == 0 {
        Seq::empty()
    } else if category_rank(s[0].option.queue_category) != r {
        seq![s[0]] + not_in(s.drop_first(), r)
    } else {
        not_in(s.drop_first(), r)
    }
}

/// The shown entries sorted by sidebar category, keeping their order
/// within a category.
pub open spec fn sidebar_order(s: Seq<SidebarEntry>) -> Seq<SidebarEntry> {
    shown_in(s, 0) + shown_in(s, 1) + shown_in(s, 2) + shown_in(s, 3) + shown_in(s, 4)
}

/// Rank of a variant: a required-house match first, then owner
/// specificity, then being buildable; higher wins.
pub open spec fn rank_above(a: SidebarEntry, b: SidebarEntry) -> bool {
    let ae: int = if a.option.enabled { 1 } else { 0 };
    let be: int = if b.option.enabled { 1 } else { 0 };
    let ah: int = if a.house_match { 1 } else { 0 };
    let bh: int = if b.house_match { 1 } else { 0 };
    ah > bh || (ah == bh && (a.owner_specificity > b.owner_specificity || (a.owner_specificity == b.owner_specificity
        && ae > be)))
}

/// Index of the first entry of `d` in category `c` with key `k`, or -1.
pub open spec fn key_index(d: Seq<SidebarEntry>, c: ProductionCategory, k: u32) -> int
    decreases d.len(),
{
    if d.len() == 0 {
        -1
    } else if d.last().option.queue_category == c && d.last().key == Some(k) && key_index(d.drop_last(), c, k) < 0 {
        d.len() - 1
    } else {
        key_index(d.drop_last(), c, k)
    }
}

/// One deduplication step: an entry with a key already present in its
/// category replaces that entry when it ranks higher and is dropped
/// otherwise; any other entry is appended.
pub open spec fn dedupe_step(d: Seq<SidebarEntry>, e: SidebarEntry) -> Seq<SidebarEntry> {
    match e.key {
        None => d.push(e),
        Some(k) => {
            let j = key_index(d, e.option.queue_category, k);
            if j < 0 {
                d.push(e)
            } else if rank_above(e, d[j]) {
                d.update(j, e)
            } else {
                d
            }
        },
    }
}

/// Deduplicate `s` onto `d`, entry by entry in order.
pub open spec fn dedupe_from(d: Seq<SidebarEntry>, s: Seq<SidebarEntry>) -> Seq<SidebarEntry>
    decreases s.len(),
{
    if s.len() == 0 {
        d
    } else {
        dedupe_from(dedupe_step(d, s[0]), s.drop_first())
    }
}

/// The options of a sequence of entries.
pub open spec fn options_of(s: Seq<SidebarEntry>) -> Seq<BuildOption> {
    Seq::new(s.len(), |i: int| s[i].option)
}

/// The sidebar of an owner from its candidates (in rules order: buildings,
/// infantry, vehicles, aircraft): each candidate's build option, only those
/// that are buildable or held back by credits or the build limit, sorted
/// by sidebar category (stably), and look-alike variants (same category and
/// image key) merged, keeping the higher-ranked one in the first one's
/// place.
pub open spec fn spec_build_options(cands: Seq<BuildCandidate>) -> Seq<BuildOption> {
    options_of(
        dedupe_from(Seq::empty(), sidebar_order(Seq::new(cands.len(), |i: int| spec_entry_of(cands[i])))),
    )
}

/// Take out the shown entries of category `r` from `rest`, appending them
/// to `out`; the entries of other categories stay in `rest` in order.
fn take_category(out: &mut Vec<SidebarEntry>, rest: &mut Vec<SidebarEntry>, r: u8)
    ensures
        final(out)@ == old(out)@ + shown_in(old(rest)@, r),
        final(rest)@ == not_in(old(rest)@, r),
{
    let ghost orig = rest@;
    let mut keep: Vec<SidebarEntry> = Vec::new();
    let ghost out0 = out@;
    while rest.len() > 0
        invariant
            out@ + shown_in(rest@, r) == out0 + shown_in(orig, r),
            keep@ + not_in(rest@, r) == not_in(orig, r),
        decreases rest@.len(),
    {
        let ghost before = rest@;
        let e = rest.remove(0);
        proof {
            assert(before.drop_first() =~= rest@);
        }
        let c = category_index(e.option.queue_category);
        let shown = e.option.enabled || match &e.option.reason {
            Some(BuildDisabledReason::InsufficientCredits) => true,
            Some(BuildDisabledReason::AtBuildLimit) => true,
            _ => false,
        };
        if c != r {
            let ghost k0 = keep@;
            keep.push(e);
            proof {
                assert(keep@ + not_in(rest@, r) =~= k0 + not_in(before, r));
            }
        } else if shown {
            let ghost o0 = out@;
            out.push(e);
            proof {
                assert(out@ + shown_in(rest@, r) =~= o0 + shown_in(before, r));
            }
        }
    }
    proof {
        assert(out@ =~= out0 + shown_in(orig, r));
        assert(keep@ =~= not_in(orig, r));
    }
    *rest = keep;
}

/// Removing the entries of category `r` keeps the shown entries of every
/// other category.
proof fn lemma_not_in_keeps(s: Seq<SidebarEntry>, r: u8, r2: u8)
    requires
        r != r2,
    ensures
        shown_in(not_in(s, r), r2) == shown_in(s, r2),
    decreases s.len(),
{
    if s.len() > 0 {
        lemma_not_in_keeps(s.drop_first(), r, r2);
        if category_rank(s[0].option.queue_category) != r {
            assert((seq![s[0]] + not_in(s.drop_first(), r)).drop_first() =~= not_in(s.drop_first(), r));
        }
    }
}

/// Index of the first entry of `d` in category `c` with key `k`, or none.
fn find_key(d: &Vec<SidebarEntry>, c: ProductionCategory, k: u32) -> (r: Option<usize>)
    ensures
        match r {
            Some(j) => j == key_index(d@, c, k) && j < d@.len(),
            None => key_index(d@, c, k) < 0,
        },
{
    let mut j: usize = 0;
    while j < d.len()
        invariant
            j <= d@.len(),
            key_index(d@.take(j as int), c, k) < 0,
        decreases d@.len() - j,
    {
        proof {
            assert(d@.take(j + 1).drop_last() =~= d@.take(j as int));
        }
        if d[j].option.queue_category == c && d[j].key == Some(k) {
            proof {
                lemma_key_index_prefix(d@, c, k, j + 1);
            }
            return Some(j);
        }
        j = j + 1;
    }
    proof {
        assert(d@.take(d@.len() as int) =~= d@);
    }
    None
}

/// A match found in a prefix is the first match of the whole sequence.
proof fn lemma_key_index_prefix(d: Seq<SidebarEntry>, c: ProductionCategory, k: u32, n: int)
    requires
        0 <= n <= d.len(),
        key_index(d.take(n), c, k) >= 0,
    ensures
        key_index(d, c, k) == key_index(d.take(n), c, k),
    decreases d.len() - n,
{
    if n < d.len() {
        assert(d.take(n + 1).drop_last() =~= d.take(n));
        lemma_key_index_prefix(d, c, k, n + 1);
    } else {
        assert(d.take(n) =~= d);
    }
}

/// The build options an owner's sidebar shows (see `spec_build_options`).
pub fn build_options_for_owner(cands: Vec<BuildCandidate>) -> (r: Vec<BuildOption>)
    ensures
        r@ == spec_build_options(cands@),
{
    let ghost cs = cands@;
    let mut cands = cands;
    let mut entries: Vec<SidebarEntry> = Vec::new();
    while cands.len() > 0
        invariant
            entries@.len() + cands@.len() == cs.len(),
            forall|i: int| 0 <= i < entries@.len() ==> #[trigger] entries@[i] == spec_entry_of(cs[i]),
            forall|i: int| 0 <= i < cands@.len() ==> #[trigger] cands@[i] == cs[entries@.len() + i],
        decreases cands@.len(),
    {
        let c = cands.remove(0);
        let BuildCandidate {
            type_id,
            display_name,
            object_category,
            queue_category,
            sidebar_key,
            required_house_match,
            owner_specificity,
            facts,
        } = c;
        let cost = facts.cost;
        let reason = build_disabled_reason(facts);
        let enabled = reason.is_none();
        let option = BuildOption { type_id, display_name, cost, object_category, queue_category, enabled, reason };
        entries.push(SidebarEntry { option, key: sidebar_key, house_match: required_house_match, owner_specificity });
    }
    let ghost es = entries@;
    proof {
        assert(es =~= Seq::new(cs.len(), |i: int| spec_entry_of(cs[i])));
    }
    let mut ordered: Vec<SidebarEntry> = Vec::new();
    let mut r: u8 = 0;
    while r < 5
        invariant
            r <= 5,
            forall|r2: u8| r <= r2 ==> #[trigger] shown_in(entries@, r2) == shown_in(es, r2),
            ordered@ == (if r == 0 {
                Seq::<SidebarEntry>::empty()
            } else if r == 1 {
                shown_in(es, 0)
            } else if r == 2 {
                shown_in(es, 0) + shown_in(es, 1)
            } else if r == 3 {
                shown_in(es, 0) + shown_in(es, 1) + shown_in(es, 2)
            } else if r == 4 {
                shown_in(es, 0) + shown_in(es, 1) + shown_in(es, 2) + shown_in(es, 3)
            } else {
                sidebar_order(es)
            }),
        decreases 5 - r,
    {
        let ghost rest0 = entries@;
        take_category(&mut ordered, &mut entries, r);
        proof {
            assert forall|r2: u8| r + 1 <= r2 implies #[trigger] shown_in(entries@, r2) == shown_in(es, r2) by {
                lemma_not_in_keeps(rest0, r, r2);
            }
        }
        r = r + 1;
    }
    let ghost ord = ordered@;
    let mut deduped: Vec<SidebarEntry> = Vec::new();
    while ordered.len() > 0
        invariant
            dedupe_from(deduped@, ordered@) == dedupe_from(Seq::empty(), ord),
        decreases ordered@.len(),
    {
        let ghost before = ordered@;
        let e = ordered.remove(0);
        proof {
            assert(before.drop_first() =~= ordered@);
        }
        let ghost d0 = deduped@;
        match e.key {
            None => {
                deduped.push(e);
            },
            Some(k) => {
                match find_key(&deduped, e.option.queue_category, k) {
                    None => {
                        deduped.push(e);
                    },
                    Some(j) => {
                        let a = &e;
                        let b = &deduped[j];
                        let ah: u8 = if a.house_match { 1 } else { 0 };
                        let bh: u8 = if b.house_match { 1 } else { 0 };
                        let ae: u8 = if a.option.enabled { 1 } else { 0 };
                        let be: u8 = if b.option.enabled { 1 } else { 0 };
                        let above = ah > bh || (ah == bh && (a.owner_specificity > b.owner_specificity || (
                        a.owner_specificity == b.owner_specificity && ae > be)));
                        if above {
                            deduped.set(j, e);
                        }
                    },
                }
            },
        }
        proof {
            assert(deduped@ == dedupe_step(d0, before[0]));
        }
    }
    let ghost dd = deduped@;
    proof {
        assert(dd == dedupe_from(Seq::empty(), sidebar_order(es)));
    }
    let mut out: Vec<BuildOption> = Vec::new();
    while deduped.len() > 0
        invariant
            out@ + options_of(deduped@) == options_of(dd),
        decreases deduped@.len(),
    {
        let ghost before = deduped@;
        let e = deduped.remove(0);
        let ghost o0 = out@;
        out.push(e.option);
        proof {
            assert(out@ + options_of(deduped@) =~= o0 + options_of(before));
        }
    }
    proof {
        assert(out@ =~= options_of(dd));
    }
    out
}

/// The deduplicated sidebar entries of an owner's candidates.
pub open spec fn spec_sidebar_entries(cands: Seq<BuildCandidate>) -> Seq<SidebarEntry> {
    dedupe_from(Seq::empty(), sidebar_order(Seq::new(cands.len(), |i: int| spec_entry_of(cands[i]))))
}

/// An entry fit for the sidebar: shown, and enabled exactly when it has no
/// reason against building.
pub open spec fn entry_ok(e: SidebarEntry) -> bool {
    spec_shown(e.option) && e.option.enabled == (e.option.reason is None)
}

/// No two entries of one category share an image key.
pub open spec fn keys_unique(d: Seq<SidebarEntry>) -> bool {
    forall|i: int, j: int|
        0 <= i < d.len() && 0 <= j < d.len() && i != j && #[trigger] d[i].key is Some && d[i].key == #[trigger] d[j].key
            ==> d[i].option.queue_category != d[j].option.queue_category
}

proof fn lemma_key_index_facts(d: Seq<SidebarEntry>, c: ProductionCategory, k: u32)
    ensures
        -1 <= key_index(d, c, k) < d.len(),
        key_index(d, c, k) >= 0 ==> d[key_index(d, c, k)].option.queue_category == c && d[key_index(d, c, k)].key
            == Some(k),
        key_index(d, c, k) < 0 ==> forall|i: int|
            0 <= i < d.len() ==> !(#[trigger] d[i].option.queue_category == c && d[i].key == Some(k)),
    decreases d.len(),
{
    if d.len() > 0 {
        lemma_key_index_facts(d.drop_last(), c, k);
        assert forall|i: int| 0 <= i < d.len() - 1 implies #[trigger] d[i] == d.drop_last()[i] by {}
    }
}

proof fn lemma_shown_in_ok(s: Seq<SidebarEntry>, r: u8)
    ensures
        forall|i: int| 0 <= i < shown_in(s, r).len() ==> spec_shown(#[trigger] shown_in(s, r)[i].option),
        (forall|i: int| 0 <= i < s.len() ==> (#[trigger] s[i]).option.enabled == (s[i].option.reason is None))
            ==> forall|i: int| 0 <= i < shown_in(s, r).len() ==> entry_ok(#[trigger] shown_in(s, r)[i]),
    decreases s.len(),
{
    if s.len() > 0 {
        lemma_shown_in_ok(s.drop_first(), r);
        assert forall|i: int| 0 <= i < s.len() - 1 implies #[trigger] s.drop_first()[i] == s[i + 1] by {}
    }
}

proof fn lemma_dedupe_keeps(d: Seq<SidebarEntry>, s: Seq<SidebarEntry>)
    requires
        forall|i: int| 0 <= i < d.len() ==> entry_ok(#[trigger] d[i]),
        forall|i: int| 0 <= i < s.len() ==> entry_ok(#[trigger] s[i]),
        keys_unique(d),
    ensures
        forall|i: int| 0 <= i < dedupe_from(d, s).len() ==> entry_ok(#[trigger] dedupe_from(d, s)[i]),
        keys_unique(dedupe_from(d, s)),
    decreases s.len(),
{
    if s.len() > 0 {
        let e = s[0];
        let d2 = dedupe_step(d, e);
        match e.key {
            None => {},
            Some(k) => {
                lemma_key_index_facts(d, e.option.queue_category, k);
            },
        }
        assert forall|i: int| 0 <= i < d2.len() implies entry_ok(#[trigger] d2[i]) by {
            if i < d.len() && d2[i] != d[i] {
                assert(d2[i] == e);
            }
        }
        assert(keys_unique(d2)) by {
            assert forall|i: int, j: int|
                0 <= i < d2.len() && 0 <= j < d2.len() && i != j && #[trigger] d2[i].key is Some && d2[i].key
                    == #[trigger] d2[j].key implies d2[i].option.queue_category != d2[j].option.queue_category by {
                if e.key is Some {
                    let k = e.key->0;
                    let ji = key_index(d, e.option.queue_category, k);
                    if i < d.len() && j < d.len() && d2[i] == d[i] && d2[j] == d[j] {
                    } else if i == d.len() || j == d.len() {
                        if i < d.len() {
                            assert(!(d[i].option.queue_category == e.option.queue_category && d[i].key == Some(k)));
                        }
                        if j < d.len() {
                            assert(!(d[j].option.queue_category == e.option.queue_category && d[j].key == Some(k)));
                        }
                    } else {
                        assert(ji >= 0);
                    }
                }
            }
        }
        assert forall|i: int| 0 <= i < s.drop_first().len() implies entry_ok(#[trigger] s.drop_first()[i]) by {
            assert(s.drop_first()[i] == s[i + 1]);
        }
        lemma_dedupe_keeps(d2, s.drop_first());
    }
}

/// Every option on an owner's sidebar is buildable or held back only by
/// credits or the build limit, is enabled exactly when it has no reason
/// against it, and no two options of one category share an image key.
pub proof fn law_sidebar_shown_and_unique(cands: Seq<BuildCandidate>)
    ensures
        spec_build_options(cands) == options_of(spec_sidebar_entries(cands)),
        forall|i: int|
            0 <= i < spec_sidebar_entries(cands).len() ==> entry_ok(#[trigger] spec_sidebar_entries(cands)[i]),
        keys_unique(spec_sidebar_entries(cands)),
{
    let es = Seq::new(cands.len(), |i: int| spec_entry_of(cands[i]));
    assert forall|i: int| 0 <= i < es.len() implies (#[trigger] es[i]).option.enabled == (es[i].option.reason is None) by {}
    lemma_shown_in_ok(es, 0);
    lemma_shown_in_ok(es, 1);
    lemma_shown_in_ok(es, 2);
    lemma_shown_in_ok(es, 3);
    lemma_shown_in_ok(es, 4);
    let o = sidebar_order(es);
    assert forall|i: int| 0 <= i < o.len() implies entry_ok(#[trigger] o[i]) by {
        let a = shown_in(es, 0);
        let b = shown_in(es, 1);
        let c = shown_in(es, 2);
        let d = shown_in(es, 3);
        let e = shown_in(es, 4);
        if i < a.len() {
            assert(o[i] == a[i]);
        } else if i < a.len() + b.len() {
            assert(o[i] == b[i - a.len()]);
        } else if i < a.len() + b.len() + c.len() {
            assert(o[i] == c[i - a.len() - b.len()]);
        } else if i < a.len() + b.len() + c.len() + d.len() {
            assert(o[i] == d[i - a.len() - b.len() - c.len()]);
        } else {
            assert(o[i] == e[i - a.len() - b.len() - c.len() - d.len()]);
        }
    }
    lemma_dedupe_keeps(Seq::empty(), o);
}

/// An item is offered as buildable only when every check passes: its tech
/// level is in range, it costs something the owner can pay, and under
/// strict checks the owner is allowed, the owner's house is among the
/// required ones, it is not forbidden, it needs no stolen tech, its
/// prerequisites are met (or an override is), a factory exists and the
/// build limit leaves room; and when every check passes it is offered. Each
/// reason names a check that failed; under strict checks an allowed owner
/// whose house is not required is told `WrongHouse` once the tech level
/// passes; without strict checks only the tech level and the credits decide.
pub proof fn law_build_disabled_only_by_failed_checks(f: BuildFacts)
    ensures
        ({
            let r = spec_build_disabled_reason(f);
            let limit_room = f.build_limit == 0 || (f.owned_and_queued as int) < if f.build_limit < 0 {
                -(f.build_limit as int)
            } else {
                f.build_limit as int
            };
            let all_pass = 0 <= f.tech_level <= MATCH_TECH_LEVEL && f.cost > 0 && f.credits >= f.cost && (f.strict ==> (
            f.owner_allowed && f.required_house_ok && !f.forbidden_house && !f.requires_stolen_tech && (
            f.override_satisfied || f.missing_prerequisite is None) && f.has_factory && limit_room));
            &&& (r is None <==> all_pass)
            &&& (r == Some(BuildDisabledReason::UnbuildableTechLevel) <==> !(0 <= f.tech_level <= MATCH_TECH_LEVEL))
            &&& (r == Some(BuildDisabledReason::WrongOwner) ==> f.strict && !f.owner_allowed)
            &&& (r == Some(BuildDisabledReason::WrongHouse) ==> f.strict && !f.required_house_ok)
            &&& (r == Some(BuildDisabledReason::ForbiddenHouse) ==> f.strict && f.forbidden_house)
            &&& (r == Some(BuildDisabledReason::RequiresStolenTech) ==> f.strict && f.requires_stolen_tech)
            &&& (r matches Some(BuildDisabledReason::MissingPrerequisite(p)) ==> f.strict && !f.override_satisfied
                && f.missing_prerequisite == Some(p))
            &&& (r == Some(BuildDisabledReason::NoFactory) ==> f.strict && !f.has_factory)
            &&& (r == Some(BuildDisabledReason::AtBuildLimit) ==> f.strict && !limit_room)
            &&& (r == Some(BuildDisabledReason::InsufficientCredits) ==> f.cost <= 0 || f.credits < f.cost)
            &&& r != Some(BuildDisabledReason::PlacementModeUnavailable)
            &&& (f.strict && 0 <= f.tech_level <= MATCH_TECH_LEVEL && f.owner_allowed && !f.required_house_ok ==> r
                == Some(BuildDisabledReason::WrongHouse))
            &&& (f.strict && 0 <= f.tech_level <= MATCH_TECH_LEVEL && !f.owner_allowed ==> r == Some(
                BuildDisabledReason::WrongOwner,
            ))
            &&& (!f.strict ==> (r is None || r == Some(BuildDisabledReason::UnbuildableTechLevel) || r == Some(
                BuildDisabledReason::InsufficientCredits,
            )))
        }),
{
}

/// A build's estimated real time is its `base_frames` frames of 66 ms at
/// the given speed, rounded up: unless capped at the 32-bit limit, the time
/// covers the work and falls short of it by less than one step; full speed
/// takes exactly 66 ms per frame; and a faster rate never takes longer.
pub proof fn law_build_time_covers_the_work(base_frames: u32, r1: u64, r2: u64)
    requires
        1 <= r1 <= r2,
    ensures
        ({
            let t = spec_estimated_real_time_ms(base_frames, r1) as int;
            let work = base_frames as int * 66 * 1_000_000;
            t < u32::MAX ==> t * r1 >= work && (t == 0 || (t - 1) * r1 < work)
        }),
        base_frames as int * 66 <= u32::MAX ==> spec_estimated_real_time_ms(base_frames, 1_000_000) == base_frames as int
            * 66,
        spec_estimated_real_time_ms(base_frames, r2) <= spec_estimated_real_time_ms(base_frames, r1),
{
    let work = base_frames as int * 66 * 1_000_000;
    let d1 = r1 as int;
    let d2 = r2 as int;
    if base_frames > 0 {
        let u1 = (work + d1 - 1) / d1;
        let u2 = (work + d2 - 1) / d2;
        vstd::arithmetic::div_mod::lemma_fundamental_div_mod(work + d1 - 1, d1);
        let m1 = (work + d1 - 1) % d1;
        assert(u1 * d1 >= work && (u1 - 1) * d1 < work) by (nonlinear_arith)
            requires
                work + d1 - 1 == d1 * u1 + m1,
                0 <= m1 < d1,
        ;
        vstd::arithmetic::div_mod::lemma_fundamental_div_mod(work + d2 - 1, d2);
        let m2 = (work + d2 - 1) % d2;
        assert(u2 * d2 >= work && (u2 - 1) * d2 < work) by (nonlinear_arith)
            requires
                work + d2 - 1 == d2 * u2 + m2,
                0 <= m2 < d2,
        ;
        assert(u2 <= u1) by (nonlinear_arith)
            requires
                u1 * d1 >= work,
                (u2 - 1) * d2 < work,
                1 <= d1 <= d2,
                u1 >= 0,
                u2 >= 0,
        ;
        let w66 = base_frames as int * 66;
        assert((work + 1_000_000 - 1) / 1_000_000 == w66) by {
            vstd::arithmetic::div_mod::lemma_fundamental_div_mod_converse(work + 1_000_000 - 1, 1_000_000, w66, 999_999);
        }
    }
}

} // verus!
