//! What an evaluator counts of its work.
use crate::reading::{add_to, adds, counts, enter_to_read, enter_to_write, enters, finds, given};
use crate::reading::{given_of, given_of_both, leave, leaves, new_counter, new_lock, raise_to, raises};
use crate::reading::{read_counter, replaces, starts_at, starts_with, subtract_from, subtracts};
use core::sync::atomic::AtomicUsize;
use core::time::Duration;
use std::time::Instant;
use vstd::prelude::*;
use vstd::rwlock::{RwLock, RwLockPredicate};

verus! {

#[verifier::external_type_specification]
#[verifier::external_body]
pub struct ExInstant(std::time::Instant);

/// `std::time::Instant::now`: the present, which depends on the clock.
pub assume_specification[ std::time::Instant::now ]() -> (now: Instant);

/// `std::time::Instant::duration_since`: the time that has passed since `earlier`, which depends on
/// the clock.
pub assume_specification[ std::time::Instant::duration_since ](
    instant: &Instant,
    earlier: Instant,
) -> (passed: Duration);

/// Whether `passed` is the time that has passed between `earlier` and the present.
pub open spec fn has_passed_since(earlier: Instant, passed: Duration) -> bool {
    exists|now: Instant| #[trigger]
        call_ensures(Instant::now, (), now) && call_ensures(
            Instant::duration_since,
            (&now, earlier),
            passed,
        )
}

/// The time that has passed since `earlier`.
pub fn time_since(earlier: Instant) -> (passed: Duration)
    ensures
        has_passed_since(earlier, passed),
{
    let now: Instant = given(Instant::now);
    given_of_both(Instant::duration_since, &now, earlier)
}

/// `core::time::Duration::as_micros`: the whole microseconds of a stretch of time. How many they are
/// is left open, as the stretch itself comes from the clock.
pub assume_specification[ core::time::Duration::as_micros ](duration: &Duration) -> (micros: u128);

/// Whether evaluators count their work.
pub fn stats_collection_enabled() -> (enabled: bool)
    ensures
        enabled,
{
    true
}

#[derive(Clone, Copy, Debug, Default, PartialEq, Eq, Structural)]
pub struct EvaluatorStats {
    /// Total computations started: unique claims plus forced duplicates.
    pub evaluation_attempts: usize,
    /// Reads of an already completed cached nimber.
    pub completed_cache_hits: usize,
    /// Unique positions claimed through `Vacant -> Processing`.
    pub unique_positions_claimed: usize,
    /// Unique positions published through `Processing -> Done`.
    pub completed_positions: usize,
    /// Publications that found the position already completed.
    pub duplicate_publish_races: usize,
    /// Reads that encountered another worker's `Processing` entry.
    pub processing_hits: usize,
    /// Deferred positions completed by their owner before being revisited.
    pub deferred_resolved: usize,
    /// Deferred positions still busy when revisited and computed again.
    pub forced_duplicate_evaluations: usize,
    /// Evaluation attempts terminated by a symmetry zero certificate.
    pub symmetry_zero_certificates: usize,
    /// Cooperative root/component fanout regions opened.
    pub cooperative_regions: usize,
    /// Successor groups pulled by cooperative workers.
    pub cooperative_group_pulls: usize,
    /// Worker entries into the recursive cooperative evaluator.
    pub cooperative_worker_entries: usize,
    /// Revisited busy positions entered recursively instead of only forced at the leaf.
    pub deferred_descents: usize,
    /// Successor groups deferred because a busy successor was encountered.
    pub group_deferrals: usize,
    /// Deferred successor groups revisited after fresh groups were exhausted.
    pub group_revisits: usize,
    /// Maximum simultaneously active cooperative workers observed.
    pub max_active_workers: usize,
    /// Time-weighted active worker integral, in microseconds.
    pub active_worker_micros: usize,
    /// Successor groups entered by any evaluator path.
    pub successor_groups_started: usize,
    /// Canonical successors contained in entered groups.
    pub successor_group_successors: usize,
    /// Successor groups that claimed at least one new position.
    pub successor_groups_with_new_claim: usize,
    /// Successor groups that encountered at least one busy position.
    pub successor_groups_with_busy: usize,
    /// Revisited deferred groups that were still busy.
    pub successor_revisit_groups_with_busy: usize,
}

/// What a worker counts of the groups of successors that it enters.
#[derive(Clone, Copy, Debug, Default, PartialEq, Eq, Structural)]
pub struct DistributionStats {
    pub successor_groups_started: usize,
    pub successor_group_successors: usize,
    pub successor_groups_with_new_claim: usize,
    pub successor_groups_with_busy: usize,
    pub successor_revisit_groups_with_busy: usize,
}

/// `a + b`, or the highest number of a machine word.
pub open spec fn capped(a: int, b: int) -> int {
    if a + b <= usize::MAX {
        a + b
    } else {
        usize::MAX as int
    }
}

/// 1 if `b` holds, else 0.
pub open spec fn one_if(b: bool) -> int {
    if b {
        1
    } else {
        0
    }
}

fn usize_if(b: bool) -> (n: usize)
    ensures
        n == one_if(b),
{
    if b {
        1
    } else {
        0
    }
}

/// Whether nothing is counted.
pub open spec fn is_blank(stats: DistributionStats) -> bool {
    &&& stats.successor_groups_started == 0
    &&& stats.successor_group_successors == 0
    &&& stats.successor_groups_with_new_claim == 0
    &&& stats.successor_groups_with_busy == 0
    &&& stats.successor_revisit_groups_with_busy == 0
}

/// Whether `sum` counts what `a` and `b` count.
pub open spec fn is_merged(
    a: DistributionStats,
    b: DistributionStats,
    sum: DistributionStats,
) -> bool {
    &&& sum.successor_groups_started == capped(
        a.successor_groups_started as int,
        b.successor_groups_started as int,
    )
    &&& sum.successor_group_successors == capped(
        a.successor_group_successors as int,
        b.successor_group_successors as int,
    )
    &&& sum.successor_groups_with_new_claim == capped(
        a.successor_groups_with_new_claim as int,
        b.successor_groups_with_new_claim as int,
    )
    &&& sum.successor_groups_with_busy == capped(
        a.successor_groups_with_busy as int,
        b.successor_groups_with_busy as int,
    )
    &&& sum.successor_revisit_groups_with_busy == capped(
        a.successor_revisit_groups_with_busy as int,
        b.successor_revisit_groups_with_busy as int,
    )
}

/// Whether `after` is `before` with one more group counted.
pub open spec fn is_recorded(
    before: DistributionStats,
    after: DistributionStats,
    successor_count: usize,
    had_new_claim: bool,
    had_busy: bool,
    revisit_busy: bool,
) -> bool {
    &&& after.successor_groups_started == capped(before.successor_groups_started as int, 1)
    &&& after.successor_group_successors == capped(
        before.successor_group_successors as int,
        successor_count as int,
    )
    &&& after.successor_groups_with_new_claim == capped(
        before.successor_groups_with_new_claim as int,
        one_if(had_new_claim),
    )
    &&& after.successor_groups_with_busy == capped(
        before.successor_groups_with_busy as int,
        one_if(had_busy),
    )
    &&& after.successor_revisit_groups_with_busy == capped(
        before.successor_revisit_groups_with_busy as int,
        one_if(revisit_busy),
    )
}

impl DistributionStats {
    pub fn new() -> (stats: Self)
        ensures
            is_blank(stats),
    {
        DistributionStats {
            successor_groups_started: 0,
            successor_group_successors: 0,
            successor_groups_with_new_claim: 0,
            successor_groups_with_busy: 0,
            successor_revisit_groups_with_busy: 0,
        }
    }

    /// Adds the counts of another worker.
    pub fn merge(&mut self, other: Self)
        ensures
            is_merged(*old(self), other, *final(self)),
    {
        self.successor_groups_started =
        self.successor_groups_started.saturating_add(other.successor_groups_started);
        self.successor_group_successors =
        self.successor_group_successors.saturating_add(other.successor_group_successors);
        self.successor_groups_with_new_claim =
        self.successor_groups_with_new_claim.saturating_add(other.successor_groups_with_new_claim);
        self.successor_groups_with_busy =
        self.successor_groups_with_busy.saturating_add(other.successor_groups_with_busy);
        self.successor_revisit_groups_with_busy =
        self.successor_revisit_groups_with_busy.saturating_add(
            other.successor_revisit_groups_with_busy,
        );
    }

    /// Counts a group of successors that was entered.
    pub fn record_successor_group(
        &mut self,
        successor_count: usize,
        had_new_claim: bool,
        had_busy: bool,
        revisit_busy: bool,
    )
        ensures
            final(self).successor_groups_started == capped(
                old(self).successor_groups_started as int,
                1,
            ),
            final(self).successor_group_successors == capped(
                old(self).successor_group_successors as int,
                successor_count as int,
            ),
            final(self).successor_groups_with_new_claim == capped(
                old(self).successor_groups_with_new_claim as int,
                one_if(had_new_claim),
            ),
            final(self).successor_groups_with_busy == capped(
                old(self).successor_groups_with_busy as int,
                one_if(had_busy),
            ),
            final(self).successor_revisit_groups_with_busy == capped(
                old(self).successor_revisit_groups_with_busy as int,
                one_if(revisit_busy),
            ),
    {
        self.merge(
            DistributionStats {
                successor_groups_started: 1,
                successor_group_successors: successor_count,
                successor_groups_with_new_claim: usize_if(had_new_claim),
                successor_groups_with_busy: usize_if(had_busy),
                successor_revisit_groups_with_busy: usize_if(revisit_busy),
            },
        );
    }
}

/// The time that workers have been active, added up over all workers.
pub struct ActiveWorkerClock {
    active: usize,
    last_changed: Instant,
    active_micros: u128,
}

/// `total` after `active` workers have worked for `micros` microseconds more.
pub open spec fn worked(total: u128, active: usize, micros: u128) -> int {
    if total + active * micros <= u128::MAX {
        total + active * micros
    } else {
        u128::MAX as int
    }
}

/// Adds the time of `active` workers.
pub fn add_worked(total: u128, active: usize, micros: u128) -> (sum: u128)
    ensures
        sum == worked(total, active, micros),
{
    match (active as u128).checked_mul(micros) {
        Some(more) => match total.checked_add(more) {
            Some(sum) => sum,
            None => u128::MAX,
        },
        None => u128::MAX,
    }
}

/// Whether the time up to now is added to what the clock has counted.
pub open spec fn rolled_forward(before: ActiveWorkerClock, after: ActiveWorkerClock) -> bool {
    exists|now: Instant, passed: Duration, micros: u128|
        {
            &&& #[trigger] call_ensures(Instant::now, (), now)
            &&& #[trigger] call_ensures(
                Instant::duration_since,
                (&now, before.changed_at()),
                passed,
            )
            &&& #[trigger] call_ensures(Duration::as_micros, (&passed,), micros)
            &&& after.changed_at() == now
            &&& after.counted() == worked(before.counted(), before.active(), micros)
        }
}

impl ActiveWorkerClock {
    /// The number of workers that are active.
    pub closed spec fn active(&self) -> usize {
        self.active
    }

    /// The microseconds counted so far.
    pub closed spec fn counted(&self) -> u128 {
        self.active_micros
    }

    /// Up to when the microseconds are counted.
    pub closed spec fn changed_at(&self) -> Instant {
        self.last_changed
    }

    pub fn new() -> (clock: Self)
        ensures
            clock.active() == 0,
            clock.counted() == 0,
            call_ensures(Instant::now, (), clock.changed_at()),
    {
        ActiveWorkerClock { active: 0, last_changed: given(Instant::now), active_micros: 0 }
    }

    /// Sets the number of workers that are active from now on.
    pub fn set_active(&mut self, active: usize)
        ensures
            final(self).active() == active,
            rolled_forward(*old(self), *final(self)),
    {
        self.roll_forward();
        self.active = active;
    }

    /// The microseconds that workers have been active up to now.
    pub fn active_micros(&mut self) -> (micros: usize)
        ensures
            final(self).active() == old(self).active(),
            micros == (if final(self).counted() <= usize::MAX {
                final(self).counted() as int
            } else {
                usize::MAX as int
            }),
            rolled_forward(*old(self), *final(self)),
    {
        self.roll_forward();
        if self.active_micros <= usize::MAX as u128 {
            self.active_micros as usize
        } else {
            usize::MAX
        }
    }

    fn roll_forward(&mut self)
        ensures
            final(self).active() == old(self).active(),
            rolled_forward(*old(self), *final(self)),
    {
        let now: Instant = given(Instant::now);
        let passed: Duration = given_of_both(Instant::duration_since, &now, self.last_changed);
        let micros: u128 = given_of(Duration::as_micros, &passed);
        self.active_micros = add_worked(self.active_micros, self.active, micros);
        self.last_changed = now;
        proof {
            assert(call_ensures(Instant::now, (), now));
            assert(call_ensures(
                Instant::duration_since,
                (&now, old(self).changed_at()),
                passed,
            ));
            assert(call_ensures(Duration::as_micros, (&passed,), micros));
        }
    }
}

/// The computations that were started, and why.
pub struct AttemptCounts {
    pub attempts: usize,
    pub claimed: usize,
    pub forced: usize,
}

/// Every computation was started for a claim or was forced.
pub struct AttemptsBalance;

impl RwLockPredicate<AttemptCounts> for AttemptsBalance {
    open spec fn inv(self, counts: AttemptCounts) -> bool {
        counts.attempts == counts.claimed + counts.forced
    }
}

/// The clock may show any time.
pub struct AnyClock;

impl RwLockPredicate<ActiveWorkerClock> for AnyClock {
    open spec fn inv(self, clock: ActiveWorkerClock) -> bool {
        true
    }
}

/// Whether a computation that was started for a claim is counted, if a machine word holds their number.
pub open spec fn counts_claimed(before: AttemptCounts, after: AttemptCounts) -> bool {
    &&& after.attempts == after.claimed + after.forced
    &&& after.forced == before.forced
    &&& before.attempts < usize::MAX ==> after.claimed == before.claimed + 1
    &&& before.attempts == usize::MAX ==> after.claimed == before.claimed
}

/// Whether a computation that was forced is counted, if a machine word holds their number.
pub open spec fn counts_forced(before: AttemptCounts, after: AttemptCounts) -> bool {
    &&& after.attempts == after.claimed + after.forced
    &&& after.claimed == before.claimed
    &&& before.attempts < usize::MAX ==> after.forced == before.forced + 1
    &&& before.attempts == usize::MAX ==> after.forced == before.forced
}

impl AttemptCounts {
    /// Counts a computation that was started for a claim.
    pub fn count_claimed(&mut self)
        requires
            old(self).attempts == old(self).claimed + old(self).forced,
        ensures
            counts_claimed(*old(self), *final(self)),
    {
        if self.attempts < usize::MAX {
            self.attempts = self.attempts + 1;
            self.claimed = self.claimed + 1;
        }
    }

    /// Counts a computation that was forced.
    pub fn count_forced(&mut self)
        requires
            old(self).attempts == old(self).claimed + old(self).forced,
        ensures
            counts_forced(*old(self), *final(self)),
    {
        if self.attempts < usize::MAX {
            self.attempts = self.attempts + 1;
            self.forced = self.forced + 1;
        }
    }
}

/// The counts that all workers share.
pub struct SharedStats {
    attempts: RwLock<AttemptCounts, AttemptsBalance>,
    completed_cache_hits: AtomicUsize,
    completed_positions: AtomicUsize,
    duplicate_publish_races: AtomicUsize,
    processing_hits: AtomicUsize,
    deferred_resolved: AtomicUsize,
    symmetry_zero_certificates: AtomicUsize,
    cooperative_regions: AtomicUsize,
    cooperative_group_pulls: AtomicUsize,
    cooperative_worker_entries: AtomicUsize,
    deferred_descents: AtomicUsize,
    group_deferrals: AtomicUsize,
    group_revisits: AtomicUsize,
    active_workers: AtomicUsize,
    max_active_workers: AtomicUsize,
    active_worker_clock: RwLock<ActiveWorkerClock, AnyClock>,
    successor_groups_started: AtomicUsize,
    successor_group_successors: AtomicUsize,
    successor_groups_with_new_claim: AtomicUsize,
    successor_groups_with_busy: AtomicUsize,
    successor_revisit_groups_with_busy: AtomicUsize,
}

/// What is counted one by one.
pub enum Count {
    CompletedCacheHits,
    CompletedPositions,
    DuplicatePublishRaces,
    ProcessingHits,
    DeferredResolved,
    SymmetryZeroCertificates,
    CooperativeRegions,
    CooperativeWorkerEntries,
    DeferredDescents,
    GroupDeferrals,
    GroupRevisits,
    SuccessorGroupsStarted,
    SuccessorGroupSuccessors,
    SuccessorGroupsWithNewClaim,
    SuccessorGroupsWithBusy,
    SuccessorRevisitGroupsWithBusy,
}

fn current(counter: &AtomicUsize) -> (count: usize)
    ensures
        counts(counter, count),
{
    read_counter(counter)
}

impl SharedStats {
    /// The counter of `count`.
    spec fn counter(&self, count: Count) -> &AtomicUsize {
        match count {
            Count::CompletedCacheHits => &self.completed_cache_hits,
            Count::CompletedPositions => &self.completed_positions,
            Count::DuplicatePublishRaces => &self.duplicate_publish_races,
            Count::ProcessingHits => &self.processing_hits,
            Count::DeferredResolved => &self.deferred_resolved,
            Count::SymmetryZeroCertificates => &self.symmetry_zero_certificates,
            Count::CooperativeRegions => &self.cooperative_regions,
            Count::CooperativeWorkerEntries => &self.cooperative_worker_entries,
            Count::DeferredDescents => &self.deferred_descents,
            Count::GroupDeferrals => &self.group_deferrals,
            Count::GroupRevisits => &self.group_revisits,
            Count::SuccessorGroupsStarted => &self.successor_groups_started,
            Count::SuccessorGroupSuccessors => &self.successor_group_successors,
            Count::SuccessorGroupsWithNewClaim => &self.successor_groups_with_new_claim,
            Count::SuccessorGroupsWithBusy => &self.successor_groups_with_busy,
            Count::SuccessorRevisitGroupsWithBusy => &self.successor_revisit_groups_with_busy,
        }
    }

    /// Whether `amount` is added to `count`.
    pub closed spec fn counts_more(&self, count: Count, amount: usize) -> bool {
        exists|before: usize| #[trigger] adds(self.counter(count), amount, before)
    }

    /// Whether the attempts are found at `before`, and left at `after`.
    pub closed spec fn attempts_replaced(&self, before: AttemptCounts, after: AttemptCounts) -> bool {
        replaces(&self.attempts, before, after)
    }

    /// Whether a computation that was started for a claim is counted.
    pub open spec fn counts_claim(&self) -> bool {
        exists|before: AttemptCounts, after: AttemptCounts| #[trigger]
            self.attempts_replaced(before, after) && counts_claimed(before, after)
    }

    /// Whether a computation that was forced is counted.
    pub open spec fn counts_force(&self) -> bool {
        exists|before: AttemptCounts, after: AttemptCounts| #[trigger]
            self.attempts_replaced(before, after) && counts_forced(before, after)
    }

    /// Whether the clock of active workers is found at `before`, and left at `after`.
    pub closed spec fn clock_replaced(
        &self,
        before: ActiveWorkerClock,
        after: ActiveWorkerClock,
    ) -> bool {
        replaces(&self.active_worker_clock, before, after)
    }

    /// Whether the time up to now is counted, and `active` workers are active from now on.
    pub open spec fn sets_active(&self, active: usize) -> bool {
        exists|before: ActiveWorkerClock, after: ActiveWorkerClock| #[trigger]
            self.clock_replaced(before, after) && rolled_forward(before, after) && after.active()
                == active
    }

    /// Whether one worker more is active, which may be more than ever before.
    pub closed spec fn starts_worker(&self) -> bool {
        exists|before: usize, active: usize, most: usize|
            {
                &&& #[trigger] adds(&self.active_workers, 1, before)
                &&& active == capped(before as int, 1)
                &&& self.sets_active(active)
                &&& #[trigger] raises(&self.max_active_workers, active, most)
            }
    }

    /// Whether one worker fewer is active.
    pub closed spec fn finishes_worker(&self) -> bool {
        exists|before: usize| #[trigger]
            subtracts(&self.active_workers, 1, before) && self.sets_active(
                (if before > 0 {
                    before - 1
                } else {
                    0
                }) as usize,
            )
    }

    /// Whether nothing has been counted yet.
    pub closed spec fn is_fresh(&self) -> bool {
        &&& starts_with(self.attempts, AttemptCounts { attempts: 0, claimed: 0, forced: 0 })
        &&& starts_at(self.completed_cache_hits, 0)
        &&& starts_at(self.completed_positions, 0)
        &&& starts_at(self.duplicate_publish_races, 0)
        &&& starts_at(self.processing_hits, 0)
        &&& starts_at(self.deferred_resolved, 0)
        &&& starts_at(self.symmetry_zero_certificates, 0)
        &&& starts_at(self.cooperative_regions, 0)
        &&& starts_at(self.cooperative_group_pulls, 0)
        &&& starts_at(self.cooperative_worker_entries, 0)
        &&& starts_at(self.deferred_descents, 0)
        &&& starts_at(self.group_deferrals, 0)
        &&& starts_at(self.group_revisits, 0)
        &&& starts_at(self.active_workers, 0)
        &&& starts_at(self.max_active_workers, 0)
        &&& exists|clock: ActiveWorkerClock| #[trigger]
            starts_with(self.active_worker_clock, clock) && clock.active() == 0 && clock.counted()
                == 0
        &&& starts_at(self.successor_groups_started, 0)
        &&& starts_at(self.successor_group_successors, 0)
        &&& starts_at(self.successor_groups_with_new_claim, 0)
        &&& starts_at(self.successor_groups_with_busy, 0)
        &&& starts_at(self.successor_revisit_groups_with_busy, 0)
    }

    pub fn new() -> (stats: Self)
        ensures
            stats.is_fresh(),
    {
        let clock = ActiveWorkerClock::new();
        let ghost started = clock;
        let stats = SharedStats {
            attempts: new_lock(
                AttemptCounts { attempts: 0, claimed: 0, forced: 0 },
                Ghost(AttemptsBalance),
            ),
            completed_cache_hits: new_counter(0),
            completed_positions: new_counter(0),
            duplicate_publish_races: new_counter(0),
            processing_hits: new_counter(0),
            deferred_resolved: new_counter(0),
            symmetry_zero_certificates: new_counter(0),
            cooperative_regions: new_counter(0),
            cooperative_group_pulls: new_counter(0),
            cooperative_worker_entries: new_counter(0),
            deferred_descents: new_counter(0),
            group_deferrals: new_counter(0),
            group_revisits: new_counter(0),
            active_workers: new_counter(0),
            max_active_workers: new_counter(0),
            active_worker_clock: new_lock(clock, Ghost(AnyClock)),
            successor_groups_started: new_counter(0),
            successor_group_successors: new_counter(0),
            successor_groups_with_new_claim: new_counter(0),
            successor_groups_with_busy: new_counter(0),
            successor_revisit_groups_with_busy: new_counter(0),
        };
        proof {
            assert(starts_with(stats.active_worker_clock, started));
        }
        stats
    }

    /// Whether the counts are read as `stats`.
    pub closed spec fn shows(&self, stats: EvaluatorStats) -> bool {
        &&& finds(
            &self.attempts,
            AttemptCounts {
                attempts: stats.evaluation_attempts,
                claimed: stats.unique_positions_claimed,
                forced: stats.forced_duplicate_evaluations,
            },
        )
        &&& counts(&self.completed_cache_hits, stats.completed_cache_hits)
        &&& counts(&self.completed_positions, stats.completed_positions)
        &&& counts(&self.duplicate_publish_races, stats.duplicate_publish_races)
        &&& counts(&self.processing_hits, stats.processing_hits)
        &&& counts(&self.deferred_resolved, stats.deferred_resolved)
        &&& counts(&self.symmetry_zero_certificates, stats.symmetry_zero_certificates)
        &&& counts(&self.cooperative_regions, stats.cooperative_regions)
        &&& counts(&self.cooperative_group_pulls, stats.cooperative_group_pulls)
        &&& counts(&self.cooperative_worker_entries, stats.cooperative_worker_entries)
        &&& counts(&self.deferred_descents, stats.deferred_descents)
        &&& counts(&self.group_deferrals, stats.group_deferrals)
        &&& counts(&self.group_revisits, stats.group_revisits)
        &&& counts(&self.max_active_workers, stats.max_active_workers)
        &&& counts(&self.successor_groups_started, stats.successor_groups_started)
        &&& counts(&self.successor_group_successors, stats.successor_group_successors)
        &&& counts(&self.successor_groups_with_new_claim, stats.successor_groups_with_new_claim)
        &&& counts(&self.successor_groups_with_busy, stats.successor_groups_with_busy)
        &&& counts(
            &self.successor_revisit_groups_with_busy,
            stats.successor_revisit_groups_with_busy,
        )
    }

    /// Whether the time that workers have been active up to now is `micros` microseconds.
    pub open spec fn shows_micros(&self, micros: usize) -> bool {
        exists|before: ActiveWorkerClock, after: ActiveWorkerClock|
            {
                &&& #[trigger] self.clock_replaced(before, after)
                &&& rolled_forward(before, after)
                &&& after.active() == before.active()
                &&& micros == if after.counted() <= usize::MAX {
                    after.counted() as int
                } else {
                    usize::MAX as int
                }
            }
    }

    /// The counts at this moment. Every computation was started for a claim or was forced.
    pub fn snapshot(&self) -> (stats: EvaluatorStats)
        ensures
            self.shows(stats),
            self.shows_micros(stats.active_worker_micros),
            stats.evaluation_attempts == stats.unique_positions_claimed
                + stats.forced_duplicate_evaluations,
    {
        let handle = enter_to_read(&self.attempts);
        let evaluation_attempts: usize = handle.borrow().attempts;
        let unique_positions_claimed: usize = handle.borrow().claimed;
        let forced_duplicate_evaluations: usize = handle.borrow().forced;
        handle.release_read();
        let (mut clock, handle) = enter_to_write(&self.active_worker_clock);
        let ghost found = clock;
        let ghost held = handle;
        let active_worker_micros: usize = clock.active_micros();
        let ghost left = clock;
        leave(handle, clock);
        proof {
            assert(enters(&self.active_worker_clock, found, held) && leaves(held, left));
            assert(self.clock_replaced(found, left));
        }
        EvaluatorStats {
            evaluation_attempts,
            completed_cache_hits: current(&self.completed_cache_hits),
            unique_positions_claimed,
            completed_positions: current(&self.completed_positions),
            duplicate_publish_races: current(&self.duplicate_publish_races),
            processing_hits: current(&self.processing_hits),
            deferred_resolved: current(&self.deferred_resolved),
            forced_duplicate_evaluations,
            symmetry_zero_certificates: current(&self.symmetry_zero_certificates),
            cooperative_regions: current(&self.cooperative_regions),
            cooperative_group_pulls: current(&self.cooperative_group_pulls),
            cooperative_worker_entries: current(&self.cooperative_worker_entries),
            deferred_descents: current(&self.deferred_descents),
            group_deferrals: current(&self.group_deferrals),
            group_revisits: current(&self.group_revisits),
            max_active_workers: current(&self.max_active_workers),
            active_worker_micros,
            successor_groups_started: current(&self.successor_groups_started),
            successor_group_successors: current(&self.successor_group_successors),
            successor_groups_with_new_claim: current(&self.successor_groups_with_new_claim),
            successor_groups_with_busy: current(&self.successor_groups_with_busy),
            successor_revisit_groups_with_busy: current(&self.successor_revisit_groups_with_busy),
        }
    }

    /// A position was claimed, and its computation started.
    pub(crate) fn claimed_attempt(&self)
        ensures
            self.counts_claim(),
    {
        let (mut counts, handle) = enter_to_write(&self.attempts);
        let ghost found = counts;
        let ghost held = handle;
        counts.count_claimed();
        let ghost left = counts;
        leave(handle, counts);
        proof {
            assert(enters(&self.attempts, found, held) && leaves(held, left));
            assert(self.attempts_replaced(found, left));
        }
    }

    /// The computation of a busy position was started.
    pub(crate) fn forced_attempt(&self)
        ensures
            self.counts_force(),
    {
        let (mut counts, handle) = enter_to_write(&self.attempts);
        let ghost found = counts;
        let ghost held = handle;
        counts.count_forced();
        let ghost left = counts;
        leave(handle, counts);
        proof {
            assert(enters(&self.attempts, found, held) && leaves(held, left));
            assert(self.attempts_replaced(found, left));
        }
    }

    pub(crate) fn completed_cache_hit(&self)
        ensures
            self.counts_more(Count::CompletedCacheHits, 1),
    {
        let before: usize = add_to(&self.completed_cache_hits, 1);
        proof {
            assert(adds(self.counter(Count::CompletedCacheHits), 1, before));
        }
    }

    pub(crate) fn completed_position(&self)
        ensures
            self.counts_more(Count::CompletedPositions, 1),
    {
        let before: usize = add_to(&self.completed_positions, 1);
        proof {
            assert(adds(self.counter(Count::CompletedPositions), 1, before));
        }
    }

    pub(crate) fn duplicate_publish_race(&self)
        ensures
            self.counts_more(Count::DuplicatePublishRaces, 1),
    {
        let before: usize = add_to(&self.duplicate_publish_races, 1);
        proof {
            assert(adds(self.counter(Count::DuplicatePublishRaces), 1, before));
        }
    }

    pub(crate) fn processing_hit(&self)
        ensures
            self.counts_more(Count::ProcessingHits, 1),
    {
        let before: usize = add_to(&self.processing_hits, 1);
        proof {
            assert(adds(self.counter(Count::ProcessingHits), 1, before));
        }
    }

    pub(crate) fn deferred_resolved(&self)
        ensures
            self.counts_more(Count::DeferredResolved, 1),
    {
        let before: usize = add_to(&self.deferred_resolved, 1);
        proof {
            assert(adds(self.counter(Count::DeferredResolved), 1, before));
        }
    }

    pub(crate) fn symmetry_zero_certificate(&self)
        ensures
            self.counts_more(Count::SymmetryZeroCertificates, 1),
    {
        let before: usize = add_to(&self.symmetry_zero_certificates, 1);
        proof {
            assert(adds(self.counter(Count::SymmetryZeroCertificates), 1, before));
        }
    }

    pub(crate) fn cooperative_region(&self)
        ensures
            self.counts_more(Count::CooperativeRegions, 1),
    {
        let before: usize = add_to(&self.cooperative_regions, 1);
        proof {
            assert(adds(self.counter(Count::CooperativeRegions), 1, before));
        }
    }

    pub(crate) fn cooperative_worker_entry(&self)
        ensures
            self.counts_more(Count::CooperativeWorkerEntries, 1),
    {
        let before: usize = add_to(&self.cooperative_worker_entries, 1);
        proof {
            assert(adds(self.counter(Count::CooperativeWorkerEntries), 1, before));
        }
    }

    pub(crate) fn deferred_descent(&self)
        ensures
            self.counts_more(Count::DeferredDescents, 1),
    {
        let before: usize = add_to(&self.deferred_descents, 1);
        proof {
            assert(adds(self.counter(Count::DeferredDescents), 1, before));
        }
    }

    pub(crate) fn group_deferral(&self)
        ensures
            self.counts_more(Count::GroupDeferrals, 1),
    {
        let before: usize = add_to(&self.group_deferrals, 1);
        proof {
            assert(adds(self.counter(Count::GroupDeferrals), 1, before));
        }
    }

    pub(crate) fn group_revisit(&self)
        ensures
            self.counts_more(Count::GroupRevisits, 1),
    {
        let before: usize = add_to(&self.group_revisits, 1);
        proof {
            assert(adds(self.counter(Count::GroupRevisits), 1, before));
        }
    }

    /// A worker starts.
    pub(crate) fn worker_started(&self)
        ensures
            self.starts_worker(),
    {
        let before: usize = add_to(&self.active_workers, 1);
        let active: usize = before.saturating_add(1);
        self.set_active(active);
        let most: usize = raise_to(&self.max_active_workers, active);
        proof {
            assert(active == capped(before as int, 1));
            assert(adds(&self.active_workers, 1, before));
            assert(raises(&self.max_active_workers, active, most));
        }
    }

    /// A worker is done.
    pub(crate) fn worker_finished(&self)
        ensures
            self.finishes_worker(),
    {
        let before: usize = subtract_from(&self.active_workers, 1);
        let active: usize = before.saturating_sub(1);
        self.set_active(active);
        proof {
            assert(subtracts(&self.active_workers, 1, before));
        }
    }

    fn set_active(&self, active: usize)
        ensures
            self.sets_active(active),
    {
        let (mut clock, handle) = enter_to_write(&self.active_worker_clock);
        let ghost found = clock;
        let ghost held = handle;
        clock.set_active(active);
        let ghost left = clock;
        leave(handle, clock);
        proof {
            assert(enters(&self.active_worker_clock, found, held) && leaves(held, left));
            assert(self.clock_replaced(found, left));
        }
    }

    /// Adds the counts of a worker.
    pub(crate) fn flush_distribution(&self, distribution: DistributionStats)
        ensures
            self.counts_more(Count::SuccessorGroupsStarted, distribution.successor_groups_started),
            self.counts_more(
                Count::SuccessorGroupSuccessors,
                distribution.successor_group_successors,
            ),
            self.counts_more(
                Count::SuccessorGroupsWithNewClaim,
                distribution.successor_groups_with_new_claim,
            ),
            self.counts_more(
                Count::SuccessorGroupsWithBusy,
                distribution.successor_groups_with_busy,
            ),
            self.counts_more(
                Count::SuccessorRevisitGroupsWithBusy,
                distribution.successor_revisit_groups_with_busy,
            ),
    {
        let started: usize = add_to(
            &self.successor_groups_started,
            distribution.successor_groups_started,
        );
        let successors: usize = add_to(
            &self.successor_group_successors,
            distribution.successor_group_successors,
        );
        let claims: usize = add_to(
            &self.successor_groups_with_new_claim,
            distribution.successor_groups_with_new_claim,
        );
        let busy: usize = add_to(
            &self.successor_groups_with_busy,
            distribution.successor_groups_with_busy,
        );
        let revisits: usize = add_to(
            &self.successor_revisit_groups_with_busy,
            distribution.successor_revisit_groups_with_busy,
        );
        proof {
            assert(adds(
                self.counter(Count::SuccessorGroupsStarted),
                distribution.successor_groups_started,
                started,
            ));
            assert(adds(
                self.counter(Count::SuccessorGroupSuccessors),
                distribution.successor_group_successors,
                successors,
            ));
            assert(adds(
                self.counter(Count::SuccessorGroupsWithNewClaim),
                distribution.successor_groups_with_new_claim,
                claims,
            ));
            assert(adds(
                self.counter(Count::SuccessorGroupsWithBusy),
                distribution.successor_groups_with_busy,
                busy,
            ));
            assert(adds(
                self.counter(Count::SuccessorRevisitGroupsWithBusy),
                distribution.successor_revisit_groups_with_busy,
                revisits,
            ));
        }
    }
}

/// How much the cache holds, by kind.
#[derive(Clone, Copy, Debug, PartialEq, Eq, Structural)]
pub struct ProgressCounts {
    pub cache_entries: usize,
    pub cache_done_entries: usize,
    pub cache_processing_entries: usize,
    pub estimated_cache_bytes: usize,
}

/// How much the cache holds, as the counts of the work tell without a look into the cache.
pub fn cheap_counts(stats: &EvaluatorStats, cache_entries: usize) -> (counts: ProgressCounts)
    ensures
        counts.cache_entries == cache_entries,
        counts.cache_done_entries == stats.completed_positions,
        counts.cache_processing_entries == (if stats.unique_positions_claimed
            >= stats.completed_positions {
            stats.unique_positions_claimed - stats.completed_positions
        } else {
            0
        }),
        counts.estimated_cache_bytes == 0,
{
    ProgressCounts {
        cache_entries,
        cache_done_entries: stats.completed_positions,
        cache_processing_entries: stats.unique_positions_claimed.saturating_sub(
            stats.completed_positions,
        ),
        estimated_cache_bytes: 0,
    }
}

} // verus!
