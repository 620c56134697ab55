//! How the counts of the work add up.
use crate::sharded::add_profiles;
use crate::cache::CacheProfile;
use crate::stats::{add_worked, cheap_counts, AttemptCounts, DistributionStats, EvaluatorStats};
use crate::stats::ProgressCounts;
use vstd::prelude::*;

verus! {

/// Whether no count of the two comes near the highest number of a machine word.
pub open spec fn are_small(a: DistributionStats, b: DistributionStats) -> bool {
    &&& a.successor_groups_started + b.successor_groups_started < usize::MAX
    &&& a.successor_group_successors + b.successor_group_successors < usize::MAX
    &&& a.successor_groups_with_new_claim + b.successor_groups_with_new_claim < usize::MAX
    &&& a.successor_groups_with_busy + b.successor_groups_with_busy < usize::MAX
    &&& a.successor_revisit_groups_with_busy + b.successor_revisit_groups_with_busy < usize::MAX
}

/// The counts of two workers together are the sums of their counts, each for itself; it does not matter
/// whose counts are added to whose.
pub proof fn lemma_counts_of_workers_add_up(
    a: &mut DistributionStats,
    b: &mut DistributionStats,
)
    requires
        are_small(*old(a), *old(b)),
        call_ensures(DistributionStats::merge, (a, *old(b)), ()),
        call_ensures(DistributionStats::merge, (b, *old(a)), ()),
    ensures
        final(a).successor_groups_started == old(a).successor_groups_started
            + old(b).successor_groups_started,
        final(a).successor_group_successors == old(a).successor_group_successors
            + old(b).successor_group_successors,
        final(a).successor_groups_with_new_claim == old(a).successor_groups_with_new_claim
            + old(b).successor_groups_with_new_claim,
        final(a).successor_groups_with_busy == old(a).successor_groups_with_busy
            + old(b).successor_groups_with_busy,
        final(a).successor_revisit_groups_with_busy == old(a).successor_revisit_groups_with_busy
            + old(b).successor_revisit_groups_with_busy,
        *final(a) == *final(b),
{
}

/// A group that is recorded by one worker counts as much as one that is recorded by another and merged:
/// one group, its successors, and one more of each kind that it is.
pub proof fn lemma_recorded_or_merged(
    direct: &mut DistributionStats,
    alone: &mut DistributionStats,
    merged: &mut DistributionStats,
    blank: DistributionStats,
    successors: usize,
    new_claim: bool,
    busy: bool,
    revisit_busy: bool,
)
    requires
        call_ensures(DistributionStats::new, (), blank),
        call_ensures(
            DistributionStats::record_successor_group,
            (direct, successors, new_claim, busy, revisit_busy),
            (),
        ),
        *old(alone) == blank,
        call_ensures(
            DistributionStats::record_successor_group,
            (alone, successors, new_claim, busy, revisit_busy),
            (),
        ),
        *old(merged) == *old(direct),
        call_ensures(DistributionStats::merge, (merged, *final(alone)), ()),
    ensures
        *final(merged) == *final(direct),
        final(alone).successor_groups_started == 1,
        final(alone).successor_group_successors == successors,
        final(alone).successor_groups_with_new_claim == if new_claim {
            1int
        } else {
            0
        },
        final(alone).successor_groups_with_busy == if busy {
            1int
        } else {
            0
        },
        final(alone).successor_revisit_groups_with_busy == if revisit_busy {
            1int
        } else {
            0
        },
{
}

/// A computation is started for a claim or because it is forced: counting one of either raises the
/// number of computations by one, and the other stays.
pub proof fn lemma_attempts_are_claims_and_forced(
    claimed: &mut AttemptCounts,
    forced: &mut AttemptCounts,
)
    requires
        old(claimed).attempts == old(claimed).claimed + old(claimed).forced,
        old(claimed).attempts < usize::MAX,
        *old(forced) == *old(claimed),
        call_ensures(AttemptCounts::count_claimed, (claimed,), ()),
        call_ensures(AttemptCounts::count_forced, (forced,), ()),
    ensures
        final(claimed).attempts == old(claimed).attempts + 1,
        final(claimed).claimed == old(claimed).claimed + 1,
        final(claimed).forced == old(claimed).forced,
        final(forced).attempts == old(claimed).attempts + 1,
        final(forced).claimed == old(claimed).claimed,
        final(forced).forced == old(claimed).forced + 1,
{
}

/// What the counts tell of the cache: the positions that were claimed are done or being computed.
pub proof fn lemma_claimed_is_done_or_not(
    stats: EvaluatorStats,
    cache_entries: usize,
    counts: ProgressCounts,
)
    requires
        stats.completed_positions <= stats.unique_positions_claimed,
        call_ensures(cheap_counts, (&stats, cache_entries), counts),
    ensures
        counts.cache_done_entries + counts.cache_processing_entries
            == stats.unique_positions_claimed,
        counts.cache_done_entries == stats.completed_positions,
        counts.cache_entries == cache_entries,
{
}

/// The time that workers are at work adds up: that of two stretches is that of both together, and that
/// of no workers is none.
pub proof fn lemma_work_adds_up(
    total: u128,
    active: usize,
    first: u128,
    second: u128,
    both: u128,
    after_first: u128,
    after_second: u128,
    at_once: u128,
    idle: u128,
)
    requires
        both == first + second,
        call_ensures(add_worked, (total, active, first), after_first),
        call_ensures(add_worked, (after_first, active, second), after_second),
        call_ensures(add_worked, (total, active, both), at_once),
        call_ensures(add_worked, (total, 0usize, first), idle),
    ensures
        after_second == at_once,
        idle == total,
        total <= after_first <= after_second,
        active > 0 && first > 0 && total < u128::MAX ==> after_first > total,
{
    assert(active * both == active * first + active * second) by (nonlinear_arith)
        requires
            both == first + second,
    ;
    assert(0 <= active * first) by (nonlinear_arith);
    assert(0 <= active * second) by (nonlinear_arith);
    assert(0 * first == 0);
    if active > 0 && first > 0 {
        assert(active * first > 0) by (nonlinear_arith)
            requires
                active > 0,
                first > 0,
        ;
    }
}

/// The counts of two tables together are the sums of their counts, where machine words can count them;
/// the estimate of their size is no less than the sum of theirs.
pub proof fn lemma_profiles_add_up(a: CacheProfile, b: CacheProfile, sum: CacheProfile)
    requires
        a.entries + b.entries <= usize::MAX,
        a.done + b.done <= usize::MAX,
        a.processing + b.processing <= usize::MAX,
        call_ensures(add_profiles, (a, b), sum),
    ensures
        sum.entries == a.entries + b.entries,
        sum.done == a.done + b.done,
        sum.processing == a.processing + b.processing,
        sum.estimated_bytes >= a.estimated_bytes + b.estimated_bytes || sum.estimated_bytes
            == usize::MAX,
{
}

} // verus!
