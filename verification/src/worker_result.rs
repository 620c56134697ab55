//! What a worker has found out about the options of a position.
use crate::components::{is_part, node_count, values};
use crate::grid::Grid;
use crate::limits::{fits, lemma_fits_isomorphic, lemma_fits_part};
use crate::nim::{grundy, is_option, isomorphic, lemma_grundy, lemma_grundy_is, nim_total};
use crate::nim::{reaches, Position};
use crate::nimbers::NimberSet;
use crate::solver::{stands_for, CanonicalGame};
use crate::stats::{is_blank, is_merged, is_recorded, DistributionStats};
use crate::successor::{covers_moves, group_has_value, is_successor, IndexedSuccessorGroups};
use crate::traversal::{mix_usize, Stride};
use vstd::prelude::*;

verus! {

/// Whether a machine word can count the moves of every part.
pub open spec fn parts_fit(parts: Seq<Grid>) -> bool {
    forall|i: int| 0 <= i < parts.len() ==> fits((#[trigger] parts[i]).cells)
}

/// Whether `nimber` is the nimber of the parts together, if a machine word can count their moves.
pub open spec fn is_total_of(parts: Seq<Grid>, nimber: usize) -> bool {
    parts_fit(parts) ==> nimber == nim_total(values(parts))
}

/// The parts of a position that fits, fit.
pub proof fn lemma_parts_fit(position: Position, parts: Seq<Grid>)
    requires
        position.finite(),
        fits(position),
        forall|i: int| 0 <= i < parts.len() ==> is_part(position, #[trigger] parts[i]),
    ensures
        parts_fit(parts),
{
    assert forall|i: int| 0 <= i < parts.len() implies fits((#[trigger] parts[i]).cells) by {
        let t = choose|t: Position|
            t.subset_of(position) && #[trigger] isomorphic(t, parts[i].cells);
        lemma_fits_part(position, t);
        vstd::set_lib::lemma_set_subset_finite(position, t);
        lemma_fits_isomorphic(t, parts[i].cells);
    }
}

/// No part has more nodes than all parts together.
pub proof fn lemma_part_smaller(parts: Seq<Grid>, i: int)
    requires
        0 <= i < parts.len(),
    ensures
        parts[i].cells.len() <= node_count(parts),
    decreases parts.len(),
{
    if i < parts.len() - 1 {
        lemma_part_smaller(parts.drop_last(), i);
        assert(parts.drop_last()[i] == parts[i]);
    }
}

/// A successor of a position has fewer nodes, and fits if the position does.
pub proof fn lemma_successor(position: Position, t: Position, parts: Seq<Grid>)
    requires
        position.finite(),
        is_option(position, t),
        stands_for(t, parts),
    ensures
        is_successor(position, parts),
        node_count(parts) < position.len(),
        fits(position) ==> parts_fit(parts),
{
    if fits(position) {
        lemma_fits_part(position, t);
        vstd::set_lib::lemma_set_subset_finite(position, t);
        lemma_parts_fit(t, parts);
    }
}

/// The nimbers of options of a position that a worker has found, and the options that it has put off.
pub struct WorkerResult {
    pub reachable: NimberSet,
    pub pending: Vec<CanonicalGame>,
    pub distribution: DistributionStats,
    pub cancelled: bool,
}

impl WorkerResult {
    pub fn new(bit_count: usize) -> (worker: Self)
        ensures
            worker.reachable.wf(),
            worker.reachable@ == Set::<int>::empty(),
            worker.pending@.len() == 0,
            is_blank(worker.distribution),
            !worker.cancelled,
    {
        WorkerResult {
            reachable: NimberSet::new(bit_count),
            pending: Vec::new(),
            distribution: DistributionStats::new(),
            cancelled: false,
        }
    }

    /// The nimbers that are found, or that the options that were put off have.
    pub open spec fn cover(&self) -> Set<nat> {
        Set::new(
            |v: nat| self.reachable@.contains(v as int) || has_pending_value(self.pending@, v),
        )
    }

    /// Whether the worker has found options of `position` only. Their nimbers are right if they were
    /// computed from right nimbers and a machine word can count the moves.
    pub open spec fn wf(&self, position: Position, sound: bool) -> bool {
        &&& self.reachable.wf()
        &&& forall|i: int|
            0 <= i < self.pending@.len() ==> (#[trigger] self.pending@[i]).wf() && is_successor(
                position,
                self.pending@[i]@,
            )
        &&& sound && fits(position) ==> only_reached(position, self.reachable@)
    }

    /// Whether the worker has found the nimbers of all options of `position`.
    pub open spec fn complete(&self, position: Position) -> bool {
        forall|t: Position| #[trigger]
            is_option(position, t) ==> self.reachable@.contains(grundy(t) as int)
    }

    pub fn record_successor_group(
        &mut self,
        successor_count: usize,
        had_new_claim: bool,
        had_busy: bool,
        revisit_busy: bool,
    )
        ensures
            final(self).reachable == old(self).reachable,
            final(self).pending == old(self).pending,
            final(self).cancelled == old(self).cancelled,
            is_recorded(
                old(self).distribution,
                final(self).distribution,
                successor_count,
                had_new_claim,
                had_busy,
                revisit_busy,
            ),
    {
        self.distribution.record_successor_group(
            successor_count,
            had_new_claim,
            had_busy,
            revisit_busy,
        );
    }

    /// Adds a nimber that an option of `position` has.
    pub fn found(&mut self, nimber: usize, Ghost(position): Ghost<Position>, Ghost(sound): Ghost<bool>)
        requires
            old(self).wf(position, sound),
            sound && fits(position) ==> reaches(position, nimber as nat),
        ensures
            final(self).wf(position, sound),
            final(self).reachable@ == old(self).reachable@.insert(nimber as int),
            final(self).pending == old(self).pending,
            final(self).distribution == old(self).distribution,
            final(self).cancelled == old(self).cancelled,
            old(self).cover().subset_of(final(self).cover()),
            final(self).cover().contains(nimber as nat),
    {
        self.reachable.insert(nimber);
    }

    /// Adds what another worker has found.
    pub fn merge(
        &mut self,
        other: WorkerResult,
        Ghost(position): Ghost<Position>,
        Ghost(sound): Ghost<bool>,
    )
        requires
            old(self).wf(position, sound),
            other.wf(position, sound),
        ensures
            final(self).wf(position, sound),
            final(self).reachable@ == old(self).reachable@.union(other.reachable@),
            final(self).pending@ == old(self).pending@ + other.pending@,
            is_merged(old(self).distribution, other.distribution, final(self).distribution),
            final(self).cancelled == (old(self).cancelled || other.cancelled),
    {
        let WorkerResult { reachable, pending, distribution, cancelled } = other;
        let mut pending = pending;
        self.cancelled = self.cancelled || cancelled;
        self.reachable.union_with(&reachable);
        self.pending.append(&mut pending);
        self.distribution.merge(distribution);
        proof {
            let before = old(self).pending@;
            assert forall|i: int| 0 <= i < self.pending@.len() implies (
            #[trigger] self.pending@[i]).wf() && is_successor(position, self.pending@[i]@) by {
                if i < before.len() {
                    assert(self.pending@[i] == before[i]);
                } else {
                    assert(self.pending@[i] == other.pending@[i - before.len()]);
                }
            }
        }
    }

    /// Puts off an option of `position`.
    pub fn put_off(
        &mut self,
        game: CanonicalGame,
        Ghost(position): Ghost<Position>,
        Ghost(sound): Ghost<bool>,
    )
        requires
            old(self).wf(position, sound),
            game.wf(),
            is_successor(position, game@),
        ensures
            final(self).wf(position, sound),
            final(self).reachable == old(self).reachable,
            final(self).pending@ == old(self).pending@.push(game),
            final(self).distribution == old(self).distribution,
            final(self).cancelled == old(self).cancelled,
            old(self).cover().subset_of(final(self).cover()),
            final(self).cover().contains(nim_total(values(game@))),
    {
        self.pending.push(game);
        proof {
            let before = old(self).pending@;
            assert forall|v: nat| has_pending_value(before, v) implies has_pending_value(
                self.pending@,
                v,
            ) by {
                let i = choose|i: int|
                    0 <= i < before.len() && nim_total(values((#[trigger] before[i])@)) == v;
                assert(self.pending@[i] == before[i]);
            }
            let last = before.len() as int;
            assert(self.pending@[last] == game);
            assert(has_pending_value(self.pending@, nim_total(values(game@))));
        }
    }
}

/// Whether one of the games has the nimber `v`.
pub open spec fn has_pending_value(games: Seq<CanonicalGame>, v: nat) -> bool {
    exists|i: int| 0 <= i < games.len() && nim_total(values((#[trigger] games[i])@)) == v
}

/// Whether every number of the set is the nimber of an option of `position`.
pub open spec fn only_reached(position: Position, found: Set<int>) -> bool {
    forall|v: int| #[trigger] found.contains(v) ==> v >= 0 && reaches(position, v as nat)
}

/// The least number that a complete worker has not found is the nimber of the position.
pub proof fn lemma_complete_mex(position: Position, worker: WorkerResult, least: usize)
    requires
        position.finite(),
        position.len() <= usize::MAX,
        only_reached(position, worker.reachable@),
        worker.complete(position),
        forall|m: int| 0 <= m < least ==> #[trigger] worker.reachable@.contains(m),
        worker.reachable@.contains(least as int) ==> least == usize::MAX,
    ensures
        grundy(position) == least,
{
    assert(!worker.reachable@.contains(least as int)) by {
        if worker.reachable@.contains(least as int) {
            assert(reaches(position, least as nat));
            let t = choose|t: Position| is_option(position, t) && #[trigger] grundy(t) == least;
            vstd::set_lib::lemma_set_subset_finite(position, t);
            lemma_grundy(t);
        }
    }
    assert forall|t: Position| #[trigger] is_option(position, t) implies grundy(t) != least by {
        assert(worker.reachable@.contains(grundy(t) as int));
    }
    assert forall|m: nat| m < least implies #[trigger] reaches(position, m) by {
        assert(worker.reachable@.contains(m as int));
    }
    lemma_grundy_is(position, least as nat);
}

/// A group of successors, and how far the walk over it has got.
#[derive(Clone, Copy)]
pub struct DeferredGroup {
    pub group_index: usize,
    pub walk: Stride,
    pub visited: usize,
}

impl DeferredGroup {
    pub fn new(group_index: usize, group_len: usize, seed: usize) -> (group: Self)
        requires
            group_len < usize::MAX,
        ensures
            group.group_index == group_index,
            group.walk.wf(),
            group.walk.length() == group_len,
            group.visited == 0,
    {
        DeferredGroup {
            group_index,
            walk: Stride::new(group_len, mix_usize(seed, group_index)),
            visited: 0,
        }
    }

    pub fn move_index(self, visited: usize) -> (index: usize)
        requires
            self.walk.wf(),
            visited < self.walk.length(),
        ensures
            index == self.walk.at(visited as int),
            index < self.walk.length(),
    {
        self.walk.index(visited)
    }

    pub fn resume_at(self, visited: usize) -> (group: Self)
        ensures
            group.group_index == self.group_index,
            group.walk == self.walk,
            group.visited == visited,
    {
        DeferredGroup { group_index: self.group_index, walk: self.walk, visited }
    }
}

/// Whether `group` is a walk over a group of `groups`.
pub open spec fn is_walk_of<IG: IndexedSuccessorGroups>(groups: IG, group: DeferredGroup) -> bool {
    &&& group.group_index < groups.group_count()
    &&& group.walk.wf()
    &&& group.walk.length() == groups.group_size(group.group_index as int)
    &&& group.visited <= group.walk.length()
}

/// Whether the nimbers of the first `steps` moves of the walk are in `cover`.
pub open spec fn walked<IG: IndexedSuccessorGroups>(
    cover: Set<nat>,
    groups: IG,
    group: DeferredGroup,
    steps: int,
) -> bool {
    forall|v: int|
        0 <= v < steps ==> cover.contains(
            grundy(groups.after(group.group_index as int, #[trigger] group.walk.at(v))),
        )
}

/// Whether the nimbers of all moves of the group are in `cover`.
pub open spec fn group_covered<IG: IndexedSuccessorGroups>(
    cover: Set<nat>,
    groups: IG,
    group: int,
) -> bool {
    forall|index: int|
        0 <= index < groups.group_size(group) ==> cover.contains(
            grundy(#[trigger] groups.after(group, index)),
        )
}

/// Whether all moves of the group are covered, or the walk over it can be resumed.
pub open spec fn handled<IG: IndexedSuccessorGroups>(
    cover: Set<nat>,
    deferred: Seq<DeferredGroup>,
    groups: IG,
    group: int,
) -> bool {
    group_covered(cover, groups, group) || exists|i: int|
        0 <= i < deferred.len() && (#[trigger] deferred[i]).group_index == group
}

/// Whether every walk that was put off can be resumed.
pub open spec fn resumable<IG: IndexedSuccessorGroups>(
    cover: Set<nat>,
    deferred: Seq<DeferredGroup>,
    groups: IG,
    sound: bool,
) -> bool {
    forall|i: int|
        0 <= i < deferred.len() ==> is_walk_of(groups, #[trigger] deferred[i]) && (sound ==> walked(
            cover,
            groups,
            deferred[i],
            deferred[i].visited as int,
        ))
}

/// A walk that has come to its end covers the group.
pub proof fn lemma_walked_group<IG: IndexedSuccessorGroups>(
    cover: Set<nat>,
    groups: IG,
    group: DeferredGroup,
)
    requires
        is_walk_of(groups, group),
        walked(cover, groups, group, group.walk.length() as int),
    ensures
        group_covered(cover, groups, group.group_index as int),
{
    assert forall|index: int|
        0 <= index < groups.group_size(group.group_index as int) implies cover.contains(
        grundy(#[trigger] groups.after(group.group_index as int, index)),
    ) by {
        let v = crate::traversal::lemma_walk_covers(group.walk, index);
        assert(group.walk.at(v) == index);
    }
}

/// What is covered stays covered.
pub proof fn lemma_cover_grows<IG: IndexedSuccessorGroups>(
    small: Set<nat>,
    large: Set<nat>,
    deferred: Seq<DeferredGroup>,
    groups: IG,
    sound: bool,
)
    requires
        small.subset_of(large),
        resumable(small, deferred, groups, sound),
    ensures
        resumable(large, deferred, groups, sound),
        forall|group: int| #[trigger]
            group_covered(small, groups, group) ==> group_covered(large, groups, group),
{
    assert forall|i: int| 0 <= i < deferred.len() implies is_walk_of(groups, #[trigger] deferred[i])
        && (sound ==> walked(large, groups, deferred[i], deferred[i].visited as int)) by {
        assert(is_walk_of(groups, deferred[i]));
    }
}

/// A worker that has found the nimbers of all groups is complete.
pub proof fn lemma_all_groups<IG: IndexedSuccessorGroups>(groups: IG, worker: WorkerResult)
    requires
        covers_moves(groups),
        fits(groups.position()),
        forall|group: int, index: int|
            0 <= group < groups.group_count() && 0 <= index < groups.group_size(group)
                ==> worker.reachable@.contains(grundy(#[trigger] groups.after(group, index)) as int),
    ensures
        worker.complete(groups.position()),
{
    assert forall|t: Position| #[trigger]
        is_option(groups.position(), t) implies worker.reachable@.contains(grundy(t) as int) by {
        let (group, index) = choose|group: int, index: int|
            group_has_value(groups, group, index, grundy(t));
        assert(worker.reachable@.contains(grundy(groups.after(group, index)) as int));
    }
}

} // verus!
