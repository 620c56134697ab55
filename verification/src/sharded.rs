//! The cache that all workers share: shards behind locks.
//!
//! Other workers change the cache at any time, so the functions here say what holds of every state
//! of it, and which results follow from what the shards were found to hold. What happens to a shard
//! while its lock is held is stated at `CacheShard`.
use crate::cache::{CacheEntry, CacheProbe, CacheProfile, CacheShard, done_grids, is_published};
use crate::cache::{lists_all, lists_done, only_done, total_entry_bytes};
use crate::cache_file::entry_views;
use crate::grid::Grid;
use crate::limits::fits;
use crate::matrix::BitMatrix;
use crate::nim::grundy;
use crate::reading::{enter_to_read, enter_to_write, enters, finds, leave, leaves, new_lock};
use crate::reading::{replaces, starts_with};
use crate::traversal::{grid_hash, stable_matrix_hash};
use std::collections::HashMap;
use vstd::prelude::*;
use vstd::rwlock::{RwLock, RwLockPredicate};

verus! {

/// Whether `nimber` is the nimber of `g`, if a machine word can count the moves there.
pub open spec fn is_true_of(g: Grid, nimber: usize) -> bool {
    fits(g.cells) ==> nimber == grundy(g.cells)
}

/// Whether all nimbers of the table are right.
pub open spec fn all_true(map: Map<Grid, CacheEntry>) -> bool {
    forall|g: Grid| #[trigger]
        map.contains_key(g) && map[g] is Done ==> is_true_of(g, map[g]->Done_0)
}

/// The number of the shard that a component belongs to.
pub open spec fn shard_of(g: Grid, count: int) -> int {
    (grid_hash(g) >> 32) as int % count
}

/// What holds of a shard whenever nobody writes to it. A shard that is `sound` has right nimbers
/// only.
pub struct ShardPred {
    pub sound: bool,
    pub index: usize,
    pub count: usize,
}

impl RwLockPredicate<CacheShard> for ShardPred {
    open spec fn inv(self, shard: CacheShard) -> bool {
        &&& shard.wf()
        &&& self.sound ==> all_true(shard@)
        &&& forall|g: Grid| #[trigger]
            shard@.contains_key(g) ==> shard_of(g, self.count as int) == self.index
    }
}

/// The shards of the cache, each behind a lock.
pub struct ShardedCache {
    shards: Vec<RwLock<CacheShard, ShardPred>>,
    sound: Ghost<bool>,
}

/// Whether the entries are matrices as they should be, each of them once.
pub open spec fn are_entries(entries: Seq<(BitMatrix, usize)>) -> bool {
    &&& forall|i: int| 0 <= i < entries.len() ==> (#[trigger] entries[i]).0.wf()
    &&& forall|i: int, j: int|
        0 <= i < j < entries.len() ==> (#[trigger] entries[i]).0@ != (#[trigger] entries[j]).0@
}

/// Whether the nimbers of all entries are right.
pub open spec fn entries_true(entries: Seq<(BitMatrix, usize)>) -> bool {
    forall|i: int|
        0 <= i < entries.len() ==> is_true_of((#[trigger] entries[i]).0@, entries[i].1)
}

/// The limit of one shard, where `max_entries` is the limit of all shards together.
pub open spec fn shard_limit(max_entries: usize, count: int) -> int {
    let share = (max_entries + count - 1) / count;
    if share < 1 {
        1
    } else {
        share
    }
}

/// Computes the limit of one shard.
pub fn compute_shard_limit(max_entries: usize, count: usize) -> (limit: usize)
    requires
        0 < count,
    ensures
        limit == shard_limit(max_entries, count as int),
{
    let whole: usize = max_entries / count;
    let rest: usize = max_entries % count;
    proof {
        let m = max_entries as int;
        let c = count as int;
        vstd::arithmetic::div_mod::lemma_fundamental_div_mod(m, c);
        if rest == 0 {
            assert((m + c - 1) / c == m / c) by (nonlinear_arith)
                requires
                    m == c * (m / c),
                    0 < c,
                    0 <= m,
            ;
        } else {
            assert((m + c - 1) / c == m / c + 1) by (nonlinear_arith)
                requires
                    m == c * (m / c) + m % c,
                    1 <= m % c < c,
                    0 < c,
                    0 <= m,
            ;
            assert(m / c < m || m / c == 0 || c == 1) by (nonlinear_arith)
                requires
                    0 < c,
                    0 <= m,
                    m == c * (m / c) + m % c,
                    0 <= m % c,
            ;
        }
    }
    let share: usize = if rest == 0 {
        whole
    } else {
        whole + 1
    };
    if share < 1 {
        1
    } else {
        share
    }
}

/// The nimber of component `g`, if the table has it as done.
pub open spec fn done_nimber(map: Map<Grid, CacheEntry>, g: Grid) -> Option<usize> {
    if map.contains_key(g) && map[g] is Done {
        Some(map[g]->Done_0)
    } else {
        None
    }
}

/// What a worker is told that wants component `g`: its nimber, that another worker is busy with it, or
/// that it is claimed. A table without room takes no claim.
pub open spec fn probed(map: Map<Grid, CacheEntry>, g: Grid) -> CacheProbe {
    if !map.contains_key(g) {
        if map.dom().len() < usize::MAX {
            CacheProbe::Claimed
        } else {
            CacheProbe::Busy
        }
    } else {
        match map[g] {
            CacheEntry::Processing => CacheProbe::Busy,
            CacheEntry::Done(nimber) => CacheProbe::Done(nimber),
        }
    }
}

/// The table after a worker has asked for component `g`: with a claim on it, if it was claimed.
pub open spec fn after_probe(map: Map<Grid, CacheEntry>, g: Grid) -> Map<Grid, CacheEntry> {
    if probed(map, g) is Claimed {
        map.insert(g, CacheEntry::Processing)
    } else {
        map
    }
}

/// The table with the nimber of component `g`, unless it has no room.
pub open spec fn with_done(map: Map<Grid, CacheEntry>, g: Grid, nimber: usize) -> Map<
    Grid,
    CacheEntry,
> {
    if map.dom().len() < usize::MAX {
        map.insert(g, CacheEntry::Done(nimber))
    } else {
        map
    }
}

/// Whether `after` is `before` after nimber `nimber` has been published for component `g`, and whether
/// it was `fresh`. A table without room stays as it is.
pub open spec fn may_publish(
    before: Map<Grid, CacheEntry>,
    after: Map<Grid, CacheEntry>,
    g: Grid,
    nimber: usize,
    limit: Option<usize>,
    percent: usize,
    fresh: bool,
) -> bool {
    if before.dom().len() < usize::MAX {
        is_published(before, after, g, nimber, limit, percent, fresh)
    } else {
        !fresh && after == before
    }
}

/// The pairs of component and nimber that belong to shard `k` of `count`, as a table. A later pair
/// replaces an earlier one.
pub open spec fn filled(pairs: Seq<(Grid, usize)>, count: int, k: int) -> Map<Grid, CacheEntry>
    decreases pairs.len(),
{
    if pairs.len() == 0 {
        Map::empty()
    } else {
        let less = filled(pairs.drop_last(), count, k);
        if shard_of(pairs.last().0, count) == k {
            less.insert(pairs.last().0, CacheEntry::Done(pairs.last().1))
        } else {
            less
        }
    }
}

/// The pairs of component and nimber, as the tables of `count` shards.
pub open spec fn filled_shards(pairs: Seq<(Grid, usize)>, count: nat) -> Seq<Map<Grid, CacheEntry>> {
    Seq::new(count, |k: int| filled(pairs, count as int, k))
}

/// Whether the shards `after` hold what is done in the shards `before`, with the same nimbers, and
/// nothing else.
pub open spec fn holds_done_of(
    before: Seq<Map<Grid, CacheEntry>>,
    after: Seq<Map<Grid, CacheEntry>>,
) -> bool {
    &&& forall|g: Grid|
        done_nimber(after[#[trigger] shard_of(g, after.len() as int)], g) == done_nimber(
            before[shard_of(g, before.len() as int)],
            g,
        )
    &&& forall|k: int, g: Grid|
        0 <= k < after.len() && #[trigger] after[k].contains_key(g) ==> shard_of(
            g,
            after.len() as int,
        ) == k && after[k][g] is Done
}

proof fn lemma_shard_of(g: Grid, count: int)
    requires
        count > 0,
    ensures
        0 <= shard_of(g, count) < count,
{
}

/// What a filled table holds, if no component is listed twice.
proof fn lemma_filled(pairs: Seq<(Grid, usize)>, count: int, k: int)
    requires
        forall|i: int, j: int|
            0 <= i < j < pairs.len() ==> (#[trigger] pairs[i]).0 != (#[trigger] pairs[j]).0,
    ensures
        forall|g: Grid| #[trigger]
            filled(pairs, count, k).contains_key(g) <==> shard_of(g, count) == k && exists|i: int|
                0 <= i < pairs.len() && (#[trigger] pairs[i]).0 == g,
        forall|i: int|
            0 <= i < pairs.len() && shard_of((#[trigger] pairs[i]).0, count) == k ==> filled(
                pairs,
                count,
                k,
            ).contains_key(pairs[i].0) && filled(pairs, count, k)[pairs[i].0]
                == CacheEntry::Done(pairs[i].1),
    decreases pairs.len(),
{
    if pairs.len() > 0 {
        let fewer = pairs.drop_last();
        let last = pairs.len() - 1;
        let less = filled(fewer, count, k);
        let more = filled(pairs, count, k);
        assert forall|i: int, j: int| 0 <= i < j < fewer.len() implies (#[trigger] fewer[i]).0 != (
        #[trigger] fewer[j]).0 by {
            assert(pairs[i].0 != pairs[j].0);
        }
        lemma_filled(fewer, count, k);
        assert forall|g: Grid| #[trigger] more.contains_key(g) <==> shard_of(g, count) == k
            && exists|i: int| 0 <= i < pairs.len() && (#[trigger] pairs[i]).0 == g by {
            if more.contains_key(g) {
                if g == pairs[last].0 && shard_of(g, count) == k {
                    assert(pairs[last].0 == g);
                } else {
                    assert(less.contains_key(g));
                    let i = choose|i: int| 0 <= i < fewer.len() && (#[trigger] fewer[i]).0 == g;
                    assert(pairs[i].0 == g);
                }
            }
            if shard_of(g, count) == k && exists|i: int|
                0 <= i < pairs.len() && (#[trigger] pairs[i]).0 == g {
                let i = choose|i: int| 0 <= i < pairs.len() && (#[trigger] pairs[i]).0 == g;
                if i < last {
                    assert(fewer[i].0 == g);
                    assert(less.contains_key(g));
                }
            }
        }
        assert forall|i: int|
            0 <= i < pairs.len() && shard_of((#[trigger] pairs[i]).0, count) == k implies more.contains_key(
            pairs[i].0,
        ) && more[pairs[i].0] == CacheEntry::Done(pairs[i].1) by {
            if i < last {
                assert(fewer[i] == pairs[i]);
                assert(pairs[i].0 != pairs[last].0);
            }
        }
    }
}

/// A filled table is no larger than its list, and its entries are listed.
proof fn lemma_filled_size(pairs: Seq<(Grid, usize)>, count: int, k: int)
    ensures
        filled(pairs, count, k).dom().finite(),
        filled(pairs, count, k).dom().len() <= pairs.len(),
        forall|g: Grid| #[trigger]
            filled(pairs, count, k).contains_key(g) ==> shard_of(g, count) == k && exists|i: int|
                0 <= i < pairs.len() && (#[trigger] pairs[i]).0 == g && filled(pairs, count, k)[g]
                    == CacheEntry::Done(pairs[i].1),
    decreases pairs.len(),
{
    if pairs.len() > 0 {
        let fewer = pairs.drop_last();
        let last = pairs.len() - 1;
        let more = filled(pairs, count, k);
        lemma_filled_size(fewer, count, k);
        assert forall|g: Grid| #[trigger] more.contains_key(g) implies shard_of(g, count) == k
            && exists|i: int|
            0 <= i < pairs.len() && (#[trigger] pairs[i]).0 == g && more[g] == CacheEntry::Done(
                pairs[i].1,
            ) by {
            if g == pairs[last].0 && shard_of(g, count) == k {
                assert(pairs[last].0 == g && more[g] == CacheEntry::Done(pairs[last].1));
            } else {
                assert(filled(fewer, count, k).contains_key(g));
                let i = choose|i: int|
                    0 <= i < fewer.len() && (#[trigger] fewer[i]).0 == g && filled(
                        fewer,
                        count,
                        k,
                    )[g] == CacheEntry::Done(fewer[i].1);
                assert(pairs[i].0 == g);
            }
        }
    }
}

/// The entries that are done in the shards fill other shards so that these hold what is done, and
/// nothing else.
pub proof fn lemma_filled_holds_done(
    maps: Seq<Map<Grid, CacheEntry>>,
    entries: Seq<(BitMatrix, usize)>,
    count: nat,
)
    requires
        maps.len() > 0,
        count > 0,
        are_entries(entries),
        lists_done_of_all(maps, maps.len() as int, entries),
    ensures
        holds_done_of(maps, filled_shards(entry_views(entries), count)),
{
    let pairs = entry_views(entries);
    let after = filled_shards(pairs, count);
    assert forall|i: int, j: int| 0 <= i < j < pairs.len() implies (#[trigger] pairs[i]).0 != (
    #[trigger] pairs[j]).0 by {
        assert(entries[i].0@ != entries[j].0@);
    }
    assert forall|g: Grid| done_nimber(after[#[trigger] shard_of(g, count as int)], g)
        == done_nimber(maps[shard_of(g, maps.len() as int)], g) by {
        let k = shard_of(g, count as int);
        let l = shard_of(g, maps.len() as int);
        lemma_shard_of(g, count as int);
        lemma_shard_of(g, maps.len() as int);
        lemma_filled(pairs, count as int, k);
        assert(after[k] == filled(pairs, count as int, k));
        if maps[l].contains_key(g) && maps[l][g] is Done {
            let i = choose|i: int| 0 <= i < entries.len() && (#[trigger] entries[i]).0@ == g;
            assert(pairs[i].0 == g);
            assert(maps[l][entries[i].0@] == CacheEntry::Done(entries[i].1));
        } else if after[k].contains_key(g) {
            let i = choose|i: int| 0 <= i < pairs.len() && (#[trigger] pairs[i]).0 == g;
            assert(entries[i].0@ == g);
            assert(maps[l].contains_key(entries[i].0@));
        }
    }
    assert forall|k: int, g: Grid|
        0 <= k < after.len() && #[trigger] after[k].contains_key(g) implies shard_of(
        g,
        count as int,
    ) == k && after[k][g] is Done by {
        lemma_filled_size(pairs, count as int, k);
        assert(filled(pairs, count as int, k).contains_key(g));
    }
}

/// A cache has shards.
pub proof fn lemma_has_shards(cache: ShardedCache)
    requires
        cache.wf(),
    ensures
        cache.shard_count() > 0,
{
}

/// The limit of one shard, if there is one for all shards together.
pub open spec fn limit_of(max_entries: Option<usize>, count: int) -> Option<usize> {
    match max_entries {
        Some(max_entries) => Some(shard_limit(max_entries, count) as usize),
        None => None,
    }
}

/// The number of components of all tables together.
pub open spec fn total_len(maps: Seq<Map<Grid, CacheEntry>>) -> int
    decreases maps.len(),
{
    if maps.len() == 0 {
        0
    } else {
        let total = total_len(maps.drop_last()) + maps.last().dom().len();
        if total <= usize::MAX {
            total
        } else {
            usize::MAX as int
        }
    }
}

/// Whether the counts and the estimate are those of the table.
pub open spec fn is_profile_of(map: Map<Grid, CacheEntry>, profile: CacheProfile) -> bool {
    &&& profile.entries == map.dom().len()
    &&& profile.done == done_grids(map).len()
    &&& profile.processing == map.dom().len() - done_grids(map).len()
    &&& exists|listed: Seq<Grid>|
        lists_all(listed, map.dom()) && profile.estimated_bytes == #[trigger] total_entry_bytes(
            listed,
        )
}

/// The counts of several tables together, with the bytes of the tables themselves.
pub open spec fn sum_of(profiles: Seq<CacheProfile>) -> CacheProfile
    decreases profiles.len(),
{
    if profiles.len() == 0 {
        CacheProfile { entries: 0, done: 0, processing: 0, estimated_bytes: 0 }
    } else {
        added(sum_of(profiles.drop_last()), profiles.last())
    }
}

/// Whether the counts and the estimate are those of all tables together.
pub open spec fn is_total_profile(maps: Seq<Map<Grid, CacheEntry>>, profile: CacheProfile) -> bool {
    exists|profiles: Seq<CacheProfile>|
        {
            &&& profiles.len() == maps.len()
            &&& forall|i: int|
                0 <= i < maps.len() ==> is_profile_of(#[trigger] maps[i], profiles[i])
            &&& profile == #[trigger] sum_of(profiles)
        }
}

/// Whether the entries are those of the tables that are done, where a component is in the table of its
/// shard.
pub open spec fn lists_done_of_all(
    maps: Seq<Map<Grid, CacheEntry>>,
    count: int,
    entries: Seq<(BitMatrix, usize)>,
) -> bool {
    &&& forall|i: int|
        0 <= i < entries.len() ==> {
            let k = shard_of((#[trigger] entries[i]).0@, count);
            &&& 0 <= k < maps.len()
            &&& maps[k].contains_key(entries[i].0@)
            &&& maps[k][entries[i].0@] == CacheEntry::Done(entries[i].1)
        }
    &&& forall|k: int, g: Grid|
        0 <= k < maps.len() && #[trigger] maps[k].contains_key(g) && maps[k][g] is Done
            ==> exists|i: int| 0 <= i < entries.len() && (#[trigger] entries[i]).0@ == g
}

/// Whether the shard is a new one that holds `map`.
spec fn starts_holding(shard: RwLock<CacheShard, ShardPred>, map: Map<Grid, CacheEntry>) -> bool {
    exists|table: CacheShard| #[trigger] starts_with(shard, table) && table@ == map
}

/// The number of the shard, of `count`, that a component belongs to.
fn shard_index(component: &BitMatrix, count: usize) -> (index: usize)
    requires
        component.wf(),
        0 < count,
    ensures
        index < count,
        index == shard_of(component@, count as int),
{
    let hash: u64 = stable_matrix_hash(component);
    proof {
        assert(hash >> 32 <= 0xffff_ffff) by (bit_vector);
    }
    let high: usize = (hash >> 32) as usize;
    high % count
}

/// The tables of `count` shards that hold the given nimbers.
fn fill_tables(count: usize, entries: &Vec<(BitMatrix, usize)>) -> (tables: Vec<CacheShard>)
    requires
        0 < count,
        forall|i: int| 0 <= i < entries@.len() ==> (#[trigger] entries@[i]).0.wf(),
    ensures
        tables@.len() == count,
        forall|k: int|
            0 <= k < count ==> (#[trigger] tables@[k]).wf() && tables@[k]@ == filled(
                entry_views(entries@),
                count as int,
                k,
            ),
{
    let ghost pairs = entry_views(entries@);
    let mut tables: Vec<CacheShard> = Vec::new();
    let mut k: usize = 0;
    while k < count
        invariant
            k <= count,
            tables@.len() == k,
            forall|i: int|
                0 <= i < k ==> (#[trigger] tables@[i]).wf() && tables@[i]@ == Map::<
                    Grid,
                    CacheEntry,
                >::empty(),
        decreases count - k,
    {
        tables.push(CacheShard::new());
        k = k + 1;
    }
    let mut e: usize = 0;
    proof {
        assert(pairs.take(0) =~= Seq::empty());
    }
    while e < entries.len()
        invariant
            0 < count,
            e <= entries@.len(),
            pairs == entry_views(entries@),
            forall|i: int| 0 <= i < entries@.len() ==> (#[trigger] entries@[i]).0.wf(),
            tables@.len() == count,
            forall|i: int|
                0 <= i < count ==> (#[trigger] tables@[i]).wf() && tables@[i]@ == filled(
                    pairs.take(e as int),
                    count as int,
                    i,
                ),
        decreases entries@.len() - e,
    {
        let ghost before = tables@;
        proof {
            assert(entries@[e as int].0.wf());
        }
        let index: usize = shard_index(&entries[e].0, count);
        proof {
            assert(tables@[index as int].wf());
            lemma_filled_size(pairs.take(e as int), count as int, index as int);
            assert(pairs.take(e + 1).drop_last() =~= pairs.take(e as int));
            assert(pairs.take(e + 1).last() == pairs[e as int]);
        }
        tables[index].insert(entries[e].0.clone(), CacheEntry::Done(entries[e].1));
        proof {
            assert forall|i: int| 0 <= i < count implies (#[trigger] tables@[i]).wf() && tables@[i]@
                == filled(pairs.take(e + 1), count as int, i) by {
                if i != index {
                    assert(tables@[i] == before[i]);
                }
            }
        }
        e = e + 1;
    }
    proof {
        assert(pairs.take(e as int) =~= pairs);
    }
    tables
}

impl ShardedCache {
    /// Whether the shard of number `i` is found to hold `map`.
    pub closed spec fn shows(&self, i: int, map: Map<Grid, CacheEntry>) -> bool {
        &&& 0 <= i < self.shards@.len()
        &&& exists|shard: CacheShard| #[trigger] finds(&self.shards@[i], shard) && shard@ == map
    }

    /// Whether the shards are found to hold `maps`, one after the other.
    pub open spec fn shown(&self, maps: Seq<Map<Grid, CacheEntry>>) -> bool {
        &&& maps.len() == self.shard_count()
        &&& forall|i: int| 0 <= i < maps.len() ==> self.shows(i, #[trigger] maps[i])
    }

    /// Whether somebody finds the shard of number `i` to hold `before`, and leaves it with `after`.
    pub closed spec fn replaced(
        &self,
        i: int,
        before: Map<Grid, CacheEntry>,
        after: Map<Grid, CacheEntry>,
    ) -> bool {
        &&& 0 <= i < self.shards@.len()
        &&& exists|old: CacheShard, new: CacheShard| #[trigger]
            replaces(&self.shards@[i], old, new) && old@ == before && new@ == after
    }

    /// Whether the shards are new ones that hold `maps`.
    pub closed spec fn starts_as(&self, maps: Seq<Map<Grid, CacheEntry>>) -> bool {
        &&& maps.len() == self.shards@.len()
        &&& forall|i: int| 0 <= i < maps.len() ==> starts_holding(self.shards@[i], #[trigger] maps[i])
    }

    /// Whether `copied` is a new cache that holds what was found to be done in this one, and nothing
    /// else.
    pub open spec fn is_copied(&self, copied: &ShardedCache) -> bool {
        exists|maps: Seq<Map<Grid, CacheEntry>>, starts: Seq<Map<Grid, CacheEntry>>|
            {
                &&& #[trigger] self.shown(maps)
                &&& #[trigger] copied.starts_as(starts)
                &&& holds_done_of(maps, starts)
            }
    }

    /// Whether somebody leaves the shard of number `i` empty.
    pub open spec fn cleared(&self, i: int) -> bool {
        exists|before: Map<Grid, CacheEntry>| #[trigger]
            self.replaced(i, before, Map::<Grid, CacheEntry>::empty())
    }

    /// Whether somebody leaves the shard of number `i` with what was found to be done there.
    pub open spec fn unclaimed(&self, i: int) -> bool {
        exists|before: Map<Grid, CacheEntry>| #[trigger]
            self.replaced(i, before, only_done(before))
    }

    /// Whether component `g` is found to have the nimber, or none.
    pub open spec fn gives_done(&self, g: Grid, nimber: Option<usize>) -> bool {
        exists|map: Map<Grid, CacheEntry>| #[trigger]
            self.shows(shard_of(g, self.shard_count() as int), map) && nimber == done_nimber(map, g)
    }

    /// Whether a worker that wants component `g` is told `probe`, and leaves its claim if it has one.
    pub open spec fn gives_probe(&self, g: Grid, probe: CacheProbe) -> bool {
        exists|before: Map<Grid, CacheEntry>| #[trigger]
            self.replaced(shard_of(g, self.shard_count() as int), before, after_probe(before, g))
                && probe == probed(before, g)
    }

    /// Whether the nimber of component `g` is published, and it was `fresh` or not.
    pub open spec fn publishes(
        &self,
        g: Grid,
        nimber: usize,
        max_entries: Option<usize>,
        percent: usize,
        fresh: bool,
    ) -> bool {
        exists|before: Map<Grid, CacheEntry>, after: Map<Grid, CacheEntry>| #[trigger]
            self.replaced(shard_of(g, self.shard_count() as int), before, after) && may_publish(
                before,
                after,
                g,
                nimber,
                limit_of(max_entries, self.shard_count() as int),
                percent,
                fresh,
            )
    }

    /// What holds of every cache.
    pub closed spec fn wf(&self) -> bool {
        &&& self.shards@.len() > 0
        &&& forall|i: int|
            0 <= i < self.shards@.len() ==> (#[trigger] self.shards@[i]).pred() == (ShardPred {
                sound: self.sound@,
                index: i as usize,
                count: self.shards@.len() as usize,
            })
    }

    /// Whether the cache holds right nimbers only.
    pub closed spec fn sound(&self) -> bool {
        self.sound@
    }

    /// The number of shards.
    pub closed spec fn shard_count(&self) -> nat {
        self.shards@.len()
    }

    /// An empty cache.
    pub fn new(shard_count: usize) -> (cache: Self)
        requires
            0 < shard_count,
        ensures
            cache.wf(),
            cache.sound(),
            cache.shard_count() == shard_count,
            cache.starts_as(filled_shards(Seq::empty(), shard_count as nat)),
    {
        Self::with_soundness(shard_count, Ghost(true))
    }

    /// An empty cache that may or may not take wrong nimbers.
    pub(crate) fn with_soundness(shard_count: usize, Ghost(sound): Ghost<bool>) -> (cache: Self)
        requires
            0 < shard_count,
        ensures
            cache.wf(),
            cache.sound() == sound,
            cache.shard_count() == shard_count,
            cache.starts_as(filled_shards(Seq::empty(), shard_count as nat)),
    {
        let entries: Vec<(BitMatrix, usize)> = Vec::new();
        proof {
            assert(entry_views(entries@) =~= Seq::empty());
        }
        Self::with_entries(shard_count, &entries, Ghost(sound))
    }

    /// A cache that holds the given nimbers, which may or may not be wrong.
    pub(crate) fn with_entries(
        shard_count: usize,
        entries: &Vec<(BitMatrix, usize)>,
        Ghost(sound): Ghost<bool>,
    ) -> (cache: Self)
        requires
            0 < shard_count,
            forall|i: int| 0 <= i < entries@.len() ==> (#[trigger] entries@[i]).0.wf(),
            sound ==> entries_true(entries@),
        ensures
            cache.wf(),
            cache.sound() == sound,
            cache.shard_count() == shard_count,
            cache.starts_as(filled_shards(entry_views(entries@), shard_count as nat)),
    {
        let mut tables: Vec<CacheShard> = fill_tables(shard_count, entries);
        let ghost pairs = entry_views(entries@);
        let ghost all = tables@;
        let mut shards: Vec<RwLock<CacheShard, ShardPred>> = Vec::new();
        let mut k: usize = 0;
        while k < shard_count
            invariant
                k <= shard_count,
                shards@.len() == k,
                tables@.len() == shard_count,
                all.len() == shard_count,
                pairs == entry_views(entries@),
                sound ==> entries_true(entries@),
                forall|i: int|
                    0 <= i < shard_count ==> (#[trigger] all[i]).wf() && all[i]@ == filled(
                        pairs,
                        shard_count as int,
                        i,
                    ),
                forall|i: int| k <= i < shard_count ==> #[trigger] tables@[i] == all[i],
                forall|i: int|
                    0 <= i < k ==> (#[trigger] shards@[i]).pred() == (ShardPred {
                        sound,
                        index: i as usize,
                        count: shard_count,
                    }) && starts_with(shards@[i], all[i]),
            decreases shard_count - k,
        {
            let ghost pred = ShardPred { sound, index: k, count: shard_count };
            let mut table = CacheShard::new();
            core::mem::swap(&mut table, &mut tables[k]);
            proof {
                assert(table == all[k as int]);
                lemma_filled_size(pairs, shard_count as int, k as int);
                assert forall|g: Grid| #[trigger] table@.contains_key(g) implies shard_of(
                    g,
                    shard_count as int,
                ) == k && (sound && table@[g] is Done ==> is_true_of(g, table@[g]->Done_0)) by {
                    assert(filled(pairs, shard_count as int, k as int).contains_key(g));
                    let i = choose|i: int|
                        0 <= i < pairs.len() && (#[trigger] pairs[i]).0 == g && table@[g]
                            == CacheEntry::Done(pairs[i].1);
                    assert(sound ==> is_true_of(entries@[i].0@, entries@[i].1));
                }
            }
            shards.push(new_lock(table, Ghost(pred)));
            k = k + 1;
        }
        let cache = ShardedCache { shards, sound: Ghost(sound) };
        proof {
            let maps = filled_shards(pairs, shard_count as nat);
            assert forall|i: int| 0 <= i < maps.len() implies starts_holding(
                cache.shards@[i],
                #[trigger] maps[i],
            ) by {
                assert(cache.shards@[i].pred().count == shard_count);
                assert(starts_with(cache.shards@[i], all[i]));
                assert(all[i]@ == maps[i]);
            }
        }
        cache
    }

    /// The number of the shard that a component belongs to.
    fn shard(&self, component: &BitMatrix) -> (index: usize)
        requires
            self.wf(),
            component.wf(),
        ensures
            index < self.shards@.len() <= usize::MAX,
            index == shard_of(component@, self.shards@.len() as int),
    {
        shard_index(component, self.shards.len())
    }

    /// Claims a component that is not in the cache.
    pub fn probe(&self, component: &BitMatrix) -> (probe: CacheProbe)
        requires
            self.wf(),
            component.wf(),
        ensures
            self.gives_probe(component@, probe),
            self.sound() && probe is Done ==> is_true_of(component@, probe->Done_0),
    {
        let index: usize = self.shard(component);
        let (mut shard, handle) = enter_to_write(&self.shards[index]);
        let ghost found = shard;
        let ghost held = handle;
        let ghost before = shard@;
        let probe: CacheProbe = if shard.len() == usize::MAX {
            match shard.get(component) {
                Some(CacheEntry::Done(nimber)) => CacheProbe::Done(nimber),
                Some(CacheEntry::Processing) => CacheProbe::Busy,
                None => CacheProbe::Busy,
            }
        } else {
            shard.probe(component)
        };
        proof {
            assert(before.contains_key(component@) || !before.contains_key(component@));
            assert forall|g: Grid| #[trigger]
                shard@.contains_key(g) && shard@[g] is Done implies before.contains_key(g)
                && before[g] == shard@[g] by {}
            assert(shard@ == after_probe(before, component@));
        }
        let ghost left = shard;
        leave(handle, shard);
        proof {
            assert(enters(&self.shards@[index as int], found, held) && leaves(held, left));
            assert(replaces(&self.shards@[index as int], found, left));
            assert(self.replaced(
                shard_of(component@, self.shard_count() as int),
                before,
                after_probe(before, component@),
            ));
        }
        probe
    }

    /// The nimber of a component that is done.
    pub fn get_done(&self, component: &BitMatrix) -> (nimber: Option<usize>)
        requires
            self.wf(),
            component.wf(),
        ensures
            self.gives_done(component@, nimber),
            self.sound() && nimber is Some ==> is_true_of(component@, nimber->0),
    {
        let index: usize = self.shard(component);
        let handle = enter_to_read(&self.shards[index]);
        proof {
            assert(self.shows(
                shard_of(component@, self.shard_count() as int),
                handle.view()@,
            ));
        }
        let nimber: Option<usize> = handle.borrow().get_done(component);
        proof {
            assert(handle.view()@.contains_key(component@) || nimber is None);
        }
        handle.release_read();
        nimber
    }

    /// Publishes the nimber of a component, unless it is known already. Returns whether it was
    /// published.
    pub fn insert_if_absent(
        &self,
        component: BitMatrix,
        nimber: usize,
        max_entries: Option<usize>,
        low_watermark: usize,
    ) -> (fresh: bool)
        requires
            self.wf(),
            component.wf(),
            self.sound() ==> is_true_of(component@, nimber),
        ensures
            self.publishes(component@, nimber, max_entries, low_watermark, fresh),
    {
        let limit: Option<usize> = match max_entries {
            Some(max_entries) => Some(compute_shard_limit(max_entries, self.shards.len())),
            None => None,
        };
        let index: usize = self.shard(&component);
        let ghost g = component@;
        let (mut shard, handle) = enter_to_write(&self.shards[index]);
        let ghost found = shard;
        let ghost held = handle;
        let ghost before = shard@;
        if shard.len() == usize::MAX {
            leave(handle, shard);
            proof {
                assert(enters(&self.shards@[index as int], found, held) && leaves(held, found));
                assert(replaces(&self.shards@[index as int], found, found));
                assert(self.replaced(shard_of(g, self.shard_count() as int), before, before));
            }
            return false;
        }
        let fresh: bool = shard.publish(component, nimber, limit, low_watermark);
        proof {
            let kept = choose|kept: Map<Grid, CacheEntry>| #[trigger]
                crate::cache::is_limited(before, kept, g, limit, low_watermark) && {
                    &&& fresh == !(kept.contains_key(g) && kept[g] is Done)
                    &&& shard@ == if fresh {
                        kept.insert(g, CacheEntry::Done(nimber))
                    } else {
                        kept
                    }
                };
            assert(kept.submap_of(before));
            assert forall|h: Grid| #[trigger] shard@.contains_key(h) implies h == g
                || before.contains_key(h) && before[h] == shard@[h] by {
                if h != g {
                    assert(kept.dom().contains(h));
                    assert(before.dom().contains(h));
                    assert(shard@[h] == kept[h]);
                }
            }
            if shard@.contains_key(g) && !fresh {
                assert(kept.dom().contains(g));
                assert(before.dom().contains(g));
            }
        }
        let ghost left = shard;
        leave(handle, shard);
        proof {
            assert(enters(&self.shards@[index as int], found, held) && leaves(held, left));
            assert(replaces(&self.shards@[index as int], found, left));
            assert(self.replaced(shard_of(g, self.shard_count() as int), before, left@));
        }
        fresh
    }

    /// The number of components in the cache.
    pub fn len(&self) -> (len: usize)
        requires
            self.wf(),
        ensures
            exists|maps: Seq<Map<Grid, CacheEntry>>| #[trigger]
                self.shown(maps) && len == total_len(maps),
    {
        let mut len: usize = 0;
        let mut k: usize = 0;
        let ghost mut maps: Seq<Map<Grid, CacheEntry>> = Seq::empty();
        while k < self.shards.len()
            invariant
                self.wf(),
                k <= self.shards@.len(),
                maps.len() == k,
                forall|i: int| 0 <= i < k ==> self.shows(i, #[trigger] maps[i]),
                len == total_len(maps),
            decreases self.shards@.len() - k,
        {
            let handle = enter_to_read(&self.shards[k]);
            len = len.saturating_add(handle.borrow().len());
            proof {
                let map = handle.view()@;
                assert(self.shows(k as int, map));
                assert(maps.push(map).drop_last() =~= maps);
                maps = maps.push(map);
            }
            handle.release_read();
            k = k + 1;
        }
        proof {
            assert(self.shown(maps));
        }
        len
    }

    /// Counts the components by kind, and estimates the bytes that they take up.
    pub fn profile(&self) -> (profile: CacheProfile)
        requires
            self.wf(),
        ensures
            exists|maps: Seq<Map<Grid, CacheEntry>>| #[trigger]
                self.shown(maps) && is_total_profile(maps, profile),
    {
        let mut total = CacheProfile { entries: 0, done: 0, processing: 0, estimated_bytes: 0 };
        let mut k: usize = 0;
        let ghost mut maps: Seq<Map<Grid, CacheEntry>> = Seq::empty();
        let ghost mut profiles: Seq<CacheProfile> = Seq::empty();
        while k < self.shards.len()
            invariant
                self.wf(),
                k <= self.shards@.len(),
                maps.len() == k,
                profiles.len() == k,
                forall|i: int| 0 <= i < k ==> self.shows(i, #[trigger] maps[i]),
                forall|i: int| 0 <= i < k ==> is_profile_of(#[trigger] maps[i], profiles[i]),
                total == sum_of(profiles),
            decreases self.shards@.len() - k,
        {
            let handle = enter_to_read(&self.shards[k]);
            let profile: CacheProfile = handle.borrow().profile();
            let ghost map = handle.view()@;
            proof {
                assert(self.shows(k as int, map));
                assert(is_profile_of(map, profile));
            }
            handle.release_read();
            total = add_profiles(total, profile);
            proof {
                assert(profiles.push(profile).drop_last() =~= profiles);
                maps = maps.push(map);
                profiles = profiles.push(profile);
            }
            k = k + 1;
        }
        proof {
            assert(self.shown(maps));
            assert(is_total_profile(maps, total));
        }
        total
    }

    /// The components that are done, with their nimbers.
    pub fn done_entries(&self) -> (entries: Vec<(BitMatrix, usize)>)
        requires
            self.wf(),
        ensures
            are_entries(entries@),
            self.sound() ==> entries_true(entries@),
            exists|maps: Seq<Map<Grid, CacheEntry>>| #[trigger]
                self.shown(maps) && lists_done_of_all(
                    maps,
                    self.shard_count() as int,
                    entries@,
                ),
    {
        let mut entries: Vec<(BitMatrix, usize)> = Vec::new();
        let mut k: usize = 0;
        let ghost mut maps: Seq<Map<Grid, CacheEntry>> = Seq::empty();
        while k < self.shards.len()
            invariant
                self.wf(),
                k <= self.shards@.len(),
                maps.len() == k,
                forall|i: int| 0 <= i < k ==> self.shows(i, #[trigger] maps[i]),
                lists_done_of_all(maps, self.shards@.len() as int, entries@),
                are_entries(entries@),
                self.sound() ==> entries_true(entries@),
                forall|i: int|
                    0 <= i < entries@.len() ==> shard_of(
                        (#[trigger] entries@[i]).0@,
                        self.shards@.len() as int,
                    ) < k,
            decreases self.shards@.len() - k,
        {
            let handle = enter_to_read(&self.shards[k]);
            let mut found: Vec<(BitMatrix, usize)> = handle.borrow().done_entries();
            let ghost map = handle.view()@;
            let ghost earlier = maps;
            proof {
                assert(self.shows(k as int, map));
                maps = maps.push(map);
            }
            let ghost before = entries@;
            let ghost fresh = found@;
            handle.release_read();
            entries.append(&mut found);
            proof {
                assert(lists_done(map, fresh));
                assert(entries@ == before + fresh);
                assert forall|i: int| 0 <= i < entries@.len() implies {
                    &&& (#[trigger] entries@[i]).0.wf()
                    &&& shard_of(entries@[i].0@, self.shards@.len() as int) <= k
                    &&& i >= before.len() ==> shard_of(entries@[i].0@, self.shards@.len() as int)
                        == k
                    &&& self.sound() ==> is_true_of(entries@[i].0@, entries@[i].1)
                } by {
                    if i < before.len() {
                        assert(entries@[i] == before[i]);
                    } else {
                        let j = i - before.len();
                        assert(entries@[i] == fresh[j]);
                        assert(map.contains_key(fresh[j].0@));
                    }
                }
                assert forall|i: int, j: int| 0 <= i < j < entries@.len() implies (
                #[trigger] entries@[i]).0@ != (#[trigger] entries@[j]).0@ by {
                    if j < before.len() {
                        assert(before[i].0@ != before[j].0@);
                    } else if i >= before.len() {
                        assert(fresh[i - before.len()].0@ != fresh[j - before.len()].0@);
                    } else {
                        assert(shard_of(before[i].0@, self.shards@.len() as int) < k);
                    }
                }
                let count = self.shards@.len() as int;
                assert forall|i: int| 0 <= i < entries@.len() implies {
                    let l = shard_of((#[trigger] entries@[i]).0@, count);
                    &&& 0 <= l < maps.len()
                    &&& maps[l].contains_key(entries@[i].0@)
                    &&& maps[l][entries@[i].0@] == CacheEntry::Done(entries@[i].1)
                } by {
                    if i < before.len() {
                        assert(entries@[i] == before[i]);
                        let l = shard_of(before[i].0@, count);
                        assert(maps[l] == earlier[l]);
                    } else {
                        assert(entries@[i] == fresh[i - before.len()]);
                    }
                }
                assert forall|l: int, g: Grid|
                    0 <= l < maps.len() && #[trigger] maps[l].contains_key(g)
                        && maps[l][g] is Done implies exists|i: int|
                    0 <= i < entries@.len() && (#[trigger] entries@[i]).0@ == g by {
                    if l < k {
                        assert(earlier[l].contains_key(g));
                        let i = choose|i: int| 0 <= i < before.len() && (#[trigger] before[i]).0@ == g;
                        assert(entries@[i] == before[i]);
                    } else {
                        assert(map.contains_key(g));
                        let i = choose|i: int| 0 <= i < fresh.len() && (#[trigger] fresh[i]).0@ == g;
                        assert(entries@[before.len() + i] == fresh[i]);
                    }
                }
            }
            k = k + 1;
        }
        proof {
            assert(self.shown(maps));
        }
        entries
    }

    /// A cache with the given number of shards that holds the components that are done.
    pub fn clone_done_into_shards(&self, shard_count: usize) -> (copied: Self)
        requires
            self.wf(),
            0 < shard_count,
        ensures
            copied.wf(),
            copied.sound() == self.sound(),
            copied.shard_count() == shard_count,
            self.is_copied(&copied),
    {
        let entries: Vec<(BitMatrix, usize)> = self.done_entries();
        let copied = Self::with_entries(shard_count, &entries, Ghost(self.sound()));
        proof {
            let maps = choose|maps: Seq<Map<Grid, CacheEntry>>| #[trigger]
                self.shown(maps) && lists_done_of_all(
                    maps,
                    self.shard_count() as int,
                    entries@,
                );
            lemma_filled_holds_done(maps, entries@, shard_count as nat);
        }
        copied
    }

    /// Sets the nimber of a component.
    pub fn insert_done(&self, component: BitMatrix, nimber: usize)
        requires
            self.wf(),
            component.wf(),
            self.sound() ==> is_true_of(component@, nimber),
        ensures
            exists|before: Map<Grid, CacheEntry>| #[trigger]
                self.replaced(
                    shard_of(component@, self.shard_count() as int),
                    before,
                    with_done(before, component@, nimber),
                ),
    {
        let index: usize = self.shard(&component);
        let ghost g = component@;
        let (mut shard, handle) = enter_to_write(&self.shards[index]);
        let ghost found = shard;
        let ghost held = handle;
        if shard.len() < usize::MAX {
            shard.insert(component, CacheEntry::Done(nimber));
        }
        let ghost left = shard;
        leave(handle, shard);
        proof {
            assert(enters(&self.shards@[index as int], found, held) && leaves(held, left));
            assert(replaces(&self.shards@[index as int], found, left));
            assert(self.replaced(
                shard_of(g, self.shard_count() as int),
                found@,
                with_done(found@, g, nimber),
            ));
        }
    }

    /// Drops all components.
    pub fn clear(&self)
        requires
            self.wf(),
        ensures
            forall|i: int| 0 <= i < self.shard_count() ==> #[trigger] self.cleared(i),
    {
        let mut k: usize = 0;
        while k < self.shards.len()
            invariant
                self.wf(),
                k <= self.shards@.len(),
                forall|i: int| 0 <= i < k ==> #[trigger] self.cleared(i),
            decreases self.shards@.len() - k,
        {
            let (shard, handle) = enter_to_write(&self.shards[k]);
            let ghost found = shard;
            let ghost held = handle;
            let empty = CacheShard::new();
            let ghost left = empty;
            leave(handle, empty);
            proof {
                assert(enters(&self.shards@[k as int], found, held) && leaves(held, left));
                assert(replaces(&self.shards@[k as int], found, left));
                assert(self.replaced(k as int, found@, Map::<Grid, CacheEntry>::empty()));
            }
            k = k + 1;
        }
    }

    /// Drops the components that are being evaluated.
    pub fn clear_processing(&self)
        requires
            self.wf(),
        ensures
            forall|i: int| 0 <= i < self.shard_count() ==> #[trigger] self.unclaimed(i),
    {
        let mut k: usize = 0;
        while k < self.shards.len()
            invariant
                self.wf(),
                k <= self.shards@.len(),
                forall|i: int| 0 <= i < k ==> #[trigger] self.unclaimed(i),
            decreases self.shards@.len() - k,
        {
            let (mut shard, handle) = enter_to_write(&self.shards[k]);
            let ghost found = shard;
            let ghost held = handle;
            let ghost before = shard@;
            shard.clear_processing();
            proof {
                assert(shard@ == only_done(before));
                assert forall|g: Grid| #[trigger] shard@.contains_key(g) implies before.contains_key(
                    g,
                ) && before[g] == shard@[g] by {}
            }
            let ghost left = shard;
            leave(handle, shard);
            proof {
                assert(enters(&self.shards@[k as int], found, held) && leaves(held, left));
                assert(replaces(&self.shards@[k as int], found, left));
                assert(self.replaced(k as int, before, only_done(before)));
            }
            k = k + 1;
        }
    }
}

/// The counts of two tables together.
pub open spec fn capped_sum(a: usize, b: usize) -> int {
    if a + b <= usize::MAX {
        a + b
    } else {
        usize::MAX as int
    }
}

/// The counts of two tables, with the bytes of the second table itself, which is taken to need those
/// of a hash map.
pub open spec fn added(total: CacheProfile, profile: CacheProfile) -> CacheProfile {
    let bytes = total.estimated_bytes + profile.estimated_bytes + vstd::layout::size_of::<
        HashMap<BitMatrix, CacheEntry>,
    >();
    CacheProfile {
        entries: capped_sum(total.entries, profile.entries) as usize,
        done: capped_sum(total.done, profile.done) as usize,
        processing: capped_sum(total.processing, profile.processing) as usize,
        estimated_bytes: if bytes <= usize::MAX {
            bytes as usize
        } else {
            usize::MAX
        },
    }
}

/// Adds up the counts of two tables, and the bytes of the second table itself.
pub fn add_profiles(total: CacheProfile, profile: CacheProfile) -> (sum: CacheProfile)
    ensures
        sum.entries == capped_sum(total.entries, profile.entries),
        sum.done == capped_sum(total.done, profile.done),
        sum.processing == capped_sum(total.processing, profile.processing),
        sum.estimated_bytes == ({
            let bytes = total.estimated_bytes + profile.estimated_bytes + vstd::layout::size_of::<
                HashMap<BitMatrix, CacheEntry>,
            >();
            if bytes <= usize::MAX {
                bytes
            } else {
                usize::MAX as int
            }
        }),
{
    CacheProfile {
        entries: total.entries.saturating_add(profile.entries),
        done: total.done.saturating_add(profile.done),
        processing: total.processing.saturating_add(profile.processing),
        estimated_bytes: total.estimated_bytes.saturating_add(
            profile.estimated_bytes,
        ).saturating_add(core::mem::size_of::<HashMap<BitMatrix, CacheEntry>>()),
    }
}

} // verus!
