//! What a cache of nimbers keeps, forgets and gives back, and what a file of it holds.
use crate::cache::{CacheEntry, CacheProbe, CacheProfile, CacheShard};
use crate::cache::{lemma_published_is_known, lemma_publishing_keeps_claims};
use crate::cache_file::{decode_cache, encode_cache, CacheField, CacheFile, CacheFileError};
use crate::cache_file::{entries_at, entries_wf, entry_at, entry_end, entry_views, header_of};
use crate::cache_file::{lemma_saved_cache_loads, number_at, word_at};
use crate::evaluator::{xor_all, CacheIoReport, DfsSolver};
use crate::grid::Grid;
use crate::matrix::BitMatrix;
use crate::sharded::{compute_shard_limit, shard_of, total_len, ShardedCache};
use crate::solver::CanonicalGame;
use crate::workers::WorkerPoolError;
use vstd::prelude::*;

verus! {

/// What is put into a table is found there, and nothing else is changed.
pub proof fn lemma_inserted_is_found(
    shard: &mut CacheShard,
    component: BitMatrix,
    entry: CacheEntry,
    found: Option<CacheEntry>,
    other: BitMatrix,
    before: Option<CacheEntry>,
    after: Option<CacheEntry>,
)
    requires
        old(shard).wf(),
        component.wf(),
        old(shard)@.dom().len() < usize::MAX,
        other.wf(),
        other@ != component@,
        call_ensures(CacheShard::get, (old(shard), &other), before),
        call_ensures(CacheShard::insert, (shard, component, entry), ()),
        call_ensures(CacheShard::get, (final(shard), &component), found),
        call_ensures(CacheShard::get, (final(shard), &other), after),
    ensures
        found == Some(entry),
        after == before,
{
}

/// A component that nobody has asked for is claimed by whoever asks first; who asks after that is told
/// that it is busy. Once its nimber is published, whoever asks is given it.
pub proof fn lemma_first_asks_claims(
    first: &mut CacheShard,
    second: &mut CacheShard,
    third: &mut CacheShard,
    fourth: &mut CacheShard,
    component: BitMatrix,
    unknown: Option<CacheEntry>,
    nimber: usize,
    fresh: bool,
    probes: (CacheProbe, CacheProbe, CacheProbe),
)
    requires
        old(first).wf(),
        component.wf(),
        old(first)@.dom().len() + 1 < usize::MAX,
        old(first)@.dom().finite(),
        call_ensures(CacheShard::get, (old(first), &component), unknown),
        unknown is None,
        call_ensures(CacheShard::probe, (first, &component), probes.0),
        *old(second) == *final(first),
        call_ensures(CacheShard::probe, (second, &component), probes.1),
        *old(third) == *final(second),
        call_ensures(CacheShard::publish, (third, component, nimber, None::<usize>, 100usize), fresh),
        *old(fourth) == *final(third),
        final(third)@.dom().len() < usize::MAX,
        call_ensures(CacheShard::probe, (fourth, &component), probes.2),
    ensures
        probes.0 == CacheProbe::Claimed,
        probes.1 == CacheProbe::Busy,
        fresh,
        probes.2 == CacheProbe::Done(nimber),
        final(fourth)@ == final(third)@,
{
    lemma_published_is_known(
        old(third)@,
        final(third)@,
        component@,
        nimber,
        None,
        100,
        fresh,
    );
}

/// A published nimber can be read, whatever the limit; what was known before stays known by the same
/// nimber. No other component gets a new nimber, and none loses its claim.
pub proof fn lemma_published_can_be_read(
    shard: &mut CacheShard,
    component: BitMatrix,
    nimber: usize,
    limit: Option<usize>,
    percent: usize,
    fresh: bool,
    known: Option<usize>,
    read: Option<usize>,
    other: BitMatrix,
    other_before: Option<CacheEntry>,
    other_after: Option<CacheEntry>,
)
    requires
        old(shard).wf(),
        component.wf(),
        old(shard)@.dom().len() < usize::MAX,
        other.wf(),
        other@ != component@,
        call_ensures(CacheShard::get_done, (old(shard), &component), known),
        call_ensures(CacheShard::get, (old(shard), &other), other_before),
        call_ensures(CacheShard::publish, (shard, component, nimber, limit, percent), fresh),
        call_ensures(CacheShard::get_done, (final(shard), &component), read),
        call_ensures(CacheShard::get, (final(shard), &other), other_after),
    ensures
        read is Some,
        fresh ==> read == Some(nimber),
        !fresh ==> read == known,
        other_after is Some ==> other_after == other_before,
        other_before == Some(CacheEntry::Processing) ==> other_after == other_before,
        limit is None ==> other_after == other_before && fresh == known is None,
{
    lemma_published_is_known(
        old(shard)@,
        final(shard)@,
        component@,
        nimber,
        limit,
        percent,
        fresh,
    );
    lemma_publishing_keeps_claims(
        old(shard)@,
        final(shard)@,
        component@,
        nimber,
        limit,
        percent,
        fresh,
        other@,
    );
}

/// A table that has reached its limit keeps no more done entries than the limit when it takes another,
/// but for those that are being computed; a table below its limit loses none.
pub proof fn lemma_limit_is_kept(
    shard: &mut CacheShard,
    component: BitMatrix,
    nimber: usize,
    limit: usize,
    percent: usize,
    fresh: bool,
    before: usize,
    after: usize,
)
    requires
        old(shard).wf(),
        component.wf(),
        old(shard)@.dom().len() < usize::MAX,
        0 < limit,
        call_ensures(CacheShard::len, (old(shard),), before),
        call_ensures(CacheShard::publish, (shard, component, nimber, Some(limit), percent), fresh),
        final(shard).wf(),
        call_ensures(CacheShard::len, (final(shard),), after),
    ensures
        before < limit ==> forall|g: Grid| #[trigger]
            old(shard)@.contains_key(g) && g != component@ ==> final(shard)@.contains_key(g),
        before < limit ==> after <= before + 1,
        before >= limit && (forall|g: Grid| #[trigger]
            old(shard)@.contains_key(g) ==> old(shard)@[g] is Done) ==> after <= limit + 1,
        before >= limit && percent <= 100 && (forall|g: Grid| #[trigger]
            old(shard)@.contains_key(g) ==> old(shard)@[g] is Done) ==> 100 * (after - 1) <= limit
            * percent || after <= 2,
{
    let map = old(shard)@;
    let g = component@;
    let kept = choose|kept: Map<Grid, CacheEntry>| #[trigger]
        crate::cache::is_limited(map, kept, g, Some(limit), percent) && {
            &&& fresh == !(kept.contains_key(g) && kept[g] is Done)
            &&& final(shard)@ == if fresh {
                kept.insert(g, CacheEntry::Done(nimber))
            } else {
                kept
            }
        };
    assert(kept.submap_of(map));
    assert(kept.dom().subset_of(map.dom())) by {
        assert forall|h: Grid| kept.dom().contains(h) implies map.dom().contains(h) by {}
    }
    vstd::set_lib::lemma_len_subset(kept.dom(), map.dom());
    let share = if percent < 100 {
        percent as int
    } else {
        100
    };
    let room = limit * share / 100;
    assert(limit * share <= limit * 100) by (nonlinear_arith)
        requires
            0 <= share <= 100,
            0 < limit,
    ;
    assert(0 <= limit * share) by (nonlinear_arith)
        requires
            0 <= share <= 100,
            0 < limit,
    ;
    assert(100 * room <= limit * share);
    if before >= limit && (forall|h: Grid| #[trigger] map.contains_key(h) ==> map[h] is Done) {
        assert(kept.dom().len() <= if room < 1 {
            1
        } else {
            room
        }) by {
            if kept.dom().len() > 0 {
                let h = kept.dom().choose();
                assert(kept.contains_key(h));
                assert(map.contains_key(h));
                assert(kept[h] == map[h]);
            }
        }
        if fresh {
            assert(final(shard)@.dom() =~= kept.dom().insert(g));
        }
    }
    if before < limit {
        if fresh {
            assert(final(shard)@.dom() =~= kept.dom().insert(g));
        }
    }
}

/// Dropping claims keeps everything that is done, with its nimber, and nothing else. Doing it again
/// changes nothing.
pub proof fn lemma_clearing_claims_keeps_done(
    shard: &mut CacheShard,
    again: &mut CacheShard,
    component: BitMatrix,
    before: Option<CacheEntry>,
    after: Option<CacheEntry>,
)
    requires
        old(shard).wf(),
        component.wf(),
        call_ensures(CacheShard::get, (old(shard), &component), before),
        call_ensures(CacheShard::clear_processing, (shard,), ()),
        call_ensures(CacheShard::get, (final(shard), &component), after),
        *old(again) == *final(shard),
        call_ensures(CacheShard::clear_processing, (again,), ()),
    ensures
        before matches Some(CacheEntry::Done(nimber)) ==> after == Some(CacheEntry::Done(nimber)),
        before == Some(CacheEntry::Processing) ==> after is None,
        before is None ==> after is None,
        final(again)@ == final(shard)@,
{
    assert(final(again)@ =~= final(shard)@);
}

/// Making room takes nothing that is being computed, changes no nimber, and takes nothing where there is
/// room. It stops as soon as there is.
pub proof fn lemma_eviction_takes_done_only(
    shard: &mut CacheShard,
    target: usize,
    new_hash: u64,
    component: BitMatrix,
    before: Option<CacheEntry>,
    after: Option<CacheEntry>,
    len: usize,
    len_after: usize,
)
    requires
        old(shard).wf(),
        component.wf(),
        call_ensures(CacheShard::len, (old(shard),), len),
        call_ensures(CacheShard::get, (old(shard), &component), before),
        call_ensures(CacheShard::evict_done_entries, (shard, target, new_hash), ()),
        final(shard).wf(),
        call_ensures(CacheShard::get, (final(shard), &component), after),
        call_ensures(CacheShard::len, (final(shard),), len_after),
    ensures
        before == Some(CacheEntry::Processing) ==> after == before,
        after is Some ==> after == before,
        len <= target ==> after == before && len_after == len,
        len > target ==> len_after >= target,
        len > target && len_after > target && after is Some ==> after == Some(
            CacheEntry::Processing,
        ),
{
    if final(shard)@.contains_key(component@) {
        assert(final(shard)@.dom().contains(component@));
        assert(old(shard)@.dom().contains(component@));
    }
    if old(shard)@.contains_key(component@) && old(shard)@[component@] is Processing {
        assert(final(shard)@.contains_key(component@));
    }
}

/// The list of what is done has every component that is done with its nimber, and no other.
pub proof fn lemma_done_entries_are_done(
    shard: CacheShard,
    entries: Vec<(BitMatrix, usize)>,
    component: BitMatrix,
    known: Option<usize>,
)
    requires
        shard.wf(),
        component.wf(),
        call_ensures(CacheShard::done_entries, (&shard,), entries),
        call_ensures(CacheShard::get_done, (&shard, &component), known),
    ensures
        known is Some <==> exists|i: int|
            0 <= i < entries@.len() && (#[trigger] entries@[i]).0@ == component@,
        forall|i: int|
            0 <= i < entries@.len() && (#[trigger] entries@[i]).0@ == component@ ==> known == Some(
                entries@[i].1,
            ),
{
}

/// The counts of a table: its components are those that are done and those that are being computed.
pub proof fn lemma_profile_counts(
    shard: CacheShard,
    profile: CacheProfile,
    len: usize,
    entries: Vec<(BitMatrix, usize)>,
)
    requires
        shard.wf(),
        call_ensures(CacheShard::profile, (&shard,), profile),
        call_ensures(CacheShard::len, (&shard,), len),
        call_ensures(CacheShard::done_entries, (&shard,), entries),
    ensures
        profile.entries == len,
        profile.done + profile.processing == profile.entries,
        profile.done == entries@.len(),
{
    let grids = Seq::new(entries@.len(), |i: int| entries@[i].0@);
    assert(grids.no_duplicates()) by {
        assert forall|i: int, j: int| 0 <= i < grids.len() && 0 <= j < grids.len() && i
            != j implies grids[i] != grids[j] by {
            if i < j {
                assert(entries@[i].0@ != entries@[j].0@);
            } else {
                assert(entries@[j].0@ != entries@[i].0@);
            }
        }
    }
    grids.unique_seq_to_set();
    let done = crate::cache::done_grids(shard@);
    assert(grids.to_set() =~= done) by {
        assert forall|g: Grid| grids.to_set().contains(g) <==> done.contains(g) by {
            if grids.contains(g) {
                let i = choose|i: int| 0 <= i < grids.len() && grids[i] == g;
                assert(entries@[i].0@ == g);
            }
            if done.contains(g) {
                assert(shard@.contains_key(g));
                let i = choose|i: int| 0 <= i < entries@.len() && (#[trigger] entries@[i]).0@ == g;
                assert(grids[i] == g);
            }
        }
    }
}

/// The limit of one shard is at least one, and just enough: the shards together have room for all
/// entries, and with one less each they would not.
pub proof fn lemma_shard_limit_is_enough(max_entries: usize, count: usize, limit: usize)
    requires
        0 < count,
        call_ensures(compute_shard_limit, (max_entries, count), limit),
    ensures
        limit >= 1,
        count * limit >= max_entries,
        limit > 1 ==> count * (limit - 1) < max_entries,
{
    let n = (max_entries + count - 1) as int;
    let share = n / (count as int);
    vstd::arithmetic::div_mod::lemma_fundamental_div_mod(n, count as int);
    assert(n % (count as int) < count);
    assert(count * share <= n);
    assert(count * share > n - count);
    assert(count * (share - 1) == count * share - count) by (nonlinear_arith);
    if share < 1 {
        assert(count * share <= 0) by (nonlinear_arith)
            requires
                share <= 0,
                0 < count,
        ;
    }
}

/// What was written to a file is read from it: the same components with the same nimbers, in the same
/// order, and without a fault.
pub proof fn lemma_written_is_read(
    entries: Vec<(BitMatrix, usize)>,
    bytes: Vec<u8>,
    slice: &[u8],
    file: Result<CacheFile, CacheFileError>,
)
    requires
        entries_wf(entries@),
        entries@.len() <= usize::MAX,
        call_ensures(encode_cache, (&entries,), bytes),
        slice@ == bytes@,
        call_ensures(decode_cache, (slice,), file),
    ensures
        file is Ok,
        file->Ok_0.error is None,
        file->Ok_0.entries@.len() == entries@.len(),
        forall|i: int|
            0 <= i < entries@.len() ==> (#[trigger] file->Ok_0.entries@[i]).0@ == entries@[i].0@
                && file->Ok_0.entries@[i].1 == entries@[i].1,
{
    let views = entry_views(entries@);
    assert forall|i: int| 0 <= i < views.len() implies (#[trigger] views[i]).0.wf()
        && crate::grid::countable(views[i].0.rows, views[i].0.cols) by {
        assert(entries@[i].0.wf());
    }
    lemma_saved_cache_loads(views);
    let read = entry_views(file->Ok_0.entries@);
    assert(read == views);
    assert(read.len() == views.len());
    assert forall|i: int| 0 <= i < entries@.len() implies (#[trigger] file->Ok_0.entries@[i]).0@
        == entries@[i].0@ && file->Ok_0.entries@[i].1 == entries@[i].1 by {
        assert(read[i] == views[i]);
    }
}

/// A look for a nimber gives what the shard of the component holds at that moment: the nimber that is
/// there, or none where the component is missing or being computed.
pub proof fn lemma_look_gives_what_is_there(
    cache: ShardedCache,
    component: BitMatrix,
    nimber: Option<usize>,
)
    requires
        cache.wf(),
        component.wf(),
        call_ensures(ShardedCache::get_done, (&cache, &component), nimber),
    ensures
        exists|map: Map<Grid, CacheEntry>| #[trigger]
            cache.shows(shard_of(component@, cache.shard_count() as int), map) && match nimber {
                Some(nimber) => map.contains_key(component@) && map[component@]
                    == CacheEntry::Done(nimber),
                None => map.contains_key(component@) ==> map[component@] == CacheEntry::Processing,
            },
{
}

/// Asking for a component claims it if and only if its shard does not hold it and has room; then it is
/// being computed, and nothing else changes. Else nothing changes at all, and the nimber is given if it
/// is there.
pub proof fn lemma_asking_claims_or_finds(
    cache: ShardedCache,
    component: BitMatrix,
    probe: CacheProbe,
)
    requires
        cache.wf(),
        component.wf(),
        call_ensures(ShardedCache::probe, (&cache, &component), probe),
    ensures
        exists|before: Map<Grid, CacheEntry>, after: Map<Grid, CacheEntry>| #[trigger]
            cache.replaced(shard_of(component@, cache.shard_count() as int), before, after)
                && match probe {
                CacheProbe::Claimed => {
                    &&& !before.contains_key(component@)
                    &&& after.contains_key(component@)
                    &&& after[component@] == CacheEntry::Processing
                    &&& after.remove(component@) =~= before
                },
                CacheProbe::Busy => {
                    &&& after == before
                    &&& before.contains_key(component@) ==> before[component@]
                        == CacheEntry::Processing
                    &&& !before.contains_key(component@) ==> before.dom().len() >= usize::MAX
                },
                CacheProbe::Done(nimber) => {
                    &&& after == before
                    &&& before.contains_key(component@)
                    &&& before[component@] == CacheEntry::Done(nimber)
                },
            },
{
    let k = shard_of(component@, cache.shard_count() as int);
    let before = choose|before: Map<Grid, CacheEntry>| #[trigger]
        cache.replaced(k, before, crate::sharded::after_probe(before, component@)) && probe
            == crate::sharded::probed(before, component@);
    let after = crate::sharded::after_probe(before, component@);
    assert(cache.replaced(k, before, after));
    if probe is Claimed {
        assert(after.remove(component@) =~= before);
    }
}

/// A nimber that is published is in the shard of the component right after that, unless the shard is
/// full: the new one, or the one that was there before. What else stays keeps its value.
pub proof fn lemma_publishing_leaves_the_nimber(
    cache: ShardedCache,
    component: BitMatrix,
    nimber: usize,
    max_entries: Option<usize>,
    low_watermark: usize,
    fresh: bool,
)
    requires
        cache.wf(),
        component.wf(),
        cache.sound() ==> crate::sharded::is_true_of(component@, nimber),
        call_ensures(
            ShardedCache::insert_if_absent,
            (&cache, component, nimber, max_entries, low_watermark),
            fresh,
        ),
    ensures
        exists|before: Map<Grid, CacheEntry>, after: Map<Grid, CacheEntry>|
            {
                &&& #[trigger] cache.replaced(
                    shard_of(component@, cache.shard_count() as int),
                    before,
                    after,
                )
                &&& before.dom().len() < usize::MAX ==> after.contains_key(component@)
                &&& fresh ==> after[component@] == CacheEntry::Done(nimber)
                &&& !fresh && before.dom().len() < usize::MAX ==> before.contains_key(component@)
                    && before[component@] is Done && after[component@] == before[component@]
                &&& forall|other: Grid|
                    other != component@ && #[trigger] after.contains_key(other)
                        ==> before.contains_key(other) && after[other] == before[other]
                &&& forall|other: Grid|
                    other != component@ && #[trigger] before.contains_key(other) && before[other]
                        == CacheEntry::Processing ==> after.contains_key(other)
            },
{
    let k = shard_of(component@, cache.shard_count() as int);
    let limit = crate::sharded::limit_of(max_entries, cache.shard_count() as int);
    let (before, after) = choose|before: Map<Grid, CacheEntry>, after: Map<Grid, CacheEntry>|
     #[trigger]
        cache.replaced(k, before, after) && crate::sharded::may_publish(
            before,
            after,
            component@,
            nimber,
            limit,
            low_watermark,
            fresh,
        );
    assert(cache.replaced(k, before, after));
    if before.dom().len() < usize::MAX {
        lemma_published_is_known(before, after, component@, nimber, limit, low_watermark, fresh);
        assert forall|other: Grid| other != component@ && #[trigger] after.contains_key(
            other,
        ) implies before.contains_key(other) && after[other] == before[other] by {
            lemma_publishing_keeps_claims(
                before,
                after,
                component@,
                nimber,
                limit,
                low_watermark,
                fresh,
                other,
            );
        }
        assert forall|other: Grid|
            other != component@ && #[trigger] before.contains_key(other) && before[other]
                == CacheEntry::Processing implies after.contains_key(other) by {
            lemma_publishing_keeps_claims(
                before,
                after,
                component@,
                nimber,
                limit,
                low_watermark,
                fresh,
                other,
            );
        }
    }
}

/// A nimber that is put in by hand replaces whatever the shard knew of the component, and nothing else.
pub proof fn lemma_put_in_by_hand(cache: ShardedCache, component: BitMatrix, nimber: usize)
    requires
        cache.wf(),
        component.wf(),
        cache.sound() ==> crate::sharded::is_true_of(component@, nimber),
        call_ensures(ShardedCache::insert_done, (&cache, component, nimber), ()),
    ensures
        exists|before: Map<Grid, CacheEntry>, after: Map<Grid, CacheEntry>|
            {
                &&& #[trigger] cache.replaced(
                    shard_of(component@, cache.shard_count() as int),
                    before,
                    after,
                )
                &&& before.dom().len() < usize::MAX ==> after.contains_key(component@)
                    && after[component@] == CacheEntry::Done(nimber)
                &&& forall|other: Grid|
                    other != component@ ==> (#[trigger] after.contains_key(other)
                        <==> before.contains_key(other))
                &&& forall|other: Grid|
                    other != component@ && #[trigger] after.contains_key(other) ==> after[other]
                        == before[other]
            },
{
    let k = shard_of(component@, cache.shard_count() as int);
    let before = choose|before: Map<Grid, CacheEntry>| #[trigger]
        cache.replaced(k, before, crate::sharded::with_done(before, component@, nimber));
    let after = crate::sharded::with_done(before, component@, nimber);
    assert(cache.replaced(k, before, after));
}

proof fn lemma_total_len(maps: Seq<Map<Grid, CacheEntry>>, i: int)
    requires
        0 <= i < maps.len(),
    ensures
        0 <= total_len(maps) <= usize::MAX,
        total_len(maps) >= maps[i].dom().len() || total_len(maps) == usize::MAX,
        total_len(maps) == 0 ==> maps[i].dom().len() == 0,
    decreases maps.len(),
{
    let most = maps.drop_last();
    assert(maps.last() == maps[maps.len() - 1]);
    if most.len() == 0 {
        assert(total_len(most) == 0);
    }
    if i < most.len() {
        assert(most[i] == maps[i]);
        lemma_total_len(most, i);
    } else if most.len() > 0 {
        lemma_total_len(most, 0);
    }
}

/// The number of components in a cache counts every shard: it is no less than any of them holds, and
/// zero only if all are empty. A cache of one shard has as many as that.
pub proof fn lemma_len_counts_every_shard(cache: ShardedCache, len: usize)
    requires
        cache.wf(),
        call_ensures(ShardedCache::len, (&cache,), len),
    ensures
        exists|maps: Seq<Map<Grid, CacheEntry>>|
            {
                &&& #[trigger] cache.shown(maps)
                &&& forall|i: int|
                    0 <= i < maps.len() ==> len >= (#[trigger] maps[i]).dom().len() || len
                        == usize::MAX
                &&& len == 0 ==> forall|i: int|
                    0 <= i < maps.len() ==> (#[trigger] maps[i]).dom().len() == 0
                &&& maps.len() == 1 && maps[0].dom().len() <= usize::MAX ==> len
                    == maps[0].dom().len()
            },
{
    let maps = choose|maps: Seq<Map<Grid, CacheEntry>>| #[trigger]
        cache.shown(maps) && len == total_len(maps);
    assert(cache.shown(maps));
    assert forall|i: int| 0 <= i < maps.len() implies len >= (#[trigger] maps[i]).dom().len() || len
        == usize::MAX by {
        lemma_total_len(maps, i);
    }
    if len == 0 {
        assert forall|i: int| 0 <= i < maps.len() implies (#[trigger] maps[i]).dom().len() == 0 by {
            lemma_total_len(maps, i);
        }
    }
    if maps.len() == 1 {
        assert(total_len(maps.drop_last()) == 0);
    }
}

/// Whatever follows the entries of a file, or however much of the end is missing: what is read of the
/// shorter file is read of the longer one too, in the same places.
pub proof fn lemma_more_bytes_give_no_less(
    some: &[u8],
    more: &[u8],
    file: CacheFile,
    longer: Result<CacheFile, CacheFileError>,
)
    requires
        some@.is_prefix_of(more@),
        call_ensures(decode_cache, (some,), Ok::<CacheFile, CacheFileError>(file)),
        call_ensures(decode_cache, (more,), longer),
    ensures
        longer is Ok,
        longer->Ok_0.entries@.len() >= file.entries@.len(),
        forall|i: int|
            0 <= i < file.entries@.len() ==> (#[trigger] longer->Ok_0.entries@[i]).0@
                == file.entries@[i].0@ && longer->Ok_0.entries@[i].1 == file.entries@[i].1,
        file.error is None ==> longer->Ok_0.error is None && longer->Ok_0.entries@.len()
            == file.entries@.len(),
{
    let a = some@;
    let b = more@;
    let count = header_of(a)->Ok_0 as nat;
    assert(a.subrange(0, 8) =~= b.subrange(0, 8));
    lemma_same_number(a, b, 8, CacheField::EntryCount);
    assert(header_of(b) == header_of(a));
    lemma_same_entries(a, b, 16, count);
    let read = entry_views(file.entries@);
    let read_more = entry_views(longer->Ok_0.entries@);
    assert(read == entries_at(a, 16, count).0);
    assert(read_more == entries_at(b, 16, count).0);
    assert(read.len() == file.entries@.len());
    assert(read_more.len() == longer->Ok_0.entries@.len());
    assert forall|i: int| 0 <= i < file.entries@.len() implies (
    #[trigger] longer->Ok_0.entries@[i]).0@ == file.entries@[i].0@ && longer->Ok_0.entries@[i].1
        == file.entries@[i].1 by {
        assert(read_more[i] == read[i]);
    }
}

proof fn lemma_same_number(a: Seq<u8>, b: Seq<u8>, at: int, field: CacheField)
    requires
        a.is_prefix_of(b),
        0 <= at,
        number_at(a, at, field) is Ok,
    ensures
        number_at(b, at, field) == number_at(a, at, field),
        word_at(b, at) == word_at(a, at),
        at + 8 <= a.len(),
{
    assert(a.subrange(at, at + 8) =~= b.subrange(at, at + 8));
}

proof fn lemma_same_entry(a: Seq<u8>, b: Seq<u8>, at: int)
    requires
        a.is_prefix_of(b),
        0 <= at,
        entry_at(a, at) is Ok,
    ensures
        entry_at(b, at) == entry_at(a, at),
        entry_end(b, at) == entry_end(a, at),
        entry_end(a, at) >= at,
{
    lemma_same_number(a, b, at, CacheField::Nimber);
    lemma_same_number(a, b, at + 8, CacheField::Rows);
    lemma_same_number(a, b, at + 16, CacheField::Columns);
    lemma_same_number(a, b, at + 24, CacheField::WordCount);
    let count = number_at(a, at + 24, CacheField::WordCount)->Ok_0 as nat;
    let words = Seq::new(count, |k: int| word_at(a, at + 8 + 24 + 8 * k));
    let other = Seq::new(count, |k: int| word_at(b, at + 8 + 24 + 8 * k));
    assert(words =~= other) by {
        assert forall|k: int| 0 <= k < count implies words[k] == other[k] by {
            let from = at + 8 + 24 + 8 * k;
            assert(a.subrange(from, from + 8) =~= b.subrange(from, from + 8));
        }
    }
}

proof fn lemma_same_entries(a: Seq<u8>, b: Seq<u8>, at: int, count: nat)
    requires
        a.is_prefix_of(b),
        0 <= at,
    ensures
        entries_at(a, at, count).0.is_prefix_of(entries_at(b, at, count).0),
        entries_at(a, at, count).1 is None ==> entries_at(b, at, count) == entries_at(a, at, count),
    decreases count,
{
    if count > 0 && entry_at(a, at) is Ok {
        lemma_same_entry(a, b, at);
        let end = entry_end(a, at);
        lemma_same_entries(a, b, end, (count - 1) as nat);
        let rest = entries_at(a, end, (count - 1) as nat).0;
        let more = entries_at(b, end, (count - 1) as nat).0;
        let first = seq![entry_at(a, at)->Ok_0];
        assert((first + rest).is_prefix_of(first + more)) by {
            assert(rest =~= more.subrange(0, rest.len() as int));
            assert((first + rest) =~= (first + more).subrange(0, (first + rest).len() as int));
        }
    }
}

/// A file that does not begin as every written file begins is not read as one; a file too short to begin
/// so is called cut off.
pub proof fn lemma_foreign_files_are_refused(
    entries: Vec<(BitMatrix, usize)>,
    written: Vec<u8>,
    bytes: &[u8],
    file: Result<CacheFile, CacheFileError>,
)
    requires
        entries_wf(entries@),
        call_ensures(encode_cache, (&entries,), written),
        call_ensures(decode_cache, (bytes,), file),
    ensures
        bytes@.len() < 8 ==> file is Err && file->Err_0 == CacheFileError::Truncated,
        bytes@.len() >= 8 && bytes@.take(8) != written@.take(8) ==> file is Err && file->Err_0
            == CacheFileError::NotACacheFile,
        8 <= bytes@.len() < 16 && bytes@.take(8) == written@.take(8) ==> file is Err
            && file->Err_0 == CacheFileError::Truncated,
{
    assert(written@.take(8) =~= crate::cache_file::file_mark());
    if bytes@.len() >= 8 {
        assert(bytes@.take(8) =~= bytes@.subrange(0, 8));
    }
}

/// Loading goes by what can be read of the file: where it cannot be read as a cache at all, the fault is
/// told and nothing changes; where an entry is faulty, the fault is told; else the number of entries is.
pub proof fn lemma_loading_goes_by_the_file(
    solver: &mut DfsSolver,
    bytes: &[u8],
    file: Result<CacheFile, CacheFileError>,
    report: Result<CacheIoReport, CacheFileError>,
)
    requires
        old(solver).wf(),
        call_ensures(decode_cache, (bytes,), file),
        call_ensures(DfsSolver::load_cache, (solver, bytes), report),
    ensures
        file is Err ==> report is Err && report->Err_0 == file->Err_0 && *final(solver)
            == *old(solver),
        file is Ok && file->Ok_0.error is Some ==> report is Err && report->Err_0
            == file->Ok_0.error->0,
        file is Ok && file->Ok_0.error is None ==> report is Ok && report->Ok_0.entries
            == file->Ok_0.entries@.len(),
        final(solver).wf(),
{
    if file is Ok {
        let count = header_of(bytes@)->Ok_0 as nat;
        crate::evaluator::lemma_all_read(bytes@, 16, count);
        assert(entry_views(file->Ok_0.entries@).len() == file->Ok_0.entries@.len());
    }
}

/// What one solver saves another one loads: as many entries, and for each component the nimber that was
/// known, if one was, and none else. The nimbers are right if those of the first solver are.
#[verifier::rlimit(50)]
pub proof fn lemma_saving_and_loading(
    from: DfsSolver,
    saved: (Vec<u8>, CacheIoReport),
    into: &mut DfsSolver,
    bytes: &[u8],
    report: Result<CacheIoReport, CacheFileError>,
)
    requires
        from.wf(),
        call_ensures(DfsSolver::save_cache, (&from,), saved),
        bytes@ == saved.0@,
        old(into).wf(),
        old(into).inner_config().cache_shards > 0,
        call_ensures(DfsSolver::load_cache, (into, bytes), report),
    ensures
        report is Ok,
        report->Ok_0.entries == saved.1.entries,
        from.sound() ==> final(into).sound(),
        exists|maps: Seq<Map<Grid, CacheEntry>>, starts: Seq<Map<Grid, CacheEntry>>|
            {
                &&& #[trigger] from.cache_shows(maps)
                &&& #[trigger] final(into).cache_starts_as(starts)
                &&& forall|g: Grid, nimber: usize|
                    #![trigger knows(starts, g, nimber)]
                    knows(maps, g, nimber) <==> knows(starts, g, nimber)
            },
{
    let entries = choose|entries: Seq<(BitMatrix, usize)>|
        {
            &&& crate::sharded::are_entries(entries)
            &&& from.sound() ==> crate::sharded::entries_true(entries)
            &&& from.saves(entries)
            &&& saved.0@ == crate::cache_file::file_bytes(#[trigger] entry_views(entries))
            &&& saved.1.entries == entries.len()
        };
    let maps = choose|maps: Seq<Map<Grid, CacheEntry>>| #[trigger]
        from.cache_shows(maps) && crate::sharded::lists_done_of_all(
            maps,
            maps.len() as int,
            entries,
        );
    let count = old(into).inner_config().cache_shards as nat;
    crate::evaluator::lemma_cache_has_shards(from, maps);
    crate::evaluator::lemma_loading_gives_back(maps, entries, count);
    if from.sound() {
        crate::evaluator::lemma_saved_cache_is_sound(entries);
    }
    let starts = crate::sharded::filled_shards(
        entries_at(bytes@, 16, entries.len()).0,
        count,
    );
    assert(final(into).cache_starts_as(starts));
    lemma_known_alike(maps, starts);
}

proof fn lemma_known_alike(maps: Seq<Map<Grid, CacheEntry>>, starts: Seq<Map<Grid, CacheEntry>>)
    requires
        crate::sharded::holds_done_of(maps, starts),
    ensures
        forall|g: Grid, nimber: usize|
            #![trigger knows(starts, g, nimber)]
            knows(maps, g, nimber) <==> knows(starts, g, nimber),
{
    assert forall|g: Grid, nimber: usize|
        #![trigger knows(starts, g, nimber)]
        knows(maps, g, nimber) <==> knows(starts, g, nimber) by {
        let k = shard_of(g, starts.len() as int);
        assert(crate::sharded::done_nimber(starts[k], g) == crate::sharded::done_nimber(
            maps[shard_of(g, maps.len() as int)],
            g,
        ));
    }
}

/// Whether the shards know that a component has the nimber.
pub open spec fn knows(maps: Seq<Map<Grid, CacheEntry>>, g: Grid, nimber: usize) -> bool {
    let map = maps[shard_of(g, maps.len() as int)];
    map.contains_key(g) && map[g] == CacheEntry::Done(nimber)
}

/// Going on with other threads changes the number of threads and of shards, and nothing else: the limit
/// of the cache stays, and every nimber that was known is known.
pub proof fn lemma_other_threads_know_as_much(
    solver: DfsSolver,
    threads: usize,
    shards: usize,
    other: DfsSolver,
)
    requires
        solver.wf(),
        threads > 0,
        shards > 0,
        call_ensures(
            DfsSolver::with_threads_preserving_cache,
            (&solver, threads, shards),
            Ok::<DfsSolver, WorkerPoolError>(other),
        ),
    ensures
        other.inner_config().threads == Some(threads),
        other.inner_config().cache_shards == shards,
        other.inner_config().max_cache_entries == solver.inner_config().max_cache_entries,
        other.inner_config().cache_low_watermark == solver.inner_config().cache_low_watermark,
        solver.sound() ==> other.sound(),
        exists|maps: Seq<Map<Grid, CacheEntry>>, starts: Seq<Map<Grid, CacheEntry>>|
            {
                &&& #[trigger] solver.cache_shows(maps)
                &&& #[trigger] other.cache_starts_as(starts)
                &&& forall|g: Grid, nimber: usize|
                    #![trigger knows(starts, g, nimber)]
                    knows(maps, g, nimber) <==> knows(starts, g, nimber)
            },
{
    lemma_known_by_both(solver, other);
}

proof fn lemma_known_by_both(solver: DfsSolver, other: DfsSolver)
    requires
        solver.keeps_done(&other),
    ensures
        exists|maps: Seq<Map<Grid, CacheEntry>>, starts: Seq<Map<Grid, CacheEntry>>|
            {
                &&& #[trigger] solver.cache_shows(maps)
                &&& #[trigger] other.cache_starts_as(starts)
                &&& forall|g: Grid, nimber: usize|
                    #![trigger knows(starts, g, nimber)]
                    knows(maps, g, nimber) <==> knows(starts, g, nimber)
            },
{
    let (maps, starts) = choose|
        maps: Seq<Map<Grid, CacheEntry>>,
        starts: Seq<Map<Grid, CacheEntry>>,
    |
        {
            &&& #[trigger] solver.cache_shows(maps)
            &&& #[trigger] other.cache_starts_as(starts)
            &&& crate::sharded::holds_done_of(maps, starts)
        };
    lemma_known_alike(maps, starts);
}

/// Going on with or without symmetries changes that, and nothing else: threads, shards and limits stay,
/// and every nimber that was known is known.
pub proof fn lemma_symmetries_on_or_off(solver: DfsSolver, enabled: bool, other: DfsSolver)
    requires
        solver.wf(),
        call_ensures(
            DfsSolver::with_symmetry_preserving_cache,
            (&solver, enabled),
            Ok::<DfsSolver, WorkerPoolError>(other),
        ),
    ensures
        other.inner_finder().is_enabled() == enabled,
        other.inner_config() == solver.inner_config(),
        solver.sound() ==> other.sound(),
        exists|maps: Seq<Map<Grid, CacheEntry>>, starts: Seq<Map<Grid, CacheEntry>>|
            {
                &&& #[trigger] solver.cache_shows(maps)
                &&& #[trigger] other.cache_starts_as(starts)
                &&& forall|g: Grid, nimber: usize|
                    #![trigger knows(starts, g, nimber)]
                    knows(maps, g, nimber) <==> knows(starts, g, nimber)
            },
{
    lemma_known_by_both(solver, other);
}

/// The cache knows the nimber of a game of one part if it knows the part, and that of a game of two parts
/// if it knows both; then it is their nimbers added without carry. Of a game without parts it is zero.
pub proof fn lemma_cached_parts_make_the_game(
    solver: DfsSolver,
    game: CanonicalGame,
    nimber: Option<usize>,
)
    requires
        solver.wf(),
        game.wf(),
        call_ensures(DfsSolver::cached_nimber_of_canonical, (&solver, &game), nimber),
    ensures
        game@.len() == 0 ==> nimber == Some(0usize),
        game@.len() == 1 ==> solver.cache_gives(game@[0], nimber),
        game@.len() == 2 && nimber is Some ==> exists|a: usize, b: usize| #[trigger]
            solver.cache_gives(game@[0], Some(a)) && #[trigger] solver.cache_gives(
                game@[1],
                Some(b),
            ) && nimber->0 == a ^ b,
        nimber is None ==> exists|i: int|
            0 <= i < game@.len() && solver.cache_gives(#[trigger] game@[i], None),
{
    if let Some(total) = nimber {
        let found = choose|found: Seq<usize>|
            {
                &&& found.len() == game@.len()
                &&& forall|i: int|
                    0 <= i < game@.len() ==> solver.cache_gives(
                        #[trigger] game@[i],
                        Some(found[i]),
                    )
                &&& total == #[trigger] xor_all(found)
            };
        reveal_with_fuel(xor_all, 3);
        if game@.len() == 1 {
            let a = found[0];
            assert(found.drop_last().len() == 0);
            assert(0usize ^ a == a) by (bit_vector);
            assert(solver.cache_gives(game@[0], Some(found[0])));
        }
        if game@.len() == 2 {
            let a = found[0];
            let b = found[1];
            assert(found.drop_last().last() == a);
            assert(found.drop_last().drop_last().len() == 0);
            assert(0usize ^ a == a) by (bit_vector);
            assert(solver.cache_gives(game@[0], Some(a)));
            assert(solver.cache_gives(game@[1], Some(b)));
        }
    }
}

} // verus!
