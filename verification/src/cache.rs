//! The cache of evaluated components.
use crate::grid::Grid;
use crate::matrix::BitMatrix;
use crate::traversal::{grid_hash, rotated, stable_matrix_hash};
use vstd::prelude::*;

verus! {

/// What the cache knows of a component: that it is being evaluated, or its nimber.
#[derive(Clone, Copy, Debug, PartialEq, Eq, Structural)]
pub enum CacheEntry {
    Processing,
    Done(usize),
}

/// What a look into the cache gives: the component is now claimed by the asker, it is being
/// evaluated by someone else, or its nimber is known.
#[derive(Clone, Copy, Debug, PartialEq, Eq, Structural)]
pub enum CacheProbe {
    Claimed,
    Busy,
    Done(usize),
}

struct Slot {
    hash: u64,
    component: BitMatrix,
    entry: CacheEntry,
}

/// A part of the cache: a table of components with a bucket for each residue of the hash.
pub struct CacheShard {
    buckets: Vec<Vec<Slot>>,
    len: usize,
}

/// Whether `bucket` holds component `g`.
spec fn bucket_has(bucket: Seq<Slot>, g: Grid) -> bool {
    exists|i: int| 0 <= i < bucket.len() && (#[trigger] bucket[i]).component@ == g
}

/// The place of component `g` in `bucket`.
spec fn bucket_place(bucket: Seq<Slot>, g: Grid) -> int {
    choose|i: int| 0 <= i < bucket.len() && (#[trigger] bucket[i]).component@ == g
}

/// Whether `bucket` is bucket `b` of `n`: its components belong there and differ.
spec fn bucket_wf(bucket: Seq<Slot>, b: int, n: int) -> bool {
    &&& forall|i: int|
        0 <= i < bucket.len() ==> {
            &&& (#[trigger] bucket[i]).component.wf()
            &&& bucket[i].hash == grid_hash(bucket[i].component@)
            &&& bucket[i].hash as int % n == b
        }
    &&& forall|i: int, j: int|
        0 <= i < j < bucket.len() ==> (#[trigger] bucket[i]).component@ != (
        #[trigger] bucket[j]).component@
}

/// The number of slots in the first `k` buckets.
spec fn slots_in(buckets: Seq<Vec<Slot>>, k: int) -> nat
    decreases k,
{
    if k <= 0 {
        0
    } else {
        slots_in(buckets, k - 1) + buckets[k - 1]@.len()
    }
}

/// The table that the buckets hold.
spec fn table(buckets: Seq<Vec<Slot>>) -> Map<Grid, CacheEntry> {
    Map::new(
        |g: Grid| bucket_has(buckets[grid_hash(g) as int % (buckets.len() as int)]@, g),
        |g: Grid|
            {
                let bucket = buckets[grid_hash(g) as int % (buckets.len() as int)]@;
                bucket[bucket_place(bucket, g)].entry
            },
    )
}

impl View for CacheShard {
    type V = Map<Grid, CacheEntry>;

    closed spec fn view(&self) -> Map<Grid, CacheEntry> {
        table(self.buckets@)
    }
}

/// Whether the buckets are as they should be.
spec fn buckets_wf(buckets: Seq<Vec<Slot>>) -> bool {
    &&& buckets.len() > 0
    &&& forall|b: int|
        0 <= b < buckets.len() ==> bucket_wf((#[trigger] buckets[b])@, b, buckets.len() as int)
}

/// A slot of a well-formed table is in the table.
proof fn lemma_slot_in_table(buckets: Seq<Vec<Slot>>, b: int, i: int)
    requires
        buckets_wf(buckets),
        0 <= b < buckets.len(),
        0 <= i < buckets[b]@.len(),
    ensures
        table(buckets).contains_key(buckets[b]@[i].component@),
        table(buckets)[buckets[b]@[i].component@] == buckets[b]@[i].entry,
        grid_hash(buckets[b]@[i].component@) as int % (buckets.len() as int) == b,
{
    let bucket = buckets[b]@;
    let g = bucket[i].component@;
    assert(bucket_wf(bucket, b, buckets.len() as int));
    assert(bucket[i].component.wf());
    assert(bucket_has(bucket, g));
    let j = bucket_place(bucket, g);
    assert(0 <= j < bucket.len() && bucket[j].component@ == g);
    if i < j {
        assert(bucket[i].component@ != bucket[j].component@);
    } else if j < i {
        assert(bucket[j].component@ != bucket[i].component@);
    }
}

/// Every component of the table has a slot.
proof fn lemma_table_slot(buckets: Seq<Vec<Slot>>, g: Grid) -> (at: (int, int))
    requires
        buckets_wf(buckets),
        table(buckets).contains_key(g),
    ensures
        0 <= at.0 < buckets.len(),
        at.0 == grid_hash(g) as int % (buckets.len() as int),
        0 <= at.1 < buckets[at.0]@.len(),
        buckets[at.0]@[at.1].component@ == g,
        buckets[at.0]@[at.1].entry == table(buckets)[g],
{
    let b = grid_hash(g) as int % (buckets.len() as int);
    let i = bucket_place(buckets[b]@, g);
    lemma_slot_in_table(buckets, b, i);
    (b, i)
}

/// The table after a slot has been put at the end of a bucket.
proof fn lemma_table_pushed(before: Seq<Vec<Slot>>, after: Seq<Vec<Slot>>, b: int, slot: Slot)
    requires
        buckets_wf(before),
        0 <= b < before.len(),
        after.len() == before.len(),
        after[b]@ == before[b]@.push(slot),
        forall|c: int| 0 <= c < before.len() && c != b ==> #[trigger] after[c] == before[c],
        slot.component.wf(),
        slot.hash == grid_hash(slot.component@),
        slot.hash as int % (before.len() as int) == b,
        !table(before).contains_key(slot.component@),
    ensures
        buckets_wf(after),
        table(after) == table(before).insert(slot.component@, slot.entry),
        slots_in(after, after.len() as int) == slots_in(before, before.len() as int) + 1,
{
    let n = before.len() as int;
    let g = slot.component@;
    assert(!bucket_has(before[b]@, g));
    assert(bucket_wf(before[b]@, b, n));
    assert forall|c: int| 0 <= c < n implies bucket_wf((#[trigger] after[c])@, c, n) by {
        assert(bucket_wf(before[c]@, c, n));
        if c == b {
            let bucket = after[b]@;
            assert forall|i: int, j: int| 0 <= i < j < bucket.len() implies (
            #[trigger] bucket[i]).component@ != (#[trigger] bucket[j]).component@ by {
                if j < before[b]@.len() {
                    assert(before[b]@[i].component@ != before[b]@[j].component@);
                } else {
                    assert(before[b]@[i].component@ != g);
                }
            }
        }
    }
    assert forall|h: Grid| #[trigger] table(after).contains_key(h) <==> table(before).contains_key(h)
        || h == g by {
        let c = grid_hash(h) as int % n;
        if table(before).contains_key(h) {
            let at = lemma_table_slot(before, h);
            assert(after[at.0]@[at.1].component@ == h);
        }
        if h == g {
            assert(after[b]@[before[b]@.len() as int].component@ == h);
        }
        if table(after).contains_key(h) && h != g {
            let at = lemma_table_slot(after, h);
            assert(before[at.0]@[at.1].component@ == h);
        }
    }
    assert forall|h: Grid| #[trigger] table(after).contains_key(h) implies table(after)[h] == table(
        before,
    ).insert(g, slot.entry)[h] by {
        if h == g {
            lemma_slot_in_table(after, b, before[b]@.len() as int);
        } else {
            assert(table(before).contains_key(h));
            let at = lemma_table_slot(before, h);
            assert(after[at.0]@[at.1] == before[at.0]@[at.1]);
            lemma_slot_in_table(after, at.0, at.1);
        }
    }
    assert(table(after) =~= table(before).insert(g, slot.entry));
    lemma_slots_changed(before, after, b, n);
}

proof fn lemma_slots_changed(before: Seq<Vec<Slot>>, after: Seq<Vec<Slot>>, b: int, k: int)
    requires
        0 <= b < before.len(),
        after.len() == before.len(),
        0 <= k <= before.len(),
        forall|c: int| 0 <= c < before.len() && c != b ==> #[trigger] after[c] == before[c],
    ensures
        slots_in(after, k) - slots_in(before, k) == if b < k {
            after[b]@.len() - before[b]@.len()
        } else {
            0
        },
    decreases k,
{
    if k > 0 {
        lemma_slots_changed(before, after, b, k - 1);
    }
}

/// The table after the entry of a slot has been replaced.
proof fn lemma_table_updated(
    before: Seq<Vec<Slot>>,
    after: Seq<Vec<Slot>>,
    b: int,
    i: int,
    slot: Slot,
)
    requires
        buckets_wf(before),
        0 <= b < before.len(),
        0 <= i < before[b]@.len(),
        after.len() == before.len(),
        after[b]@ == before[b]@.update(i, slot),
        forall|c: int| 0 <= c < before.len() && c != b ==> #[trigger] after[c] == before[c],
        slot.component.wf(),
        slot.component@ == before[b]@[i].component@,
        slot.hash == before[b]@[i].hash,
    ensures
        buckets_wf(after),
        table(after) == table(before).insert(slot.component@, slot.entry),
        slots_in(after, after.len() as int) == slots_in(before, before.len() as int),
{
    let n = before.len() as int;
    let g = slot.component@;
    assert forall|c: int| 0 <= c < n implies bucket_wf((#[trigger] after[c])@, c, n) by {
        assert(bucket_wf(before[c]@, c, n));
        if c == b {
            let bucket = after[b]@;
            assert forall|j: int| 0 <= j < bucket.len() implies {
                &&& (#[trigger] bucket[j]).component.wf()
                &&& bucket[j].hash == grid_hash(bucket[j].component@)
                &&& bucket[j].hash as int % n == b
            } by {
                assert(before[b]@[j].component.wf());
            }
            assert forall|j: int, k: int| 0 <= j < k < bucket.len() implies (
            #[trigger] bucket[j]).component@ != (#[trigger] bucket[k]).component@ by {
                assert(before[b]@[j].component@ != before[b]@[k].component@);
            }
        }
    }
    lemma_slot_in_table(before, b, i);
    assert forall|h: Grid| #[trigger] table(after).contains_key(h) <==> table(before).contains_key(
        h,
    ) by {
        if table(before).contains_key(h) {
            let at = lemma_table_slot(before, h);
            assert(after[at.0]@[at.1].component@ == h);
        }
        if table(after).contains_key(h) {
            let at = lemma_table_slot(after, h);
            assert(before[at.0]@[at.1].component@ == h);
        }
    }
    assert forall|h: Grid| #[trigger] table(after).contains_key(h) implies table(after)[h] == table(
        before,
    ).insert(g, slot.entry)[h] by {
        if h == g {
            lemma_slot_in_table(after, b, i);
        } else {
            let at = lemma_table_slot(before, h);
            assert(!(at.0 == b && at.1 == i));
            assert(after[at.0]@[at.1] == before[at.0]@[at.1]);
            lemma_slot_in_table(after, at.0, at.1);
        }
    }
    assert(table(after) =~= table(before).insert(g, slot.entry));
    lemma_slots_changed(before, after, b, n);
}

/// The table after a slot has been removed.
proof fn lemma_table_removed(before: Seq<Vec<Slot>>, after: Seq<Vec<Slot>>, b: int, i: int)
    requires
        buckets_wf(before),
        0 <= b < before.len(),
        0 <= i < before[b]@.len(),
        after.len() == before.len(),
        after[b]@ == before[b]@.remove(i),
        forall|c: int| 0 <= c < before.len() && c != b ==> #[trigger] after[c] == before[c],
    ensures
        buckets_wf(after),
        table(after) == table(before).remove(before[b]@[i].component@),
        slots_in(after, after.len() as int) == slots_in(before, before.len() as int) - 1,
{
    let n = before.len() as int;
    let old = before[b]@;
    let g = old[i].component@;
    assert(bucket_wf(old, b, n));
    assert forall|j: int| 0 <= j < after[b]@.len() implies #[trigger] after[b]@[j] == old[if j < i {
        j
    } else {
        j + 1
    }] by {}
    assert forall|c: int| 0 <= c < n implies bucket_wf((#[trigger] after[c])@, c, n) by {
        assert(bucket_wf(before[c]@, c, n));
        if c == b {
            let bucket = after[b]@;
            assert forall|j: int| 0 <= j < bucket.len() implies {
                &&& (#[trigger] bucket[j]).component.wf()
                &&& bucket[j].hash == grid_hash(bucket[j].component@)
                &&& bucket[j].hash as int % n == b
            } by {
                assert(old[if j < i {
                    j
                } else {
                    j + 1
                }].component.wf());
            }
            assert forall|j: int, k: int| 0 <= j < k < bucket.len() implies (
            #[trigger] bucket[j]).component@ != (#[trigger] bucket[k]).component@ by {
                let p = if j < i {
                    j
                } else {
                    j + 1
                };
                let q = if k < i {
                    k
                } else {
                    k + 1
                };
                assert(old[p].component@ != old[q].component@);
            }
        }
    }
    assert forall|h: Grid| #[trigger] table(after).contains_key(h) <==> table(before).contains_key(h)
        && h != g by {
        if table(before).contains_key(h) && h != g {
            let at = lemma_table_slot(before, h);
            let j = if at.0 == b && at.1 > i {
                at.1 - 1
            } else {
                at.1
            };
            assert(after[at.0]@[j].component@ == h);
        }
        if table(after).contains_key(h) {
            let at = lemma_table_slot(after, h);
            let j = if at.0 == b && at.1 >= i {
                at.1 + 1
            } else {
                at.1
            };
            assert(before[at.0]@[j].component@ == h);
            lemma_slot_in_table(before, at.0, j);
            if h == g {
                assert(at.0 == b);
                if j < i {
                    assert(old[j].component@ != old[i].component@);
                } else {
                    assert(old[i].component@ != old[j].component@);
                }
            }
        }
    }
    assert forall|h: Grid| #[trigger] table(after).contains_key(h) implies table(after)[h] == table(
        before,
    )[h] by {
        let at = lemma_table_slot(after, h);
        let j = if at.0 == b && at.1 >= i {
            at.1 + 1
        } else {
            at.1
        };
        assert(before[at.0]@[j] == after[at.0]@[at.1]);
        lemma_slot_in_table(before, at.0, j);
    }
    assert(table(after) =~= table(before).remove(g));
    lemma_slots_changed(before, after, b, n);
}

/// The components in the first `k` buckets.
spec fn grids_in(buckets: Seq<Vec<Slot>>, k: int) -> Set<Grid> {
    Set::new(
        |g: Grid|
            exists|b: int, i: int|
                0 <= b < k && 0 <= i < buckets[b]@.len() && (#[trigger] buckets[b]@[i]).component@
                    == g,
    )
}

proof fn lemma_bucket_grids(bucket: Seq<Slot>, k: int)
    requires
        0 <= k <= bucket.len(),
        forall|i: int, j: int|
            0 <= i < j < bucket.len() ==> (#[trigger] bucket[i]).component@ != (
            #[trigger] bucket[j]).component@,
    ensures
        Set::new(|g: Grid| exists|i: int| 0 <= i < k && (#[trigger] bucket[i]).component@ == g).finite(),
        Set::new(|g: Grid| exists|i: int| 0 <= i < k && (#[trigger] bucket[i]).component@ == g).len()
            == k,
    decreases k,
{
    let now = Set::new(|g: Grid| exists|i: int| 0 <= i < k && (#[trigger] bucket[i]).component@ == g);
    if k == 0 {
        assert(now =~= Set::empty());
    } else {
        let less = Set::new(
            |g: Grid| exists|i: int| 0 <= i < k - 1 && (#[trigger] bucket[i]).component@ == g,
        );
        lemma_bucket_grids(bucket, k - 1);
        let g = bucket[k - 1].component@;
        assert(now =~= less.insert(g)) by {
            assert forall|h: Grid| less.insert(g).contains(h) implies now.contains(h) by {
                if h == g {
                    assert(bucket[k - 1].component@ == h);
                } else {
                    let i = choose|i: int| 0 <= i < k - 1 && (#[trigger] bucket[i]).component@ == h;
                    assert(0 <= i < k && bucket[i].component@ == h);
                }
            }
        }
        assert(!less.contains(g));
    }
}

proof fn lemma_grids_in(buckets: Seq<Vec<Slot>>, k: int)
    requires
        buckets_wf(buckets),
        0 <= k <= buckets.len(),
    ensures
        grids_in(buckets, k).finite(),
        grids_in(buckets, k).len() == slots_in(buckets, k),
    decreases k,
{
    if k == 0 {
        assert(grids_in(buckets, k) =~= Set::empty());
    } else {
        let bucket = buckets[k - 1]@;
        let more = Set::new(
            |g: Grid|
                exists|i: int| 0 <= i < bucket.len() && (#[trigger] bucket[i]).component@ == g,
        );
        let less = grids_in(buckets, k - 1);
        assert(bucket_wf(bucket, k - 1, buckets.len() as int));
        lemma_grids_in(buckets, k - 1);
        lemma_bucket_grids(bucket, bucket.len() as int);
        assert(grids_in(buckets, k) =~= less.union(more)) by {
            assert forall|g: Grid| less.union(more).contains(g) implies grids_in(buckets, k).contains(
                g,
            ) by {
                if less.contains(g) {
                    let (b, i) = choose|b: int, i: int|
                        0 <= b < k - 1 && 0 <= i < buckets[b]@.len() && (
                        #[trigger] buckets[b]@[i]).component@ == g;
                    assert(0 <= b < k && buckets[b]@[i].component@ == g);
                } else {
                    let i = choose|i: int|
                        0 <= i < bucket.len() && (#[trigger] bucket[i]).component@ == g;
                    assert(buckets[k - 1]@[i].component@ == g);
                }
            }
            assert forall|g: Grid| grids_in(buckets, k).contains(g) implies less.union(more).contains(
                g,
            ) by {
                let (b, i) = choose|b: int, i: int|
                    0 <= b < k && 0 <= i < buckets[b]@.len() && (
                    #[trigger] buckets[b]@[i]).component@ == g;
                if b < k - 1 {
                    assert(buckets[b]@[i].component@ == g);
                } else {
                    assert(bucket[i].component@ == g);
                }
            }
        }
        assert(less.disjoint(more)) by {
            assert forall|g: Grid| less.contains(g) implies !more.contains(g) by {
                let (b, i) = choose|b: int, i: int|
                    0 <= b < k - 1 && 0 <= i < buckets[b]@.len() && (
                    #[trigger] buckets[b]@[i]).component@ == g;
                lemma_slot_in_table(buckets, b, i);
                if more.contains(g) {
                    let j = choose|j: int|
                        0 <= j < bucket.len() && (#[trigger] bucket[j]).component@ == g;
                    lemma_slot_in_table(buckets, k - 1, j);
                }
            }
        }
        vstd::set_lib::lemma_set_disjoint_lens(less, more);
    }
}

/// The table has as many components as there are slots.
proof fn lemma_table_size(buckets: Seq<Vec<Slot>>)
    requires
        buckets_wf(buckets),
    ensures
        table(buckets).dom().finite(),
        table(buckets).dom().len() == slots_in(buckets, buckets.len() as int),
{
    let n = buckets.len() as int;
    lemma_grids_in(buckets, n);
    assert(table(buckets).dom() =~= grids_in(buckets, n)) by {
        assert forall|g: Grid| table(buckets).dom().contains(g) implies grids_in(
            buckets,
            n,
        ).contains(g) by {
            let at = lemma_table_slot(buckets, g);
            assert(buckets[at.0]@[at.1].component@ == g);
        }
        assert forall|g: Grid| grids_in(buckets, n).contains(g) implies table(buckets).dom().contains(
            g,
        ) by {
            let (b, i) = choose|b: int, i: int|
                0 <= b < n && 0 <= i < buckets[b]@.len() && (
                #[trigger] buckets[b]@[i]).component@ == g;
            lemma_slot_in_table(buckets, b, i);
        }
    }
}

/// The entries that are done, as pairs of component and nimber.
pub open spec fn lists_done(map: Map<Grid, CacheEntry>, entries: Seq<(BitMatrix, usize)>) -> bool {
    &&& forall|i: int|
        0 <= i < entries.len() ==> {
            &&& (#[trigger] entries[i]).0.wf()
            &&& map.contains_key(entries[i].0@)
            &&& map[entries[i].0@] == CacheEntry::Done(entries[i].1)
        }
    &&& forall|g: Grid| #[trigger]
        map.contains_key(g) && map[g] is Done ==> exists|i: int|
            0 <= i < entries.len() && (#[trigger] entries[i]).0@ == g
    &&& forall|i: int, j: int|
        0 <= i < j < entries.len() ==> (#[trigger] entries[i]).0@ != (#[trigger] entries[j]).0@
}

/// The table without the components that are being evaluated.
pub open spec fn only_done(map: Map<Grid, CacheEntry>) -> Map<Grid, CacheEntry> {
    map.restrict(Set::new(|g: Grid| map.contains_key(g) && map[g] is Done))
}

/// The rank of a component when entries are evicted in favour of a component of hash `new_hash`.
pub open spec fn eviction_rank(g: Grid, new_hash: u64) -> u64 {
    grid_hash(g) ^ rotated(new_hash, 17)
}

/// Whether `after` is `before` with entries evicted until `target` are left: entries that are done
/// go, those of the highest rank first, and those that are being evaluated stay.
pub open spec fn is_evicted(
    before: Map<Grid, CacheEntry>,
    after: Map<Grid, CacheEntry>,
    target: int,
    new_hash: u64,
) -> bool {
    &&& after.submap_of(before)
    &&& forall|g: Grid| #[trigger]
        before.contains_key(g) && before[g] is Processing ==> after.contains_key(g)
    &&& before.dom().len() <= target ==> after == before
    &&& before.dom().len() > target ==> after.dom().len() == target || (after.dom().len() > target
        && forall|g: Grid| #[trigger] after.contains_key(g) ==> after[g] is Processing)
    &&& forall|g: Grid, h: Grid|
        before.contains_key(g) && !after.contains_key(g) && after.contains_key(h) && after[h] is Done
            ==> #[trigger] eviction_rank(h, new_hash) <= #[trigger] eviction_rank(g, new_hash)
}

impl CacheShard {
    pub closed spec fn wf(&self) -> bool {
        &&& buckets_wf(self.buckets@)
        &&& self.len == slots_in(self.buckets@, self.buckets@.len() as int)
    }

    /// A table with the given number of empty buckets.
    fn with_buckets(count: usize) -> (shard: Self)
        requires
            0 < count,
        ensures
            shard.wf(),
            shard@ == Map::<Grid, CacheEntry>::empty(),
            shard.buckets@.len() == count,
            shard.len == 0,
    {
        let mut buckets: Vec<Vec<Slot>> = Vec::new();
        let mut k: usize = 0;
        while k < count
            invariant
                k <= count,
                buckets@.len() == k,
                forall|b: int| 0 <= b < k ==> (#[trigger] buckets@[b])@.len() == 0,
            decreases count - k,
        {
            buckets.push(Vec::new());
            k = k + 1;
        }
        let shard = CacheShard { buckets, len: 0 };
        proof {
            lemma_no_slots(buckets@, count as int);
            assert(buckets_wf(buckets@));
            assert forall|g: Grid| !(#[trigger] table(buckets@).contains_key(g)) by {
                let b = grid_hash(g) as int % (count as int);
                assert(buckets@[b]@.len() == 0);
            }
            assert(shard@ =~= Map::<Grid, CacheEntry>::empty());
        }
        shard
    }

    pub fn new() -> (shard: Self)
        ensures
            shard.wf(),
            shard@ == Map::<Grid, CacheEntry>::empty(),
    {
        Self::with_buckets(16)
    }

    pub fn len(&self) -> (len: usize)
        requires
            self.wf(),
        ensures
            len == self@.dom().len(),
            self@.dom().finite(),
    {
        proof {
            lemma_table_size(self.buckets@);
        }
        self.len
    }

    /// Where a component is, if it is in the table: its bucket, and its place in the bucket.
    fn find(&self, component: &BitMatrix) -> (at: (usize, Option<usize>))
        requires
            self.wf(),
            component.wf(),
        ensures
            at.0 < self.buckets@.len(),
            at.0 == grid_hash(component@) as int % (self.buckets@.len() as int),
            match at.1 {
                Some(i) => i < self.buckets@[at.0 as int]@.len() && self.buckets@[at.0 as int]@[i as int].component@
                    == component@ && self@.contains_key(component@) && self@[component@]
                    == self.buckets@[at.0 as int]@[i as int].entry,
                None => !self@.contains_key(component@),
            },
    {
        let hash: u64 = stable_matrix_hash(component);
        let count: u64 = self.buckets.len() as u64;
        let bucket: usize = (hash % count) as usize;
        let ghost slots = self.buckets@[bucket as int]@;
        let mut k: usize = 0;
        while k < self.buckets[bucket].len()
            invariant
                self.wf(),
                component.wf(),
                bucket < self.buckets@.len(),
                slots == self.buckets@[bucket as int]@,
                bucket == grid_hash(component@) as int % (self.buckets@.len() as int),
                k <= slots.len(),
                forall|i: int| 0 <= i < k ==> (#[trigger] slots[i]).component@ != component@,
            decreases slots.len() - k,
        {
            proof {
                assert(bucket_wf(slots, bucket as int, self.buckets@.len() as int));
                assert(slots[k as int].component.wf());
            }
            if self.buckets[bucket][k].component.same(component) {
                proof {
                    lemma_slot_in_table(self.buckets@, bucket as int, k as int);
                }
                return (bucket, Some(k));
            }
            k = k + 1;
        }
        (bucket, None)
    }

    pub fn get(&self, component: &BitMatrix) -> (entry: Option<CacheEntry>)
        requires
            self.wf(),
            component.wf(),
        ensures
            entry == (if self@.contains_key(component@) {
                Some(self@[component@])
            } else {
                None
            }),
    {
        let (bucket, place) = self.find(component);
        match place {
            Some(i) => Some(self.buckets[bucket][i].entry),
            None => None,
        }
    }

    /// Puts a component that is not in the table into its bucket.
    fn add_slot(&mut self, component: BitMatrix, entry: CacheEntry)
        requires
            old(self).wf(),
            component.wf(),
            !old(self)@.contains_key(component@),
            old(self).len < usize::MAX,
        ensures
            final(self).wf(),
            final(self)@ == old(self)@.insert(component@, entry),
            final(self).buckets@.len() == old(self).buckets@.len(),
            final(self).len == old(self).len + 1,
    {
        let ghost before = self.buckets@;
        let hash: u64 = stable_matrix_hash(&component);
        let count: u64 = self.buckets.len() as u64;
        let bucket: usize = (hash % count) as usize;
        let slot = Slot { hash, component, entry };
        self.buckets[bucket].push(slot);
        self.len = self.len + 1;
        proof {
            lemma_table_pushed(before, self.buckets@, bucket as int, slot);
        }
    }

    /// Makes room: twice as many buckets.
    fn grow(&mut self)
        requires
            old(self).wf(),
            old(self).buckets@.len() <= usize::MAX / 2,
        ensures
            final(self).wf(),
            final(self)@ == old(self)@,
            final(self).len == old(self).len,
            final(self).buckets@.len() == 2 * old(self).buckets@.len(),
    {
        let ghost all = self@;
        let mut grown = Self::with_buckets(self.buckets.len() * 2);
        let mut b: usize = 0;
        while b < self.buckets.len()
            invariant
                self.wf(),
                self@ == all,
                self.buckets@ == old(self).buckets@,
                b <= self.buckets@.len(),
                grown.wf(),
                grown.buckets@.len() == 2 * self.buckets@.len(),
                grown.len == slots_in(self.buckets@, b as int),
                grown@.submap_of(all),
                forall|g: Grid| #[trigger]
                    grown@.contains_key(g) <==> grids_in(self.buckets@, b as int).contains(g),
            decreases self.buckets@.len() - b,
        {
            let ghost slots = self.buckets@[b as int]@;
            let mut i: usize = 0;
            while i < self.buckets[b].len()
                invariant
                    self.wf(),
                    self@ == all,
                    b < self.buckets@.len(),
                    slots == self.buckets@[b as int]@,
                    i <= slots.len(),
                    grown.wf(),
                    grown.buckets@.len() == 2 * self.buckets@.len(),
                    grown.len == slots_in(self.buckets@, b as int) + i,
                    grown@.submap_of(all),
                    forall|g: Grid| #[trigger]
                        grown@.contains_key(g) <==> grids_in(self.buckets@, b as int).contains(g)
                            || in_first(slots, i as int, g),
                decreases slots.len() - i,
            {
                let ghost g = slots[i as int].component@;
                proof {
                    assert(bucket_wf(slots, b as int, self.buckets@.len() as int));
                    assert(slots[i as int].component.wf());
                    lemma_slot_in_table(self.buckets@, b as int, i as int);
                    assert(!grids_in(self.buckets@, b as int).contains(g)) by {
                        if grids_in(self.buckets@, b as int).contains(g) {
                            let (c, j) = choose|c: int, j: int|
                                0 <= c < b && 0 <= j < self.buckets@[c]@.len() && (
                                #[trigger] self.buckets@[c]@[j]).component@ == g;
                            lemma_slot_in_table(self.buckets@, c, j);
                        }
                    }
                    lemma_slots_bound(self.buckets@, b as int, i as int);
                }
                let component = self.buckets[b][i].component.clone();
                let entry: CacheEntry = self.buckets[b][i].entry;
                grown.add_slot(component, entry);
                proof {
                    assert forall|h: Grid| #[trigger] in_first(slots, i + 1, h) <==> h == g
                        || in_first(slots, i as int, h) by {
                        if h == g {
                            assert(slots[i as int].component@ == h);
                        } else if in_first(slots, i + 1, h) {
                            let j = choose|j: int|
                                0 <= j < i + 1 && (#[trigger] slots[j]).component@ == h;
                            assert(0 <= j < i && slots[j].component@ == h);
                        } else if in_first(slots, i as int, h) {
                            let j = choose|j: int|
                                0 <= j < i && (#[trigger] slots[j]).component@ == h;
                            assert(0 <= j < i + 1 && slots[j].component@ == h);
                        }
                    }
                }
                i = i + 1;
            }
            proof {
                assert forall|g: Grid| #[trigger]
                    grids_in(self.buckets@, b + 1).contains(g) <==> grids_in(
                        self.buckets@,
                        b as int,
                    ).contains(g) || in_first(slots, slots.len() as int, g) by {
                    lemma_grids_step(self.buckets@, b as int, g);
                }
            }
            b = b + 1;
        }
        proof {
            assert(grown@ =~= all) by {
                assert forall|g: Grid| all.contains_key(g) implies grown@.contains_key(g) by {
                    let at = lemma_table_slot(self.buckets@, g);
                    assert(self.buckets@[at.0]@[at.1].component@ == g);
                    assert(grids_in(self.buckets@, b as int).contains(g));
                }
            }
        }
        self.buckets = grown.buckets;
    }

    /// Sets the entry of a component.
    pub fn insert(&mut self, component: BitMatrix, entry: CacheEntry)
        requires
            old(self).wf(),
            component.wf(),
            old(self)@.dom().len() < usize::MAX,
        ensures
            final(self).wf(),
            final(self)@ == old(self)@.insert(component@, entry),
    {
        proof {
            lemma_table_size(self.buckets@);
        }
        let (bucket, place) = self.find(&component);
        match place {
            Some(i) => {
                let ghost before = self.buckets@;
                let hash: u64 = self.buckets[bucket][i].hash;
                let slot = Slot { hash, component, entry };
                self.buckets[bucket].set(i, slot);
                proof {
                    lemma_table_updated(before, self.buckets@, bucket as int, i as int, slot);
                }
            },
            None => {
                if self.len > self.buckets.len() && self.buckets.len() <= usize::MAX / 2 {
                    self.grow();
                }
                self.add_slot(component, entry);
            },
        }
    }

    /// Claims a component that is not in the table.
    pub fn probe(&mut self, component: &BitMatrix) -> (probe: CacheProbe)
        requires
            old(self).wf(),
            component.wf(),
            old(self)@.dom().len() < usize::MAX,
        ensures
            final(self).wf(),
            if !old(self)@.contains_key(component@) {
                &&& probe == CacheProbe::Claimed
                &&& final(self)@ == old(self)@.insert(component@, CacheEntry::Processing)
            } else {
                &&& probe == (match old(self)@[component@] {
                    CacheEntry::Processing => CacheProbe::Busy,
                    CacheEntry::Done(nimber) => CacheProbe::Done(nimber),
                })
                &&& final(self)@ == old(self)@
            },
    {
        match self.get(component) {
            None => {
                self.insert(component.clone(), CacheEntry::Processing);
                CacheProbe::Claimed
            },
            Some(CacheEntry::Processing) => CacheProbe::Busy,
            Some(CacheEntry::Done(nimber)) => CacheProbe::Done(nimber),
        }
    }

    /// The nimber of a component that is done.
    pub fn get_done(&self, component: &BitMatrix) -> (nimber: Option<usize>)
        requires
            self.wf(),
            component.wf(),
        ensures
            nimber == (if self@.contains_key(component@) && self@[component@] is Done {
                Some(self@[component@]->Done_0)
            } else {
                None
            }),
    {
        match self.get(component) {
            Some(CacheEntry::Done(nimber)) => Some(nimber),
            Some(CacheEntry::Processing) => None,
            None => None,
        }
    }

    /// The components that are done, with their nimbers.
    pub fn done_entries(&self) -> (entries: Vec<(BitMatrix, usize)>)
        requires
            self.wf(),
        ensures
            lists_done(self@, entries@),
    {
        let mut entries: Vec<(BitMatrix, usize)> = Vec::new();
        let mut b: usize = 0;
        proof {
            assert forall|g: Grid| !(#[trigger] grids_in(self.buckets@, 0).contains(g)) by {}
        }
        while b < self.buckets.len()
            invariant
                self.wf(),
                b <= self.buckets@.len(),
                lists_done_of(self@, entries@, grids_in(self.buckets@, b as int)),
            decreases self.buckets@.len() - b,
        {
            let ghost slots = self.buckets@[b as int]@;
            let ghost before = grids_in(self.buckets@, b as int);
            let mut i: usize = 0;
            proof {
                assert(before =~= before.union(first_grids(slots, 0)));
            }
            while i < self.buckets[b].len()
                invariant
                    self.wf(),
                    b < self.buckets@.len(),
                    slots == self.buckets@[b as int]@,
                    before == grids_in(self.buckets@, b as int),
                    i <= slots.len(),
                    lists_done_of(
                        self@,
                        entries@,
                        before.union(first_grids(slots, i as int)),
                    ),
                decreases slots.len() - i,
            {
                let ghost g = slots[i as int].component@;
                let ghost older = entries@;
                let ghost covered = before.union(first_grids(slots, i as int));
                proof {
                    assert(bucket_wf(slots, b as int, self.buckets@.len() as int));
                    assert(slots[i as int].component.wf());
                    lemma_slot_in_table(self.buckets@, b as int, i as int);
                    lemma_fresh_slot(self.buckets@, b as int, i as int);
                    assert(!covered.contains(g));
                    assert(before.union(first_grids(slots, i + 1)) =~= covered.insert(g)) by {
                        lemma_first_grids(slots, i as int);
                    }
                }
                match self.buckets[b][i].entry {
                    CacheEntry::Done(nimber) => {
                        let component = self.buckets[b][i].component.clone();
                        entries.push((component, nimber));
                        proof {
                            lemma_lists_done_push(self@, older, covered, entries@.last());
                            assert(entries@ =~= older.push(entries@.last()));
                        }
                    },
                    CacheEntry::Processing => {
                        proof {
                            lemma_lists_done_skip(self@, older, covered, g);
                        }
                    },
                }
                i = i + 1;
            }
            proof {
                assert(grids_in(self.buckets@, b + 1) =~= before.union(
                    first_grids(slots, slots.len() as int),
                )) by {
                    assert forall|g: Grid| #[trigger]
                        grids_in(self.buckets@, b + 1).contains(g) <==> before.union(
                            first_grids(slots, slots.len() as int),
                        ).contains(g) by {
                        lemma_grids_step(self.buckets@, b as int, g);
                    }
                }
            }
            b = b + 1;
        }
        proof {
            lemma_all_grids(self.buckets@);
        }
        entries
    }

    /// Drops the components that are being evaluated.
    pub fn clear_processing(&mut self)
        requires
            old(self).wf(),
        ensures
            final(self).wf(),
            final(self)@ == only_done(old(self)@),
    {
        let ghost all = self@;
        let entries: Vec<(BitMatrix, usize)> = self.done_entries();
        let mut kept = CacheShard::new();
        let mut k: usize = 0;
        proof {
            lemma_table_size(self.buckets@);
        }
        while k < entries.len()
            invariant
                self.wf(),
                self@ == all,
                all.dom().finite(),
                all.dom().len() <= usize::MAX,
                lists_done(all, entries@),
                k <= entries@.len(),
                kept.wf(),
                forall|g: Grid| #[trigger]
                    kept@.contains_key(g) <==> exists|i: int|
                        0 <= i < k && (#[trigger] entries@[i]).0@ == g,
                kept@.submap_of(all),
            decreases entries@.len() - k,
        {
            let ghost before = kept@;
            let ghost g = entries@[k as int].0@;
            proof {
                assert(all.contains_key(g));
                assert(!before.contains_key(g)) by {
                    if before.contains_key(g) {
                        let i = choose|i: int| 0 <= i < k && (#[trigger] entries@[i]).0@ == g;
                        assert(entries@[i].0@ != entries@[k as int].0@);
                    }
                }
                assert(before.dom().subset_of(all.dom().remove(g)));
                vstd::set_lib::lemma_len_subset(before.dom(), all.dom().remove(g));
            }
            kept.insert(entries[k].0.clone(), CacheEntry::Done(entries[k].1));
            proof {
                assert forall|h: Grid| #[trigger] kept@.contains_key(h) <==> exists|i: int|
                    0 <= i < k + 1 && (#[trigger] entries@[i]).0@ == h by {
                    if h == g {
                        assert(entries@[k as int].0@ == h);
                    } else if before.contains_key(h) {
                        let i = choose|i: int| 0 <= i < k && (#[trigger] entries@[i]).0@ == h;
                        assert(0 <= i < k + 1 && entries@[i].0@ == h);
                    }
                }
            }
            k = k + 1;
        }
        proof {
            assert(kept@ =~= only_done(all)) by {
                assert forall|g: Grid| kept@.contains_key(g) <==> only_done(all).contains_key(g) by {
                    if kept@.contains_key(g) {
                        let i = choose|i: int| 0 <= i < k && (#[trigger] entries@[i]).0@ == g;
                        assert(all[entries@[i].0@] == CacheEntry::Done(entries@[i].1));
                    }
                    if all.contains_key(g) && all[g] is Done {
                        let i = choose|i: int|
                            0 <= i < entries@.len() && (#[trigger] entries@[i]).0@ == g;
                        assert(0 <= i < k && entries@[i].0@ == g);
                    }
                }
            }
        }
        *self = kept;
    }

    /// The place of the entry that is done and has the highest rank.
    fn eviction_victim(&self, new_hash: u64) -> (victim: Option<(usize, usize)>)
        requires
            self.wf(),
        ensures
            match victim {
                Some((b, i)) => {
                    &&& b < self.buckets@.len()
                    &&& i < self.buckets@[b as int]@.len()
                    &&& self.buckets@[b as int]@[i as int].entry is Done
                    &&& forall|h: Grid| #[trigger]
                        self@.contains_key(h) && self@[h] is Done ==> eviction_rank(h, new_hash)
                            <= eviction_rank(
                            self.buckets@[b as int]@[i as int].component@,
                            new_hash,
                        )
                },
                None => forall|h: Grid| #[trigger] self@.contains_key(h) ==> self@[h] is Processing,
            },
    {
        let turned: u64 = (new_hash << 17) | (new_hash >> 47);
        let mut victim: Option<(usize, usize)> = None;
        let mut highest: u64 = 0;
        let mut b: usize = 0;
        while b < self.buckets.len()
            invariant
                self.wf(),
                turned == rotated(new_hash, 17),
                b <= self.buckets@.len(),
                is_victim(self.buckets@, new_hash, victim, highest, b as int, 0),
            decreases self.buckets@.len() - b,
        {
            let ghost slots = self.buckets@[b as int]@;
            let mut i: usize = 0;
            while i < self.buckets[b].len()
                invariant
                    self.wf(),
                    turned == rotated(new_hash, 17),
                    b < self.buckets@.len(),
                    slots == self.buckets@[b as int]@,
                    i <= slots.len(),
                    is_victim(self.buckets@, new_hash, victim, highest, b as int, i as int),
                decreases slots.len() - i,
            {
                let ghost older = victim;
                let ghost lower = highest;
                proof {
                    assert(bucket_wf(slots, b as int, self.buckets@.len() as int));
                    assert(slots[i as int].component.wf());
                }
                match self.buckets[b][i].entry {
                    CacheEntry::Done(_) => {
                        let rank: u64 = self.buckets[b][i].hash ^ turned;
                        let replaces: bool = match victim {
                            None => true,
                            Some(_) => rank >= highest,
                        };
                        if replaces {
                            victim = Some((b, i));
                            highest = rank;
                        }
                    },
                    CacheEntry::Processing => {},
                }
                i = i + 1;
            }
            b = b + 1;
        }
        proof {
            assert forall|h: Grid| #[trigger] self@.contains_key(h) && self@[h] is Done implies victim
                is Some && eviction_rank(h, new_hash) <= highest by {
                let at = lemma_table_slot(self.buckets@, h);
                assert(self.buckets@[at.0]@[at.1].entry is Done);
            }
        }
        victim
    }

    /// Evicts entries that are done until `target` entries are left.
    pub fn evict_done_entries(&mut self, target: usize, new_hash: u64)
        requires
            old(self).wf(),
        ensures
            final(self).wf(),
            is_evicted(old(self)@, final(self)@, target as int, new_hash),
    {
        let ghost all = self@;
        proof {
            lemma_table_size(self.buckets@);
        }
        while self.len() > target
            invariant
                self.wf(),
                all == old(self)@,
                all.dom().finite(),
                self@.submap_of(all),
                all.dom().len() <= target ==> self@ == all,
                all.dom().len() > target ==> self@.dom().len() >= target,
                forall|g: Grid| #[trigger]
                    all.contains_key(g) && all[g] is Processing ==> self@.contains_key(g),
                forall|g: Grid, h: Grid|
                    all.contains_key(g) && !self@.contains_key(g) && self@.contains_key(h)
                        && self@[h] is Done ==> #[trigger] eviction_rank(h, new_hash)
                        <= #[trigger] eviction_rank(g, new_hash),
            decreases self@.dom().len(),
        {
            let ghost before = self@;
            let ghost old_buckets = self.buckets@;
            let victim: Option<(usize, usize)> = self.eviction_victim(new_hash);
            match victim {
                None => {
                    return ;
                },
                Some((b, i)) => {
                    let ghost g = self.buckets@[b as int]@[i as int].component@;
                    proof {
                        lemma_slot_in_table(self.buckets@, b as int, i as int);
                        lemma_table_size(self.buckets@);
                        lemma_slots_bound(self.buckets@, b as int, i as int);
                    }
                    let _ = self.buckets[b].remove(i);
                    self.len = self.len - 1;
                    proof {
                        lemma_table_removed(old_buckets, self.buckets@, b as int, i as int);
                        lemma_table_size(self.buckets@);
                        assert(self@ == before.remove(g));
                        assert(before[g] is Done);
                        assert forall|g2: Grid, h: Grid|
                            all.contains_key(g2) && !self@.contains_key(g2) && self@.contains_key(h)
                                && self@[h] is Done implies #[trigger] eviction_rank(h, new_hash)
                            <= #[trigger] eviction_rank(g2, new_hash) by {
                            assert(before.contains_key(h) && before[h] is Done);
                            if g2 == g {
                            } else {
                                assert(!before.contains_key(g2));
                            }
                        }
                    }
                },
            }
        }
    }
}

/// How many entries a shard keeps when it evicts: the given percentage of its limit, at least one.
pub open spec fn eviction_target(limit: usize, percent: usize) -> int {
    let kept = limit * (if percent < 100 {
        percent as int
    } else {
        100
    }) / 100;
    if kept < 1 {
        1
    } else {
        kept
    }
}

/// Whether `after` is `before` after nimber `nimber` has been published for component `g` in a shard
/// with the given limit, and whether it was `fresh`: a full shard first evicts, and an entry that is
/// done already stays.
pub open spec fn is_published(
    before: Map<Grid, CacheEntry>,
    after: Map<Grid, CacheEntry>,
    g: Grid,
    nimber: usize,
    limit: Option<usize>,
    percent: usize,
    fresh: bool,
) -> bool {
    exists|kept: Map<Grid, CacheEntry>| #[trigger]
        is_limited(before, kept, g, limit, percent) && {
            &&& fresh == !(kept.contains_key(g) && kept[g] is Done)
            &&& after == if fresh {
                kept.insert(g, CacheEntry::Done(nimber))
            } else {
                kept
            }
        }
}

/// Whether `kept` is what a shard with the given limit keeps when component `g` comes in.
pub open spec fn is_limited(
    before: Map<Grid, CacheEntry>,
    kept: Map<Grid, CacheEntry>,
    g: Grid,
    limit: Option<usize>,
    percent: usize,
) -> bool {
    match limit {
        Some(limit) => if before.dom().len() >= limit {
            is_evicted(before, kept, eviction_target(limit, percent), grid_hash(g))
        } else {
            kept == before
        },
        None => kept == before,
    }
}

/// A component whose nimber has been published is known: by that nimber, or by the one that it was
/// known by before.
pub proof fn lemma_published_is_known(
    before: Map<Grid, CacheEntry>,
    after: Map<Grid, CacheEntry>,
    g: Grid,
    nimber: usize,
    limit: Option<usize>,
    percent: usize,
    fresh: bool,
)
    requires
        is_published(before, after, g, nimber, limit, percent, fresh),
    ensures
        after.contains_key(g),
        fresh ==> after[g] == CacheEntry::Done(nimber),
        !fresh ==> before.contains_key(g) && before[g] is Done && after[g] == before[g],
{
    let kept = choose|kept: Map<Grid, CacheEntry>| #[trigger]
        is_limited(before, kept, g, limit, percent) && {
            &&& fresh == !(kept.contains_key(g) && kept[g] is Done)
            &&& after == if fresh {
                kept.insert(g, CacheEntry::Done(nimber))
            } else {
                kept
            }
        };
    assert(kept.submap_of(before));
    if !fresh {
        assert(kept.dom().contains(g));
        assert(before.dom().contains(g));
    }
}

/// Publishing a nimber leaves the claims on other components, invents no entry, and changes none
/// that stays.
pub proof fn lemma_publishing_keeps_claims(
    before: Map<Grid, CacheEntry>,
    after: Map<Grid, CacheEntry>,
    g: Grid,
    nimber: usize,
    limit: Option<usize>,
    percent: usize,
    fresh: bool,
    other: Grid,
)
    requires
        is_published(before, after, g, nimber, limit, percent, fresh),
        other != g,
    ensures
        before.contains_key(other) && before[other] is Processing ==> after.contains_key(other),
        after.contains_key(other) ==> before.contains_key(other) && after[other] == before[other],
{
    let kept = choose|kept: Map<Grid, CacheEntry>| #[trigger]
        is_limited(before, kept, g, limit, percent) && {
            &&& fresh == !(kept.contains_key(g) && kept[g] is Done)
            &&& after == if fresh {
                kept.insert(g, CacheEntry::Done(nimber))
            } else {
                kept
            }
        };
    assert(kept.submap_of(before));
    if after.contains_key(other) {
        assert(kept.dom().contains(other));
        assert(before.dom().contains(other));
    }
}

fn compute_eviction_target(limit: usize, percent: usize) -> (target: usize)
    ensures
        target == eviction_target(limit, percent),
{
    let share: u128 = if percent < 100 {
        percent as u128
    } else {
        100
    };
    proof {
        assert(limit * share <= 0xffff_ffff_ffff_ffff * 100) by (nonlinear_arith)
            requires
                0 <= limit <= 0xffff_ffff_ffff_ffff,
                0 <= share <= 100,
        ;
        assert(limit * share / 100 <= limit) by (nonlinear_arith)
            requires
                0 <= limit,
                0 <= share <= 100,
        ;
    }
    let kept: usize = (limit as u128 * share / 100) as usize;
    if kept < 1 {
        1
    } else {
        kept
    }
}

/// How many components a table holds, by kind, and an estimate of its size in bytes.
#[derive(Clone, Copy, Debug, Default, PartialEq, Eq)]
pub struct CacheProfile {
    pub entries: usize,
    pub done: usize,
    pub processing: usize,
    pub estimated_bytes: usize,
}

/// The components of `map` that are done.
pub open spec fn done_grids(map: Map<Grid, CacheEntry>) -> Set<Grid> {
    Set::new(|g: Grid| map.contains_key(g) && map[g] is Done)
}

/// The bytes that one entry is taken to need: those of a matrix and an entry, and those that the matrix
/// reports of itself.
pub open spec fn estimated_entry_bytes(g: Grid) -> nat {
    let total = 2 * vstd::layout::size_of::<BitMatrix>() + vstd::layout::size_of::<CacheEntry>()
        + g.words().len() * vstd::layout::size_of::<u64>();
    if total <= usize::MAX {
        total
    } else {
        usize::MAX as nat
    }
}

/// The bytes that the entries of the listed components are taken to need.
pub open spec fn total_entry_bytes(listed: Seq<Grid>) -> nat
    decreases listed.len(),
{
    if listed.len() == 0 {
        0
    } else {
        let total = total_entry_bytes(listed.drop_last()) + estimated_entry_bytes(listed.last());
        if total <= usize::MAX {
            total
        } else {
            usize::MAX as nat
        }
    }
}

/// Whether the list holds every component of the set once.
pub open spec fn lists_all(listed: Seq<Grid>, all: Set<Grid>) -> bool {
    listed.no_duplicates() && listed.to_set() == all
}

proof fn lemma_lists_more(listed: Seq<Grid>, all: Set<Grid>, g: Grid)
    requires
        lists_all(listed, all),
        !all.contains(g),
    ensures
        lists_all(listed.push(g), all.insert(g)),
        total_entry_bytes(listed.push(g)) == if total_entry_bytes(listed) + estimated_entry_bytes(g)
            <= usize::MAX {
            total_entry_bytes(listed) + estimated_entry_bytes(g)
        } else {
            usize::MAX as nat
        },
{
    let more = listed.push(g);
    assert(more.drop_last() =~= listed);
    assert(!listed.contains(g)) by {
        if listed.contains(g) {
            assert(listed.to_set().contains(g));
        }
    }
    assert(more.no_duplicates());
    assert(more.to_set() =~= all.insert(g)) by {
        assert forall|h: Grid| #[trigger] more.to_set().contains(h) <==> all.insert(g).contains(h) by {
            if more.contains(h) {
                let i = choose|i: int| 0 <= i < more.len() && more[i] == h;
                if i < listed.len() {
                    assert(listed[i] == h);
                    assert(listed.to_set().contains(h));
                }
            }
            if all.contains(h) {
                assert(listed.to_set().contains(h));
                let i = choose|i: int| 0 <= i < listed.len() && listed[i] == h;
                assert(more[i] == h);
            }
            if h == g {
                assert(more[listed.len() as int] == h);
            }
        }
    }
}

/// An estimate of the bytes that one entry takes up.
pub fn estimate_cache_entry_bytes(component: &BitMatrix) -> (bytes: usize)
    requires
        component.wf(),
    ensures
        bytes == estimated_entry_bytes(component@),
{
    core::mem::size_of::<BitMatrix>().saturating_add(core::mem::size_of::<CacheEntry>()).saturating_add(
        component.estimated_bytes(),
    )
}

impl CacheShard {
    /// Publishes the nimber of a component, unless it is known already. A full shard first evicts.
    pub fn publish(
        &mut self,
        component: BitMatrix,
        nimber: usize,
        limit: Option<usize>,
        percent: usize,
    ) -> (fresh: bool)
        requires
            old(self).wf(),
            component.wf(),
            old(self)@.dom().len() < usize::MAX,
        ensures
            final(self).wf(),
            is_published(
                old(self)@,
                final(self)@,
                component@,
                nimber,
                limit,
                percent,
                fresh,
            ),
    {
        let ghost g = component@;
        let ghost before = self@;
        if let Some(limit) = limit {
            if self.len() >= limit {
                let target: usize = compute_eviction_target(limit, percent);
                let hash: u64 = stable_matrix_hash(&component);
                self.evict_done_entries(target, hash);
            }
        }
        let ghost kept = self@;
        proof {
            lemma_table_size(old(self).buckets@);
            lemma_table_size(self.buckets@);
            assert(kept.submap_of(before));
            assert(kept.dom().subset_of(before.dom()));
            vstd::set_lib::lemma_len_subset(kept.dom(), before.dom());
            assert(is_limited(before, kept, g, limit, percent));
        }
        match self.get(&component) {
            Some(CacheEntry::Done(_)) => false,
            Some(CacheEntry::Processing) => {
                self.insert(component, CacheEntry::Done(nimber));
                true
            },
            None => {
                self.insert(component, CacheEntry::Done(nimber));
                true
            },
        }
    }

    /// Counts the components by kind, and estimates the bytes that they take up.
    pub fn profile(&self) -> (profile: CacheProfile)
        requires
            self.wf(),
        ensures
            profile.entries == self@.dom().len(),
            profile.done == done_grids(self@).len(),
            profile.processing == self@.dom().len() - done_grids(self@).len(),
            done_grids(self@).finite(),
            exists|listed: Seq<Grid>|
                lists_all(listed, self@.dom()) && profile.estimated_bytes
                    == #[trigger] total_entry_bytes(listed),
    {
        let mut done: usize = 0;
        let mut bytes: usize = 0;
        let ghost mut found: Set<Grid> = Set::empty();
        let ghost mut listed: Seq<Grid> = Seq::empty();
        let mut b: usize = 0;
        proof {
            assert(listed.to_set() =~= Set::empty());
            lemma_table_size(self.buckets@);
            assert(grids_in(self.buckets@, 0) =~= Set::empty());
            assert(done_grids(self@).subset_of(self@.dom()));
            vstd::set_lib::lemma_len_subset(done_grids(self@), self@.dom());
        }
        while b < self.buckets.len()
            invariant
                self.wf(),
                b <= self.buckets@.len(),
                done == found.len(),
                found.finite(),
                done_grids(self@).finite(),
                done_grids(self@).len() <= usize::MAX,
                found == done_grids(self@).intersect(grids_in(self.buckets@, b as int)),
                lists_all(listed, grids_in(self.buckets@, b as int)),
                bytes == total_entry_bytes(listed),
            decreases self.buckets@.len() - b,
        {
            let ghost slots = self.buckets@[b as int]@;
            let ghost before = grids_in(self.buckets@, b as int);
            let mut i: usize = 0;
            proof {
                assert(before =~= before.union(first_grids(slots, 0)));
            }
            while i < self.buckets[b].len()
                invariant
                    self.wf(),
                    b < self.buckets@.len(),
                    slots == self.buckets@[b as int]@,
                    before == grids_in(self.buckets@, b as int),
                    i <= slots.len(),
                    done == found.len(),
                    found.finite(),
                    done_grids(self@).finite(),
                    done_grids(self@).len() <= usize::MAX,
                    found == done_grids(self@).intersect(
                        before.union(first_grids(slots, i as int)),
                    ),
                    lists_all(listed, before.union(first_grids(slots, i as int))),
                    bytes == total_entry_bytes(listed),
                decreases slots.len() - i,
            {
                let ghost g = slots[i as int].component@;
                let ghost covered = before.union(first_grids(slots, i as int));
                proof {
                    assert(bucket_wf(slots, b as int, self.buckets@.len() as int));
                    assert(slots[i as int].component.wf());
                    lemma_slot_in_table(self.buckets@, b as int, i as int);
                    lemma_fresh_slot(self.buckets@, b as int, i as int);
                    lemma_first_grids(slots, i as int);
                    assert(before.union(first_grids(slots, i + 1)) =~= covered.insert(g));
                    assert(!covered.contains(g));
                    lemma_lists_more(listed, covered, g);
                    listed = listed.push(g);
                }
                bytes = bytes.saturating_add(
                    estimate_cache_entry_bytes(&self.buckets[b][i].component),
                );
                match self.buckets[b][i].entry {
                    CacheEntry::Done(_) => {
                        proof {
                            let more = found.insert(g);
                            assert(!found.contains(g));
                            assert(more =~= done_grids(self@).intersect(covered.insert(g)));
                            vstd::set_lib::lemma_len_subset(more, done_grids(self@));
                            found = more;
                        }
                        done = done + 1;
                    },
                    CacheEntry::Processing => {
                        proof {
                            assert(found =~= done_grids(self@).intersect(covered.insert(g)));
                        }
                    },
                }
                i = i + 1;
            }
            proof {
                assert(grids_in(self.buckets@, b + 1) =~= before.union(
                    first_grids(slots, slots.len() as int),
                )) by {
                    assert forall|g: Grid| #[trigger]
                        grids_in(self.buckets@, b + 1).contains(g) <==> before.union(
                            first_grids(slots, slots.len() as int),
                        ).contains(g) by {
                        lemma_grids_step(self.buckets@, b as int, g);
                    }
                }
            }
            b = b + 1;
        }
        proof {
            lemma_all_grids(self.buckets@);
            assert(found =~= done_grids(self@));
            assert(grids_in(self.buckets@, self.buckets@.len() as int) =~= self@.dom());
        }
        CacheProfile {
            entries: self.len,
            done,
            processing: self.len - done,
            estimated_bytes: bytes,
        }
    }
}

/// Whether `victim` has the highest rank of the entries that are done before place `i` of bucket
/// `b`.
spec fn is_victim(
    buckets: Seq<Vec<Slot>>,
    new_hash: u64,
    victim: Option<(usize, usize)>,
    highest: u64,
    b: int,
    i: int,
) -> bool {
    &&& match victim {
        Some((vb, vi)) => {
            &&& vb < buckets.len()
            &&& vi < buckets[vb as int]@.len()
            &&& buckets[vb as int]@[vi as int].entry is Done
            &&& highest == eviction_rank(buckets[vb as int]@[vi as int].component@, new_hash)
        },
        None => true,
    }
    &&& forall|c: int, j: int|
        0 <= c < buckets.len() && 0 <= j < buckets[c]@.len() && (c < b || (c == b && j < i)) && (
        #[trigger] buckets[c]@[j]).entry is Done ==> victim is Some && eviction_rank(
            buckets[c]@[j].component@,
            new_hash,
        ) <= highest
}

/// The components of the first `k` slots.
spec fn first_grids(slots: Seq<Slot>, k: int) -> Set<Grid> {
    Set::new(|g: Grid| in_first(slots, k, g))
}

proof fn lemma_first_grids(slots: Seq<Slot>, i: int)
    requires
        0 <= i < slots.len(),
    ensures
        first_grids(slots, i + 1) == first_grids(slots, i).insert(slots[i].component@),
{
    let g = slots[i].component@;
    assert(first_grids(slots, i + 1) =~= first_grids(slots, i).insert(g)) by {
        assert forall|h: Grid| first_grids(slots, i + 1).contains(h) <==> first_grids(
            slots,
            i,
        ).insert(g).contains(h) by {
            if in_first(slots, i + 1, h) && h != g {
                let j = choose|j: int| 0 <= j < i + 1 && (#[trigger] slots[j]).component@ == h;
                assert(0 <= j < i && slots[j].component@ == h);
            }
            if h == g {
                assert(slots[i].component@ == h);
            }
            if in_first(slots, i, h) {
                let j = choose|j: int| 0 <= j < i && (#[trigger] slots[j]).component@ == h;
                assert(0 <= j < i + 1 && slots[j].component@ == h);
            }
        }
    }
}

/// A slot's component is in no earlier slot.
proof fn lemma_fresh_slot(buckets: Seq<Vec<Slot>>, b: int, i: int)
    requires
        buckets_wf(buckets),
        0 <= b < buckets.len(),
        0 <= i < buckets[b]@.len(),
    ensures
        !grids_in(buckets, b).contains(buckets[b]@[i].component@),
        !first_grids(buckets[b]@, i).contains(buckets[b]@[i].component@),
{
    let g = buckets[b]@[i].component@;
    lemma_slot_in_table(buckets, b, i);
    if grids_in(buckets, b).contains(g) {
        let (c, j) = choose|c: int, j: int|
            0 <= c < b && 0 <= j < buckets[c]@.len() && (#[trigger] buckets[c]@[j]).component@ == g;
        lemma_slot_in_table(buckets, c, j);
    }
    if in_first(buckets[b]@, i, g) {
        let j = choose|j: int| 0 <= j < i && (#[trigger] buckets[b]@[j]).component@ == g;
        assert(bucket_wf(buckets[b]@, b, buckets.len() as int));
    }
}

/// Whether `entries` lists the entries that are done of the components `covered`.
spec fn lists_done_of(
    map: Map<Grid, CacheEntry>,
    entries: Seq<(BitMatrix, usize)>,
    covered: Set<Grid>,
) -> bool {
    &&& forall|i: int|
        0 <= i < entries.len() ==> {
            &&& (#[trigger] entries[i]).0.wf()
            &&& covered.contains(entries[i].0@)
            &&& map.contains_key(entries[i].0@)
            &&& map[entries[i].0@] == CacheEntry::Done(entries[i].1)
        }
    &&& forall|g: Grid| #[trigger]
        covered.contains(g) && map.contains_key(g) && map[g] is Done ==> exists|i: int|
            0 <= i < entries.len() && (#[trigger] entries[i]).0@ == g
    &&& forall|i: int, j: int|
        0 <= i < j < entries.len() ==> (#[trigger] entries[i]).0@ != (#[trigger] entries[j]).0@
}

proof fn lemma_lists_done_push(
    map: Map<Grid, CacheEntry>,
    entries: Seq<(BitMatrix, usize)>,
    covered: Set<Grid>,
    entry: (BitMatrix, usize),
)
    requires
        lists_done_of(map, entries, covered),
        entry.0.wf(),
        map.contains_key(entry.0@),
        map[entry.0@] == CacheEntry::Done(entry.1),
        !covered.contains(entry.0@),
    ensures
        lists_done_of(map, entries.push(entry), covered.insert(entry.0@)),
{
    let more = entries.push(entry);
    let g = entry.0@;
    assert forall|h: Grid| #[trigger]
        covered.insert(g).contains(h) && map.contains_key(h) && map[h] is Done implies exists|i: int|
        0 <= i < more.len() && (#[trigger] more[i]).0@ == h by {
        if h == g {
            assert(more[entries.len() as int].0@ == h);
        } else {
            assert(covered.contains(h));
            let i = choose|i: int| 0 <= i < entries.len() && (#[trigger] entries[i]).0@ == h;
            assert(more[i].0@ == h);
        }
    }
    assert forall|i: int, j: int| 0 <= i < j < more.len() implies (#[trigger] more[i]).0@ != (
    #[trigger] more[j]).0@ by {
        if j < entries.len() {
            assert(entries[i].0@ != entries[j].0@);
        } else {
            assert(covered.contains(entries[i].0@));
        }
    }
    assert forall|i: int| 0 <= i < more.len() implies {
        &&& (#[trigger] more[i]).0.wf()
        &&& covered.insert(g).contains(more[i].0@)
        &&& map.contains_key(more[i].0@)
        &&& map[more[i].0@] == CacheEntry::Done(more[i].1)
    } by {
        if i < entries.len() {
            assert(entries[i].0.wf());
        }
    }
}

proof fn lemma_lists_done_skip(
    map: Map<Grid, CacheEntry>,
    entries: Seq<(BitMatrix, usize)>,
    covered: Set<Grid>,
    g: Grid,
)
    requires
        lists_done_of(map, entries, covered),
        !(map[g] is Done),
    ensures
        lists_done_of(map, entries, covered.insert(g)),
{
    assert forall|h: Grid| #[trigger]
        covered.insert(g).contains(h) && map.contains_key(h) && map[h] is Done implies exists|i: int|
        0 <= i < entries.len() && (#[trigger] entries[i]).0@ == h by {
        assert(covered.contains(h));
    }
}

/// All components are in some bucket.
proof fn lemma_all_grids(buckets: Seq<Vec<Slot>>)
    requires
        buckets_wf(buckets),
    ensures
        forall|g: Grid| #[trigger]
            table(buckets).contains_key(g) ==> grids_in(buckets, buckets.len() as int).contains(g),
{
    assert forall|g: Grid| #[trigger] table(buckets).contains_key(g) implies grids_in(
        buckets,
        buckets.len() as int,
    ).contains(g) by {
        let at = lemma_table_slot(buckets, g);
        assert(buckets[at.0]@[at.1].component@ == g);
    }
}

/// Whether component `g` is in one of the first `k` slots.
spec fn in_first(slots: Seq<Slot>, k: int, g: Grid) -> bool {
    exists|j: int| 0 <= j < k && (#[trigger] slots[j]).component@ == g
}

proof fn lemma_no_slots(buckets: Seq<Vec<Slot>>, k: int)
    requires
        0 <= k <= buckets.len(),
        forall|b: int| 0 <= b < k ==> (#[trigger] buckets[b])@.len() == 0,
    ensures
        slots_in(buckets, k) == 0,
    decreases k,
{
    if k > 0 {
        lemma_no_slots(buckets, k - 1);
        assert(buckets[k - 1]@.len() == 0);
    }
}

proof fn lemma_slots_bound(buckets: Seq<Vec<Slot>>, b: int, i: int)
    requires
        0 <= b < buckets.len(),
        0 <= i < buckets[b]@.len(),
    ensures
        slots_in(buckets, b) + i < slots_in(buckets, buckets.len() as int),
{
    lemma_slots_grow(buckets, b + 1, buckets.len() as int);
}

proof fn lemma_slots_grow(buckets: Seq<Vec<Slot>>, j: int, k: int)
    requires
        0 <= j <= k,
    ensures
        slots_in(buckets, j) <= slots_in(buckets, k),
    decreases k - j,
{
    if j < k {
        lemma_slots_grow(buckets, j, k - 1);
    }
}

proof fn lemma_grids_step(buckets: Seq<Vec<Slot>>, b: int, g: Grid)
    requires
        0 <= b < buckets.len(),
    ensures
        grids_in(buckets, b + 1).contains(g) <==> grids_in(buckets, b).contains(g) || in_first(
            buckets[b]@,
            buckets[b]@.len() as int,
            g,
        ),
{
    if grids_in(buckets, b + 1).contains(g) {
        let (c, j) = choose|c: int, j: int|
            0 <= c < b + 1 && 0 <= j < buckets[c]@.len() && (#[trigger] buckets[c]@[j]).component@
                == g;
        if c < b {
            assert(0 <= c < b && buckets[c]@[j].component@ == g);
        } else {
            assert(buckets[b]@[j].component@ == g);
        }
    }
    if grids_in(buckets, b).contains(g) {
        let (c, j) = choose|c: int, j: int|
            0 <= c < b && 0 <= j < buckets[c]@.len() && (#[trigger] buckets[c]@[j]).component@ == g;
        assert(0 <= c < b + 1 && buckets[c]@[j].component@ == g);
    }
    if in_first(buckets[b]@, buckets[b]@.len() as int, g) {
        let j = choose|j: int|
            0 <= j < buckets[b]@.len() && (#[trigger] buckets[b]@[j]).component@ == g;
        assert(0 <= b < b + 1 && buckets[b]@[j].component@ == g);
    }
}

} // verus!
