//! Parallel depth-first Sprague-Grundy evaluation.
use crate::cache::{CacheEntry, CacheProbe, CacheProfile};
use crate::cache_file::{decode_cache, encode_cache, entries_at, entry_views, file_bytes, header_of};
use crate::cache_file::{lemma_saved_cache_loads, CacheFile, CacheFileError};
use crate::components::{node_count, values};
use crate::grid::{lemma_cells_finite, Grid};
use crate::limits::fits;
use crate::matrix::BitMatrix;
use crate::nim::{grundy, is_option, lemma_xor_is_nim_sum, nim_total, reaches, Position};
use crate::reading::{given_of_both, may_cancel, may_go_on, read_flag, reads};
use crate::sharded::{are_entries, entries_true, filled_shards, holds_done_of, is_total_profile};
use crate::sharded::{is_true_of, lemma_filled_holds_done, lists_done_of_all, total_len};
use crate::sharded::ShardedCache;
use crate::solver::{stands_for, CanonicalGame, PseudoCanonicalizer};
use crate::stats::{has_passed_since, is_recorded, time_since, Count, SharedStats};
use crate::successor::{covers_moves, is_successor, CanonicalMoveGenerator, IndexedSuccessorGroups};
use crate::successor::SuccessorGenerator;
use crate::symmetry::{has_symmetry, InvolutionSymmetryFinder};
use crate::traversal::{traversal_seed, Stride};
use crate::worker_result::{group_covered, handled, has_pending_value, is_total_of, is_walk_of};
use crate::worker_result::{lemma_all_groups, lemma_complete_mex, lemma_cover_grows};
use crate::worker_result::{lemma_part_smaller, lemma_parts_fit, lemma_successor};
use crate::worker_result::{lemma_walked_group, parts_fit, resumable, walked};
use crate::worker_result::{DeferredGroup, WorkerResult};
use crate::workers::{fails_to_start, Work, WorkerPool, WorkerPoolError};
use core::sync::atomic::AtomicBool;
use core::time::Duration;
use std::sync::Arc;
use std::time::Instant;
use vstd::prelude::*;

pub use crate::stats::{stats_collection_enabled, EvaluatorStats};
pub use crate::symmetry::SymmetryFinder;

verus! {

/// Proves nothing.
#[derive(Clone, Copy, Debug, Default)]
pub struct NoSymmetryFinder;

impl SymmetryFinder for NoSymmetryFinder {
    fn proves_zero(&self, _component: &BitMatrix) -> (proven: bool)
        ensures
            !proven,
    {
        false
    }
}

/// Looks for symmetries, or proves nothing.
#[derive(Clone, Copy, Debug)]
pub struct ToggleableSymmetryFinder {
    enabled: bool,
}

impl ToggleableSymmetryFinder {
    /// Whether it looks for symmetries.
    pub closed spec fn is_enabled(&self) -> bool {
        self.enabled
    }

    pub fn new(enabled: bool) -> (finder: Self)
        ensures
            finder.is_enabled() == enabled,
    {
        ToggleableSymmetryFinder { enabled }
    }

    pub fn enabled(self) -> (enabled: bool)
        ensures
            enabled == self.is_enabled(),
    {
        self.enabled
    }
}

impl Default for ToggleableSymmetryFinder {
    fn default() -> (finder: Self)
        ensures
            finder.is_enabled(),
    {
        Self::new(true)
    }
}

impl SymmetryFinder for ToggleableSymmetryFinder {
    fn proves_zero(&self, component: &BitMatrix) -> (proven: bool)
        ensures
            proven == (self.is_enabled() && component@.cells.len() > 0 && has_symmetry(
                component@,
            )),
    {
        self.enabled && InvolutionSymmetryFinder.proves_zero(component)
    }
}

/// How an evaluator works.
#[derive(Clone, Copy, Debug)]
pub struct EvaluatorConfig {
    /// The number of worker threads, or a number that suits the machine.
    pub threads: Option<usize>,
    pub cache_shards: usize,
    pub max_cache_entries: Option<usize>,
    /// How much of its limit a full cache keeps, in percent.
    pub cache_low_watermark: usize,
}

impl EvaluatorConfig {
    /// Whether there are shards and threads.
    pub open spec fn usable(&self) -> bool {
        self.cache_shards > 0 && self.threads != Some(0usize)
    }
}

/// How many shards there are for each thread.
pub open spec fn shards_per_thread(threads: usize) -> int {
    if threads >= 64 {
        32
    } else {
        8
    }
}

/// Whether `shards` is the least power of two that is at least 64 and at least `wanted`.
pub open spec fn is_shard_count(wanted: int, shards: int) -> bool {
    &&& exists|k: nat| shards == #[trigger] vstd::arithmetic::power2::pow2(k)
    &&& shards >= 64
    &&& shards >= wanted
    &&& shards == 64 || shards / 2 < wanted
}

/// A number of shards that suits the number of threads: a power of two.
pub fn recommended_cache_shards(threads: usize) -> (shards: usize)
    requires
        threads * shards_per_thread(threads) <= usize::MAX / 2 + 1,
    ensures
        is_shard_count(threads * shards_per_thread(threads), shards as int),
{
    let factor: usize = if threads >= 64 {
        32
    } else {
        8
    };
    proof {
        assert(threads * factor == threads * shards_per_thread(threads));
    }
    let wanted: usize = threads * factor;
    let mut shards: usize = 64;
    let ghost mut k: nat = 6;
    proof {
        vstd::arithmetic::power2::lemma2_to64();
    }
    while shards < wanted
        invariant
            wanted <= usize::MAX / 2 + 1,
            shards == vstd::arithmetic::power2::pow2(k),
            k >= 6,
            shards >= 64,
            shards == 64 || shards / 2 < wanted,
        decreases usize::MAX - shards,
    {
        proof {
            vstd::arithmetic::power2::lemma_pow2_unfold(k + 1);
            k = k + 1;
        }
        shards = shards * 2;
    }
    shards
}

/// How an evaluator works by default.
pub open spec fn default_config() -> EvaluatorConfig {
    EvaluatorConfig {
        threads: Some(6),
        cache_shards: 64,
        max_cache_entries: None,
        cache_low_watermark: 95,
    }
}

impl Default for EvaluatorConfig {
    fn default() -> (config: Self)
        ensures
            config.usable(),
            config == default_config(),
    {
        let threads: usize = 6;
        let cache_shards: usize = recommended_cache_shards(threads);
        proof {
            let k = choose|k: nat| cache_shards == #[trigger] vstd::arithmetic::power2::pow2(k);
            vstd::arithmetic::power2::lemma2_to64();
            if k > 6 {
                if k > 7 {
                    vstd::arithmetic::power2::lemma_pow2_strictly_increases(7, k);
                }
            } else if k < 6 {
                vstd::arithmetic::power2::lemma_pow2_strictly_increases(k, 6);
            }
        }
        EvaluatorConfig {
            threads: Some(threads),
            cache_shards,
            max_cache_entries: None,
            cache_low_watermark: 95,
        }
    }
}

/// How many entries were saved or loaded.
#[derive(Clone, Copy, Debug, Default, PartialEq, Eq, Structural)]
pub struct CacheIoReport {
    pub entries: usize,
}

/// The size of the cache.
#[derive(Clone, Copy, Debug, Default, PartialEq, Eq, Structural)]
pub struct CacheSnapshot {
    pub entries: usize,
    pub estimated_bytes: usize,
}

/// The nimber of a position, or that it is being evaluated by another worker.
#[derive(Clone, Copy)]
enum Evaluation {
    Ready { nimber: usize, claimed: bool },
    Busy,
}

/// Whether a worker computes what is busy last, or helps with it.
#[derive(Clone, Copy, PartialEq, Eq, Structural)]
enum EvaluationPolicy {
    Serial,
    CooperativeAssist,
}

/// Whether groups with busy moves are put off, or revisited.
#[derive(Clone, Copy, PartialEq, Eq, Structural)]
enum DeferMode {
    Fresh,
    Revisit,
}

#[derive(Clone, Copy)]
struct GroupEvalContext<'a> {
    policy: EvaluationPolicy,
    defer_mode: DeferMode,
    depth: usize,
    cancel: Option<&'a AtomicBool>,
}

fn is_cancelled(cancel: Option<&AtomicBool>) -> (cancelled: bool)
    ensures
        match cancel {
            Some(flag) => reads(flag, cancelled),
            None => !cancelled,
        },
{
    match cancel {
        Some(flag) => read_flag(flag),
        None => false,
    }
}

/// The evaluator only depends on canonical successor generation and an
/// optional symmetry-based zero certificate.
pub struct Evaluator<G, S = NoSymmetryFinder> {
    generator: G,
    symmetry_finder: S,
    cache: ShardedCache,
    pool: WorkerPool,
    config: EvaluatorConfig,
    stats: SharedStats,
    created_at: Instant,
}

/// The cells of a matrix are finite in number, and a machine word can count them.
proof fn lemma_matrix_position(matrix: &BitMatrix)
    requires
        matrix.wf(),
    ensures
        matrix@.cells.finite(),
        matrix@.cells.len() <= usize::MAX,
{
    lemma_cells_finite(matrix@.cells, matrix@.rows, matrix@.cols);
}

proof fn lemma_walk_step<IG: IndexedSuccessorGroups>(
    before: Set<nat>,
    after: Set<nat>,
    groups: IG,
    group: DeferredGroup,
    visited: int,
)
    requires
        before.subset_of(after),
        walked(before, groups, group, visited),
        after.contains(grundy(groups.after(group.group_index as int, group.walk.at(visited)))),
    ensures
        walked(after, groups, group, visited + 1),
{
}

/// Where the walk over the group stops: where it is put off, or at its end.
spec fn stop_of(before: Seq<DeferredGroup>, after: Seq<DeferredGroup>, group: DeferredGroup) -> int {
    if after == before {
        group.walk.length() as int
    } else {
        after.last().visited as int
    }
}

/// The nimbers of the first components together.
proof fn lemma_total_step(parts: Seq<Grid>, k: int)
    requires
        0 <= k < parts.len(),
    ensures
        nim_total(values(parts.take(k + 1))) == crate::nim::nim_sum(
            nim_total(values(parts.take(k))),
            grundy(parts[k].cells),
        ),
{
    let more = values(parts.take(k + 1));
    assert(more.drop_last() =~= values(parts.take(k)));
    assert(more.last() == grundy(parts[k].cells));
}

/// All numbers together by exclusive or.
pub open spec fn xor_all(numbers: Seq<usize>) -> usize
    decreases numbers.len(),
{
    if numbers.len() == 0 {
        0
    } else {
        xor_all(numbers.drop_last()) ^ numbers.last()
    }
}

/// A single number is all numbers together.
proof fn lemma_xor_one(number: usize)
    ensures
        xor_all(seq![number]) == number,
{
    let numbers = seq![number];
    assert(numbers.drop_last() =~= Seq::<usize>::empty());
    assert(0usize ^ number == number) by (bit_vector);
    assert(xor_all(numbers.drop_last()) == 0);
}

/// The nimber of a single component is the nimber of the game.
proof fn lemma_single_total(parts: Seq<Grid>)
    requires
        parts.len() == 1,
    ensures
        nim_total(values(parts)) == grundy(parts[0].cells),
{
    lemma_total_step(parts, 0);
    assert(values(parts.take(0)).len() == 0);
    assert(parts.take(1) =~= parts);
}

impl<G, S> Evaluator<G, S> {
    /// What holds of every evaluator.
    pub closed spec fn wf(&self) -> bool {
        &&& self.cache.wf()
        &&& self.config.usable()
        &&& self.cache.shard_count() == self.config.cache_shards
    }

    /// Whether the cache holds right nimbers only.
    pub closed spec fn sound(&self) -> bool {
        self.cache.sound()
    }

    /// What generates the moves.
    pub closed spec fn inner_generator(&self) -> &G {
        &self.generator
    }

    /// What looks for symmetries.
    pub closed spec fn inner_finder(&self) -> &S {
        &self.symmetry_finder
    }

    /// Whether the work is done by the threads of `pool`.
    spec fn has_pool(&self, pool: WorkerPool) -> bool {
        self.pool == pool
    }

    /// Whether the worker threads are those that were started when so many were asked for, or a
    /// number that suits the machine.
    pub closed spec fn has_workers(&self, threads: Option<usize>) -> bool {
        self.pool.has_started(threads)
    }

    /// How the evaluator works.
    pub closed spec fn inner_config(&self) -> EvaluatorConfig {
        self.config
    }

    /// When the evaluator was made.
    pub closed spec fn made_at(&self) -> Instant {
        self.created_at
    }

    /// Whether the shards of the cache are found to hold `maps`, one after the other.
    pub closed spec fn cache_shows(&self, maps: Seq<Map<Grid, CacheEntry>>) -> bool {
        self.cache.shown(maps)
    }

    /// Whether the cache is `cache`.
    pub closed spec fn has_cache(&self, cache: ShardedCache) -> bool {
        self.cache == cache
    }

    /// Whether the cache is a new one whose shards hold `maps`.
    pub closed spec fn cache_starts_as(&self, maps: Seq<Map<Grid, CacheEntry>>) -> bool {
        self.cache.starts_as(maps)
    }

    /// Whether the cache is a new and empty one.
    pub open spec fn cache_starts_empty(&self) -> bool {
        self.cache_starts_as(filled_shards(Seq::empty(), self.inner_config().cache_shards as nat))
    }

    /// Whether the cache of `other` is a new one that holds what was found to be done in this one's,
    /// with the same nimbers, and nothing else.
    pub open spec fn keeps_done(&self, other: &Evaluator<G, S>) -> bool {
        exists|maps: Seq<Map<Grid, CacheEntry>>, starts: Seq<Map<Grid, CacheEntry>>|
            {
                &&& #[trigger] self.cache_shows(maps)
                &&& #[trigger] other.cache_starts_as(starts)
                &&& holds_done_of(maps, starts)
            }
    }

    /// Whether the entries are those that were found to be done in the cache.
    pub open spec fn saves(&self, entries: Seq<(BitMatrix, usize)>) -> bool {
        exists|maps: Seq<Map<Grid, CacheEntry>>| #[trigger]
            self.cache_shows(maps) && lists_done_of_all(maps, maps.len() as int, entries)
    }

    /// Whether the nimber of component `g` is published, and it was `fresh` or not.
    pub closed spec fn cache_publishes(&self, g: Grid, nimber: usize, fresh: bool) -> bool {
        self.cache.publishes(
            g,
            nimber,
            self.config.max_cache_entries,
            self.config.cache_low_watermark,
            fresh,
        )
    }

    /// Whether all shards of the cache are left empty.
    pub closed spec fn cache_cleared(&self) -> bool {
        forall|i: int| 0 <= i < self.cache.shard_count() ==> #[trigger] self.cache.cleared(i)
    }

    /// Whether all shards of the cache are left with what was found to be done there.
    pub closed spec fn cache_unclaimed(&self) -> bool {
        forall|i: int| 0 <= i < self.cache.shard_count() ==> #[trigger] self.cache.unclaimed(i)
    }

    /// Whether the cache is found to know component `g` by the nimber, or not to know it.
    pub closed spec fn cache_gives(&self, g: Grid, nimber: Option<usize>) -> bool {
        self.cache.gives_done(g, nimber)
    }

    /// Whether the cache is found to give the nimbers of all parts, which together are `nimber`, or not
    /// to know one of them.
    pub open spec fn cache_gives_all(&self, parts: Seq<Grid>, nimber: Option<usize>) -> bool {
        match nimber {
            Some(nimber) => exists|found: Seq<usize>|
                {
                    &&& found.len() == parts.len()
                    &&& forall|i: int|
                        0 <= i < parts.len() ==> self.cache_gives(
                            #[trigger] parts[i],
                            Some(found[i]),
                        )
                    &&& nimber == #[trigger] xor_all(found)
                },
            None => exists|i: int|
                0 <= i < parts.len() && self.cache_gives(#[trigger] parts[i], None),
        }
    }

    /// Whether the counts of the work are read as `stats`.
    pub closed spec fn stats_show(&self, stats: EvaluatorStats) -> bool {
        self.stats.shows(stats) && self.stats.shows_micros(stats.active_worker_micros)
    }

    /// Whether the evaluator consists of the given things.
    pub open spec fn consists_of(&self, generator: G, symmetry_finder: S, config: EvaluatorConfig) -> bool {
        &&& *self.inner_generator() == generator
        &&& *self.inner_finder() == symmetry_finder
        &&& self.inner_config() == config
    }
}

impl<G, S> Evaluator<G, S> {
    proof fn lemma_copied(&self, copied: &ShardedCache, other: &Evaluator<G, S>)
        requires
            self.cache.is_copied(copied),
            other.has_cache(*copied),
        ensures
            self.keeps_done(other),
    {
        let (maps, starts) = choose|
            maps: Seq<Map<Grid, CacheEntry>>,
            starts: Seq<Map<Grid, CacheEntry>>,
        |
            {
                &&& #[trigger] self.cache.shown(maps)
                &&& #[trigger] copied.starts_as(starts)
                &&& holds_done_of(maps, starts)
            };
        assert(self.cache_shows(maps) && other.cache_starts_as(starts));
    }
}

/// The search for the nimber of a game.
pub struct Search<'a, G, S> {
    evaluator: &'a Evaluator<G, S>,
    game: &'a CanonicalGame,
    cancel: Option<&'a AtomicBool>,
}

impl<'a, G, S> Work for Search<'a, G, S> where G: SuccessorGenerator, S: SymmetryFinder {
    type Output = Option<usize>;

    closed spec fn is_ready(&self) -> bool {
        self.evaluator.wf() && self.game.wf()
    }

    closed spec fn may_give(&self, nimber: Option<usize>) -> bool {
        &&& nimber is None ==> may_cancel(self.cancel)
        &&& nimber is Some ==> may_go_on(self.cancel)
        &&& nimber is Some ==> self.evaluator.resolves_all(self.game@, nimber->0)
        &&& nimber is Some && self.game@.len() == 1 ==> self.evaluator.shares_root(
            self.game@[0],
            self.cancel,
        )
        &&& self.evaluator.sound() && nimber is Some ==> is_total_of(self.game@, nimber->0)
    }

    fn run(&self) -> (nimber: Option<usize>) {
        self.evaluator.nimber_cooperative_root_inner(self.game, self.cancel)
    }
}

/// What each worker does to find the nimber of a component together with the others.
pub struct SharedSearch<'a, G, S> {
    evaluator: &'a Evaluator<G, S>,
    component: &'a BitMatrix,
    bound: usize,
    cancel: Option<&'a AtomicBool>,
}

impl<'a, G, S> Work for SharedSearch<'a, G, S> where G: SuccessorGenerator, S: SymmetryFinder {
    type Output = WorkerResult;

    closed spec fn is_ready(&self) -> bool {
        self.evaluator.wf() && self.component.wf()
    }

    closed spec fn may_give(&self, local: WorkerResult) -> bool {
        let position = self.component@.cells;
        &&& local.wf(position, self.evaluator.sound())
        &&& local.cancelled ==> may_cancel(self.cancel)
        &&& self.evaluator.sound() && fits(position) && !local.cancelled ==> local.complete(
            position,
        )
    }

    fn run(&self) -> (local: WorkerResult) {
        self.evaluator.cooperative_worker(self.component, self.bound, self.cancel)
    }
}

impl<G, S> Evaluator<G, S> where G: SuccessorGenerator, S: SymmetryFinder {
    /// Whether component `g` is put to the symmetry finder, and `nimber` is zero if it has a proof,
    /// which is counted.
    pub closed spec fn computes(&self, g: Grid, nimber: usize) -> bool {
        exists|component: BitMatrix, proven: bool|
            {
                &&& #[trigger] call_ensures(
                    S::proves_zero,
                    (&self.symmetry_finder, &component),
                    proven,
                )
                &&& component@ == g
                &&& proven ==> nimber == 0 && self.stats.counts_more(
                    Count::SymmetryZeroCertificates,
                    1,
                )
            }
    }

    /// Whether a worker thread searches for the nimber of the game, and gives `nimber`.
    pub closed spec fn searches(
        &self,
        game: &CanonicalGame,
        cancel: Option<&AtomicBool>,
        nimber: Option<usize>,
    ) -> bool {
        self.pool.runs(Search { evaluator: self, game, cancel }, nimber)
    }

    /// Whether the symmetry finder proves that the nimber of the component is zero, or all worker
    /// threads search for it, which is counted.
    spec fn shares(&self, component: &BitMatrix, cancel: Option<&AtomicBool>) -> bool {
        ||| call_ensures(S::proves_zero, (&self.symmetry_finder, component), true)
        ||| {
            &&& self.stats.counts_more(Count::CooperativeRegions, 1)
            &&& exists|bound: usize, results: Vec<WorkerResult>| #[trigger]
                self.pool.runs_on_all(
                    SharedSearch { evaluator: self, component, bound, cancel },
                    results,
                )
        }
    }

    /// Whether component `g` is looked up, and all worker threads search for its nimber if it is
    /// neither known nor being evaluated, and there is no proof that it is zero.
    pub closed spec fn shares_root(&self, g: Grid, cancel: Option<&AtomicBool>) -> bool {
        exists|probe: CacheProbe| #[trigger]
            self.cache.gives_probe(g, probe) && (probe is Claimed ==> exists|component: BitMatrix|
                component@ == g && #[trigger] self.shares(&component, cancel))
    }

    /// Whether the nimber of component `g` is published, and counted as new or as not.
    pub closed spec fn records(&self, g: Grid, nimber: usize) -> bool {
        exists|fresh: bool| #[trigger]
            self.cache_publishes(g, nimber, fresh) && self.stats.counts_more(
                if fresh {
                    Count::CompletedPositions
                } else {
                    Count::DuplicatePublishRaces
                },
                1,
            )
    }

    /// Whether the nimber of component `g`, which somebody else is evaluating, is computed all the
    /// same, published and counted.
    pub closed spec fn forces(&self, g: Grid, nimber: usize) -> bool {
        self.stats.counts_force() && self.computes(g, nimber) && self.records(g, nimber)
    }

    /// Whether component `g` is looked up, and its nimber is the one that is known. A nimber that is
    /// not known is computed, published and counted, or found after all.
    pub closed spec fn resolves(&self, g: Grid, nimber: usize) -> bool {
        exists|probe: CacheProbe| #[trigger]
            self.cache.gives_probe(g, probe) && match probe {
                CacheProbe::Done(known) => nimber == known && self.stats.counts_more(
                    Count::CompletedCacheHits,
                    1,
                ),
                CacheProbe::Busy => {
                    &&& self.stats.counts_more(Count::ProcessingHits, 1)
                    &&& {
                        ||| self.cache_gives(g, Some(nimber)) && self.stats.counts_more(
                            Count::CompletedCacheHits,
                            1,
                        )
                        ||| self.forces(g, nimber)
                    }
                },
                CacheProbe::Claimed => self.stats.counts_claim() && self.computes(g, nimber)
                    && self.records(g, nimber),
            }
    }

    /// Whether `evaluation` is what a worker that wants component `g` is told: its nimber if it is
    /// known, that somebody else is evaluating it, or that it is the worker's to compute.
    spec fn answers(&self, g: Grid, evaluation: Evaluation) -> bool {
        exists|probe: CacheProbe| #[trigger]
            self.cache.gives_probe(g, probe) && match probe {
                CacheProbe::Done(known) => evaluation == (Evaluation::Ready {
                    nimber: known,
                    claimed: false,
                }),
                CacheProbe::Busy => evaluation is Busy && self.stats.counts_more(
                    Count::ProcessingHits,
                    1,
                ),
                CacheProbe::Claimed => evaluation matches Evaluation::Ready { nimber, claimed }
                    && claimed,
            }
    }

    /// Whether the parts are looked up, one by one, and their nimbers together are `nimber`.
    pub open spec fn resolves_all(&self, parts: Seq<Grid>, nimber: usize) -> bool {
        exists|found: Seq<usize>|
            {
                &&& found.len() == parts.len()
                &&& forall|i: int|
                    0 <= i < parts.len() ==> self.resolves(#[trigger] parts[i], found[i])
                &&& nimber == #[trigger] xor_all(found)
            }
    }

    /// Whether the components of the position are looked up, one by one, and their nimbers together
    /// are `nimber`.
    pub open spec fn resolves_position(&self, position: Position, nimber: usize) -> bool {
        exists|parts: Seq<Grid>| #[trigger]
            stands_for(position, parts) && self.resolves_all(parts, nimber)
    }

    /// Whether component `g` is looked up, or known, or computed though somebody else is evaluating
    /// it.
    pub closed spec fn settles(&self, g: Grid, nimber: usize) -> bool {
        ||| self.resolves(g, nimber)
        ||| self.cache_gives(g, Some(nimber))
        ||| self.forces(g, nimber)
    }

    /// Whether the parts are settled, one by one, and their nimbers together are `nimber`.
    pub open spec fn settles_all(&self, parts: Seq<Grid>, nimber: usize) -> bool {
        exists|found: Seq<usize>|
            {
                &&& found.len() == parts.len()
                &&& forall|i: int|
                    0 <= i < parts.len() ==> self.settles(#[trigger] parts[i], found[i])
                &&& nimber == #[trigger] xor_all(found)
            }
    }

    /// Whether the components of the position are settled, one by one, and their nimbers together are
    /// `nimber`.
    pub open spec fn settles_position(&self, position: Position, nimber: usize) -> bool {
        exists|parts: Seq<Grid>| #[trigger]
            stands_for(position, parts) && self.settles_all(parts, nimber)
    }

    /// Whether component `g` is settled, or its nimber is published.
    pub open spec fn is_settled(&self, g: Grid) -> bool {
        ||| exists|nimber: usize| #[trigger] self.settles(g, nimber)
        ||| exists|nimber: usize, fresh: bool| #[trigger] self.cache_publishes(g, nimber, fresh)
    }

    /// Whether all parts are settled, or their nimbers are published.
    pub open spec fn all_settled(&self, parts: Seq<Grid>) -> bool {
        forall|i: int| 0 <= i < parts.len() ==> self.is_settled(#[trigger] parts[i])
    }

    /// No parts together are zero.
    proof fn lemma_resolves_none(&self)
        ensures
            self.resolves_all(Seq::empty(), 0),
    {
        let found = Seq::<usize>::empty();
        assert(xor_all(found) == 0);
    }

    /// A single part is all parts.
    proof fn lemma_resolves_one(&self, g: Grid, nimber: usize)
        requires
            self.resolves(g, nimber),
        ensures
            self.resolves_all(seq![g], nimber),
    {
        let found = seq![nimber];
        lemma_xor_one(nimber);
        assert(xor_all(found) == nimber);
    }

    /// A single part is all parts.
    proof fn lemma_settles_one(&self, g: Grid, nimber: usize)
        requires
            self.settles(g, nimber),
        ensures
            self.settles_all(seq![g], nimber),
    {
        let found = seq![nimber];
        lemma_xor_one(nimber);
        assert(xor_all(found) == nimber);
    }

    /// What is looked up is settled.
    pub proof fn lemma_resolved_settles(&self, parts: Seq<Grid>, nimber: usize)
        requires
            self.resolves_all(parts, nimber),
        ensures
            self.settles_all(parts, nimber),
    {
        let found = choose|found: Seq<usize>|
            {
                &&& found.len() == parts.len()
                &&& forall|i: int|
                    0 <= i < parts.len() ==> self.resolves(#[trigger] parts[i], found[i])
                &&& nimber == #[trigger] xor_all(found)
            };
        assert forall|i: int| 0 <= i < parts.len() implies self.settles(
            #[trigger] parts[i],
            found[i],
        ) by {
            assert(self.resolves(parts[i], found[i]));
        }
        assert(nimber == xor_all(found));
    }

    /// Where all parts are settled, each of them is.
    pub proof fn lemma_settles_each(&self, parts: Seq<Grid>, nimber: usize)
        requires
            self.settles_all(parts, nimber),
        ensures
            self.all_settled(parts),
            parts.len() == 1 ==> self.settles(parts[0], nimber),
    {
        let found = choose|found: Seq<usize>|
            {
                &&& found.len() == parts.len()
                &&& forall|i: int|
                    0 <= i < parts.len() ==> self.settles(#[trigger] parts[i], found[i])
                &&& nimber == #[trigger] xor_all(found)
            };
        assert forall|i: int| 0 <= i < parts.len() implies self.is_settled(#[trigger] parts[i]) by {
            assert(self.settles(parts[i], found[i]));
        }
        if parts.len() == 1 {
            assert(found =~= seq![found[0]]);
            lemma_xor_one(found[0]);
            assert(self.settles(parts[0], found[0]));
        }
    }

    /// What the cache is found to give is settled.
    pub proof fn lemma_given_settles(&self, parts: Seq<Grid>, nimber: usize)
        requires
            self.cache_gives_all(parts, Some(nimber)),
        ensures
            self.settles_all(parts, nimber),
    {
        let found = choose|found: Seq<usize>|
            {
                &&& found.len() == parts.len()
                &&& forall|i: int|
                    0 <= i < parts.len() ==> self.cache_gives(#[trigger] parts[i], Some(found[i]))
                &&& nimber == #[trigger] xor_all(found)
            };
        assert forall|i: int| 0 <= i < parts.len() implies self.settles(
            #[trigger] parts[i],
            found[i],
        ) by {
            assert(self.cache_gives(parts[i], Some(found[i])));
        }
        assert(nimber == xor_all(found));
    }

    /// Whether a worker that wants the position, if it is a single component, is told something else
    /// than that somebody is evaluating it.
    spec fn is_ready_with(&self, position: Position) -> bool {
        exists|parts: Seq<Grid>| #[trigger]
            stands_for(position, parts) && (parts.len() == 1 ==> exists|probe: CacheProbe|
                #[trigger]
                self.cache.gives_probe(parts[0], probe) && !(probe is Busy))
    }

    /// Whether a worker finds nobody busy with any move of the group, or finds somebody busy with one
    /// and puts the group off, which is so only if `some` are put off.
    spec fn passes<IG: IndexedSuccessorGroups>(&self, groups: IG, group: int, some: bool) -> bool {
        ||| forall|index: int|
            0 <= index < groups.group_size(group) ==> self.is_ready_with(
                #[trigger] groups.after(group, index),
            )
        ||| {
            &&& some
            &&& self.stats.counts_more(Count::GroupDeferrals, 1)
            &&& exists|index: int|
                0 <= index < groups.group_size(group) && self.is_busy_with(
                    #[trigger] groups.after(group, index),
                )
        }
    }

    /// Whether all groups are gone over once, and those that are put off are revisited.
    spec fn goes_over<IG: IndexedSuccessorGroups>(&self, groups: IG) -> bool {
        ||| forall|group: int|
            0 <= group < groups.group_count() ==> #[trigger] self.passes(groups, group, false)
        ||| {
            &&& self.stats.counts_more(Count::GroupRevisits, 1)
            &&& forall|group: int|
                0 <= group < groups.group_count() ==> #[trigger] self.passes(groups, group, true)
        }
    }

    /// Whether the worker has settled the position, or has put it off.
    spec fn is_dealt_with(&self, worker: WorkerResult, position: Position) -> bool {
        ||| exists|nimber: usize|
            worker.reachable@.contains(nimber as int) && #[trigger] self.settles_position(
                position,
                nimber,
            )
        ||| exists|i: int|
            0 <= i < worker.pending@.len() && stands_for(position, (#[trigger] worker.pending@[i])@)
    }

    /// A fresh group that is not put off has been gone over without finding anybody busy.
    proof fn lemma_group_passed<IG: IndexedSuccessorGroups>(
        &self,
        groups: IG,
        group: DeferredGroup,
        before: Seq<DeferredGroup>,
        after: Seq<DeferredGroup>,
    )
        requires
            is_walk_of(groups, group),
            group.visited == 0,
            after == before ==> forall|v: int|
                group.visited <= v < group.walk.length() ==> self.is_ready_with(
                    groups.after(group.group_index as int, #[trigger] group.walk.at(v)),
                ),
            after != before ==> {
                &&& after.len() > 0
                &&& group.visited <= after.last().visited < group.walk.length()
                &&& self.stats.counts_more(Count::GroupDeferrals, 1)
                &&& self.is_busy_with(
                    groups.after(
                        group.group_index as int,
                        group.walk.at(after.last().visited as int),
                    ),
                )
            },
        ensures
            self.passes(groups, group.group_index as int, after.len() > 0),
    {
        let k = group.group_index as int;
        if after == before {
            assert forall|index: int| 0 <= index < groups.group_size(k) implies self.is_ready_with(
                #[trigger] groups.after(k, index),
            ) by {
                let v = crate::traversal::lemma_walk_covers(group.walk, index);
                assert(group.walk.at(v) == index);
            }
        } else {
            let index = group.walk.at(after.last().visited as int);
            vstd::arithmetic::div_mod::lemma_mod_bound(
                group.walk.first() + after.last().visited * group.walk.step(),
                group.walk.length() as int,
            );
            assert(self.is_busy_with(groups.after(k, index)));
        }
    }

    /// What a worker has dealt with stays so.
    proof fn lemma_dealt_grows(&self, before: WorkerResult, after: WorkerResult, position: Position)
        requires
            self.is_dealt_with(before, position),
            before.reachable@.subset_of(after.reachable@),
            before.pending@.len() <= after.pending@.len(),
            forall|i: int|
                0 <= i < before.pending@.len() ==> #[trigger] after.pending@[i] == before.pending@[i],
        ensures
            self.is_dealt_with(after, position),
    {
        if exists|nimber: usize|
            before.reachable@.contains(nimber as int) && #[trigger] self.settles_position(
                position,
                nimber,
            ) {
            let nimber = choose|nimber: usize|
                before.reachable@.contains(nimber as int) && #[trigger] self.settles_position(
                    position,
                    nimber,
                );
            assert(after.reachable@.contains(nimber as int));
        } else {
            let i = choose|i: int|
                0 <= i < before.pending@.len() && stands_for(
                    position,
                    (#[trigger] before.pending@[i])@,
                );
            assert(after.pending@[i] == before.pending@[i]);
        }
    }

    /// Whether the numbers that `after` holds and `before` does not are those of moves of the group
    /// that the walk goes over before place `stop`.
    spec fn finds_only<IG: IndexedSuccessorGroups>(
        &self,
        before: Set<int>,
        after: Set<int>,
        groups: IG,
        group: DeferredGroup,
        stop: int,
    ) -> bool {
        forall|n: int| #[trigger]
            after.contains(n) && !before.contains(n) ==> exists|v: int, nimber: usize|
                group.visited <= v < stop && n == nimber && #[trigger] self.settles_position(
                    groups.after(group.group_index as int, #[trigger] group.walk.at(v)),
                    nimber,
                )
    }

    /// The numbers are still those of moves before a later place.
    proof fn lemma_finds_up_to<IG: IndexedSuccessorGroups>(
        &self,
        before: Set<int>,
        after: Set<int>,
        groups: IG,
        group: DeferredGroup,
        stop: int,
        later: int,
    )
        requires
            self.finds_only(before, after, groups, group, stop),
            stop <= later,
        ensures
            self.finds_only(before, after, groups, group, later),
    {
        assert forall|n: int| #[trigger] after.contains(n) && !before.contains(n) implies exists|
            v: int,
            nimber: usize,
        |
            group.visited <= v < later && n == nimber && #[trigger] self.settles_position(
                groups.after(group.group_index as int, #[trigger] group.walk.at(v)),
                nimber,
            ) by {
            let (v, nimber) = choose|v: int, nimber: usize|
                group.visited <= v < stop && n == nimber && #[trigger] self.settles_position(
                    groups.after(group.group_index as int, #[trigger] group.walk.at(v)),
                    nimber,
                );
            assert(group.visited <= v < later);
        }
    }

    /// The number of the next move is found too.
    proof fn lemma_finds_more<IG: IndexedSuccessorGroups>(
        &self,
        before: Set<int>,
        after: Set<int>,
        groups: IG,
        group: DeferredGroup,
        stop: int,
        number: usize,
    )
        requires
            self.finds_only(before, after, groups, group, stop),
            group.visited <= stop,
            self.settles_position(
                groups.after(group.group_index as int, group.walk.at(stop)),
                number,
            ),
        ensures
            self.finds_only(before, after.insert(number as int), groups, group, stop + 1),
    {
        self.lemma_finds_up_to(before, after, groups, group, stop, stop + 1);
        let more = after.insert(number as int);
        assert forall|n: int| #[trigger] more.contains(n) && !before.contains(n) implies exists|
            v: int,
            nimber: usize,
        |
            group.visited <= v < stop + 1 && n == nimber && #[trigger] self.settles_position(
                groups.after(group.group_index as int, #[trigger] group.walk.at(v)),
                nimber,
            ) by {
            if n == number {
                assert(group.walk.at(stop) == group.walk.at(stop));
            } else {
                assert(after.contains(n));
            }
        }
    }

    /// An evaluator with the default configuration. Where no worker threads can be started, the
    /// calling thread does the work.
    pub fn new(generator: G, symmetry_finder: S) -> (evaluator: Self)
        ensures
            evaluator.wf(),
            evaluator.sound(),
            evaluator.consists_of(generator, symmetry_finder, default_config()),
            evaluator.cache_starts_empty(),
    {
        let config: EvaluatorConfig = EvaluatorConfig::default();
        let pool: WorkerPool = match WorkerPool::start(config.threads) {
            Ok(pool) => pool,
            Err(_) => WorkerPool::without_threads(),
        };
        Self::assembled(
            generator,
            symmetry_finder,
            config,
            ShardedCache::new(config.cache_shards),
            pool,
        )
    }

    fn assembled(
        generator: G,
        symmetry_finder: S,
        config: EvaluatorConfig,
        cache: ShardedCache,
        pool: WorkerPool,
    ) -> (evaluator: Self)
        requires
            config.usable(),
            cache.wf(),
            cache.shard_count() == config.cache_shards,
        ensures
            evaluator.wf(),
            evaluator.sound() == cache.sound(),
            evaluator.consists_of(generator, symmetry_finder, config),
            evaluator.has_cache(cache),
            evaluator.has_pool(pool),
    {
        Evaluator {
            generator,
            symmetry_finder,
            cache,
            pool,
            config,
            stats: SharedStats::new(),
            created_at: Instant::now(),
        }
    }

    pub fn with_config(generator: G, symmetry_finder: S, config: EvaluatorConfig) -> (evaluator:
        Result<Self, WorkerPoolError>)
        requires
            config.usable(),
        ensures
            evaluator is Err ==> fails_to_start(config.threads),
            evaluator matches Ok(evaluator) ==> evaluator.wf() && evaluator.sound()
                && evaluator.consists_of(generator, symmetry_finder, config)
                && evaluator.cache_starts_empty() && evaluator.has_workers(config.threads),
    {
        let cache = ShardedCache::new(config.cache_shards);
        Self::with_config_and_cache(generator, symmetry_finder, config, cache)
    }

    fn with_config_and_cache(
        generator: G,
        symmetry_finder: S,
        config: EvaluatorConfig,
        cache: ShardedCache,
    ) -> (evaluator: Result<Self, WorkerPoolError>)
        requires
            config.usable(),
            cache.wf(),
            cache.shard_count() == config.cache_shards,
        ensures
            evaluator is Err ==> fails_to_start(config.threads),
            evaluator matches Ok(evaluator) ==> evaluator.wf() && evaluator.sound()
                == cache.sound() && evaluator.consists_of(generator, symmetry_finder, config)
                && evaluator.has_cache(cache) && evaluator.has_workers(config.threads),
    {
        match WorkerPool::start(config.threads) {
            Ok(pool) => Ok(Self::assembled(generator, symmetry_finder, config, cache, pool)),
            Err(e) => Err(e),
        }
    }

    fn cached_nimber_of_components(&self, game: &CanonicalGame) -> (nimber: Option<usize>)
        requires
            self.wf(),
            game.wf(),
        ensures
            self.cache_gives_all(game@, nimber),
            self.sound() && nimber is Some ==> is_total_of(game@, nimber->0),
    {
        let components: &[BitMatrix] = game.components();
        let mut nimber: usize = 0;
        let mut k: usize = 0;
        let ghost mut found: Seq<usize> = Seq::empty();
        proof {
            assert(values(game@.take(0)).len() == 0);
        }
        while k < components.len()
            invariant
                self.wf(),
                found.len() == k,
                forall|i: int|
                    0 <= i < k ==> self.cache_gives(#[trigger] game@[i], Some(found[i])),
                nimber == xor_all(found),
                components@.len() == game@.len(),
                forall|i: int| 0 <= i < components@.len() ==> (#[trigger] components@[i]).wf(),
                forall|i: int|
                    0 <= i < components@.len() ==> (#[trigger] components@[i])@ == game@[i],
                k <= components@.len(),
                self.sound() && parts_fit(game@) ==> nimber == nim_total(
                    values(game@.take(k as int)),
                ),
            decreases components@.len() - k,
        {
            proof {
                assert(components@[k as int].wf());
            }
            let part: usize = match self.cache.get_done(&components[k]) {
                Some(part) => part,
                None => {
                    proof {
                        assert(self.cache_gives(game@[k as int], None));
                    }
                    return None;
                },
            };
            proof {
                assert(self.cache_gives(game@[k as int], Some(part)));
                assert(found.push(part).drop_last() =~= found);
                found = found.push(part);
                lemma_total_step(game@, k as int);
                lemma_xor_is_nim_sum(nimber, part);
                if parts_fit(game@) {
                    assert(fits(game@[k as int].cells));
                }
            }
            nimber = nimber ^ part;
            k = k + 1;
        }
        proof {
            assert(game@.take(k as int) =~= game@);
        }
        Some(nimber)
    }

    fn cache_result(&self, component: BitMatrix, nimber: usize)
        requires
            self.wf(),
            component.wf(),
            self.sound() ==> is_true_of(component@, nimber),
        ensures
            self.records(component@, nimber),
    {
        let ghost g = component@;
        let fresh: bool = self.cache.insert_if_absent(
            component,
            nimber,
            self.config.max_cache_entries,
            self.config.cache_low_watermark,
        );
        if fresh {
            self.stats.completed_position();
        } else {
            self.stats.duplicate_publish_race();
        }
        proof {
            assert(self.cache_publishes(g, nimber, fresh));
        }
    }

    /// Whether another worker is found to be evaluating the position, which is a single component.
    spec fn is_busy_with(&self, position: Position) -> bool {
        exists|parts: Seq<Grid>| #[trigger]
            stands_for(position, parts) && parts.len() == 1 && self.cache.gives_probe(
                parts[0],
                CacheProbe::Busy,
            )
    }

    /// The nimber of a component, whoever else is evaluating it.
    fn nimber_inner(&self, component: &BitMatrix, cancel: Option<&AtomicBool>) -> (nimber: Option<
        usize,
    >)
        requires
            self.wf(),
            component.wf(),
        ensures
            nimber is None ==> may_cancel(cancel),
            nimber is Some ==> may_go_on(cancel),
            nimber is Some ==> self.resolves(component@, nimber->0),
            self.sound() && nimber is Some ==> is_true_of(component@, nimber->0),
        decreases component@.cells.len(), 9int,
    {
        if is_cancelled(cancel) {
            return None;
        }
        match self.try_component_nimber(component, cancel, EvaluationPolicy::Serial, 0) {
            None => None,
            Some(Evaluation::Ready { nimber, claimed: _ }) => Some(nimber),
            Some(Evaluation::Busy) => {
                if let Some(nimber) = self.cache.get_done(component) {
                    self.stats.completed_cache_hit();
                    return Some(nimber);
                }
                self.evaluate_duplicate_component(component, cancel, 0)
            },
        }
    }

    /// The nimber of a game, unless it is a single component that another worker is evaluating.
    fn try_nimber(
        &self,
        game: &CanonicalGame,
        cancel: Option<&AtomicBool>,
        policy: EvaluationPolicy,
        depth: usize,
    ) -> (evaluation: Option<Evaluation>)
        requires
            self.wf(),
            game.wf(),
        ensures
            evaluation is None ==> may_cancel(cancel),
            evaluation is Some ==> may_go_on(cancel),
            evaluation matches Some(evaluation) ==> if game@.len() == 1 {
                self.answers(game@[0], evaluation)
            } else {
                evaluation is Ready
            },
            evaluation matches Some(Evaluation::Ready { nimber, claimed }) ==> self.resolves_all(
                game@,
                nimber,
            ),
            evaluation matches Some(Evaluation::Ready { nimber, claimed }) ==> self.sound()
                ==> is_total_of(game@, nimber),
            evaluation matches Some(Evaluation::Ready { nimber, claimed }) ==> claimed ==> game@.len()
                == 1 && self.cache.gives_probe(game@[0], CacheProbe::Claimed),
            evaluation matches Some(Evaluation::Busy) ==> game@.len() == 1
                && self.cache.gives_probe(game@[0], CacheProbe::Busy),
        decreases node_count(game@), 12int,
    {
        if is_cancelled(cancel) {
            return None;
        }
        if game.is_empty() {
            proof {
                assert(values(game@).len() == 0);
                assert(game@ =~= Seq::empty());
                self.lemma_resolves_none();
            }
            return Some(Evaluation::Ready { nimber: 0, claimed: false });
        }
        let components: &[BitMatrix] = game.components();
        if components.len() > 1 {
            return match self.nimber_of_components(game, cancel, policy, depth) {
                Some(nimber) => Some(Evaluation::Ready { nimber, claimed: false }),
                None => None,
            };
        }
        proof {
            assert(components@[0].wf());
            lemma_part_smaller(game@, 0);
            lemma_single_total(game@);
        }
        let evaluation: Option<Evaluation> = self.try_component_nimber(
            &components[0],
            cancel,
            policy,
            depth,
        );
        proof {
            if let Some(Evaluation::Ready { nimber, claimed }) = evaluation {
                self.lemma_resolves_one(game@[0], nimber);
                assert(seq![game@[0]] =~= game@);
            }
        }
        evaluation
    }

    /// The nimber of a component, unless another worker is evaluating it.
    fn try_component_nimber(
        &self,
        component: &BitMatrix,
        cancel: Option<&AtomicBool>,
        policy: EvaluationPolicy,
        depth: usize,
    ) -> (evaluation: Option<Evaluation>)
        requires
            self.wf(),
            component.wf(),
        ensures
            evaluation is None ==> may_cancel(cancel),
            evaluation is Some ==> may_go_on(cancel),
            evaluation matches Some(evaluation) ==> self.answers(component@, evaluation),
            evaluation matches Some(Evaluation::Ready { nimber, claimed }) ==> self.resolves(
                component@,
                nimber,
            ),
            evaluation matches Some(Evaluation::Ready { nimber, claimed }) ==> self.sound()
                ==> is_true_of(component@, nimber),
            evaluation matches Some(Evaluation::Ready { nimber, claimed }) ==> claimed
                ==> self.cache.gives_probe(component@, CacheProbe::Claimed),
            evaluation matches Some(Evaluation::Busy) ==> self.cache.gives_probe(
                component@,
                CacheProbe::Busy,
            ),
        decreases component@.cells.len(), 7int,
    {
        if is_cancelled(cancel) {
            return None;
        }
        match self.cache.probe(component) {
            CacheProbe::Done(nimber) => {
                self.stats.completed_cache_hit();
                Some(Evaluation::Ready { nimber, claimed: false })
            },
            CacheProbe::Busy => {
                self.stats.processing_hit();
                Some(Evaluation::Busy)
            },
            CacheProbe::Claimed => {
                self.stats.claimed_attempt();
                match self.compute_component(component, cancel, policy, depth) {
                    Some(nimber) => {
                        self.cache_result(component.clone(), nimber);
                        Some(Evaluation::Ready { nimber, claimed: true })
                    },
                    None => None,
                }
            },
        }
    }

    fn compute_component(
        &self,
        component: &BitMatrix,
        cancel: Option<&AtomicBool>,
        policy: EvaluationPolicy,
        depth: usize,
    ) -> (nimber: Option<usize>)
        requires
            self.wf(),
            component.wf(),
        ensures
            nimber is None ==> may_cancel(cancel),
            nimber is Some ==> may_go_on(cancel),
            nimber is Some ==> self.computes(component@, nimber->0),
            self.sound() && nimber is Some ==> is_true_of(component@, nimber->0),
        decreases component@.cells.len(), 6int,
    {
        if is_cancelled(cancel) {
            return None;
        }
        self.evaluate_component_uncached(component, cancel, policy, depth)
    }

    fn evaluate_duplicate_component(
        &self,
        component: &BitMatrix,
        cancel: Option<&AtomicBool>,
        depth: usize,
    ) -> (nimber: Option<usize>)
        requires
            self.wf(),
            component.wf(),
        ensures
            nimber is None ==> may_cancel(cancel),
            nimber is Some ==> may_go_on(cancel),
            nimber is Some ==> self.forces(component@, nimber->0),
            self.sound() && nimber is Some ==> is_true_of(component@, nimber->0),
        decreases component@.cells.len(), 8int,
    {
        self.evaluate_duplicate_component_with_policy(
            component,
            cancel,
            EvaluationPolicy::Serial,
            depth,
        )
    }

    /// The nimber of a component that another worker is evaluating.
    fn evaluate_duplicate_component_with_policy(
        &self,
        component: &BitMatrix,
        cancel: Option<&AtomicBool>,
        policy: EvaluationPolicy,
        depth: usize,
    ) -> (nimber: Option<usize>)
        requires
            self.wf(),
            component.wf(),
        ensures
            nimber is None ==> may_cancel(cancel),
            nimber is Some ==> may_go_on(cancel),
            nimber is Some ==> self.forces(component@, nimber->0),
            self.sound() && nimber is Some ==> is_true_of(component@, nimber->0),
        decreases component@.cells.len(), 7int,
    {
        if is_cancelled(cancel) {
            return None;
        }
        self.stats.forced_attempt();
        match self.compute_component(component, cancel, policy, depth) {
            Some(nimber) => {
                self.cache_result(component.clone(), nimber);
                Some(nimber)
            },
            None => None,
        }
    }

    /// The nimber of one component of a game.
    fn nimber_of_component(
        &self,
        component: &BitMatrix,
        cancel: Option<&AtomicBool>,
        policy: EvaluationPolicy,
        depth: usize,
    ) -> (nimber: Option<usize>)
        requires
            self.wf(),
            component.wf(),
        ensures
            nimber is None ==> may_cancel(cancel),
            nimber is Some ==> may_go_on(cancel),
            nimber is Some ==> self.resolves(component@, nimber->0),
            self.sound() && nimber is Some ==> is_true_of(component@, nimber->0),
        decreases component@.cells.len(), 10int,
    {
        match policy {
            EvaluationPolicy::Serial => self.nimber_inner(component, cancel),
            EvaluationPolicy::CooperativeAssist => {
                let deeper: usize = depth.saturating_add(1);
                match self.try_component_nimber(component, cancel, policy, deeper) {
                    None => None,
                    Some(Evaluation::Ready { nimber, claimed: _ }) => Some(nimber),
                    Some(Evaluation::Busy) => {
                        self.stats.deferred_descent();
                        self.evaluate_duplicate_component_with_policy(
                            component,
                            cancel,
                            policy,
                            deeper,
                        )
                    },
                }
            },
        }
    }

    /// The nimber of a game: the nimbers of its components together.
    fn nimber_of_components(
        &self,
        game: &CanonicalGame,
        cancel: Option<&AtomicBool>,
        policy: EvaluationPolicy,
        depth: usize,
    ) -> (nimber: Option<usize>)
        requires
            self.wf(),
            game.wf(),
        ensures
            nimber is None ==> may_cancel(cancel),
            nimber is Some ==> self.resolves_all(game@, nimber->0),
            self.sound() && nimber is Some ==> is_total_of(game@, nimber->0),
        decreases node_count(game@), 11int,
    {
        let components: &[BitMatrix] = game.components();
        let mut nimber: usize = 0;
        let mut k: usize = 0;
        let ghost mut found: Seq<usize> = Seq::empty();
        proof {
            assert(values(game@.take(0)).len() == 0);
        }
        while k < components.len()
            invariant
                self.wf(),
                found.len() == k,
                forall|i: int| 0 <= i < k ==> self.resolves(#[trigger] game@[i], found[i]),
                nimber == xor_all(found),
                components@.len() == game@.len(),
                forall|i: int| 0 <= i < components@.len() ==> (#[trigger] components@[i]).wf(),
                forall|i: int|
                    0 <= i < components@.len() ==> (#[trigger] components@[i])@ == game@[i],
                k <= components@.len(),
                self.sound() && parts_fit(game@) ==> nimber == nim_total(
                    values(game@.take(k as int)),
                ),
            decreases components@.len() - k,
        {
            proof {
                assert(components@[k as int].wf());
                lemma_part_smaller(game@, k as int);
            }
            let part: usize = match self.nimber_of_component(
                &components[k],
                cancel,
                policy,
                depth,
            ) {
                Some(part) => part,
                None => {
                    return None;
                },
            };
            proof {
                assert(self.resolves(game@[k as int], part));
                assert(found.push(part).drop_last() =~= found);
                found = found.push(part);
                lemma_total_step(game@, k as int);
                lemma_xor_is_nim_sum(nimber, part);
                if parts_fit(game@) {
                    assert(fits(game@[k as int].cells));
                }
            }
            nimber = nimber ^ part;
            k = k + 1;
        }
        proof {
            assert(game@.take(k as int) =~= game@);
            assert(nimber == xor_all(found));
        }
        Some(nimber)
    }

    fn evaluate_component_uncached(
        &self,
        component: &BitMatrix,
        cancel: Option<&AtomicBool>,
        policy: EvaluationPolicy,
        depth: usize,
    ) -> (nimber: Option<usize>)
        requires
            self.wf(),
            component.wf(),
        ensures
            nimber is None ==> may_cancel(cancel),
            nimber is Some ==> may_go_on(cancel),
            nimber is Some ==> self.computes(component@, nimber->0),
            self.sound() && nimber is Some ==> is_true_of(component@, nimber->0),
        decreases component@.cells.len(), 5int,
    {
        if is_cancelled(cancel) {
            return None;
        }
        let proven: bool = given_of_both(S::proves_zero, &self.symmetry_finder, component);
        proof {
            assert(call_ensures(S::proves_zero, (&self.symmetry_finder, component), proven));
        }
        if proven {
            self.stats.symmetry_zero_certificate();
            return Some(0);
        }
        let ghost position = component@.cells;
        proof {
            lemma_matrix_position(component);
        }
        let bound: usize = component.count_ones().saturating_add(1);
        let mut worker: WorkerResult = WorkerResult::new(bound);
        self.evaluate_successor_groups(
            self.generator.successor_groups(component),
            &mut worker,
            policy,
            traversal_seed(component, depth, self.pool.current_thread_index()),
            depth,
            cancel,
            Ghost(position.len()),
        );
        self.stats.flush_distribution(worker.distribution);
        if worker.cancelled {
            return None;
        }
        let nimber: usize = worker.reachable.mex();
        proof {
            if self.sound() && fits(position) {
                lemma_complete_mex(position, worker, nimber);
            }
        }
        Some(nimber)
    }

    fn evaluate_successor_groups<IG: IndexedSuccessorGroups>(
        &self,
        groups: IG,
        worker: &mut WorkerResult,
        policy: EvaluationPolicy,
        seed: usize,
        depth: usize,
        cancel: Option<&AtomicBool>,
        Ghost(size): Ghost<nat>,
    )
        requires
            self.wf(),
            groups.wf(),
            size == groups.position().len(),
            covers_moves(groups),
            groups.position().finite(),
            old(worker).wf(groups.position(), self.sound()),
        ensures
            final(worker).wf(groups.position(), self.sound()),
            old(worker).cancelled ==> final(worker).cancelled,
            final(worker).cancelled && !old(worker).cancelled ==> may_cancel(cancel),
            self.sound() && fits(groups.position()) && !final(worker).cancelled
                ==> final(worker).complete(groups.position()),
            !final(worker).cancelled ==> self.goes_over(groups),
        decreases size, 4int,
    {
        self.evaluate_successor_groups_with_seed(
            groups,
            worker,
            policy,
            seed,
            depth,
            cancel,
            Ghost(size),
        );
    }

    /// Finds the nimbers of all options. Groups in which another worker is busy are put off and
    /// revisited at the end.
    fn evaluate_successor_groups_with_seed<IG: IndexedSuccessorGroups>(
        &self,
        groups: IG,
        worker: &mut WorkerResult,
        policy: EvaluationPolicy,
        seed: usize,
        depth: usize,
        cancel: Option<&AtomicBool>,
        Ghost(size): Ghost<nat>,
    )
        requires
            self.wf(),
            groups.wf(),
            size == groups.position().len(),
            covers_moves(groups),
            groups.position().finite(),
            old(worker).wf(groups.position(), self.sound()),
        ensures
            final(worker).wf(groups.position(), self.sound()),
            old(worker).cancelled ==> final(worker).cancelled,
            final(worker).cancelled && !old(worker).cancelled ==> may_cancel(cancel),
            self.sound() && fits(groups.position()) && !final(worker).cancelled
                ==> final(worker).complete(groups.position()),
            !final(worker).cancelled ==> self.goes_over(groups),
        decreases size, 3int,
    {
        let ghost position = groups.position();
        let ghost truth = self.sound() && fits(position);
        let count: usize = groups.len();
        let walk: Stride = Stride::new(count, seed);
        let mut deferred: Vec<DeferredGroup> = Vec::new();
        let mut visited: usize = 0;
        while visited < count
            invariant
                self.wf(),
                groups.wf(),
                covers_moves(groups),
                position == groups.position(),
                position.finite(),
                size == position.len(),
                truth == (self.sound() && fits(position)),
                count == groups.group_count(),
                walk.wf(),
                walk.length() == count,
                visited <= count,
                worker.wf(position, self.sound()),
                old(worker).cancelled ==> worker.cancelled,
                worker.cancelled && !old(worker).cancelled ==> may_cancel(cancel),
                resumable(worker.cover(), deferred@, groups, truth),
                !worker.cancelled ==> forall|v: int|
                    0 <= v < visited ==> self.passes(
                        groups,
                        #[trigger] walk.at(v),
                        deferred@.len() > 0,
                    ),
                truth && !worker.cancelled ==> forall|v: int|
                    0 <= v < visited ==> handled(
                        worker.cover(),
                        deferred@,
                        groups,
                        #[trigger] walk.at(v),
                    ),
            decreases count - visited,
        {
            let group_index: usize = walk.index(visited);
            let group: DeferredGroup = DeferredGroup::new(
                group_index,
                groups.group_len(group_index),
                seed,
            );
            let ghost before = worker.cover();
            let ghost older = deferred@;
            self.evaluate_successor_group_with_deferral(
                &groups,
                group,
                worker,
                &mut deferred,
                GroupEvalContext { policy, defer_mode: DeferMode::Fresh, depth, cancel },
                Ghost(size),
            );
            proof {
                lemma_cover_grows(before, worker.cover(), older, groups, truth);
                assert forall|i: int| 0 <= i < deferred@.len() implies is_walk_of(
                    groups,
                    #[trigger] deferred@[i],
                ) && (truth ==> walked(
                    worker.cover(),
                    groups,
                    deferred@[i],
                    deferred@[i].visited as int,
                )) by {
                    if deferred@ != older {
                        if i < older.len() {
                            assert(deferred@.drop_last()[i] == older[i]);
                        } else {
                            assert(deferred@[i] == deferred@.last());
                        }
                    }
                    if i < older.len() {
                        assert(is_walk_of(groups, older[i]));
                    }
                }
                if !worker.cancelled {
                    self.lemma_group_passed(groups, group, older, deferred@);
                    assert forall|v: int| 0 <= v < visited + 1 implies self.passes(
                        groups,
                        #[trigger] walk.at(v),
                        deferred@.len() > 0,
                    ) by {
                        if v < visited {
                            assert(self.passes(groups, walk.at(v), older.len() > 0));
                        }
                    }
                }
                if truth && !worker.cancelled {
                    assert forall|v: int| 0 <= v < visited + 1 implies handled(
                        worker.cover(),
                        deferred@,
                        groups,
                        #[trigger] walk.at(v),
                    ) by {
                        if v < visited {
                            assert(handled(before, older, groups, walk.at(v)));
                            if !group_covered(before, groups, walk.at(v)) {
                                let i = choose|i: int|
                                    0 <= i < older.len() && (#[trigger] older[i]).group_index
                                        == walk.at(v);
                                if deferred@ != older {
                                    assert(deferred@.drop_last()[i] == older[i]);
                                }
                                assert(deferred@[i].group_index == walk.at(v));
                            }
                        } else if deferred@ != older {
                            assert(deferred@[deferred@.len() - 1].group_index == walk.at(v));
                        }
                    }
                }
            }
            if worker.cancelled {
                return;
            }
            visited = visited + 1;
        }
        let ghost before = worker.cover();
        let ghost put_off = deferred@;
        self.revisit_deferred_groups(
            deferred,
            &groups,
            worker,
            seed,
            GroupEvalContext { policy, defer_mode: DeferMode::Revisit, depth, cancel },
            Ghost(size),
        );
        let ghost covered = worker.cover();
        proof {
            if !worker.cancelled {
                let some = put_off.len() > 0;
                assert forall|group: int| 0 <= group < count implies #[trigger] self.passes(
                    groups,
                    group,
                    some,
                ) by {
                    let v = crate::traversal::lemma_walk_covers(walk, group);
                    assert(self.passes(groups, walk.at(v), some));
                }
                assert(self.goes_over(groups));
            }
            if truth && !worker.cancelled {
                lemma_cover_grows(before, covered, put_off, groups, truth);
                assert forall|group: int| 0 <= group < count implies group_covered(
                    covered,
                    groups,
                    group,
                ) by {
                    let v = crate::traversal::lemma_walk_covers(walk, group);
                    assert(handled(before, put_off, groups, walk.at(v)));
                    if !group_covered(before, groups, group) {
                        let i = choose|i: int|
                            0 <= i < put_off.len() && (#[trigger] put_off[i]).group_index == group;
                        assert(group_covered(covered, groups, put_off[i].group_index as int));
                    }
                }
            }
        }
        self.resolve_pending(worker, cancel, Ghost(position));
        proof {
            if truth && !worker.cancelled {
                assert forall|group: int, index: int|
                    0 <= group < groups.group_count() && 0 <= index < groups.group_size(
                        group,
                    ) implies worker.reachable@.contains(
                    grundy(#[trigger] groups.after(group, index)) as int,
                ) by {
                    assert(group_covered(covered, groups, group));
                    assert(covered.contains(grundy(groups.after(group, index))));
                }
                lemma_all_groups(groups, *worker);
            }
        }
    }

    /// Resumes the walks that were put off.
    fn revisit_deferred_groups<IG: IndexedSuccessorGroups>(
        &self,
        deferred: Vec<DeferredGroup>,
        groups: &IG,
        worker: &mut WorkerResult,
        seed: usize,
        context: GroupEvalContext<'_>,
        Ghost(size): Ghost<nat>,
    )
        requires
            self.wf(),
            groups.wf(),
            size == groups.position().len(),
            covers_moves(*groups),
            groups.position().finite(),
            context.defer_mode is Revisit,
            old(worker).wf(groups.position(), self.sound()),
            resumable(
                old(worker).cover(),
                deferred@,
                *groups,
                self.sound() && fits(groups.position()),
            ),
        ensures
            final(worker).wf(groups.position(), self.sound()),
            old(worker).cover().subset_of(final(worker).cover()),
            old(worker).cancelled ==> final(worker).cancelled,
            final(worker).cancelled && !old(worker).cancelled ==> may_cancel(context.cancel),
            context.policy is CooperativeAssist ==> final(worker).pending@ == old(worker).pending@,
            deferred@.len() > 0 ==> self.stats.counts_more(Count::GroupRevisits, 1),
            self.sound() && fits(groups.position()) && !final(worker).cancelled ==> forall|i: int|
                0 <= i < deferred@.len() ==> group_covered(
                    final(worker).cover(),
                    *groups,
                    (#[trigger] deferred@[i]).group_index as int,
                ),
        decreases size, 2int,
    {
        let ghost position = groups.position();
        let ghost truth = self.sound() && fits(position);
        let walk: Stride = Stride::new(deferred.len(), seed);
        let mut visited: usize = 0;
        while visited < deferred.len()
            invariant
                self.wf(),
                groups.wf(),
                covers_moves(*groups),
                position == groups.position(),
                position.finite(),
                size == position.len(),
                truth == (self.sound() && fits(position)),
                context.defer_mode is Revisit,
                walk.wf(),
                walk.length() == deferred@.len(),
                visited <= deferred@.len(),
                worker.wf(position, self.sound()),
                old(worker).cover().subset_of(worker.cover()),
                old(worker).cancelled ==> worker.cancelled,
                worker.cancelled && !old(worker).cancelled ==> may_cancel(context.cancel),
                resumable(worker.cover(), deferred@, *groups, truth),
                context.policy is CooperativeAssist ==> worker.pending@ == old(worker).pending@,
                visited > 0 ==> self.stats.counts_more(Count::GroupRevisits, 1),
                truth && !worker.cancelled ==> forall|v: int|
                    0 <= v < visited ==> group_covered(
                        worker.cover(),
                        *groups,
                        deferred@[#[trigger] walk.at(v)].group_index as int,
                    ),
            decreases deferred@.len() - visited,
        {
            let index: usize = walk.index(visited);
            let group: DeferredGroup = deferred[index];
            self.stats.group_revisit();
            let mut none: Vec<DeferredGroup> = Vec::new();
            let ghost before = worker.cover();
            proof {
                assert(is_walk_of(*groups, deferred@[index as int]));
            }
            self.evaluate_successor_group_with_deferral(
                groups,
                group,
                worker,
                &mut none,
                context,
                Ghost(size),
            );
            proof {
                lemma_cover_grows(before, worker.cover(), deferred@, *groups, truth);
                if truth && !worker.cancelled {
                    assert forall|v: int| 0 <= v < visited + 1 implies group_covered(
                        worker.cover(),
                        *groups,
                        deferred@[#[trigger] walk.at(v)].group_index as int,
                    ) by {
                        if v < visited {
                            assert(group_covered(
                                before,
                                *groups,
                                deferred@[walk.at(v)].group_index as int,
                            ));
                        }
                    }
                }
            }
            if worker.cancelled {
                return;
            }
            visited = visited + 1;
        }
        proof {
            if truth && !worker.cancelled {
                assert forall|i: int| 0 <= i < deferred@.len() implies group_covered(
                    worker.cover(),
                    *groups,
                    (#[trigger] deferred@[i]).group_index as int,
                ) by {
                    let v = crate::traversal::lemma_walk_covers(walk, i);
                    assert(walk.at(v) == i);
                }
            }
        }
    }

    /// Finds the nimbers of the moves of a group, from where the walk over it has got to. Where
    /// another worker is busy, a fresh group is put off.
    #[verifier::rlimit(40)]
    fn evaluate_successor_group_with_deferral<IG: IndexedSuccessorGroups>(
        &self,
        groups: &IG,
        group: DeferredGroup,
        worker: &mut WorkerResult,
        deferred: &mut Vec<DeferredGroup>,
        context: GroupEvalContext<'_>,
        Ghost(size): Ghost<nat>,
    )
        requires
            self.wf(),
            groups.wf(),
            size == groups.position().len(),
            covers_moves(*groups),
            groups.position().finite(),
            is_walk_of(*groups, group),
            old(worker).wf(groups.position(), self.sound()),
            self.sound() && fits(groups.position()) ==> walked(
                old(worker).cover(),
                *groups,
                group,
                group.visited as int,
            ),
        ensures
            final(worker).wf(groups.position(), self.sound()),
            old(worker).cover().subset_of(final(worker).cover()),
            old(worker).cancelled ==> final(worker).cancelled,
            final(worker).cancelled && !old(worker).cancelled ==> may_cancel(context.cancel),
            context.defer_mode is Revisit ==> final(deferred)@ == old(deferred)@,
            context.defer_mode is Fresh || context.policy is CooperativeAssist
                ==> final(worker).pending@ == old(worker).pending@,
            context.defer_mode is Fresh && final(deferred)@ == old(deferred)@
                && !final(worker).cancelled ==> forall|v: int|
                group.visited <= v < group.walk.length() ==> self.is_ready_with(
                    groups.after(group.group_index as int, #[trigger] group.walk.at(v)),
                ),
            !final(worker).cancelled ==> forall|v: int|
                group.visited <= v < stop_of(old(deferred)@, final(deferred)@, group)
                    ==> self.is_dealt_with(
                    *final(worker),
                    groups.after(group.group_index as int, #[trigger] group.walk.at(v)),
                ),
            self.finds_only(
                old(worker).reachable@,
                final(worker).reachable@,
                *groups,
                group,
                stop_of(old(deferred)@, final(deferred)@, group),
            ),
            exists|had_new_claim: bool, had_busy: bool, revisit_busy: bool|
                {
                    &&& #[trigger] is_recorded(
                        old(worker).distribution,
                        final(worker).distribution,
                        (group.walk.length() - group.visited) as usize,
                        had_new_claim,
                        had_busy,
                        revisit_busy,
                    )
                    &&& revisit_busy == (had_busy && context.defer_mode is Revisit)
                    &&& context.defer_mode is Fresh ==> had_busy == !(final(deferred)@
                        == old(deferred)@)
                },
            final(deferred)@ == old(deferred)@ && self.sound() && fits(groups.position())
                && !final(worker).cancelled ==> group_covered(
                final(worker).cover(),
                *groups,
                group.group_index as int,
            ),
            final(deferred)@ != old(deferred)@ ==> {
                &&& final(deferred)@.len() == old(deferred)@.len() + 1
                &&& final(deferred)@.drop_last() == old(deferred)@
                &&& final(deferred)@.last().group_index == group.group_index
                &&& final(deferred)@.last().walk == group.walk
                &&& group.visited <= final(deferred)@.last().visited < group.walk.length()
                &&& self.stats.counts_more(Count::GroupDeferrals, 1)
                &&& self.is_busy_with(
                    groups.after(
                        group.group_index as int,
                        group.walk.at(final(deferred)@.last().visited as int),
                    ),
                )
                &&& is_walk_of(*groups, final(deferred)@.last())
                &&& self.sound() && fits(groups.position()) ==> walked(
                    final(worker).cover(),
                    *groups,
                    final(deferred)@.last(),
                    final(deferred)@.last().visited as int,
                )
            },
        decreases size, 1int,
    {
        let ghost position = groups.position();
        let ghost sound = self.sound();
        let ghost truth = sound && fits(position);
        let group_len: usize = groups.group_len(group.group_index);
        let successor_count: usize = group_len.saturating_sub(group.visited);
        let mut had_new_claim: bool = false;
        let mut had_busy: bool = false;
        let mut revisit_busy: bool = false;
        let mut visited: usize = group.visited;
        while visited < group_len
            invariant
                self.wf(),
                groups.wf(),
                covers_moves(*groups),
                position == groups.position(),
                position.finite(),
                size == position.len(),
                sound == self.sound(),
                truth == (sound && fits(position)),
                is_walk_of(*groups, group),
                group_len == group.walk.length(),
                group.visited <= visited <= group_len,
                worker.wf(position, sound),
                old(worker).cover().subset_of(worker.cover()),
                worker.cancelled == old(worker).cancelled,
                deferred@ == old(deferred)@,
                truth ==> walked(worker.cover(), *groups, group, visited as int),
                successor_count == (group.walk.length() - group.visited) as usize,
                worker.distribution == old(worker).distribution,
                revisit_busy == had_busy,
                had_busy ==> context.defer_mode is Revisit,
                context.defer_mode is Fresh || context.policy is CooperativeAssist
                    ==> worker.pending@ == old(worker).pending@,
                context.defer_mode is Fresh ==> forall|v: int|
                    group.visited <= v < visited ==> self.is_ready_with(
                        groups.after(group.group_index as int, #[trigger] group.walk.at(v)),
                    ),
                forall|v: int|
                    group.visited <= v < visited ==> self.is_dealt_with(
                        *worker,
                        groups.after(group.group_index as int, #[trigger] group.walk.at(v)),
                    ),
                self.finds_only(
                    old(worker).reachable@,
                    worker.reachable@,
                    *groups,
                    group,
                    visited as int,
                ),
            decreases group_len - visited,
        {
            proof {
                self.lemma_finds_up_to(
                    old(worker).reachable@,
                    worker.reachable@,
                    *groups,
                    group,
                    visited as int,
                    group_len as int,
                );
            }
            if is_cancelled(context.cancel) {
                worker.cancelled = true;
                worker.record_successor_group(
                    successor_count,
                    had_new_claim,
                    had_busy,
                    revisit_busy,
                );
                return;
            }
            let move_index: usize = group.move_index(visited);
            let successor: CanonicalGame = groups.successor(group.group_index, move_index);
            let ghost t = groups.after(group.group_index as int, move_index as int);
            let ghost before = worker.cover();
            let ghost earlier = *worker;
            let ghost place = groups.after(group.group_index as int, group.walk.at(visited as int));
            proof {
                assert(is_option(position, t));
                lemma_successor(position, t, successor@);
                assert(nim_total(values(successor@)) == grundy(t));
                assert(reaches(position, grundy(t)));
            }
            let depth: usize = context.depth.saturating_add(1);
            match self.try_nimber(&successor, context.cancel, context.policy, depth) {
                Some(Evaluation::Ready { nimber, claimed }) => {
                    had_new_claim = had_new_claim || claimed;
                    worker.found(nimber, Ghost(position), Ghost(sound));
                    proof {
                        assert(stands_for(t, successor@));
                        self.lemma_resolved_settles(successor@, nimber);
                        assert(self.settles_position(t, nimber));
                        assert(self.is_ready_with(t));
                        self.lemma_finds_more(
                            old(worker).reachable@,
                            earlier.reachable@,
                            *groups,
                            group,
                            visited as int,
                            nimber,
                        );
                    }
                },
                Some(Evaluation::Busy) => {
                    had_busy = true;
                    match context.defer_mode {
                        DeferMode::Fresh => {
                            self.stats.group_deferral();
                            proof {
                                assert(stands_for(t, successor@));
                                assert(self.is_busy_with(t));
                            }
                            deferred.push(group.resume_at(visited));
                            worker.record_successor_group(
                                successor_count,
                                had_new_claim,
                                had_busy,
                                revisit_busy,
                            );
                            proof {
                                assert(deferred@.drop_last() =~= old(deferred)@);
                                assert(deferred@.len() != old(deferred)@.len());
                            }
                            return;
                        },
                        DeferMode::Revisit => {
                            revisit_busy = true;
                            match context.policy {
                                EvaluationPolicy::Serial => {
                                    let ghost game = successor;
                                    worker.put_off(successor, Ghost(position), Ghost(sound));
                                    proof {
                                        let last = earlier.pending@.len() as int;
                                        assert(worker.pending@[last] == game);
                                        self.lemma_finds_up_to(
                                            old(worker).reachable@,
                                            worker.reachable@,
                                            *groups,
                                            group,
                                            visited as int,
                                            visited + 1,
                                        );
                                    }
                                },
                                EvaluationPolicy::CooperativeAssist => {
                                    self.stats.deferred_descent();
                                    match self.resolved_nimber(
                                        &successor,
                                        context.cancel,
                                        context.policy,
                                        depth,
                                    ) {
                                        Some(nimber) => {
                                            worker.found(nimber, Ghost(position), Ghost(sound));
                                            proof {
                                                assert(stands_for(t, successor@));
                                                assert(self.settles_position(t, nimber));
                                                self.lemma_finds_more(
                                                    old(worker).reachable@,
                                                    earlier.reachable@,
                                                    *groups,
                                                    group,
                                                    visited as int,
                                                    nimber,
                                                );
                                            }
                                        },
                                        None => {
                                            worker.cancelled = true;
                                            worker.record_successor_group(
                                                successor_count,
                                                had_new_claim,
                                                had_busy,
                                                revisit_busy,
                                            );
                                            return;
                                        },
                                    }
                                },
                            }
                        },
                    }
                },
                None => {
                    worker.cancelled = true;
                    worker.record_successor_group(
                        successor_count,
                        had_new_claim,
                        had_busy,
                        revisit_busy,
                    );
                    return;
                },
            }
            proof {
                if truth {
                    lemma_walk_step(before, worker.cover(), *groups, group, visited as int);
                }
                assert(self.is_dealt_with(*worker, place));
                assert forall|v: int| group.visited <= v < visited + 1 implies self.is_dealt_with(
                    *worker,
                    groups.after(group.group_index as int, #[trigger] group.walk.at(v)),
                ) by {
                    if v < visited {
                        self.lemma_dealt_grows(
                            earlier,
                            *worker,
                            groups.after(group.group_index as int, group.walk.at(v)),
                        );
                    }
                }
            }
            visited = visited + 1;
        }
        worker.record_successor_group(successor_count, had_new_claim, had_busy, revisit_busy);
        proof {
            if truth && !worker.cancelled {
                lemma_walked_group(worker.cover(), *groups, group);
            }
        }
    }

    /// The nimber of a game that was busy: from the cache if it has been evaluated since.
    fn resolved_nimber(
        &self,
        game: &CanonicalGame,
        cancel: Option<&AtomicBool>,
        policy: EvaluationPolicy,
        depth: usize,
    ) -> (nimber: Option<usize>)
        requires
            self.wf(),
            game.wf(),
        ensures
            nimber is None ==> may_cancel(cancel),
            nimber is Some ==> self.settles_all(game@, nimber->0),
            self.sound() && nimber is Some ==> is_total_of(game@, nimber->0),
        decreases node_count(game@), 13int,
    {
        if let Some(nimber) = self.cached_nimber_of_components(game) {
            self.stats.completed_cache_hit();
            self.stats.deferred_resolved();
            proof {
                self.lemma_given_settles(game@, nimber);
            }
            return Some(nimber);
        }
        self.evaluate_duplicate_game_with_policy(game, cancel, policy, depth)
    }

    /// Finds the nimbers of the options that were put off.
    fn resolve_pending(
        &self,
        worker: &mut WorkerResult,
        cancel: Option<&AtomicBool>,
        Ghost(position): Ghost<Position>,
    )
        requires
            self.wf(),
            position.finite(),
            old(worker).wf(position, self.sound()),
        ensures
            final(worker).wf(position, self.sound()),
            final(worker).pending@.len() == 0,
            old(worker).cancelled ==> final(worker).cancelled,
            final(worker).cancelled && !old(worker).cancelled ==> may_cancel(cancel),
            self.sound() && fits(position) && !final(worker).cancelled ==> forall|v: nat|
                #[trigger] old(worker).cover().contains(v) ==> final(worker).reachable@.contains(
                    v as int,
                ),
        decreases position.len(), 1int,
    {
        let ghost sound = self.sound();
        let ghost truth = sound && fits(position);
        let mut pending: Vec<CanonicalGame> = Vec::new();
        core::mem::swap(&mut pending, &mut worker.pending);
        let ghost all = pending@;
        let mut k: usize = 0;
        while k < pending.len()
            invariant
                self.wf(),
                position.finite(),
                sound == self.sound(),
                truth == (sound && fits(position)),
                all == old(worker).pending@,
                pending@ == all,
                k <= all.len(),
                forall|i: int|
                    0 <= i < all.len() ==> (#[trigger] all[i]).wf() && is_successor(
                        position,
                        all[i]@,
                    ),
                worker.wf(position, sound),
                worker.pending@.len() == 0,
                worker.cancelled == old(worker).cancelled,
                old(worker).reachable@.subset_of(worker.reachable@),
                truth ==> forall|i: int|
                    0 <= i < k ==> worker.reachable@.contains(
                        nim_total(values((#[trigger] all[i])@)) as int,
                    ),
            decreases all.len() - k,
        {
            if is_cancelled(cancel) {
                worker.cancelled = true;
                return;
            }
            let ghost parts = all[k as int]@;
            let ghost t = choose|t: Position|
                is_option(position, t) && #[trigger] stands_for(t, parts);
            proof {
                assert(all[k as int].wf());
                assert(is_successor(position, parts));
                lemma_successor(position, t, parts);
                assert(reaches(position, grundy(t)));
            }
            match self.resolved_nimber(&pending[k], cancel, EvaluationPolicy::Serial, 0) {
                Some(nimber) => {
                    worker.found(nimber, Ghost(position), Ghost(sound));
                },
                None => {
                    worker.cancelled = true;
                    return;
                },
            }
            k = k + 1;
        }
        proof {
            if truth {
                assert forall|v: nat| #[trigger]
                    old(worker).cover().contains(v) implies worker.reachable@.contains(
                    v as int,
                ) by {
                    if !old(worker).reachable@.contains(v as int) {
                        assert(has_pending_value(all, v));
                        let i = choose|i: int|
                            0 <= i < all.len() && nim_total(values((#[trigger] all[i])@)) == v;
                        assert(worker.reachable@.contains(nim_total(values(all[i]@)) as int));
                    }
                }
            }
        }
    }

    fn evaluate_duplicate_game_with_policy(
        &self,
        game: &CanonicalGame,
        cancel: Option<&AtomicBool>,
        policy: EvaluationPolicy,
        depth: usize,
    ) -> (nimber: Option<usize>)
        requires
            self.wf(),
            game.wf(),
        ensures
            nimber is None ==> may_cancel(cancel),
            nimber is Some ==> self.settles_all(game@, nimber->0),
            self.sound() && nimber is Some ==> is_total_of(game@, nimber->0),
        decreases node_count(game@), 12int,
    {
        let components: &[BitMatrix] = game.components();
        if components.len() == 1 {
            proof {
                assert(components@[0].wf());
                lemma_part_smaller(game@, 0);
                lemma_single_total(game@);
            }
            let nimber: Option<usize> = self.evaluate_duplicate_component_with_policy(
                &components[0],
                cancel,
                policy,
                depth,
            );
            proof {
                if nimber is Some {
                    self.lemma_settles_one(game@[0], nimber->0);
                    assert(seq![game@[0]] =~= game@);
                }
            }
            nimber
        } else {
            let nimber: Option<usize> = self.nimber_of_components(game, cancel, policy, depth);
            proof {
                if nimber is Some {
                    self.lemma_resolved_settles(game@, nimber->0);
                }
            }
            nimber
        }
    }

    /// The nimber of a game. All workers start on a single component, each in its own order.
    fn nimber_cooperative_root_inner(
        &self,
        game: &CanonicalGame,
        cancel: Option<&AtomicBool>,
    ) -> (nimber: Option<usize>)
        requires
            self.wf(),
            game.wf(),
        ensures
            nimber is None ==> may_cancel(cancel),
            nimber is Some ==> self.resolves_all(game@, nimber->0),
            nimber is Some && game@.len() == 1 ==> self.shares_root(game@[0], cancel),
            nimber is Some ==> may_go_on(cancel),
            self.sound() && nimber is Some ==> is_total_of(game@, nimber->0),
    {
        if is_cancelled(cancel) {
            return None;
        }
        if game.is_empty() {
            proof {
                assert(values(game@).len() == 0);
                assert(game@ =~= Seq::empty());
                self.lemma_resolves_none();
            }
            return Some(0);
        }
        let components: &[BitMatrix] = game.components();
        if components.len() > 1 {
            return self.nimber_of_components(game, cancel, EvaluationPolicy::Serial, 0);
        }
        proof {
            assert(components@[0].wf());
            lemma_single_total(game@);
        }
        let component: &BitMatrix = &components[0];
        let nimber: Option<usize> = match self.cache.probe(component) {
            CacheProbe::Done(nimber) => {
                self.stats.completed_cache_hit();
                Some(nimber)
            },
            CacheProbe::Busy => {
                self.stats.processing_hit();
                if let Some(nimber) = self.cache.get_done(component) {
                    self.stats.completed_cache_hit();
                    Some(nimber)
                } else {
                    self.evaluate_duplicate_component(component, cancel, 0)
                }
            },
            CacheProbe::Claimed => {
                self.stats.claimed_attempt();
                match self.compute_component_cooperative_root(component, cancel) {
                    Some(nimber) => {
                        self.cache_result(component.clone(), nimber);
                        Some(nimber)
                    },
                    None => None,
                }
            },
        };
        proof {
            if nimber is Some {
                self.lemma_resolves_one(game@[0], nimber->0);
                assert(seq![game@[0]] =~= game@);
            }
        }
        nimber
    }

    fn compute_component_cooperative_root(
        &self,
        component: &BitMatrix,
        cancel: Option<&AtomicBool>,
    ) -> (nimber: Option<usize>)
        requires
            self.wf(),
            component.wf(),
        ensures
            nimber is None ==> may_cancel(cancel),
            nimber is Some ==> may_go_on(cancel),
            nimber is Some ==> self.computes(component@, nimber->0),
            nimber is Some ==> self.shares(component, cancel),
            self.sound() && nimber is Some ==> is_true_of(component@, nimber->0),
    {
        if is_cancelled(cancel) {
            return None;
        }
        self.evaluate_component_cooperative_root_uncached(component, cancel)
    }

    /// What one worker finds about the options of a component.
    fn cooperative_worker(
        &self,
        component: &BitMatrix,
        bound: usize,
        cancel: Option<&AtomicBool>,
    ) -> (local: WorkerResult)
        requires
            self.wf(),
            component.wf(),
        ensures
            local.wf(component@.cells, self.sound()),
            local.cancelled ==> may_cancel(cancel),
            self.sound() && fits(component@.cells) && !local.cancelled ==> local.complete(
                component@.cells,
            ),
    {
        let ghost position = component@.cells;
        proof {
            lemma_matrix_position(component);
        }
        let mut local: WorkerResult = WorkerResult::new(bound);
        let worker_seed: usize = self.pool.current_thread_index();
        self.stats.cooperative_worker_entry();
        self.stats.worker_started();
        self.evaluate_successor_groups_with_seed(
            self.generator.successor_groups(component),
            &mut local,
            EvaluationPolicy::CooperativeAssist,
            traversal_seed(component, 0, worker_seed),
            0,
            cancel,
            Ghost(position.len()),
        );
        self.stats.worker_finished();
        local
    }

    /// The nimber of a component, found by all workers together.
    fn evaluate_component_cooperative_root_uncached(
        &self,
        component: &BitMatrix,
        cancel: Option<&AtomicBool>,
    ) -> (nimber: Option<usize>)
        requires
            self.wf(),
            component.wf(),
        ensures
            nimber is None ==> may_cancel(cancel),
            nimber is Some ==> may_go_on(cancel),
            nimber is Some ==> self.computes(component@, nimber->0),
            nimber is Some ==> self.shares(component, cancel),
            self.sound() && nimber is Some ==> is_true_of(component@, nimber->0),
    {
        if is_cancelled(cancel) {
            return None;
        }
        let proven: bool = given_of_both(S::proves_zero, &self.symmetry_finder, component);
        proof {
            assert(call_ensures(S::proves_zero, (&self.symmetry_finder, component), proven));
        }
        if proven {
            self.stats.symmetry_zero_certificate();
            return Some(0);
        }
        let ghost position = component@.cells;
        let ghost sound = self.sound();
        let ghost truth = sound && fits(position);
        proof {
            lemma_matrix_position(component);
        }
        let bound: usize = component.count_ones().saturating_add(1);
        self.stats.cooperative_region();
        let work = SharedSearch { evaluator: self, component, bound, cancel };
        let mut locals: Vec<WorkerResult> = self.pool.broadcast(&work);
        let mut result: WorkerResult = WorkerResult::new(bound);
        let ghost all = locals@;
        proof {
            assert forall|i: int| 0 <= i < all.len() implies {
                &&& (#[trigger] all[i]).wf(position, sound)
                &&& all[i].cancelled ==> may_cancel(cancel)
                &&& truth && !all[i].cancelled ==> all[i].complete(position)
            } by {
                assert(work.may_give(locals@[i]));
            }
        }
        while locals.len() > 0
            invariant
                locals@.len() <= all.len(),
                locals@ == all.take(locals@.len() as int),
                forall|i: int|
                    0 <= i < all.len() ==> {
                        &&& (#[trigger] all[i]).wf(position, sound)
                        &&& all[i].cancelled ==> may_cancel(cancel)
                        &&& truth && !all[i].cancelled ==> all[i].complete(position)
                    },
                truth == (sound && fits(position)),
                result.wf(position, sound),
                result.cancelled ==> may_cancel(cancel),
                truth && !result.cancelled && locals@.len() < all.len() ==> result.complete(
                    position,
                ),
            decreases locals@.len(),
        {
            let ghost last = all[locals@.len() - 1];
            let popped: Option<WorkerResult> = locals.pop();
            if let Some(local) = popped {
                proof {
                    assert(local == last);
                    assert(locals@ =~= all.take(locals@.len() as int));
                }
                result.merge(local, Ghost(position), Ghost(sound));
            }
        }
        self.stats.flush_distribution(result.distribution);
        let ghost merged = result;
        self.resolve_pending(&mut result, cancel, Ghost(position));
        if result.cancelled {
            return None;
        }
        let nimber: usize = result.reachable.mex();
        proof {
            if truth {
                assert forall|t: Position| #[trigger]
                    is_option(position, t) implies result.reachable@.contains(
                    grundy(t) as int,
                ) by {
                    assert(merged.reachable@.contains(grundy(t) as int));
                    assert(merged.cover().contains(grundy(t)));
                }
                lemma_complete_mex(position, result, nimber);
            }
        }
        Some(nimber)
    }

    /// The nimber of the position that the matrix holds, if a machine word can count the moves.
    pub fn nimber(&self, matrix: &BitMatrix) -> (nimber: usize)
        requires
            self.wf(),
            matrix.wf(),
        ensures
            self.sound() && fits(matrix@.cells) ==> nimber == grundy(matrix@.cells),
            self.resolves_position(matrix@.cells, nimber),
    {
        let game: CanonicalGame = self.generator.canonicalize(matrix.clone());
        proof {
            lemma_matrix_position(matrix);
            if fits(matrix@.cells) {
                lemma_parts_fit(matrix@.cells, game@);
            }
        }
        self.nimber_of_canonical(&game)
    }

    /// The nimber of the position that the matrix holds, or nothing if `cancel` is read as set.
    pub fn nimber_cancellable(&self, matrix: &BitMatrix, cancel: &Arc<AtomicBool>) -> (nimber:
        Option<usize>)
        requires
            self.wf(),
            matrix.wf(),
        ensures
            nimber is None ==> reads(&**cancel, true),
            nimber is Some ==> reads(&**cancel, false),
            nimber is None ==> self.cache_unclaimed(),
            nimber is Some ==> self.resolves_position(matrix@.cells, nimber->0),
            self.sound() && fits(matrix@.cells) && nimber is Some ==> nimber->0 == grundy(
                matrix@.cells,
            ),
    {
        let game: CanonicalGame = self.generator.canonicalize(matrix.clone());
        proof {
            lemma_matrix_position(matrix);
            if fits(matrix@.cells) {
                lemma_parts_fit(matrix@.cells, game@);
            }
        }
        self.nimber_of_canonical_cancellable(&game, cancel)
    }

    /// The nimber of a game: the nimbers of its components together.
    pub fn nimber_of_canonical(&self, game: &CanonicalGame) -> (nimber: usize)
        requires
            self.wf(),
            game.wf(),
        ensures
            self.sound() ==> is_total_of(game@, nimber),
            self.resolves_all(game@, nimber),
            self.searches(game, None, Some(nimber)),
            game@.len() == 1 ==> self.shares_root(game@[0], None),
    {
        let work = Search { evaluator: self, game, cancel: None };
        match self.pool.install(&work) {
            Some(nimber) => nimber,
            None => 0,
        }
    }

    /// The nimber of a game, or nothing if `cancel` is read as set.
    pub fn nimber_of_canonical_cancellable(
        &self,
        game: &CanonicalGame,
        cancel: &Arc<AtomicBool>,
    ) -> (nimber: Option<usize>)
        requires
            self.wf(),
            game.wf(),
        ensures
            nimber is None ==> reads(&**cancel, true),
            nimber is Some ==> reads(&**cancel, false),
            nimber is None ==> self.cache_unclaimed(),
            self.searches(game, Some(&**cancel), nimber),
            nimber is Some ==> self.resolves_all(game@, nimber->0),
            nimber is Some && game@.len() == 1 ==> self.shares_root(game@[0], Some(&**cancel)),
            self.sound() && nimber is Some ==> is_total_of(game@, nimber->0),
    {
        let work = Search { evaluator: self, game, cancel: Some(&**cancel) };
        let nimber: Option<usize> = self.pool.install(&work);
        if nimber.is_none() {
            self.cache.clear_processing();
        }
        nimber
    }

    /// The nimber of a game, if the cache knows all its components.
    pub fn cached_nimber_of_canonical(&self, game: &CanonicalGame) -> (nimber: Option<usize>)
        requires
            self.wf(),
            game.wf(),
        ensures
            game@.len() == 0 ==> nimber == Some(0usize),
            self.cache_gives_all(game@, nimber),
            self.sound() && nimber is Some ==> is_total_of(game@, nimber->0),
    {
        if game.is_empty() {
            proof {
                assert(values(game@).len() == 0);
                assert(xor_all(Seq::empty()) == 0);
            }
            return Some(0);
        }
        self.cached_nimber_of_components(game)
    }

    /// Enters the nimber of a single component into the cache.
    pub fn publish_nimber_of_canonical(&self, game: CanonicalGame, nimber: usize)
        requires
            self.wf(),
            game.wf(),
            self.sound() && game@.len() == 1 ==> is_true_of(game@[0], nimber),
        ensures
            game@.len() == 1 ==> exists|fresh: bool| #[trigger]
                self.cache_publishes(game@[0], nimber, fresh),
    {
        let components: &[BitMatrix] = game.components();
        if components.len() == 1 {
            proof {
                assert(components@[0].wf());
            }
            self.cache_result(components[0].clone(), nimber);
        }
    }

    /// The number of components in the cache.
    pub fn cache_len(&self) -> (len: usize)
        requires
            self.wf(),
        ensures
            exists|maps: Seq<Map<Grid, CacheEntry>>| #[trigger]
                self.cache_shows(maps) && len == total_len(maps),
    {
        let len: usize = self.cache.len();
        proof {
            let maps = choose|maps: Seq<Map<Grid, CacheEntry>>| #[trigger]
                self.cache.shown(maps) && len == total_len(maps);
            assert(self.cache_shows(maps));
        }
        len
    }

    /// How large the cache is.
    pub fn cache_snapshot(&self) -> (snapshot: CacheSnapshot)
        requires
            self.wf(),
        ensures
            exists|maps: Seq<Map<Grid, CacheEntry>>, profile: CacheProfile|
                {
                    &&& #[trigger] self.cache_shows(maps)
                    &&& #[trigger] is_total_profile(maps, profile)
                    &&& snapshot.entries == profile.entries
                    &&& snapshot.estimated_bytes == profile.estimated_bytes
                },
    {
        let profile: CacheProfile = self.cache_profile();
        CacheSnapshot { entries: profile.entries, estimated_bytes: profile.estimated_bytes }
    }

    /// How many components are in the cache, and in what state.
    pub fn cache_profile(&self) -> (profile: CacheProfile)
        requires
            self.wf(),
        ensures
            exists|maps: Seq<Map<Grid, CacheEntry>>| #[trigger]
                self.cache_shows(maps) && is_total_profile(maps, profile),
    {
        let profile: CacheProfile = self.cache.profile();
        proof {
            let maps = choose|maps: Seq<Map<Grid, CacheEntry>>| #[trigger]
                self.cache.shown(maps) && is_total_profile(maps, profile);
            assert(self.cache_shows(maps));
        }
        profile
    }

    /// Drops all components from the cache.
    pub fn clear_cache(&self)
        requires
            self.wf(),
        ensures
            self.cache_cleared(),
    {
        self.cache.clear();
    }

    /// The file that the cache is saved as.
    pub fn save_cache(&self) -> (saved: (Vec<u8>, CacheIoReport))
        requires
            self.wf(),
        ensures
            exists|entries: Seq<(BitMatrix, usize)>|
                {
                    &&& are_entries(entries)
                    &&& self.sound() ==> entries_true(entries)
                    &&& self.saves(entries)
                    &&& saved.0@ == file_bytes(#[trigger] entry_views(entries))
                    &&& saved.1.entries == entries.len()
                },
    {
        let entries: Vec<(BitMatrix, usize)> = self.cache.done_entries();
        let bytes: Vec<u8> = encode_cache(&entries);
        proof {
            let maps = choose|maps: Seq<Map<Grid, CacheEntry>>| #[trigger]
                self.cache.shown(maps) && lists_done_of_all(
                    maps,
                    self.cache.shard_count() as int,
                    entries@,
                );
            assert(self.cache_shows(maps));
            assert(self.saves(entries@));
        }
        let report = CacheIoReport { entries: entries.len() };
        proof {
            assert(bytes@ == file_bytes(entry_views(entries@)));
        }
        (bytes, report)
    }

    /// Replaces the cache by a saved one. Where the start of the file is wrong, the cache stays as
    /// it is; where an entry is wrong, the cache holds the entries before it.
    pub fn load_cache(&mut self, bytes: &[u8]) -> (report: Result<CacheIoReport, CacheFileError>)
        requires
            old(self).wf(),
        ensures
            final(self).wf(),
            match header_of(bytes@) {
                Err(e) => report == Err::<CacheIoReport, CacheFileError>(e) && *final(self) == *old(
                    self,
                ),
                Ok(count) => {
                    let found = entries_at(bytes@, 16, count as nat);
                    &&& final(self).consists_of(
                        *old(self).inner_generator(),
                        *old(self).inner_finder(),
                        old(self).inner_config(),
                    )
                    &&& final(self).sound() == pairs_true(found.0)
                    &&& final(self).cache_starts_as(
                        filled_shards(found.0, old(self).inner_config().cache_shards as nat),
                    )
                    &&& match found.1 {
                        Some(e) => report == Err::<CacheIoReport, CacheFileError>(e),
                        None => report == Ok::<CacheIoReport, CacheFileError>(
                            (CacheIoReport { entries: count }),
                        ),
                    }
                },
            },
    {
        let file: CacheFile = match decode_cache(bytes) {
            Ok(file) => file,
            Err(e) => {
                return Err(e);
            },
        };
        let entries: usize = file.entries.len();
        let ghost pairs = entry_views(file.entries@);
        proof {
            assert(pairs_true(pairs) == entries_true(file.entries@)) by {
                if pairs_true(pairs) {
                    assert forall|i: int| 0 <= i < file.entries@.len() implies is_true_of(
                        (#[trigger] file.entries@[i]).0@,
                        file.entries@[i].1,
                    ) by {
                        assert(is_true_of(pairs[i].0, pairs[i].1));
                    }
                }
                if entries_true(file.entries@) {
                    assert forall|i: int| 0 <= i < pairs.len() implies is_true_of(
                        (#[trigger] pairs[i]).0,
                        pairs[i].1,
                    ) by {
                        assert(is_true_of(file.entries@[i].0@, file.entries@[i].1));
                    }
                }
            }
            lemma_all_read(bytes@, 16, header_of(bytes@)->Ok_0 as nat);
            assert(pairs.len() == file.entries@.len());
        }
        self.cache = ShardedCache::with_entries(
            self.config.cache_shards,
            &file.entries,
            Ghost(pairs_true(pairs)),
        );
        match file.error {
            Some(e) => Err(e),
            None => Ok(CacheIoReport { entries }),
        }
    }

    /// What the evaluator has counted of its work.
    pub fn stats(&self) -> (stats: EvaluatorStats)
        ensures
            self.stats_show(stats),
            stats.evaluation_attempts == stats.unique_positions_claimed
                + stats.forced_duplicate_evaluations,
    {
        self.stats.snapshot()
    }

    /// How long ago the evaluator was made.
    pub fn age(&self) -> (age: Duration)
        ensures
            has_passed_since(self.made_at(), age),
    {
        time_since(self.created_at)
    }

    pub fn generator(&self) -> (generator: &G)
        ensures
            generator == self.inner_generator(),
    {
        &self.generator
    }

    /// An evaluator with another number of threads and shards and the same completed nimbers.
    pub fn with_threads_preserving_cache(&self, threads: usize, cache_shards: usize) -> (evaluator:
        Result<Self, WorkerPoolError>) where G: Clone, S: Clone
        requires
            self.wf(),
            threads > 0,
            cache_shards > 0,
        ensures
            evaluator is Err ==> fails_to_start(Some(threads)),
            evaluator matches Ok(evaluator) ==> {
                &&& evaluator.wf()
                &&& evaluator.sound() == self.sound()
                &&& cloned(*self.inner_generator(), *evaluator.inner_generator())
                &&& cloned(*self.inner_finder(), *evaluator.inner_finder())
                &&& evaluator.inner_config() == (EvaluatorConfig {
                    threads: Some(threads),
                    cache_shards,
                    ..self.inner_config()
                })
                &&& evaluator.has_workers(Some(threads))
                &&& self.keeps_done(&evaluator)
            },
    {
        let mut config: EvaluatorConfig = self.config;
        config.threads = Some(threads);
        config.cache_shards = cache_shards;
        let cache: ShardedCache = self.cache.clone_done_into_shards(cache_shards);
        let ghost copied = cache;
        let evaluator = Self::with_config_and_cache(
            self.generator.clone(),
            self.symmetry_finder.clone(),
            config,
            cache,
        );
        proof {
            if evaluator is Ok {
                self.lemma_copied(&copied, &evaluator->Ok_0);
            }
        }
        evaluator
    }
}

/// A solver that looks for symmetries computes zero for every component that has one, whether or not
/// machine words can count its moves, and that is right.
pub proof fn lemma_symmetric_computed(solver: DfsSolver, g: Grid, nimber: usize)
    requires
        solver.inner_finder().is_enabled(),
        solver.computes(g, nimber),
        g.cells.len() > 0,
        has_symmetry(g),
    ensures
        nimber == 0,
        grundy(g.cells) == 0,
{
}

/// Whether the nimbers of all pairs are right.
pub open spec fn pairs_true(pairs: Seq<(Grid, usize)>) -> bool {
    forall|i: int| 0 <= i < pairs.len() ==> is_true_of((#[trigger] pairs[i]).0, pairs[i].1)
}

/// What the cache of an evaluator shows is what its shards hold, of which there is one at least.
pub proof fn lemma_cache_has_shards<G: SuccessorGenerator, S: SymmetryFinder>(
    evaluator: Evaluator<G, S>,
    maps: Seq<Map<Grid, CacheEntry>>,
)
    requires
        evaluator.wf(),
        evaluator.cache_shows(maps),
    ensures
        maps.len() > 0,
{
    crate::sharded::lemma_has_shards(evaluator.cache);
}

/// Where nothing is wrong, all entries are read.
pub proof fn lemma_all_read(bytes: Seq<u8>, at: int, count: nat)
    ensures
        entries_at(bytes, at, count).1 is None ==> entries_at(bytes, at, count).0.len() == count,
    decreases count,
{
    if count > 0 && crate::cache_file::entry_at(bytes, at) is Ok {
        lemma_all_read(bytes, crate::cache_file::entry_end(bytes, at), (count - 1) as nat);
    }
}

/// What an evaluator with right nimbers saves is loaded whole, and gives right nimbers.
pub proof fn lemma_saved_cache_is_sound(entries: Seq<(BitMatrix, usize)>)
    requires
        entries.len() <= usize::MAX,
        are_entries(entries),
        entries_true(entries),
    ensures
        header_of(file_bytes(entry_views(entries))) == Ok::<usize, CacheFileError>(
            entries.len() as usize,
        ),
        entries_at(file_bytes(entry_views(entries)), 16, entries.len()) == (
            entry_views(entries),
            None::<CacheFileError>,
        ),
        pairs_true(entry_views(entries)),
{
    let pairs = entry_views(entries);
    assert forall|i: int| 0 <= i < pairs.len() implies (#[trigger] pairs[i]).0.wf()
        && crate::grid::countable(pairs[i].0.rows, pairs[i].0.cols) && is_true_of(
        pairs[i].0,
        pairs[i].1,
    ) by {
        assert(entries[i].0.wf());
        assert(is_true_of(entries[i].0@, entries[i].1));
    }
    lemma_saved_cache_loads(pairs);
}

/// Loading gives back what was saved: where the entries that are done in the shards `maps` were saved,
/// the file is read whole, and the shards that it fills, of any number, hold what was done, with the
/// same nimbers, and nothing else.
pub proof fn lemma_loading_gives_back(
    maps: Seq<Map<Grid, CacheEntry>>,
    entries: Seq<(BitMatrix, usize)>,
    count: nat,
)
    requires
        maps.len() > 0,
        count > 0,
        entries.len() <= usize::MAX,
        are_entries(entries),
        lists_done_of_all(maps, maps.len() as int, entries),
    ensures
        header_of(file_bytes(entry_views(entries))) == Ok::<usize, CacheFileError>(
            entries.len() as usize,
        ),
        entries_at(file_bytes(entry_views(entries)), 16, entries.len()).1 is None,
        holds_done_of(
            maps,
            filled_shards(
                entries_at(file_bytes(entry_views(entries)), 16, entries.len()).0,
                count,
            ),
        ),
{
    let pairs = entry_views(entries);
    assert forall|i: int| 0 <= i < pairs.len() implies (#[trigger] pairs[i]).0.wf()
        && crate::grid::countable(pairs[i].0.rows, pairs[i].0.cols) by {
        assert(entries[i].0.wf());
    }
    lemma_saved_cache_loads(pairs);
    lemma_filled_holds_done(maps, entries, count);
}

/// The evaluator of the game: canonical moves, and symmetries that can be switched off.
pub type DfsSolver = Evaluator<
    CanonicalMoveGenerator<PseudoCanonicalizer>,
    ToggleableSymmetryFinder,
>;

impl Default for DfsSolver {
    fn default() -> (solver: Self)
        ensures
            solver.wf(),
            solver.sound(),
            solver.inner_finder().is_enabled(),
            solver.inner_config() == default_config(),
            solver.cache_starts_empty(),
    {
        Self::new(
            CanonicalMoveGenerator::new(PseudoCanonicalizer),
            ToggleableSymmetryFinder::default(),
        )
    }
}

impl DfsSolver {
    /// An evaluator that looks for symmetries or not, with the same completed nimbers.
    pub fn with_symmetry_preserving_cache(&self, enabled: bool) -> (evaluator: Result<
        Self,
        WorkerPoolError,
    >)
        requires
            self.wf(),
        ensures
            evaluator is Err ==> fails_to_start(self.inner_config().threads),
            evaluator matches Ok(evaluator) ==> {
                &&& evaluator.wf()
                &&& evaluator.sound() == self.sound()
                &&& evaluator.inner_finder().is_enabled() == enabled
                &&& evaluator.inner_config() == self.inner_config()
                &&& evaluator.has_workers(self.inner_config().threads)
                &&& self.keeps_done(&evaluator)
            },
    {
        let cache: ShardedCache = self.cache.clone_done_into_shards(self.config.cache_shards);
        let ghost copied = cache;
        let evaluator = Self::with_config_and_cache(
            self.generator.clone(),
            ToggleableSymmetryFinder::new(enabled),
            self.config,
            cache,
        );
        proof {
            if evaluator is Ok {
                self.lemma_copied(&copied, &evaluator->Ok_0);
            }
        }
        evaluator
    }
}

} // verus!
