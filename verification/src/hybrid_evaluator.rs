//! Serial bounded ruling-out search layered on top of the parallel evaluator.
//!
//! It caches only monotone facts: if a canonical game has a successor of nimber `k`, then `k` is
//! impossible for that game.
use crate::cache::{CacheEntry, CacheShard};
use crate::components::{node_count, values};
use crate::evaluator::DfsSolver;
use crate::grid::Grid;
use crate::limits::{fits, lemma_fits_now};
use crate::matrix::BitMatrix;
use crate::nim::{grundy, is_option, lemma_grundy, lemma_grundy_is, lemma_nim_sum_associates};
use crate::nim::{lemma_nim_sum_cancels, lemma_nim_sum_commutes, lemma_xor_is_nim_sum, nim_sum};
use crate::nim::{nim_total, reaches, Position};
use crate::nimbers::NimberSet;
use crate::reading::{enter_to_read, enter_to_write, enters, finds, leave, leaves, new_lock};
use crate::reading::{read_flag, reads, replaces, starts_with};
use crate::solver::{stands_for, CanonicalGame};
use crate::successor::{by_nodes_taken, estimated_moves, lemma_positions_are_options};
use crate::successor::{lemma_both_ways_fit, lemma_positions_cover, positions, OrderedSuccessor};
use crate::successor::SuccessorGenerator;
use crate::worker_result::{is_total_of, lemma_parts_fit, lemma_successor, parts_fit};
use core::sync::atomic::AtomicBool;
use std::sync::Arc;
use vstd::prelude::*;
use vstd::rwlock::{RwLock, RwLockPredicate};

verus! {

/// The nimber of a game, or that it is not the bound and was not found below it.
#[derive(Clone, Copy, Debug, PartialEq, Eq, Structural)]
pub enum BoundedNimber {
    Exact(usize),
    ExceedsBound,
    Cancelled,
}

/// Whether a game has the nimber zero.
#[derive(Clone, Copy, Debug, PartialEq, Eq, Structural)]
pub enum ZeroProof {
    Zero,
    NonZero,
    Cancelled,
}

/// The nimbers of the first `k` parts together, without part `i`.
pub open spec fn others_total(parts: Seq<Grid>, i: int, k: int) -> nat
    decreases k,
{
    if k <= 0 {
        0
    } else if k - 1 == i {
        others_total(parts, i, k - 1)
    } else {
        nim_sum(others_total(parts, i, k - 1), grundy(parts[k - 1].cells))
    }
}

/// Whether the nimber of part `i` exceeds the bound, where the bits of the other parts' nimber do not
/// count.
pub open spec fn part_exceeds(parts: Seq<Grid>, i: int, bound: usize) -> bool {
    exists|others: usize|
        others == others_total(parts, i, parts.len() as int) && grundy(parts[i].cells) > (bound
            | others)
}

/// Whether the nimber of the game exceeds the bound, or that of one of its parts does.
pub open spec fn exceeds(parts: Seq<Grid>, bound: usize) -> bool {
    ||| nim_total(values(parts)) > bound
    ||| exists|i: int| 0 <= i < parts.len() && #[trigger] part_exceeds(parts, i, bound)
}

/// What the result of a bounded search says, whatever the nimbers that it was based on.
pub open spec fn is_within(bound: Option<usize>, found: BoundedNimber) -> bool {
    match found {
        BoundedNimber::Exact(nimber) => bound is Some ==> nimber <= bound->0,
        BoundedNimber::ExceedsBound => bound is Some,
        BoundedNimber::Cancelled => true,
    }
}

/// What the result of a bounded search says of the game, if it was based on right nimbers.
pub open spec fn is_bounded_nimber(
    parts: Seq<Grid>,
    bound: Option<usize>,
    found: BoundedNimber,
) -> bool {
    match found {
        BoundedNimber::Exact(nimber) => is_total_of(parts, nimber),
        BoundedNimber::ExceedsBound => parts_fit(parts) ==> exceeds(parts, bound->0),
        BoundedNimber::Cancelled => true,
    }
}

/// The nimber of a game is that of one part and that of the others together.
proof fn lemma_others_total(parts: Seq<Grid>, i: int, k: int)
    requires
        0 <= i < parts.len(),
        0 <= k <= parts.len(),
    ensures
        nim_total(values(parts.take(k))) == nim_sum(
            others_total(parts, i, k),
            if i < k {
                grundy(parts[i].cells)
            } else {
                0
            },
        ),
    decreases k,
{
    if k == 0 {
        assert(values(parts.take(0)).len() == 0);
    } else {
        lemma_others_total(parts, i, k - 1);
        let more = values(parts.take(k));
        assert(more.drop_last() =~= values(parts.take(k - 1)));
        assert(more.last() == grundy(parts[k - 1].cells));
        let before = others_total(parts, i, k - 1);
        let last = grundy(parts[k - 1].cells);
        let own = grundy(parts[i].cells);
        if k - 1 == i {
            assert(nim_sum(before, 0) == before);
        } else if i < k {
            lemma_nim_sum_associates(before, own, last);
            lemma_nim_sum_commutes(own, last);
            lemma_nim_sum_associates(before, last, own);
        } else {
            assert(nim_sum(before, 0) == before);
            assert(nim_sum(nim_sum(before, last), 0) == nim_sum(before, last));
        }
    }
}

/// A game that exceeds the bound does not have the bound as its nimber.
pub proof fn lemma_exceeds_differs(parts: Seq<Grid>, bound: usize)
    requires
        exceeds(parts, bound),
    ensures
        nim_total(values(parts)) != bound,
{
    if nim_total(values(parts)) <= bound {
        let i = choose|i: int| 0 <= i < parts.len() && #[trigger] part_exceeds(parts, i, bound);
        let others = choose|others: usize|
            others == others_total(parts, i, parts.len() as int) && grundy(parts[i].cells) > (bound
                | others);
        lemma_others_total(parts, i, parts.len() as int);
        assert(parts.take(parts.len() as int) =~= parts);
        let own = grundy(parts[i].cells);
        if nim_total(values(parts)) == bound {
            lemma_nim_sum_cancels(own, others as nat);
            lemma_xor_is_nim_sum(others, bound);
            assert((others ^ bound) <= (bound | others)) by (bit_vector);
        }
    }
}

/// Where one part is the whole game, exceeding the bound has its plain meaning.
pub proof fn lemma_single_exceeds(parts: Seq<Grid>, bound: usize)
    requires
        parts.len() == 1,
        exceeds(parts, bound),
    ensures
        grundy(parts[0].cells) > bound,
        nim_total(values(parts)) == grundy(parts[0].cells),
{
    lemma_others_total(parts, 0, 1);
    assert(parts.take(1) =~= parts);
    reveal_with_fuel(others_total, 2);
    let own = grundy(parts[0].cells);
    assert(nim_sum(0, own) == own);
    if nim_total(values(parts)) <= bound {
        let i = choose|i: int| 0 <= i < parts.len() && #[trigger] part_exceeds(parts, i, bound);
        assert(bound | 0usize == bound) by (bit_vector);
    }
}

/// Nimbers that are impossible for components, because a move reaches them.
pub struct RuledOut {
    places: CacheShard,
    sets: Vec<NimberSet>,
}

impl View for RuledOut {
    type V = Map<Grid, Set<int>>;

    closed spec fn view(&self) -> Map<Grid, Set<int>> {
        Map::new(
            |g: Grid| self.places@.contains_key(g),
            |g: Grid| self.sets@[self.places@[g]->Done_0 as int]@,
        )
    }
}

/// What `map` rules out for component `g`.
pub open spec fn ruled_out_of(map: Map<Grid, Set<int>>, g: Grid) -> Set<int> {
    if map.contains_key(g) {
        map[g]
    } else {
        Set::empty()
    }
}

impl RuledOut {
    /// Whether every component has a set of its own.
    pub closed spec fn wf(&self) -> bool {
        &&& self.places.wf()
        &&& forall|g: Grid| #[trigger]
            self.places@.contains_key(g) ==> self.places@[g] is Done && self.places@[g]->Done_0
                < self.sets@.len()
        &&& forall|g: Grid, h: Grid|
            #![trigger self.places@[g], self.places@[h]]
            self.places@.contains_key(g) && self.places@.contains_key(h) && g != h
                ==> self.places@[g]->Done_0 != self.places@[h]->Done_0
        &&& forall|i: int| 0 <= i < self.sets@.len() ==> (#[trigger] self.sets@[i]).wf()
    }

    pub fn new() -> (table: Self)
        ensures
            table.wf(),
            table@ == Map::<Grid, Set<int>>::empty(),
    {
        let table = RuledOut { places: CacheShard::new(), sets: Vec::new() };
        proof {
            assert(table@ =~= Map::<Grid, Set<int>>::empty());
        }
        table
    }

    /// The number of components.
    pub fn len(&self) -> (len: usize)
        requires
            self.wf(),
        ensures
            len == self@.dom().len(),
    {
        proof {
            assert(self@.dom() =~= self.places@.dom());
        }
        self.places.len()
    }

    /// The impossible nimbers of a component.
    pub fn get(&self, component: &BitMatrix) -> (found: NimberSet)
        requires
            self.wf(),
            component.wf(),
        ensures
            found.wf(),
            found@ == ruled_out_of(self@, component@),
    {
        match self.places.get_done(component) {
            Some(place) => self.sets[place].clone(),
            None => NimberSet::new(0),
        }
    }

    /// Adds an impossible nimber of a component.
    pub fn mark(&mut self, component: &BitMatrix, nimber: usize)
        requires
            old(self).wf(),
            component.wf(),
            old(self)@.dom().len() < usize::MAX,
        ensures
            final(self).wf(),
            final(self)@ == old(self)@.insert(
                component@,
                ruled_out_of(old(self)@, component@).insert(nimber as int),
            ),
    {
        let ghost g = component@;
        let ghost places = self.places@;
        let ghost sets = self.sets@;
        proof {
            assert(self@.dom() =~= self.places@.dom());
        }
        match self.places.get_done(component) {
            Some(place) => {
                let mut set: NimberSet = self.sets[place].clone();
                set.insert(nimber);
                self.sets.set(place, set);
                proof {
                    assert forall|h: Grid| #[trigger] self@.contains_key(h) implies self@[h]
                        == old(self)@.insert(g, old(self)@[g].insert(nimber as int))[h] by {
                        if h != g {
                            assert(places[h]->Done_0 != places[g]->Done_0);
                        }
                    }
                    assert(self@ =~= old(self)@.insert(g, old(self)@[g].insert(nimber as int)));
                }
            },
            None => {
                let mut set: NimberSet = NimberSet::new(0);
                set.insert(nimber);
                let place: usize = self.sets.len();
                self.places.insert(component.clone(), CacheEntry::Done(place));
                self.sets.push(set);
                proof {
                    assert(!places.contains_key(g));
                    assert forall|h: Grid| #[trigger] self.places@.contains_key(h) implies {
                        &&& self.places@[h] is Done
                        &&& self.places@[h]->Done_0 < self.sets@.len()
                        &&& h != g ==> self.places@[h] == places[h] && places[h]->Done_0
                            < sets.len()
                    } by {
                        if h != g {
                            assert(places.contains_key(h));
                        }
                    }
                    assert forall|h: Grid| #[trigger] self@.contains_key(h) implies self@[h]
                        == old(self)@.insert(g, Set::<int>::empty().insert(nimber as int))[h] by {
                        if h != g {
                            assert(self.places@.contains_key(h));
                            assert(places.contains_key(h));
                        }
                    }
                    assert(self@ =~= old(self)@.insert(
                        g,
                        Set::<int>::empty().insert(nimber as int),
                    ));
                }
            },
        }
    }
}

/// Whether a move from every component reaches the nimbers that are impossible for it.
pub open spec fn all_reached(map: Map<Grid, Set<int>>) -> bool {
    forall|g: Grid, n: int|
        map.contains_key(g) && #[trigger] map[g].contains(n) && fits(g.cells) ==> n >= 0 && reaches(
            g.cells,
            n as nat,
        )
}

/// What holds of the ruled out nimbers whenever nobody writes to them.
pub struct RuledOutPred {
    pub sound: bool,
}

impl RwLockPredicate<RuledOut> for RuledOutPred {
    open spec fn inv(self, table: RuledOut) -> bool {
        table.wf() && (self.sound ==> all_reached(table@))
    }
}

/// Finds nimbers by ruling out the lower ones, down to a depth from which an evaluator takes over.
pub struct HybridEvaluator {
    max_depth: usize,
    ruled_out: RwLock<RuledOut, RuledOutPred>,
}

fn is_set(cancel: &Arc<AtomicBool>) -> (set: bool)
    ensures
        reads(&**cancel, set),
{
    read_flag(&**cancel)
}

/// The nimber, unless it exceeds the bound.
pub fn bounded_exact(nimber: usize, bound: Option<usize>) -> (bounded: BoundedNimber)
    ensures
        bounded == (if bound is Some && nimber > bound->0 {
            BoundedNimber::ExceedsBound
        } else {
            BoundedNimber::Exact(nimber)
        }),
{
    match bound {
        Some(limit) => if nimber > limit {
            BoundedNimber::ExceedsBound
        } else {
            BoundedNimber::Exact(nimber)
        },
        None => BoundedNimber::Exact(nimber),
    }
}

/// The component with the most moves, the last one of several.
fn hardest_component(game: &CanonicalGame, evaluator: &DfsSolver) -> (hardest: usize)
    requires
        game.wf(),
        game@.len() > 0,
    ensures
        hardest < game@.len(),
        forall|i: int|
            0 <= i <= hardest ==> estimated_moves(#[trigger] game@[i]) <= estimated_moves(
                game@[hardest as int],
            ),
        forall|i: int|
            hardest < i < game@.len() ==> estimated_moves(#[trigger] game@[i]) < estimated_moves(
                game@[hardest as int],
            ),
{
    let components: &[BitMatrix] = game.components();
    proof {
        assert(components@[0].wf());
    }
    let mut hardest: usize = 0;
    let mut most: usize = evaluator.generator().estimated_successors(&components[0]);
    let mut k: usize = 1;
    while k < components.len()
        invariant
            components@.len() == game@.len(),
            forall|i: int| 0 <= i < components@.len() ==> (#[trigger] components@[i]).wf(),
            forall|i: int| 0 <= i < components@.len() ==> (#[trigger] components@[i])@ == game@[i],
            hardest < k <= components@.len(),
            most == estimated_moves(game@[hardest as int]),
            forall|i: int| 0 <= i <= hardest ==> estimated_moves(#[trigger] game@[i]) <= most,
            forall|i: int| hardest < i < k ==> estimated_moves(#[trigger] game@[i]) < most,
        decreases components@.len() - k,
    {
        proof {
            assert(components@[k as int].wf());
        }
        let moves: usize = evaluator.generator().estimated_successors(&components[k]);
        if moves >= most {
            hardest = k;
            most = moves;
        }
        k = k + 1;
    }
    hardest
}

impl HybridEvaluator {
    /// Whether the ruled out nimbers are right.
    pub closed spec fn sound(&self) -> bool {
        self.ruled_out.pred().sound
    }

    /// How many moves are looked ahead before an evaluator takes over.
    pub closed spec fn depth(&self) -> usize {
        self.max_depth
    }

    /// Whether nothing has been ruled out yet.
    pub closed spec fn starts_empty(&self) -> bool {
        exists|table: RuledOut| #[trigger]
            starts_with(self.ruled_out, table) && table@ == Map::<Grid, Set<int>>::empty()
    }

    /// For evaluators with right nimbers.
    pub fn new(max_depth: usize) -> (hybrid: Self)
        ensures
            hybrid.sound(),
            hybrid.depth() == max_depth,
            hybrid.starts_empty(),
    {
        Self::with_soundness(max_depth, Ghost(true))
    }

    /// For the given evaluator.
    pub fn for_evaluator(max_depth: usize, evaluator: &DfsSolver) -> (hybrid: Self)
        ensures
            hybrid.sound() == evaluator.sound(),
            hybrid.depth() == max_depth,
            hybrid.starts_empty(),
    {
        Self::with_soundness(max_depth, Ghost(evaluator.sound()))
    }

    fn with_soundness(max_depth: usize, Ghost(sound): Ghost<bool>) -> (hybrid: Self)
        ensures
            hybrid.sound() == sound,
            hybrid.depth() == max_depth,
            hybrid.starts_empty(),
    {
        let ghost pred = RuledOutPred { sound };
        let table = RuledOut::new();
        let ghost empty = table;
        let hybrid = HybridEvaluator { max_depth, ruled_out: new_lock(table, Ghost(pred)) };
        proof {
            assert(starts_with(hybrid.ruled_out, empty));
        }
        hybrid
    }

    /// The nimber of the position that the matrix holds.
    pub fn exact_nimber(
        &self,
        matrix: &BitMatrix,
        evaluator: &DfsSolver,
        cancel: &Arc<AtomicBool>,
    ) -> (found: BoundedNimber)
        requires
            evaluator.wf(),
            matrix.wf(),
            self.sound() == evaluator.sound(),
        ensures
            !(found is ExceedsBound),
            found is Cancelled ==> reads(&**cancel, true),
            !(found is Cancelled) ==> reads(&**cancel, false),
            self.sound() && fits(matrix@.cells) && found is Exact ==> found->Exact_0 == grundy(
                matrix@.cells,
            ),
    {
        let game: CanonicalGame = evaluator.generator().canonicalize(matrix.clone());
        proof {
            crate::grid::lemma_cells_finite(matrix@.cells, matrix@.rows, matrix@.cols);
            if fits(matrix@.cells) {
                lemma_parts_fit(matrix@.cells, game@);
            }
        }
        self.exact_nimber_of_canonical(&game, evaluator, cancel)
    }

    /// The nimber of a game.
    pub fn exact_nimber_of_canonical(
        &self,
        game: &CanonicalGame,
        evaluator: &DfsSolver,
        cancel: &Arc<AtomicBool>,
    ) -> (found: BoundedNimber)
        requires
            evaluator.wf(),
            game.wf(),
            self.sound() == evaluator.sound(),
        ensures
            !(found is ExceedsBound),
            found is Cancelled ==> reads(&**cancel, true),
            !(found is Cancelled) ==> reads(&**cancel, false),
            self.sound() && found is Exact ==> is_total_of(game@, found->Exact_0),
            self.sound() && parts_fit(game@) && found is Exact ==> evaluator.all_settled(game@),
    {
        self.bounded_nimber_of_canonical(game, None, evaluator, cancel)
    }

    /// The nimber of a game, if it does not exceed the bound.
    pub fn bounded_nimber_of_canonical(
        &self,
        game: &CanonicalGame,
        bound: Option<usize>,
        evaluator: &DfsSolver,
        cancel: &Arc<AtomicBool>,
    ) -> (found: BoundedNimber)
        requires
            evaluator.wf(),
            game.wf(),
            self.sound() == evaluator.sound(),
        ensures
            is_within(bound, found),
            found is Cancelled ==> reads(&**cancel, true),
            !(found is Cancelled) ==> reads(&**cancel, false),
            self.sound() ==> is_bounded_nimber(game@, bound, found),
            self.sound() && parts_fit(game@) && found is Exact ==> evaluator.all_settled(game@),
            game@.len() == 1 && found is ExceedsBound ==> self.excludes(
                game@[0],
                bound->0,
                evaluator,
            ),
    {
        self.bounded_game(game, bound, self.max_depth, evaluator, cancel)
    }

    /// Whether the nimber of a game is zero.
    pub fn prove_zero_of_canonical(
        &self,
        game: &CanonicalGame,
        evaluator: &DfsSolver,
        cancel: &Arc<AtomicBool>,
    ) -> (proof_: ZeroProof)
        requires
            evaluator.wf(),
            game.wf(),
            self.sound() == evaluator.sound(),
        ensures
            proof_ is Cancelled ==> reads(&**cancel, true),
            !(proof_ is Cancelled) ==> reads(&**cancel, false),
            self.sound() && parts_fit(game@) && proof_ is Zero ==> nim_total(values(game@)) == 0,
            self.sound() && parts_fit(game@) && proof_ is NonZero ==> nim_total(values(game@)) != 0,
            game@.len() == 1 && proof_ is NonZero ==> self.excludes(game@[0], 0, evaluator),
    {
        match self.bounded_nimber_of_canonical(game, Some(0), evaluator, cancel) {
            BoundedNimber::Exact(nimber) => if nimber == 0 {
                ZeroProof::Zero
            } else {
                ZeroProof::NonZero
            },
            BoundedNimber::ExceedsBound => {
                proof {
                    if self.sound() && parts_fit(game@) {
                        lemma_exceeds_differs(game@, 0);
                    }
                }
                ZeroProof::NonZero
            },
            BoundedNimber::Cancelled => ZeroProof::Cancelled,
        }
    }

    /// Whether the ruled out nimbers are found to be those of `map`.
    pub closed spec fn shows(&self, map: Map<Grid, Set<int>>) -> bool {
        exists|table: RuledOut| #[trigger] finds(&self.ruled_out, table) && table@ == map
    }

    /// Whether `before` is found, and left with `nimber` ruled out for component `g`.
    pub closed spec fn rules_out(
        &self,
        before: Map<Grid, Set<int>>,
        g: Grid,
        nimber: usize,
    ) -> bool {
        exists|found: RuledOut, left: RuledOut|
            {
                &&& #[trigger] replaces(&self.ruled_out, found, left)
                &&& found@ == before
                &&& left@ == if before.dom().len() < usize::MAX {
                    before.insert(g, ruled_out_of(before, g).insert(nimber as int))
                } else {
                    before
                }
            }
    }

    /// Whether `nimber` is found to be ruled out for component `g`, or is ruled out now.
    pub open spec fn is_ruled(&self, g: Grid, nimber: usize) -> bool {
        ||| exists|map: Map<Grid, Set<int>>| #[trigger]
            self.shows(map) && ruled_out_of(map, g).contains(nimber as int)
        ||| exists|before: Map<Grid, Set<int>>| #[trigger] self.rules_out(before, g, nimber)
    }

    /// Whether all nimbers up to the bound are ruled out for component `g`, or the evaluator has
    /// settled a larger one.
    pub open spec fn excludes(&self, g: Grid, bound: usize, evaluator: &DfsSolver) -> bool {
        ||| forall|nimber: usize| nimber <= bound ==> #[trigger] self.is_ruled(g, nimber)
        ||| exists|nimber: usize| nimber > bound && #[trigger] evaluator.settles(g, nimber)
    }

    /// The number of components with ruled out nimbers.
    pub fn ruled_out_cache_len(&self) -> (len: usize)
        ensures
            exists|map: Map<Grid, Set<int>>| #[trigger] self.shows(map) && len == map.dom().len(),
    {
        let handle = enter_to_read(&self.ruled_out);
        let len: usize = handle.borrow().len();
        proof {
            assert(self.shows(handle.view()@));
        }
        handle.release_read();
        len
    }

    fn bounded_game(
        &self,
        game: &CanonicalGame,
        bound: Option<usize>,
        depth: usize,
        evaluator: &DfsSolver,
        cancel: &Arc<AtomicBool>,
    ) -> (found: BoundedNimber)
        requires
            evaluator.wf(),
            game.wf(),
            self.sound() == evaluator.sound(),
        ensures
            is_within(bound, found),
            found is Cancelled ==> reads(&**cancel, true),
            !(found is Cancelled) ==> reads(&**cancel, false),
            self.sound() ==> is_bounded_nimber(game@, bound, found),
            self.sound() && parts_fit(game@) && found is Exact ==> evaluator.all_settled(game@),
            game@.len() == 1 && found is ExceedsBound ==> self.excludes(
                game@[0],
                bound->0,
                evaluator,
            ),
        decreases
                node_count(game@),
                if game@.len() > 1 {
                    4int
                } else {
                    2int
                },
    {
        if is_set(cancel) {
            return BoundedNimber::Cancelled;
        }
        if game.is_empty() {
            proof {
                assert(values(game@).len() == 0);
            }
            return bounded_exact(0, bound);
        }
        if let Some(nimber) = evaluator.cached_nimber_of_canonical(game) {
            proof {
                evaluator.lemma_given_settles(game@, nimber);
                evaluator.lemma_settles_each(game@, nimber);
            }
            return bounded_exact(nimber, bound);
        }
        if game.components().len() > 1 {
            self.bounded_split_game(game, bound, depth, evaluator, cancel)
        } else {
            self.bounded_component(game, bound, depth, evaluator, cancel)
        }
    }

    /// Finds the nimbers of all components but the hardest, and bounds that one accordingly.
    fn bounded_split_game(
        &self,
        game: &CanonicalGame,
        bound: Option<usize>,
        depth: usize,
        evaluator: &DfsSolver,
        cancel: &Arc<AtomicBool>,
    ) -> (found: BoundedNimber)
        requires
            evaluator.wf(),
            game.wf(),
            game@.len() > 1,
            self.sound() == evaluator.sound(),
        ensures
            is_within(bound, found),
            found is Cancelled ==> reads(&**cancel, true),
            !(found is Cancelled) ==> reads(&**cancel, false),
            self.sound() ==> is_bounded_nimber(game@, bound, found),
            self.sound() && parts_fit(game@) && found is Exact ==> evaluator.all_settled(game@),
            game@.len() == 1 && found is ExceedsBound ==> self.excludes(
                game@[0],
                bound->0,
                evaluator,
            ),
        decreases node_count(game@), 3int,
    {
        let hard_index: usize = hardest_component(game, evaluator);
        let ghost truth = self.sound() && parts_fit(game@);
        let count: usize = game.components().len();
        let part_depth: usize = depth.saturating_sub(1);
        let mut modifier: usize = 0;
        let mut index: usize = 0;
        while index < count
            invariant
                evaluator.wf(),
                game.wf(),
                self.sound() == evaluator.sound(),
                truth == (self.sound() && parts_fit(game@)),
                count == game@.len(),
                count > 1,
                hard_index < count,
                index <= count,
                truth ==> modifier == others_total(game@, hard_index as int, index as int),
                truth ==> forall|i: int|
                    0 <= i < index && i != hard_index ==> evaluator.is_settled(#[trigger] game@[i]),
            decreases count - index,
        {
            if index != hard_index {
                let part: CanonicalGame = game.component(index);
                proof {
                    lemma_component(game@, index as int);
                }
                let nimber: usize = match self.bounded_game(
                    &part,
                    None,
                    part_depth,
                    evaluator,
                    cancel,
                ) {
                    BoundedNimber::Exact(nimber) => nimber,
                    BoundedNimber::Cancelled => {
                        return BoundedNimber::Cancelled;
                    },
                    BoundedNimber::ExceedsBound => 0,
                };
                proof {
                    lemma_xor_is_nim_sum(modifier, nimber);
                    assert(part@[0] == game@[index as int]);
                }
                modifier = modifier ^ nimber;
            }
            index = index + 1;
        }
        let adjusted: Option<usize> = match bound {
            Some(bound) => Some(bound | modifier),
            None => None,
        };
        let hard: CanonicalGame = game.component(hard_index);
        proof {
            lemma_component(game@, hard_index as int);
            lemma_others_total(game@, hard_index as int, count as int);
            assert(game@.take(count as int) =~= game@);
        }
        match self.bounded_game(&hard, adjusted, depth, evaluator, cancel) {
            BoundedNimber::Exact(nimber) => {
                proof {
                    lemma_xor_is_nim_sum(modifier, nimber);
                    assert(hard@[0] == game@[hard_index as int]);
                }
                bounded_exact(modifier ^ nimber, bound)
            },
            BoundedNimber::ExceedsBound => {
                proof {
                    if truth {
                        lemma_single_exceeds(hard@, adjusted->0);
                        assert(part_exceeds(game@, hard_index as int, bound->0));
                    }
                }
                BoundedNimber::ExceedsBound
            },
            BoundedNimber::Cancelled => BoundedNimber::Cancelled,
        }
    }

    /// Rules out one nimber after the other until a move to it is found no more.
    fn bounded_component(
        &self,
        game: &CanonicalGame,
        bound: Option<usize>,
        depth: usize,
        evaluator: &DfsSolver,
        cancel: &Arc<AtomicBool>,
    ) -> (found: BoundedNimber)
        requires
            evaluator.wf(),
            game.wf(),
            game@.len() == 1,
            self.sound() == evaluator.sound(),
        ensures
            is_within(bound, found),
            found is Cancelled ==> reads(&**cancel, true),
            !(found is Cancelled) ==> reads(&**cancel, false),
            self.sound() ==> is_bounded_nimber(game@, bound, found),
            self.sound() && parts_fit(game@) && found is Exact ==> evaluator.all_settled(game@),
            game@.len() == 1 && found is ExceedsBound ==> self.excludes(
                game@[0],
                bound->0,
                evaluator,
            ),
        decreases node_count(game@), 1int,
    {
        if depth == 0 {
            return match evaluator.nimber_of_canonical_cancellable(game, cancel) {
                Some(nimber) => {
                    proof {
                        evaluator.lemma_resolved_settles(game@, nimber);
                        evaluator.lemma_settles_each(game@, nimber);
                    }
                    bounded_exact(nimber, bound)
                },
                None => BoundedNimber::Cancelled,
            };
        }
        let components: &[BitMatrix] = game.components();
        let component: &BitMatrix = &components[0];
        let ghost position = game@[0].cells;
        let ghost truth = self.sound() && fits(position);
        proof {
            assert(components@[0].wf());
            crate::grid::lemma_cells_finite(position, game@[0].rows, game@[0].cols);
            lemma_component(game@, 0);
            assert(seq![game@[0]] =~= game@);
            if parts_fit(game@) {
                assert(fits(game@[0].cells));
            }
        }
        let mut impossible: NimberSet = self.cached_impossible(component);
        proof {
            let map = choose|map: Map<Grid, Set<int>>| #[trigger]
                self.shows(map) && impossible@ == ruled_out_of(map, component@);
            assert forall|m: usize| impossible@.contains(m as int) implies #[trigger] self.is_ruled(
                game@[0],
                m,
            ) by {
                assert(self.shows(map));
            }
        }
        let mut candidate: usize = impossible.mex();
        loop
            invariant
                evaluator.wf(),
                game.wf(),
                game@.len() == 1,
                self.sound() == evaluator.sound(),
                component.wf(),
                component@ == game@[0],
                position == component@.cells,
                position.finite(),
                position.len() <= usize::MAX,
                position.len() <= node_count(game@),
                truth == (self.sound() && fits(position)),
                parts_fit(game@) ==> fits(position),
                nim_total(values(game@)) == grundy(position),
                depth > 0,
                impossible.wf(),
                truth ==> forall|n: int| #[trigger]
                    impossible@.contains(n) ==> n >= 0 && reaches(position, n as nat),
                forall|m: int| 0 <= m < candidate ==> #[trigger] impossible@.contains(m),
                forall|m: usize|
                    impossible@.contains(m as int) ==> #[trigger] self.is_ruled(game@[0], m),
            decreases usize::MAX - candidate,
        {
            if is_set(cancel) {
                return BoundedNimber::Cancelled;
            }
            if let Some(bound) = bound {
                if candidate > bound {
                    proof {
                        if truth {
                            lemma_grundy(position);
                            lemma_value_at_least(position, candidate as nat, impossible@);
                        }
                    }
                    return BoundedNimber::ExceedsBound;
                }
            }
            let ruled_out: Option<bool> = self.is_ruled_out(
                component,
                candidate,
                depth,
                evaluator,
                cancel,
                Ghost(node_count(game@)),
            );
            match ruled_out {
                None => {
                    return BoundedNimber::Cancelled;
                },
                Some(true) => {
                    if candidate == usize::MAX {
                        proof {
                            if truth {
                                let t = choose|t: Position|
                                    is_option(position, t) && #[trigger] grundy(t) == candidate;
                                vstd::set_lib::lemma_set_subset_finite(position, t);
                                lemma_grundy(t);
                            }
                        }
                        return bounded_exact(candidate, bound);
                    }
                    impossible.insert(candidate);
                    self.mark_impossible(component, candidate);
                    let ghost before = candidate;
                    candidate = impossible.mex();
                    proof {
                        assert(impossible@.contains(before as int));
                        assert(candidate > before) by {
                            if candidate <= before {
                                assert(impossible@.contains(candidate as int));
                            }
                        }
                    }
                },
                Some(false) => {
                    proof {
                        if truth {
                            assert forall|m: nat| m < candidate implies #[trigger] reaches(
                                position,
                                m,
                            ) by {
                                assert(impossible@.contains(m as int));
                            }
                            lemma_grundy_is(position, candidate as nat);
                        }
                    }
                    evaluator.publish_nimber_of_canonical(game.clone(), candidate);
                    proof {
                        assert(evaluator.is_settled(game@[0]));
                    }
                    return BoundedNimber::Exact(candidate);
                },
            }
        }
    }

    /// Whether a move leads to a position whose nimber is the candidate.
    fn is_ruled_out(
        &self,
        component: &BitMatrix,
        candidate: usize,
        depth: usize,
        evaluator: &DfsSolver,
        cancel: &Arc<AtomicBool>,
        Ghost(size): Ghost<nat>,
    ) -> (ruled_out: Option<bool>)
        requires
            evaluator.wf(),
            component.wf(),
            self.sound() == evaluator.sound(),
            depth > 0,
            component@.cells.finite(),
            component@.cells.len() <= size,
        ensures
            ruled_out is None ==> reads(&**cancel, true),
            self.sound() && fits(component@.cells) && ruled_out == Some(true) ==> reaches(
                component@.cells,
                candidate as nat,
            ),
            self.sound() && fits(component@.cells) && ruled_out == Some(false) ==> forall|
                t: Position,
            | #[trigger]
                is_option(component@.cells, t) ==> grundy(t) != candidate,
        decreases size, 0int,
    {
        let ghost grid = component@;
        let ghost position = grid.cells;
        let ghost truth = self.sound() && fits(position);
        let ghost order = by_nodes_taken(grid);
        let successors: Vec<OrderedSuccessor> = evaluator.generator().ordered_successors(component);
        let mut k: usize = 0;
        while k < successors.len()
            invariant
                evaluator.wf(),
                component.wf(),
                grid == component@,
                position == grid.cells,
                position.finite(),
                position.len() <= size,
                order == by_nodes_taken(grid),
                self.sound() == evaluator.sound(),
                truth == (self.sound() && fits(position)),
                depth > 0,
                successors@.len() == positions(grid).len(),
                order.len() == successors@.len(),
                forall|i: int|
                    0 <= i < successors@.len() ==> (#[trigger] successors@[i]).game.wf()
                        && stands_for(positions(grid)[order[i] as int], successors@[i].game@),
                forall|i: int| 0 <= i < successors@.len() ==> (#[trigger] order[i]) < successors@.len(),
                k <= successors@.len(),
                truth ==> forall|i: int|
                    0 <= i < k ==> grundy(positions(grid)[#[trigger] order[i] as int]) != candidate,
            decreases successors@.len() - k,
        {
            if is_set(cancel) {
                return None;
            }
            let ghost t = positions(grid)[order[k as int] as int];
            let game: &CanonicalGame = &successors[k].game;
            proof {
                assert(successors@[k as int].game.wf());
                assert(order[k as int] < successors@.len());
                lemma_positions_are_options(grid, order[k as int] as int);
                lemma_successor(position, t, game@);
            }
            match self.bounded_game(game, Some(candidate), depth - 1, evaluator, cancel) {
                BoundedNimber::Exact(nimber) => {
                    if nimber == candidate {
                        proof {
                            if truth {
                                assert(is_option(position, t) && grundy(t) == candidate);
                            }
                        }
                        return Some(true);
                    }
                },
                BoundedNimber::ExceedsBound => {
                    proof {
                        if truth {
                            lemma_exceeds_differs(game@, candidate);
                        }
                    }
                },
                BoundedNimber::Cancelled => {
                    return None;
                },
            }
            k = k + 1;
        }
        proof {
            if truth {
                assert forall|t: Position| #[trigger] is_option(position, t) implies grundy(t)
                    != candidate by {
                    lemma_fits_now(position);
                    lemma_both_ways_fit(grid);
                    let i = lemma_positions_cover(grid, t);
                    assert(order.contains(i as usize));
                    let j = choose|j: int| 0 <= j < order.len() && order[j] == i as usize;
                    assert(grundy(positions(grid)[order[j] as int]) != candidate);
                }
            }
        }
        Some(false)
    }

    /// What has been ruled out for a component.
    fn cached_impossible(&self, component: &BitMatrix) -> (impossible: NimberSet)
        requires
            component.wf(),
        ensures
            impossible.wf(),
            exists|map: Map<Grid, Set<int>>| #[trigger]
                self.shows(map) && impossible@ == ruled_out_of(map, component@),
            self.sound() && fits(component@.cells) ==> forall|n: int| #[trigger]
                impossible@.contains(n) ==> n >= 0 && reaches(component@.cells, n as nat),
    {
        let handle = enter_to_read(&self.ruled_out);
        let impossible: NimberSet = handle.borrow().get(component);
        proof {
            let map = handle.view()@;
            assert(self.shows(map));
            if map.contains_key(component@) {
                assert(impossible@ == map[component@]);
            }
        }
        handle.release_read();
        impossible
    }

    /// Rules a nimber out for a component, if there is room for one more component.
    fn mark_impossible(&self, component: &BitMatrix, nimber: usize)
        requires
            component.wf(),
            self.sound() && fits(component@.cells) ==> reaches(component@.cells, nimber as nat),
        ensures
            exists|before: Map<Grid, Set<int>>| #[trigger]
                self.rules_out(before, component@, nimber),
    {
        let (mut table, handle) = enter_to_write(&self.ruled_out);
        let ghost found = table;
        let ghost held = handle;
        if table.len() < usize::MAX {
            table.mark(component, nimber);
        }
        let ghost left = table;
        leave(handle, table);
        proof {
            assert(enters(&self.ruled_out, found, held) && leaves(held, left));
            assert(replaces(&self.ruled_out, found, left));
            assert(self.rules_out(found@, component@, nimber));
        }
    }
}

/// One component of a game, taken for itself.
proof fn lemma_component(parts: Seq<Grid>, i: int)
    requires
        0 <= i < parts.len(),
    ensures
        node_count(seq![parts[i]]) <= node_count(parts),
        parts[i].cells.len() <= node_count(parts),
        parts_fit(parts) ==> parts_fit(seq![parts[i]]),
        nim_total(values(seq![parts[i]])) == grundy(parts[i].cells),
{
    let single = seq![parts[i]];
    crate::worker_result::lemma_part_smaller(parts, i);
    reveal_with_fuel(node_count, 2);
    assert(single.drop_last() =~= Seq::empty());
    assert(single.last() == parts[i]);
    reveal_with_fuel(nim_total, 2);
    assert(values(single).drop_last() =~= Seq::empty());
    assert(values(single).last() == grundy(parts[i].cells));
}

/// Where moves reach all lower numbers, the nimber is not lower.
proof fn lemma_value_at_least(position: Position, least: nat, reached: Set<int>)
    requires
        position.finite(),
        forall|n: int| #[trigger] reached.contains(n) ==> n >= 0 && reaches(position, n as nat),
        forall|m: int| 0 <= m < least ==> #[trigger] reached.contains(m),
    ensures
        grundy(position) >= least,
{
    lemma_grundy(position);
    if grundy(position) < least {
        assert(reached.contains(grundy(position) as int));
    }
}

} // verus!
