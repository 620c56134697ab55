//! Lists of indices: those that satisfy a condition, and all of them in sorted order.
use vstd::prelude::*;
use vstd::relations::{sorted_by, total_ordering};

verus! {

/// The indices below `n` that `keep` holds of, in ascending order.
pub open spec fn listed(n: nat, keep: spec_fn(int) -> bool) -> Seq<usize>
    decreases n,
{
    if n == 0 {
        Seq::empty()
    } else {
        let less = listed((n - 1) as nat, keep);
        if keep(n - 1) {
            less.push((n - 1) as usize)
        } else {
            less
        }
    }
}

/// Whether `list` holds the indices below `n` that `keep` holds of, in ascending order.
pub open spec fn lists(list: Seq<usize>, n: nat, keep: spec_fn(int) -> bool) -> bool {
    &&& forall|i: int| 0 <= i < list.len() ==> (#[trigger] list[i]) < n && keep(list[i] as int)
    &&& forall|i: int, j: int| 0 <= i < j < list.len() ==> #[trigger] list[i] < #[trigger] list[j]
    &&& forall|x: int| 0 <= x < n && keep(x) ==> #[trigger] list.contains(x as usize)
}

/// What `listed` holds.
pub proof fn lemma_listed(n: nat, keep: spec_fn(int) -> bool)
    requires
        n <= usize::MAX,
    ensures
        lists(listed(n, keep), n, keep),
        listed(n, keep).len() <= n,
    decreases n,
{
    if n > 0 {
        let less = listed((n - 1) as nat, keep);
        let list = listed(n, keep);
        lemma_listed((n - 1) as nat, keep);
        assert forall|x: int| 0 <= x < n && keep(x) implies #[trigger] list.contains(x as usize) by {
            if x < n - 1 {
                assert(less.contains(x as usize));
                let i = choose|i: int| 0 <= i < less.len() && less[i] == x as usize;
                assert(list[i] == x as usize);
            } else {
                assert(list[list.len() - 1] == x as usize);
            }
        }
    }
}

/// There is only one ascending list of the indices that `keep` holds of.
pub proof fn lemma_lists_unique(a: Seq<usize>, b: Seq<usize>, n: nat, keep: spec_fn(int) -> bool)
    requires
        lists(a, n, keep),
        lists(b, n, keep),
        n <= usize::MAX,
    ensures
        a == b,
    decreases a.len() + b.len(),
{
    if a.len() == 0 {
        if b.len() > 0 {
            assert(a.contains(b[0] as int as usize));
        }
        assert(a =~= b);
    } else if b.len() == 0 {
        assert(b.contains(a[0] as int as usize));
    } else {
        let x = a.last();
        let y = b.last();
        assert(b.contains(x as int as usize));
        assert(a.contains(y as int as usize));
        let i = choose|i: int| 0 <= i < b.len() && b[i] == x;
        let j = choose|j: int| 0 <= j < a.len() && a[j] == y;
        assert(x == y) by {
            if i < b.len() - 1 {
                assert(b[i] < b[b.len() - 1]);
            }
            if j < a.len() - 1 {
                assert(a[j] < a[a.len() - 1]);
            }
        }
        let other = |k: int| keep(k) && k != x;
        assert(lists(a.drop_last(), n, other)) by {
            lemma_lists_without_last(a, n, keep, other);
        }
        assert(lists(b.drop_last(), n, other)) by {
            lemma_lists_without_last(b, n, keep, other);
        }
        lemma_lists_unique(a.drop_last(), b.drop_last(), n, other);
        assert(a =~= a.drop_last().push(x));
        assert(b =~= b.drop_last().push(y));
    }
}

proof fn lemma_lists_without_last(
    a: Seq<usize>,
    n: nat,
    keep: spec_fn(int) -> bool,
    other: spec_fn(int) -> bool,
)
    requires
        lists(a, n, keep),
        n <= usize::MAX,
        a.len() > 0,
        forall|k: int| #[trigger] other(k) == (keep(k) && k != a.last()),
    ensures
        lists(a.drop_last(), n, other),
{
    let less = a.drop_last();
    assert forall|i: int| 0 <= i < less.len() implies (#[trigger] less[i]) < n && other(
        less[i] as int,
    ) by {
        assert(less[i] == a[i]);
        assert(a[i] < a[a.len() - 1]);
    }
    assert forall|x: int| 0 <= x < n && other(x) implies #[trigger] less.contains(x as usize) by {
        assert(a.contains(x as usize));
        let i = choose|i: int| 0 <= i < a.len() && a[i] == x as usize;
        assert(a[i] == x as usize && (x as usize) as int == x);
        assert(less[i] == x as usize);
    }
}

/// An ascending list of the indices that `keep` holds of is the one named by `keep`.
pub proof fn lemma_lists_is_listed(list: Seq<usize>, n: nat, keep: spec_fn(int) -> bool)
    requires
        lists(list, n, keep),
        n <= usize::MAX,
    ensures
        list == listed(n, keep),
{
    lemma_listed(n, keep);
    lemma_lists_unique(list, listed(n, keep), n, keep);
}

/// Whether `lt` ranks the indices below `n`: a strict order in which indices may tie.
pub open spec fn is_ranking(n: nat, lt: spec_fn(int, int) -> bool) -> bool {
    &&& forall|i: int, j: int|
        0 <= i < n && 0 <= j < n ==> !(#[trigger] lt(i, j) && lt(j, i))
    &&& forall|i: int, j: int, k: int|
        0 <= i < n && 0 <= j < n && 0 <= k < n && !(#[trigger] lt(j, i)) && !(#[trigger] lt(k, j))
            ==> !lt(k, i)
}

/// Whether index `i` goes before index `j`: it ranks lower, or they tie and it is smaller.
pub open spec fn goes_first(lt: spec_fn(int, int) -> bool, i: int, j: int) -> bool {
    lt(i, j) || (!lt(j, i) && i < j)
}

/// Whether `order` holds indices in the order that `lt` gives.
pub open spec fn in_order(order: Seq<usize>, lt: spec_fn(int, int) -> bool) -> bool {
    forall|i: int, j: int|
        0 <= i < j < order.len() ==> goes_first(
            lt,
            #[trigger] order[i] as int,
            #[trigger] order[j] as int,
        )
}

/// Whether `order` holds each index below `n` once.
pub open spec fn is_permutation(order: Seq<usize>, n: nat) -> bool {
    &&& order.len() == n
    &&& order.no_duplicates()
    &&& forall|i: int| 0 <= i < n ==> #[trigger] order[i] < n
}

/// Whether `order` holds the indices below `n` in the order that `lt` gives.
pub open spec fn is_sorting(order: Seq<usize>, n: nat, lt: spec_fn(int, int) -> bool) -> bool {
    is_permutation(order, n) && in_order(order, lt)
}

/// The indices below `n` in the order that `lt` gives.
pub open spec fn sorting(n: nat, lt: spec_fn(int, int) -> bool) -> Seq<usize> {
    choose|order: Seq<usize>| is_sorting(order, n, lt)
}

proof fn lemma_range_set(n: nat) -> (range: Set<usize>)
    requires
        n <= usize::MAX,
    ensures
        range.finite(),
        range.len() == n,
        forall|x: usize| #[trigger] range.contains(x) <==> x < n,
    decreases n,
{
    if n == 0 {
        Set::empty()
    } else {
        let less = lemma_range_set((n - 1) as nat);
        less.insert((n - 1) as usize)
    }
}

/// A permutation holds every index.
pub proof fn lemma_permutation_covers(order: Seq<usize>, n: nat)
    requires
        is_permutation(order, n),
        n <= usize::MAX,
    ensures
        forall|x: int| 0 <= x < n ==> order.contains(#[trigger] (x as usize)),
{
    let held = order.to_set();
    let range = lemma_range_set(n);
    order.unique_seq_to_set();
    vstd::seq_lib::seq_to_set_is_finite(order);
    assert(held.subset_of(range)) by {
        assert forall|y: usize| held.contains(y) implies range.contains(y) by {
            let i = choose|i: int| 0 <= i < order.len() && order[i] == y;
            assert(order[i] < n);
        }
    }
    vstd::set_lib::lemma_subset_equality(held, range);
    assert forall|x: int| 0 <= x < n implies order.contains(#[trigger] (x as usize)) by {
        assert(range.contains(x as usize));
    }
}

proof fn lemma_goes_first(n: nat, lt: spec_fn(int, int) -> bool, i: int, j: int, k: int)
    requires
        is_ranking(n, lt),
        0 <= i < n,
        0 <= j < n,
        0 <= k < n,
    ensures
        !goes_first(lt, i, i),
        !(goes_first(lt, i, j) && goes_first(lt, j, i)),
        goes_first(lt, i, j) && goes_first(lt, j, k) ==> goes_first(lt, i, k),
{
    assert(!(lt(i, i) && lt(i, i)));
    assert(!(lt(i, j) && lt(j, i)));
    assert(!(lt(k, j) && lt(j, k)));
    assert(!(lt(k, i) && lt(i, k)));
    if goes_first(lt, i, j) && goes_first(lt, j, k) {
        assert(!lt(j, i) && !lt(k, j));
        assert(!lt(k, i));
        if !lt(i, k) {
            if lt(i, j) {
                assert(!lt(i, k) && !lt(k, j) ==> !lt(i, j));
            }
            if lt(j, k) {
                assert(!lt(j, i) && !lt(i, k) ==> !lt(j, k));
            }
        }
    }
}

proof fn lemma_sorting_agrees(
    a: Seq<usize>,
    b: Seq<usize>,
    n: nat,
    lt: spec_fn(int, int) -> bool,
    k: int,
)
    requires
        is_sorting(a, n, lt),
        is_sorting(b, n, lt),
        is_ranking(n, lt),
        n <= usize::MAX,
        0 <= k <= n,
    ensures
        forall|i: int| 0 <= i < k ==> #[trigger] a[i] == b[i],
    decreases k,
{
    if k > 0 {
        let p = k - 1;
        lemma_sorting_agrees(a, b, n, lt, p);
        if a[p] != b[p] {
            lemma_permutation_covers(a, n);
            lemma_permutation_covers(b, n);
            assert(b.contains((a[p] as int) as usize));
            assert(a.contains((b[p] as int) as usize));
            let i = choose|i: int| 0 <= i < b.len() && b[i] == a[p];
            let j = choose|j: int| 0 <= j < a.len() && a[j] == b[p];
            assert(i > p) by {
                if i < p {
                    assert(a[i] == b[i]);
                }
            }
            assert(j > p) by {
                if j < p {
                    assert(a[j] == b[j]);
                }
            }
            assert(goes_first(lt, b[p] as int, b[i] as int));
            assert(goes_first(lt, a[p] as int, a[j] as int));
            lemma_goes_first(n, lt, a[p] as int, b[p] as int, b[p] as int);
        }
    }
}

/// Puts index `n - 1` into the order of the smaller ones.
proof fn lemma_insert(order: Seq<usize>, n: nat, lt: spec_fn(int, int) -> bool, at: int) -> (more: Seq<
    usize,
>)
    requires
        0 < n <= usize::MAX,
        is_ranking(n, lt),
        is_sorting(order, (n - 1) as nat, lt),
        0 <= at <= order.len(),
        forall|i: int| at <= i < order.len() ==> lt(n - 1, #[trigger] order[i] as int),
    ensures
        is_sorting(more, n, lt),
    decreases at,
{
    let x = (n - 1) as usize;
    if at == 0 || !lt(x as int, order[at - 1] as int) {
        let more = order.insert(at, x);
        assert forall|i: int| 0 <= i < at implies goes_first(lt, #[trigger] order[i] as int, x as int) by {
            let y = order[at - 1] as int;
            assert(goes_first(lt, y, x as int));
            if i < at - 1 {
                assert(goes_first(lt, order[i] as int, y));
                lemma_goes_first(n, lt, order[i] as int, y, x as int);
            }
        }
        assert forall|i: int, j: int| 0 <= i < j < more.len() implies goes_first(
            lt,
            #[trigger] more[i] as int,
            #[trigger] more[j] as int,
        ) by {
            let a = if i < at {
                i
            } else {
                i - 1
            };
            let b = if j < at {
                j
            } else {
                j - 1
            };
            if i == at {
                assert(more[j] == order[b]);
            } else if j == at {
                assert(more[i] == order[a]);
            } else {
                assert(more[i] == order[a] && more[j] == order[b]);
            }
        }
        assert(more.no_duplicates()) by {
            assert forall|i: int, j: int|
                0 <= i < more.len() && 0 <= j < more.len() && i != j implies more[i] != more[j] by {
                let a = if i < at {
                    i
                } else {
                    i - 1
                };
                let b = if j < at {
                    j
                } else {
                    j - 1
                };
                if i == at {
                    assert(more[j] == order[b]);
                } else if j == at {
                    assert(more[i] == order[a]);
                } else {
                    assert(more[i] == order[a] && more[j] == order[b]);
                }
            }
        }
        assert forall|i: int| 0 <= i < n implies #[trigger] more[i] < n by {
            if i < at {
                assert(more[i] == order[i]);
            } else if i > at {
                assert(more[i] == order[i - 1]);
            }
        }
        more
    } else {
        lemma_insert(order, n, lt, at - 1)
    }
}

proof fn lemma_sorting_built(n: nat, lt: spec_fn(int, int) -> bool) -> (order: Seq<usize>)
    requires
        n <= usize::MAX,
        is_ranking(n, lt),
    ensures
        is_sorting(order, n, lt),
    decreases n,
{
    if n == 0 {
        Seq::empty()
    } else {
        let less = lemma_sorting_built((n - 1) as nat, lt);
        lemma_insert(less, n, lt, less.len() as int)
    }
}

/// A ranking gives an order.
pub proof fn lemma_sorting_exists(n: nat, lt: spec_fn(int, int) -> bool)
    requires
        n <= usize::MAX,
        is_ranking(n, lt),
    ensures
        is_sorting(sorting(n, lt), n, lt),
{
    let order = lemma_sorting_built(n, lt);
    assert(is_sorting(order, n, lt));
}

/// There is only one order that `lt` gives.
pub proof fn lemma_is_sorting(order: Seq<usize>, n: nat, lt: spec_fn(int, int) -> bool)
    requires
        is_sorting(order, n, lt),
        is_ranking(n, lt),
        n <= usize::MAX,
    ensures
        order == sorting(n, lt),
{
    let named = sorting(n, lt);
    assert(is_sorting(named, n, lt));
    lemma_sorting_agrees(order, named, n, lt, n as int);
    assert(order =~= named);
}

/// Whether `less` decides `lt` on the indices below `n`.
pub open spec fn decides<F: Fn(usize, usize) -> bool>(
    less: F,
    n: nat,
    lt: spec_fn(int, int) -> bool,
) -> bool {
    &&& forall|i: usize, j: usize|
        i < n && j < n ==> #[trigger] less.requires((i, j))
    &&& forall|i: usize, j: usize, b: bool|
        i < n && j < n && #[trigger] less.ensures((i, j), b) ==> b == lt(i as int, j as int)
}

/// The indices from `from` up to `to` in the order that `less` decides.
fn sort_range<F: Fn(usize, usize) -> bool>(
    from: usize,
    to: usize,
    less: &F,
    Ghost(n): Ghost<nat>,
    Ghost(lt): Ghost<spec_fn(int, int) -> bool>,
) -> (order: Vec<usize>)
    requires
        from <= to <= n,
        is_ranking(n, lt),
        decides(*less, n, lt),
    ensures
        order@.len() == to - from,
        forall|i: int| 0 <= i < order@.len() ==> from <= #[trigger] order@[i] < to,
        in_order(order@, lt),
    decreases to - from,
{
    let mut order: Vec<usize> = Vec::new();
    if to - from == 0 {
        return order;
    }
    if to - from == 1 {
        order.push(from);
        return order;
    }
    let middle: usize = from + (to - from) / 2;
    let left: Vec<usize> = sort_range(from, middle, less, Ghost(n), Ghost(lt));
    let right: Vec<usize> = sort_range(middle, to, less, Ghost(n), Ghost(lt));
    let mut i: usize = 0;
    let mut j: usize = 0;
    while i < left.len() || j < right.len()
        invariant
            from <= middle <= to <= n,
            is_ranking(n, lt),
            decides(*less, n, lt),
            left@.len() == middle - from,
            right@.len() == to - middle,
            forall|k: int| 0 <= k < left@.len() ==> from <= #[trigger] left@[k] < middle,
            forall|k: int| 0 <= k < right@.len() ==> middle <= #[trigger] right@[k] < to,
            in_order(left@, lt),
            in_order(right@, lt),
            i <= left@.len(),
            j <= right@.len(),
            order@.len() == i + j,
            forall|k: int| 0 <= k < order@.len() ==> from <= #[trigger] order@[k] < to,
            in_order(order@, lt),
            forall|k: int, m: int|
                0 <= k < order@.len() && i <= m < left@.len() ==> goes_first(
                    lt,
                    #[trigger] order@[k] as int,
                    #[trigger] left@[m] as int,
                ),
            forall|k: int, m: int|
                0 <= k < order@.len() && j <= m < right@.len() ==> goes_first(
                    lt,
                    #[trigger] order@[k] as int,
                    #[trigger] right@[m] as int,
                ),
        decreases left@.len() - i + right@.len() - j,
    {
        let take_right: bool = if i == left.len() {
            true
        } else if j == right.len() {
            false
        } else {
            less(right[j], left[i])
        };
        let ghost before = order@;
        if take_right {
            let next: usize = right[j];
            proof {
                assert forall|m: int| i <= m < left@.len() implies goes_first(
                    lt,
                    next as int,
                    #[trigger] left@[m] as int,
                ) by {
                    assert(goes_first(lt, next as int, left@[i as int] as int));
                    if m > i {
                        lemma_goes_first(n, lt, next as int, left@[i as int] as int, left@[m] as int);
                    }
                }
            }
            order.push(next);
            j = j + 1;
        } else {
            let next: usize = left[i];
            proof {
                assert forall|m: int| j <= m < right@.len() implies goes_first(
                    lt,
                    next as int,
                    #[trigger] right@[m] as int,
                ) by {
                    assert(goes_first(lt, next as int, right@[j as int] as int));
                    if m > j {
                        lemma_goes_first(n, lt, next as int, right@[j as int] as int, right@[m] as int);
                    }
                }
            }
            order.push(next);
            i = i + 1;
        }
    }
    order
}

/// The indices below `n` in the order that `less` decides, smaller ones first where they tie.
pub fn sort_indices<F: Fn(usize, usize) -> bool>(
    n: usize,
    less: &F,
    Ghost(lt): Ghost<spec_fn(int, int) -> bool>,
) -> (order: Vec<usize>)
    requires
        is_ranking(n as nat, lt),
        decides(*less, n as nat, lt),
    ensures
        order@ == sorting(n as nat, lt),
        is_sorting(order@, n as nat, lt),
{
    let order: Vec<usize> = sort_range(0, n, less, Ghost(n as nat), Ghost(lt));
    proof {
        assert forall|i: int, j: int|
            0 <= i < order@.len() && 0 <= j < order@.len() && i != j implies order@[i]
            != order@[j] by {
            if i < j {
                assert(goes_first(lt, order@[i] as int, order@[j] as int));
            } else {
                assert(goes_first(lt, order@[j] as int, order@[i] as int));
            }
            lemma_goes_first(n as nat, lt, order@[i] as int, order@[j] as int, order@[j] as int);
        }
        lemma_is_sorting(order@, n as nat, lt);
    }
    order
}

/// The usual order of numbers.
pub open spec fn number_leq() -> spec_fn(usize, usize) -> bool {
    |a: usize, b: usize| a <= b
}

/// The numbers of `numbers` in ascending order.
pub open spec fn ascending(numbers: Seq<usize>) -> Seq<usize> {
    numbers.sort_by(number_leq())
}

/// The rank of places in `numbers` by the number there.
pub open spec fn by_number(numbers: Seq<usize>) -> spec_fn(int, int) -> bool {
    |i: int, j: int| numbers[i] < numbers[j]
}

/// A ranking by number is a ranking.
pub proof fn lemma_by_number(numbers: Seq<usize>)
    ensures
        is_ranking(numbers.len(), by_number(numbers)),
{
}

/// Values at paired places are the same collection: `pair` matches the places of `a` with those
/// of `b`, and `f` has at a place the value that `g` has at its match.
pub proof fn lemma_paired_values<A, B, V>(
    a: Seq<A>,
    b: Seq<B>,
    pair: spec_fn(A) -> B,
    f: spec_fn(A) -> V,
    g: spec_fn(B) -> V,
)
    requires
        a.len() == b.len(),
        a.no_duplicates(),
        b.no_duplicates(),
        forall|i: int| 0 <= i < a.len() ==> b.contains(#[trigger] pair(a[i])),
        forall|i: int, j: int|
            0 <= i < a.len() && 0 <= j < a.len() && i != j ==> #[trigger] pair(a[i])
                != #[trigger] pair(a[j]),
        forall|i: int| 0 <= i < a.len() ==> #[trigger] f(a[i]) == g(pair(a[i])),
    ensures
        a.map_values(f).to_multiset() == b.map_values(g).to_multiset(),
    decreases a.len(),
{
    broadcast use vstd::seq_lib::group_to_multiset_ensures;

    if a.len() == 0 {
        assert(a.map_values(f) =~= Seq::<V>::empty());
        assert(b.map_values(g) =~= Seq::<V>::empty());
    } else {
        let last = a.len() - 1;
        let x = a[last];
        let fewer = a.drop_last();
        let j = choose|j: int| 0 <= j < b.len() && b[j] == pair(x);
        let rest = b.remove(j);
        assert forall|i: int| 0 <= i < fewer.len() implies rest.contains(#[trigger] pair(fewer[i])) by {
            assert(fewer[i] == a[i]);
            assert(b.contains(pair(a[i])));
            let k = choose|k: int| 0 <= k < b.len() && b[k] == pair(a[i]);
            assert(pair(a[i]) != pair(a[last]));
            if k < j {
                assert(rest[k] == b[k]);
            } else {
                assert(rest[k - 1] == b[k]);
            }
        }
        assert forall|i: int, k: int|
            0 <= i < fewer.len() && 0 <= k < fewer.len() && i != k implies #[trigger] pair(fewer[i])
            != #[trigger] pair(fewer[k]) by {
            assert(fewer[i] == a[i] && fewer[k] == a[k]);
        }
        assert forall|i: int| 0 <= i < fewer.len() implies #[trigger] f(fewer[i]) == g(
            pair(fewer[i]),
        ) by {
            assert(fewer[i] == a[i]);
        }
        lemma_paired_values(fewer, rest, pair, f, g);
        assert(a.map_values(f) =~= fewer.map_values(f).push(f(x)));
        assert(rest.map_values(g) =~= b.map_values(g).remove(j));
        assert(b.map_values(g)[j] == f(x));
        assert(b.map_values(g).to_multiset() =~= rest.map_values(g).to_multiset().insert(f(x)));
    }
}

/// Reading the values of `values` in a different order keeps their collection.
pub proof fn lemma_gathered<V>(values: Seq<V>, order: Seq<usize>)
    requires
        is_permutation(order, values.len()),
        values.len() <= usize::MAX,
    ensures
        Seq::new(values.len(), |k: int| values[order[k] as int]).to_multiset()
            == values.to_multiset(),
{
    let n = values.len();
    let places = Seq::new(n, |k: int| k as usize);
    let f = |k: usize| values[k as int];
    let same = |k: usize| k;
    lemma_permutation_covers(order, n);
    assert forall|i: int| 0 <= i < order.len() implies places.contains(#[trigger] same(order[i])) by {
        assert(places[order[i] as int] == order[i]);
    }
    lemma_paired_values(order, places, same, f, f);
    assert(places.map_values(f) =~= values);
    assert(order.map_values(f) =~= Seq::new(n, |k: int| values[order[k] as int]));
}

/// Ascending numbers with the same collection as `numbers` are `numbers` in ascending order.
pub proof fn lemma_is_ascending(sorted: Seq<usize>, numbers: Seq<usize>)
    requires
        sorted.to_multiset() == numbers.to_multiset(),
        forall|i: int, j: int| 0 <= i < j < sorted.len() ==> #[trigger] sorted[i] <= #[trigger] sorted[j],
    ensures
        sorted == ascending(numbers),
{
    let leq = number_leq();
    assert(total_ordering(leq));
    numbers.lemma_sort_by_ensures(leq);
    assert(sorted_by(sorted, leq));
    vstd::seq_lib::lemma_sorted_unique(sorted, ascending(numbers), leq);
}

/// Numbers with the same collection are the same in ascending order.
pub proof fn lemma_ascending_same(a: Seq<usize>, b: Seq<usize>)
    requires
        a.to_multiset() == b.to_multiset(),
    ensures
        ascending(a) == ascending(b),
{
    let leq = number_leq();
    assert(total_ordering(leq));
    a.lemma_sort_by_ensures(leq);
    b.lemma_sort_by_ensures(leq);
    vstd::seq_lib::lemma_sorted_unique(ascending(a), ascending(b), leq);
}

/// The numbers in ascending order.
pub fn sort_numbers(numbers: &Vec<usize>) -> (sorted: Vec<usize>)
    ensures
        sorted@ == ascending(numbers@),
{
    let less = |i: usize, j: usize| -> (b: bool)
        requires
            i < numbers@.len(),
            j < numbers@.len(),
        ensures
            b == (numbers@[i as int] < numbers@[j as int]),
        { numbers[i] < numbers[j] };
    let ghost lt = by_number(numbers@);
    proof {
        lemma_by_number(numbers@);
        assert(numbers@.len() == numbers.len());
    }
    let order: Vec<usize> = sort_indices(numbers.len(), &less, Ghost(lt));
    let mut sorted: Vec<usize> = Vec::new();
    let mut k: usize = 0;
    while k < order.len()
        invariant
            k <= order@.len(),
            is_permutation(order@, numbers@.len()),
            sorted@.len() == k,
            forall|i: int| 0 <= i < k ==> #[trigger] sorted@[i] == numbers@[order@[i] as int],
        decreases order@.len() - k,
    {
        proof {
            assert(order@[k as int] < numbers@.len());
        }
        sorted.push(numbers[order[k]]);
        k = k + 1;
    }
    proof {
        lemma_gathered(numbers@, order@);
        assert(sorted@ =~= Seq::new(numbers@.len(), |k: int| numbers@[order@[k] as int]));
        assert forall|i: int, j: int| 0 <= i < j < sorted@.len() implies #[trigger] sorted@[i]
            <= #[trigger] sorted@[j] by {
            assert(goes_first(lt, order@[i] as int, order@[j] as int));
        }
        lemma_is_ascending(sorted@, numbers@);
    }
    sorted
}

} // verus!
