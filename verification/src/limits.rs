//! Positions whose moves a machine word can count.
use crate::nim::{isomorphic, keeps_lines, relabels, swaps_lines, Position};
use vstd::prelude::*;

verus! {

/// The position with its two families of lines exchanged.
pub open spec fn flipped(s: Position) -> Position {
    Set::new(|p: (int, int)| s.contains((p.1, p.0)))
}

/// Whether columns `a` and `b` hold nodes of `s` in the same rows.
pub open spec fn cols_alike(s: Position, a: int, b: int) -> bool {
    forall|r: int| #[trigger] s.contains((r, a)) <==> #[trigger] s.contains((r, b))
}

/// Whether `classes` are different classes of interchangeable nodes of one row of `s`.
pub open spec fn row_classes(s: Position, classes: Seq<Position>) -> bool {
    &&& forall|i: int| 0 <= i < classes.len() ==> (#[trigger] classes[i]).subset_of(s)
    &&& forall|i: int, j: int, p: (int, int), q: (int, int)|
        0 <= i < classes.len() && 0 <= j < classes.len() && #[trigger] classes[i].contains(p)
            && #[trigger] classes[j].contains(q) ==> p.0 == q.0 && (i == j <==> cols_alike(
            s,
            p.1,
            q.1,
        ))
}

/// In how many ways a number of nodes can be taken from each class.
pub open spec fn choices(classes: Seq<Position>) -> nat
    decreases classes.len(),
{
    if classes.len() == 0 {
        1
    } else {
        choices(classes.drop_last()) * (classes.last().len() + 1)
    }
}

/// Whether a machine word can count the ways to take nodes from one row of `s`, where interchangeable
/// nodes are not told apart.
pub open spec fn own_rows_fit(s: Position) -> bool {
    forall|classes: Seq<Position>| #[trigger]
        row_classes(s, classes) ==> choices(classes) <= usize::MAX
}

/// Whether a machine word can count the ways to take nodes from one line of `s`, where interchangeable
/// nodes are not told apart.
pub open spec fn moves_fit(s: Position) -> bool {
    own_rows_fit(s) && own_rows_fit(flipped(s))
}

/// Whether, in `s` and in every position that can be reached from it, a machine word can count the
/// ways to take nodes from one row, where interchangeable nodes are not told apart.
pub open spec fn rows_fit(s: Position) -> bool {
    forall|t: Position, classes: Seq<Position>|
        t.subset_of(s) && #[trigger] row_classes(t, classes) ==> choices(classes) <= usize::MAX
}

/// Whether, in `s` and in every position that can be reached from it, a machine word can count the
/// ways to take nodes from one line, where interchangeable nodes are not told apart.
pub open spec fn fits(s: Position) -> bool {
    rows_fit(s) && rows_fit(flipped(s))
}

/// A machine word can count the moves of a position that fits.
pub proof fn lemma_fits_now(s: Position)
    requires
        fits(s),
    ensures
        moves_fit(s),
{
    assert(s.subset_of(s) && flipped(s).subset_of(flipped(s)));
}

/// What can be reached from a position that fits, fits.
pub proof fn lemma_fits_part(s: Position, t: Position)
    requires
        fits(s),
        t.subset_of(s),
    ensures
        fits(t),
{
    assert(flipped(t).subset_of(flipped(s)));
    assert forall|u: Position, classes: Seq<Position>|
        u.subset_of(t) && #[trigger] row_classes(u, classes) implies choices(classes)
        <= usize::MAX by {
        assert(u.subset_of(s));
    }
    assert forall|u: Position, classes: Seq<Position>|
        u.subset_of(flipped(t)) && #[trigger] row_classes(u, classes) implies choices(classes)
        <= usize::MAX by {
        assert(u.subset_of(flipped(s)));
    }
}

proof fn lemma_alike_mapped(
    u: Position,
    f: spec_fn((int, int)) -> (int, int),
    p: (int, int),
    q: (int, int),
)
    requires
        keeps_lines(u, f),
        u.contains(p),
        u.contains(q),
    ensures
        cols_alike(u, p.1, q.1) <==> cols_alike(u.map(f), f(p).1, f(q).1),
{
    let t = u.map(f);
    if cols_alike(u, p.1, q.1) {
        assert forall|r: int| #[trigger] t.contains((r, f(p).1)) <==> #[trigger] t.contains(
            (r, f(q).1),
        ) by {
            if t.contains((r, f(p).1)) {
                let x = choose|x: (int, int)| u.contains(x) && f(x) == (r, f(p).1);
                assert(x.1 == p.1);
                assert(u.contains((x.0, p.1)));
                let y = (x.0, q.1);
                assert(u.contains(y));
                assert(t.contains(f(y)));
                assert(f(y) == (r, f(q).1));
            }
            if t.contains((r, f(q).1)) {
                let x = choose|x: (int, int)| u.contains(x) && f(x) == (r, f(q).1);
                assert(x.1 == q.1);
                assert(u.contains((x.0, q.1)));
                let y = (x.0, p.1);
                assert(u.contains(y));
                assert(t.contains(f(y)));
                assert(f(y) == (r, f(p).1));
            }
        }
    }
    if cols_alike(t, f(p).1, f(q).1) {
        assert forall|r: int| #[trigger] u.contains((r, p.1)) <==> #[trigger] u.contains(
            (r, q.1),
        ) by {
            if u.contains((r, p.1)) {
                lemma_alike_moves(u, f, p, q, r);
            }
            if u.contains((r, q.1)) {
                lemma_alike_moves(u, f, q, p, r);
            }
        }
    }
}

proof fn lemma_alike_moves(
    u: Position,
    f: spec_fn((int, int)) -> (int, int),
    p: (int, int),
    q: (int, int),
    r: int,
)
    requires
        keeps_lines(u, f),
        u.contains(p),
        u.contains(q),
        u.contains((r, p.1)),
        cols_alike(u.map(f), f(p).1, f(q).1) || cols_alike(u.map(f), f(q).1, f(p).1),
    ensures
        u.contains((r, q.1)),
{
    let t = u.map(f);
    let x = (r, p.1);
    assert(t.contains(f(x)));
    assert(f(x).1 == f(p).1);
    assert(t.contains((f(x).0, f(p).1)));
    assert(t.contains((f(x).0, f(q).1)));
    let y = choose|y: (int, int)| u.contains(y) && f(y) == (f(x).0, f(q).1);
    assert(f(y).0 == f(x).0 && f(y).1 == f(q).1);
    assert(y == (r, q.1));
}

/// The nodes of `a` that `f` sends into `t`.
spec fn pulled(a: Position, f: spec_fn((int, int)) -> (int, int), t: Position) -> Position {
    a.filter(|p: (int, int)| t.contains(f(p)))
}

proof fn lemma_pulled(a: Position, f: spec_fn((int, int)) -> (int, int), t: Position)
    requires
        a.finite(),
        keeps_lines(a, f),
        t.subset_of(a.map(f)),
    ensures
        pulled(a, f, t).map(f) == t,
        pulled(a, f, t).len() == t.len(),
{
    let u = pulled(a, f, t);
    assert(u.map(f) =~= t) by {
        assert forall|x: (int, int)| t.contains(x) implies u.map(f).contains(x) by {
            assert(a.map(f).contains(x));
            let p = choose|p: (int, int)| a.contains(p) && f(p) == x;
            assert(u.contains(p));
        }
    }
    assert(vstd::relations::injective_on(f, u)) by {
        assert forall|p: (int, int), q: (int, int)|
            u.contains(p) && u.contains(q) && #[trigger] f(p) == #[trigger] f(q) implies p == q by {
        }
    }
    vstd::set_lib::lemma_len_subset(u, a);
    vstd::set_lib::lemma_map_size(u, t, f);
}

proof fn lemma_same_choices(a: Seq<Position>, b: Seq<Position>)
    requires
        a.len() == b.len(),
        forall|i: int| 0 <= i < a.len() ==> (#[trigger] a[i]).len() == b[i].len(),
    ensures
        choices(a) == choices(b),
    decreases a.len(),
{
    if a.len() > 0 {
        assert forall|i: int| 0 <= i < a.drop_last().len() implies (#[trigger] a.drop_last()[i]).len()
            == b.drop_last()[i].len() by {
            assert(a.drop_last()[i] == a[i]);
        }
        lemma_same_choices(a.drop_last(), b.drop_last());
        assert(a[a.len() - 1].len() == b[a.len() - 1].len());
    }
}

proof fn lemma_rows_fit_mapped(a: Position, f: spec_fn((int, int)) -> (int, int))
    requires
        a.finite(),
        keeps_lines(a, f),
        rows_fit(a),
    ensures
        rows_fit(a.map(f)),
{
    assert forall|t: Position, classes: Seq<Position>|
        t.subset_of(a.map(f)) && #[trigger] row_classes(t, classes) implies choices(classes)
        <= usize::MAX by {
        let u = pulled(a, f, t);
        lemma_pulled(a, f, t);
        let own = Seq::new(classes.len(), |i: int| pulled(a, f, classes[i]));
        assert forall|i: int| 0 <= i < own.len() implies (#[trigger] own[i]).len() == classes[i].len()
            && own[i].subset_of(u) by {
            assert(classes[i].subset_of(t));
            assert(classes[i].subset_of(a.map(f)));
            lemma_pulled(a, f, classes[i]);
        }
        assert forall|i: int, j: int, p: (int, int), q: (int, int)|
            0 <= i < own.len() && 0 <= j < own.len() && #[trigger] own[i].contains(p)
                && #[trigger] own[j].contains(q) implies p.0 == q.0 && (i == j <==> cols_alike(
            u,
            p.1,
            q.1,
        )) by {
            assert(own[i].subset_of(u) && own[j].subset_of(u));
            assert(classes[i].contains(f(p)) && classes[j].contains(f(q)));
            lemma_alike_mapped(u, f, p, q);
        }
        assert(row_classes(u, own));
        lemma_same_choices(own, classes);
    }
}

/// Whether a position fits does not depend on the names of its lines.
pub proof fn lemma_fits_isomorphic(a: Position, b: Position)
    requires
        a.finite(),
        isomorphic(a, b),
        fits(a),
    ensures
        fits(b),
{
    let f = choose|f: spec_fn((int, int)) -> (int, int)| relabels(a, b, f);
    let flip = |p: (int, int)| (p.1, p.0);
    lemma_flipped_finite(a);
    if keeps_lines(a, f) {
        lemma_rows_fit_mapped(a, f);
        let g = |p: (int, int)| flip(f(flip(p)));
        assert(keeps_lines(flipped(a), g)) by {
            assert forall|p: (int, int), q: (int, int)| #![trigger g(p), g(q)]
                flipped(a).contains(p) && flipped(a).contains(q) implies {
                &&& (p.0 == q.0 <==> g(p).0 == g(q).0)
                &&& (p.1 == q.1 <==> g(p).1 == g(q).1)
            } by {
                assert(a.contains(flip(p)) && a.contains(flip(q)));
                assert(g(p) == flip(f(flip(p))));
                assert(g(q) == flip(f(flip(q))));
            }
        }
        assert(flipped(a).map(g) =~= flipped(b)) by {
            assert forall|x: (int, int)| flipped(b).contains(x) implies flipped(a).map(g).contains(
                x,
            ) by {
                let p = choose|p: (int, int)| a.contains(p) && f(p) == flip(x);
                assert(flipped(a).contains(flip(p)));
                assert(flip(flip(p)) == p);
                assert(g(flip(p)) == x);
            }
            assert forall|x: (int, int)| flipped(a).map(g).contains(x) implies flipped(b).contains(
                x,
            ) by {
                let p = choose|p: (int, int)| flipped(a).contains(p) && g(p) == x;
                assert(a.contains(flip(p)));
                assert(b.contains(f(flip(p))));
            }
        }
        lemma_rows_fit_mapped(flipped(a), g);
    } else {
        let g = |p: (int, int)| flip(f(p));
        assert(keeps_lines(a, g)) by {
            assert forall|p: (int, int), q: (int, int)| #![trigger g(p), g(q)]
                a.contains(p) && a.contains(q) implies {
                &&& (p.0 == q.0 <==> g(p).0 == g(q).0)
                &&& (p.1 == q.1 <==> g(p).1 == g(q).1)
            } by {
                assert(g(p) == flip(f(p)) && g(q) == flip(f(q)));
            }
        }
        assert(a.map(g) =~= flipped(b)) by {
            assert forall|x: (int, int)| flipped(b).contains(x) implies a.map(g).contains(x) by {
                let p = choose|p: (int, int)| a.contains(p) && f(p) == flip(x);
                assert(g(p) == x);
            }
            assert forall|x: (int, int)| a.map(g).contains(x) implies flipped(b).contains(x) by {
                let p = choose|p: (int, int)| a.contains(p) && g(p) == x;
                assert(b.contains(f(p)));
            }
        }
        lemma_rows_fit_mapped(a, g);
        let h = |p: (int, int)| f(flip(p));
        assert(keeps_lines(flipped(a), h)) by {
            assert forall|p: (int, int), q: (int, int)| #![trigger h(p), h(q)]
                flipped(a).contains(p) && flipped(a).contains(q) implies {
                &&& (p.0 == q.0 <==> h(p).0 == h(q).0)
                &&& (p.1 == q.1 <==> h(p).1 == h(q).1)
            } by {
                assert(a.contains(flip(p)) && a.contains(flip(q)));
                assert(h(p) == f(flip(p)) && h(q) == f(flip(q)));
            }
        }
        assert(flipped(a).map(h) =~= b) by {
            assert forall|x: (int, int)| b.contains(x) implies flipped(a).map(h).contains(x) by {
                let p = choose|p: (int, int)| a.contains(p) && f(p) == x;
                assert(flipped(a).contains(flip(p)));
                assert(flip(flip(p)) == p);
                assert(h(flip(p)) == x);
            }
            assert forall|x: (int, int)| flipped(a).map(h).contains(x) implies b.contains(x) by {
                let p = choose|p: (int, int)| flipped(a).contains(p) && h(p) == x;
                assert(a.contains(flip(p)));
            }
        }
        lemma_rows_fit_mapped(flipped(a), h);
    }
}

/// A flipped position is isomorphic to the position.
pub proof fn lemma_flipped_isomorphic(a: Position)
    ensures
        isomorphic(a, flipped(a)),
{
    let flip = |p: (int, int)| (p.1, p.0);
    assert(a.map(flip) =~= flipped(a)) by {
        assert forall|x: (int, int)| flipped(a).contains(x) implies a.map(flip).contains(x) by {
            assert(a.contains(flip(x)));
            assert(flip(flip(x)) == x);
        }
    }
    assert(swaps_lines(a, flip));
    assert(relabels(a, flipped(a), flip));
}

proof fn lemma_flipped_finite(a: Position)
    requires
        a.finite(),
    ensures
        flipped(a).finite(),
{
    lemma_flipped_isomorphic(a);
    crate::nim::lemma_isomorphic(a, flipped(a));
}

proof fn lemma_few_choices(s: Position, classes: Seq<Position>)
    requires
        s.finite(),
        row_classes(s, classes),
    ensures
        union_of(classes).finite(),
        union_of(classes).subset_of(s),
        choices(classes) <= vstd::arithmetic::power2::pow2(union_of(classes).len()),
    decreases classes.len(),
{
    let all = union_of(classes);
    assert(all.subset_of(s)) by {
        assert forall|p: (int, int)| all.contains(p) implies s.contains(p) by {
            let i = choose|i: int| 0 <= i < classes.len() && (#[trigger] classes[i]).contains(p);
            assert(classes[i].subset_of(s));
        }
    }
    vstd::set_lib::lemma_len_subset(all, s);
    vstd::arithmetic::power2::lemma2_to64();
    if classes.len() > 0 {
        let fewer = classes.drop_last();
        let last = classes.last();
        assert(row_classes(s, fewer)) by {
            assert forall|i: int| 0 <= i < fewer.len() implies (#[trigger] fewer[i]).subset_of(s) by {
                assert(fewer[i] == classes[i]);
            }
            assert forall|i: int, j: int, p: (int, int), q: (int, int)|
                0 <= i < fewer.len() && 0 <= j < fewer.len() && #[trigger] fewer[i].contains(p)
                    && #[trigger] fewer[j].contains(q) implies p.0 == q.0 && (i == j <==> cols_alike(
                s,
                p.1,
                q.1,
            )) by {
                assert(classes[i].contains(p) && classes[j].contains(q));
            }
        }
        lemma_few_choices(s, fewer);
        let rest = union_of(fewer);
        assert(classes[classes.len() - 1].subset_of(s));
        vstd::set_lib::lemma_len_subset(last, s);
        assert(rest.disjoint(last)) by {
            assert forall|p: (int, int)| rest.contains(p) implies !last.contains(p) by {
                let i = choose|i: int| 0 <= i < fewer.len() && (#[trigger] fewer[i]).contains(p);
                assert(classes[i].contains(p));
                if last.contains(p) {
                    assert(classes[classes.len() - 1].contains(p));
                    assert(!cols_alike(s, p.1, p.1));
                }
            }
        }
        assert(all =~= rest.union(last)) by {
            assert forall|p: (int, int)| rest.union(last).contains(p) implies all.contains(p) by {
                if last.contains(p) {
                    assert(classes[classes.len() - 1].contains(p));
                } else {
                    let i = choose|i: int| 0 <= i < fewer.len() && (#[trigger] fewer[i]).contains(p);
                    assert(classes[i].contains(p));
                }
            }
            assert forall|p: (int, int)| all.contains(p) implies rest.union(last).contains(p) by {
                let i = choose|i: int| 0 <= i < classes.len() && (#[trigger] classes[i]).contains(p);
                if i < classes.len() - 1 {
                    assert(fewer[i].contains(p));
                }
            }
        }
        vstd::set_lib::lemma_set_disjoint_lens(rest, last);
        vstd::arithmetic::power2::lemma_pow2_adds(rest.len(), last.len());
        lemma_less_than_pow2(last.len());
        let a = choices(fewer);
        let b = (last.len() + 1) as nat;
        let c = vstd::arithmetic::power2::pow2(rest.len());
        let d = vstd::arithmetic::power2::pow2(last.len());
        assert(a * b <= c * d) by (nonlinear_arith)
            requires
                a <= c,
                b <= d,
        ;
    } else {
        assert(all =~= Set::empty());
    }
}

proof fn lemma_less_than_pow2(n: nat)
    ensures
        n + 1 <= vstd::arithmetic::power2::pow2(n),
    decreases n,
{
    vstd::arithmetic::power2::lemma2_to64();
    if n > 0 {
        lemma_less_than_pow2((n - 1) as nat);
        vstd::arithmetic::power2::lemma_pow2_unfold(n);
    }
}

/// The nodes of all classes.
spec fn union_of(classes: Seq<Position>) -> Position {
    Set::new(
        |p: (int, int)|
            exists|i: int| 0 <= i < classes.len() && (#[trigger] classes[i]).contains(p),
    )
}

/// The nodes of row `r`.
pub open spec fn row_of(s: Position, r: int) -> Position {
    s.filter(|p: (int, int)| p.0 == r)
}

/// Whether no row of `s` holds as many nodes as a machine word has bits.
pub open spec fn short_rows(s: Position) -> bool {
    forall|r: int| (#[trigger] row_of(s, r)).len() < usize::BITS
}

proof fn lemma_short_rows_fit(s: Position)
    requires
        s.finite(),
        short_rows(s),
    ensures
        rows_fit(s),
{
    assert forall|t: Position, classes: Seq<Position>|
        t.subset_of(s) && #[trigger] row_classes(t, classes) implies choices(classes)
        <= usize::MAX by {
        vstd::set_lib::lemma_len_subset(t, s);
        lemma_few_choices(t, classes);
        let all = union_of(classes);
        if all.len() > 0 {
            let p = all.choose();
            assert(all.contains(p));
            let i = choose|i: int| 0 <= i < classes.len() && (#[trigger] classes[i]).contains(p);
            let row = row_of(s, p.0);
            assert(all.subset_of(row)) by {
                assert forall|q: (int, int)| all.contains(q) implies row.contains(q) by {
                    let j = choose|j: int|
                        0 <= j < classes.len() && (#[trigger] classes[j]).contains(q);
                    assert(classes[i].contains(p) && classes[j].contains(q));
                    assert(t.contains(q));
                }
            }
            vstd::set_lib::lemma_len_subset(all, row);
            assert(row.len() < usize::BITS);
        }
        vstd::arithmetic::power2::lemma2_to64();
        vstd::arithmetic::power2::lemma2_to64_rest();
        lemma_pow2_fits(all.len());
    }
}

proof fn lemma_pow2_fits(n: nat)
    requires
        n < usize::BITS,
    ensures
        vstd::arithmetic::power2::pow2(n) <= usize::MAX,
{
    vstd::arithmetic::power2::lemma2_to64();
    vstd::arithmetic::power2::lemma2_to64_rest();
    if n < usize::BITS - 1 {
        vstd::arithmetic::power2::lemma_pow2_strictly_increases(n, (usize::BITS - 1) as nat);
    }
    assert(usize::BITS == 32 || usize::BITS == 64);
}

/// A position fits if none of its lines holds as many nodes as a machine word has bits.
pub proof fn lemma_short_lines_fit(s: Position)
    requires
        s.finite(),
        short_rows(s),
        short_rows(flipped(s)),
    ensures
        fits(s),
{
    lemma_flipped_finite(s);
    lemma_short_rows_fit(s);
    lemma_short_rows_fit(flipped(s));
}

} // verus!
