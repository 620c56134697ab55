//! The game that is played, and the Sprague-Grundy theory the solver rests on.
//!
//! A position is a finite set of nodes. Every node lies on one line of each of
//! two families, and is written as the pair of those lines. A move takes one or
//! more nodes of a single line. Whoever takes the last node wins.
use vstd::prelude::*;

verus! {

/// The remaining nodes, each as its row line and its column line.
pub type Position = Set<(int, int)>;

/// Whether all nodes of `nodes` lie on one row line.
pub open spec fn in_one_row(nodes: Position) -> bool {
    forall|p: (int, int), q: (int, int)|
        nodes.contains(p) && nodes.contains(q) ==> (#[trigger] p.0) == (#[trigger] q.0)
}

/// Whether all nodes of `nodes` lie on one column line.
pub open spec fn in_one_col(nodes: Position) -> bool {
    forall|p: (int, int), q: (int, int)|
        nodes.contains(p) && nodes.contains(q) ==> (#[trigger] p.1) == (#[trigger] q.1)
}

/// Whether some line holds all nodes of `nodes`.
pub open spec fn aligned(nodes: Position) -> bool {
    in_one_row(nodes) || in_one_col(nodes)
}

/// Whether one move leads from the position `from` to the position `to`.
pub open spec fn is_option(from: Position, to: Position) -> bool {
    &&& to.subset_of(from)
    &&& to.len() < from.len()
    &&& aligned(from.difference(to))
}

/// Whether `value` gives an option of `s` the number `n`.
pub open spec fn reaches_by(s: Position, value: spec_fn(Position) -> nat, n: nat) -> bool {
    exists|t: Position| is_option(s, t) && #[trigger] value(t) == n
}

/// Whether `n` is the least number that `value` gives to no option of `s`.
pub open spec fn is_mex(s: Position, value: spec_fn(Position) -> nat, n: nat) -> bool {
    &&& !reaches_by(s, value, n)
    &&& forall|m: nat| m < n ==> #[trigger] reaches_by(s, value, m)
}

/// The least number that `value` gives to no option of `s`.
pub open spec fn mex(s: Position, value: spec_fn(Position) -> nat) -> nat {
    choose|n: nat| is_mex(s, value, n)
}

/// The nimber of a position: the least number that is not the nimber of an option.
pub open spec fn grundy(s: Position) -> nat
    decreases s.len(),
{
    mex(s, |t: Position| if t.len() < s.len() { grundy(t) } else { 0 })
}

/// Whether an option of `s` has the nimber `n`.
pub open spec fn reaches(s: Position, n: nat) -> bool {
    exists|t: Position| is_option(s, t) && #[trigger] grundy(t) == n
}

/// The sum of two nimbers: binary addition without carries.
pub open spec fn nim_sum(a: nat, b: nat) -> nat
    decreases a + b,
{
    if a == 0 {
        b
    } else if b == 0 {
        a
    } else {
        2 * nim_sum(a / 2, b / 2) + (a % 2 + b % 2) % 2
    }
}

/// The nim-sum of all numbers of `values`.
pub open spec fn nim_total(values: Seq<nat>) -> nat
    decreases values.len(),
{
    if values.len() == 0 {
        0
    } else {
        nim_sum(nim_total(values.drop_last()), values.last())
    }
}

proof fn lemma_mex_from(s: Position, value: spec_fn(Position) -> nat, k: nat, bound: nat)
    requires
        k <= bound,
        !reaches_by(s, value, bound),
        forall|m: nat| m < k ==> #[trigger] reaches_by(s, value, m),
    ensures
        exists|n: nat| n <= bound && #[trigger] is_mex(s, value, n),
    decreases bound - k,
{
    if reaches_by(s, value, k) {
        lemma_mex_from(s, value, k + 1, bound);
    } else {
        assert(is_mex(s, value, k));
    }
}

proof fn lemma_mex(s: Position, value: spec_fn(Position) -> nat)
    requires
        forall|t: Position| #[trigger] is_option(s, t) ==> value(t) < s.len(),
    ensures
        is_mex(s, value, mex(s, value)),
        mex(s, value) <= s.len(),
{
    assert(!reaches_by(s, value, s.len()));
    lemma_mex_from(s, value, 0, s.len());
    let n = choose|n: nat| n <= s.len() && #[trigger] is_mex(s, value, n);
    if mex(s, value) > n {
        assert(reaches_by(s, value, n));
    }
}

/// The nimber of a position is at most its number of nodes, differs from the
/// nimber of every option, and every smaller number is the nimber of an option.
pub proof fn lemma_grundy(s: Position)
    requires
        s.finite(),
    ensures
        grundy(s) <= s.len(),
        forall|t: Position| #[trigger] is_option(s, t) ==> grundy(t) != grundy(s),
        forall|m: nat| m < grundy(s) ==> #[trigger] reaches(s, m),
        !reaches(s, grundy(s)),
    decreases s.len(),
{
    assert forall|t: Position| #[trigger] is_option(s, t) implies grundy(t) < s.len() by {
        vstd::set_lib::lemma_len_subset(t, s);
        lemma_grundy(t);
    }
    assert forall|value: spec_fn(Position) -> nat|
        (forall|t: Position| #[trigger] is_option(s, t) ==> value(t) == grundy(t)) implies {
        &&& #[trigger] mex(s, value) <= s.len()
        &&& !reaches(s, mex(s, value))
        &&& forall|m: nat| m < mex(s, value) ==> #[trigger] reaches(s, m)
    } by {
        lemma_mex(s, value);
        assert forall|m: nat| #[trigger] reaches(s, m) <==> reaches_by(s, value, m) by {
            if reaches(s, m) {
                let t = choose|t: Position| is_option(s, t) && #[trigger] grundy(t) == m;
                assert(is_option(s, t) && value(t) == m);
            }
            if reaches_by(s, value, m) {
                let t = choose|t: Position| is_option(s, t) && #[trigger] value(t) == m;
                assert(is_option(s, t) && grundy(t) == m);
            }
        }
    }
}

/// A number that no option has as its nimber, while every smaller number is
/// the nimber of one, is the nimber of the position.
pub proof fn lemma_grundy_is(s: Position, n: nat)
    requires
        s.finite(),
        forall|t: Position| #[trigger] is_option(s, t) ==> grundy(t) != n,
        forall|m: nat| m < n ==> #[trigger] reaches(s, m),
    ensures
        grundy(s) == n,
{
    lemma_grundy(s);
    if grundy(s) < n {
        assert(reaches(s, grundy(s)));
        let t = choose|t: Position| is_option(s, t) && #[trigger] grundy(t) == grundy(s);
        assert(is_option(s, t));
    } else if n < grundy(s) {
        assert(reaches(s, n));
        let t = choose|t: Position| is_option(s, t) && #[trigger] grundy(t) == n;
        assert(is_option(s, t));
    }
}

/// The position without nodes has the nimber zero.
pub proof fn lemma_grundy_empty()
    ensures
        grundy(Set::<(int, int)>::empty()) == 0,
{
    lemma_grundy(Set::<(int, int)>::empty());
}

proof fn lemma_subset_of_len(s: Position, m: nat) -> (t: Position)
    requires
        s.finite(),
        m <= s.len(),
    ensures
        t.subset_of(s),
        t.finite(),
        t.len() == m,
    decreases s.len(),
{
    if m == s.len() {
        s
    } else {
        lemma_subset_of_len(s.remove(s.choose()), m)
    }
}

/// Nodes on a single line are a heap: their nimber is their number.
pub proof fn lemma_grundy_heap(s: Position)
    requires
        s.finite(),
        aligned(s),
    ensures
        grundy(s) == s.len(),
    decreases s.len(),
{
    assert forall|t: Position| #[trigger] is_option(s, t) implies grundy(t) != s.len() by {
        vstd::set_lib::lemma_len_subset(t, s);
        lemma_grundy_heap(t);
    }
    assert forall|m: nat| m < s.len() implies #[trigger] reaches(s, m) by {
        let t = lemma_subset_of_len(s, m);
        lemma_grundy_heap(t);
        assert(is_option(s, t));
    }
    lemma_grundy_is(s, s.len());
}

/// The sum of two nimbers does not depend on their order.
pub proof fn lemma_nim_sum_commutes(a: nat, b: nat)
    ensures
        nim_sum(a, b) == nim_sum(b, a),
    decreases a + b,
{
    if a != 0 && b != 0 {
        lemma_nim_sum_commutes(a / 2, b / 2);
    }
}

/// One step of the definition, for any two numbers.
pub proof fn lemma_nim_sum_halves(a: nat, b: nat)
    ensures
        nim_sum(a, b) == 2 * nim_sum(a / 2, b / 2) + (a % 2 + b % 2) % 2,
        nim_sum(a, b) / 2 == nim_sum(a / 2, b / 2),
        nim_sum(a, b) % 2 == (a % 2 + b % 2) % 2,
{
}

/// Nim-sums can be regrouped.
pub proof fn lemma_nim_sum_associates(a: nat, b: nat, c: nat)
    ensures
        nim_sum(nim_sum(a, b), c) == nim_sum(a, nim_sum(b, c)),
    decreases a + b + c,
{
    if a != 0 && b != 0 && c != 0 {
        lemma_nim_sum_associates(a / 2, b / 2, c / 2);
        lemma_nim_sum_halves(a, b);
        lemma_nim_sum_halves(b, c);
        lemma_nim_sum_halves(nim_sum(a, b), c);
        lemma_nim_sum_halves(a, nim_sum(b, c));
    }
}

/// A number added to itself is zero.
pub proof fn lemma_nim_sum_self(a: nat)
    ensures
        nim_sum(a, a) == 0,
    decreases a,
{
    if a != 0 {
        lemma_nim_sum_self(a / 2);
    }
}

/// Adding the same number twice changes nothing.
pub proof fn lemma_nim_sum_cancels(a: nat, b: nat)
    ensures
        nim_sum(nim_sum(a, b), b) == a,
        nim_sum(b, nim_sum(b, a)) == a,
{
    lemma_nim_sum_associates(a, b, b);
    lemma_nim_sum_self(b);
    lemma_nim_sum_associates(b, b, a);
}

/// Every number below a nim-sum is reached by lowering one of the two summands.
pub proof fn lemma_nim_sum_reaches(a: nat, b: nat, m: nat)
    requires
        m < nim_sum(a, b),
    ensures
        (exists|x: nat| x < a && #[trigger] nim_sum(x, b) == m) || (exists|y: nat|
            y < b && #[trigger] nim_sum(a, y) == m),
    decreases a + b,
{
    if a == 0 {
        assert(nim_sum(a, m) == m);
    } else if b == 0 {
        assert(nim_sum(m, b) == m);
    } else {
        let h = nim_sum(a / 2, b / 2);
        if m / 2 < h {
            lemma_nim_sum_reaches(a / 2, b / 2, m / 2);
            if exists|x: nat| x < a / 2 && #[trigger] nim_sum(x, b / 2) == m / 2 {
                let x = choose|x: nat| x < a / 2 && #[trigger] nim_sum(x, b / 2) == m / 2;
                let z = 2 * x + (m % 2 + b % 2) % 2;
                lemma_nim_sum_halves(z, b);
                assert(z / 2 == x);
                assert(z < a && nim_sum(z, b) == m);
            } else {
                let y = choose|y: nat| y < b / 2 && #[trigger] nim_sum(a / 2, y) == m / 2;
                let z = 2 * y + (m % 2 + a % 2) % 2;
                lemma_nim_sum_halves(a, z);
                assert(z / 2 == y);
                assert(z < b && nim_sum(a, z) == m);
            }
        } else {
            assert(m / 2 == h);
            if a % 2 == 1 {
                let z = (a - 1) as nat;
                lemma_nim_sum_halves(z, b);
                assert(z / 2 == a / 2);
                assert(z < a && nim_sum(z, b) == m);
            } else {
                let z = (b - 1) as nat;
                lemma_nim_sum_halves(a, z);
                assert(z / 2 == b / 2);
                assert(z < b && nim_sum(a, z) == m);
            }
        }
    }
}

/// Machine words add as nimbers by exclusive or.
pub proof fn lemma_xor_is_nim_sum(a: usize, b: usize)
    ensures
        (a ^ b) as nat == nim_sum(a as nat, b as nat),
    decreases a + b,
{
    if a == 0 {
        assert(0usize ^ b == b) by (bit_vector);
    } else if b == 0 {
        assert(a ^ 0usize == a) by (bit_vector);
    } else {
        assert(a ^ b == 2 * ((a / 2) ^ (b / 2)) + (a % 2 + b % 2) % 2) by (bit_vector);
        lemma_xor_is_nim_sum(a / 2, b / 2);
    }
}

/// Whether `f` sends two nodes of `s` to one row exactly when they share a row,
/// and to one column exactly when they share a column.
pub open spec fn keeps_lines(s: Position, f: spec_fn((int, int)) -> (int, int)) -> bool {
    forall|p: (int, int), q: (int, int)| #![trigger f(p), f(q)]
        s.contains(p) && s.contains(q) ==> {
            &&& (p.0 == q.0 <==> f(p).0 == f(q).0)
            &&& (p.1 == q.1 <==> f(p).1 == f(q).1)
        }
}

/// Whether `f` sends two nodes of `s` to one column exactly when they share a
/// row, and to one row exactly when they share a column.
pub open spec fn swaps_lines(s: Position, f: spec_fn((int, int)) -> (int, int)) -> bool {
    forall|p: (int, int), q: (int, int)| #![trigger f(p), f(q)]
        s.contains(p) && s.contains(q) ==> {
            &&& (p.0 == q.0 <==> f(p).1 == f(q).1)
            &&& (p.1 == q.1 <==> f(p).0 == f(q).0)
        }
}

proof fn lemma_map_len(s: Position, f: spec_fn((int, int)) -> (int, int))
    requires
        s.finite(),
        keeps_lines(s, f) || swaps_lines(s, f),
    ensures
        s.map(f).finite(),
        s.map(f).len() == s.len(),
{
    assert forall|p: (int, int), q: (int, int)| #![trigger f(p), f(q)]
        s.contains(p) && s.contains(q) && f(p) == f(q) implies p == q by {
    }
    assert forall|x: (int, int)| #[trigger] s.contains(x) implies s.map(f).contains(f(x)) by {
    }
    vstd::set_lib::lemma_map_size(s, s.map(f), f);
}

/// The option of `s` that a relabelling turns into the option `t` of the relabelled position.
spec fn pulled_back(
    s: Position,
    f: spec_fn((int, int)) -> (int, int),
    t: Position,
) -> Position {
    s.filter(|p: (int, int)| t.contains(f(p)))
}

proof fn lemma_push_option(s: Position, f: spec_fn((int, int)) -> (int, int), t: Position)
    requires
        s.finite(),
        keeps_lines(s, f) || swaps_lines(s, f),
        is_option(s, t),
    ensures
        is_option(s.map(f), t.map(f)),
{
    vstd::set_lib::lemma_len_subset(t, s);
    lemma_map_len(s, f);
    lemma_map_len(t, f);
    let d = s.difference(t);
    let e = s.map(f).difference(t.map(f));
    assert forall|x: (int, int)| #[trigger] e.contains(x) implies exists|p: (int, int)|
        d.contains(p) && #[trigger] f(p) == x by {
        let p = choose|p: (int, int)| s.contains(p) && f(p) == x;
        assert(!t.contains(p));
        assert(d.contains(p) && f(p) == x);
    }
    assert forall|x: (int, int), y: (int, int)|
        e.contains(x) && e.contains(y) implies exists|p: (int, int), q: (int, int)|
        d.contains(p) && d.contains(q) && #[trigger] f(p) == x && #[trigger] f(q) == y by {
        let p = choose|p: (int, int)| d.contains(p) && #[trigger] f(p) == x;
        let q = choose|q: (int, int)| d.contains(q) && #[trigger] f(q) == y;
        assert(f(p) == x && f(q) == y);
    }
}

proof fn lemma_pull_option(s: Position, f: spec_fn((int, int)) -> (int, int), t: Position)
    requires
        s.finite(),
        keeps_lines(s, f) || swaps_lines(s, f),
        is_option(s.map(f), t),
    ensures
        is_option(s, pulled_back(s, f, t)),
        pulled_back(s, f, t).map(f) == t,
{
    let u = pulled_back(s, f, t);
    vstd::set_lib::lemma_len_subset(u, s);
    lemma_map_len(s, f);
    lemma_map_len(u, f);
    assert forall|x: (int, int)| t.contains(x) implies u.map(f).contains(x) by {
        assert(s.map(f).contains(x));
        let p = choose|p: (int, int)| s.contains(p) && f(p) == x;
        assert(u.contains(p));
    }
    assert(u.map(f) =~= t);
    let e = s.map(f).difference(t);
    assert forall|p: (int, int)| #[trigger] s.difference(u).contains(p) implies e.contains(f(p)) by {
        assert(s.map(f).contains(f(p)));
    }
}

/// Relabelling the lines, and exchanging the two families of lines, keeps the nimber.
pub proof fn lemma_grundy_relabelled(s: Position, f: spec_fn((int, int)) -> (int, int))
    requires
        s.finite(),
        keeps_lines(s, f) || swaps_lines(s, f),
    ensures
        grundy(s.map(f)) == grundy(s),
    decreases s.len(),
{
    lemma_map_len(s, f);
    lemma_grundy(s);
    assert forall|t: Position| #[trigger] is_option(s.map(f), t) implies grundy(t) != grundy(s) by {
        lemma_pull_option(s, f, t);
        let u = pulled_back(s, f, t);
        vstd::set_lib::lemma_len_subset(u, s);
        lemma_grundy_relabelled(u, f);
    }
    assert forall|m: nat| m < grundy(s) implies #[trigger] reaches(s.map(f), m) by {
        assert(reaches(s, m));
        let t = choose|t: Position| is_option(s, t) && #[trigger] grundy(t) == m;
        vstd::set_lib::lemma_len_subset(t, s);
        lemma_push_option(s, f, t);
        lemma_grundy_relabelled(t, f);
        assert(is_option(s.map(f), t.map(f)) && grundy(t.map(f)) == m);
    }
    lemma_grundy_is(s.map(f), grundy(s));
}

/// Whether `f` turns `a` into `b` by relabelling the lines, and perhaps exchanging their families.
pub open spec fn relabels(a: Position, b: Position, f: spec_fn((int, int)) -> (int, int)) -> bool {
    (keeps_lines(a, f) || swaps_lines(a, f)) && b == a.map(f)
}

/// Whether `a` and `b` are the same game up to the names of the lines.
pub open spec fn isomorphic(a: Position, b: Position) -> bool {
    exists|f: spec_fn((int, int)) -> (int, int)| relabels(a, b, f)
}

/// Isomorphic positions have the same size and the same nimber.
pub proof fn lemma_isomorphic(a: Position, b: Position)
    requires
        a.finite(),
        isomorphic(a, b),
    ensures
        b.finite(),
        b.len() == a.len(),
        grundy(b) == grundy(a),
{
    let f = choose|f: spec_fn((int, int)) -> (int, int)| relabels(a, b, f);
    lemma_map_len(a, f);
    lemma_grundy_relabelled(a, f);
}

/// A position is isomorphic to itself.
pub proof fn lemma_isomorphic_reflexive(a: Position)
    ensures
        isomorphic(a, a),
{
    let f = |p: (int, int)| p;
    assert(a.map(f) =~= a) by {
        assert forall|p: (int, int)| a.contains(p) implies a.map(f).contains(p) by {
            assert(f(p) == p);
        }
    }
    assert(relabels(a, a, f));
}

/// Isomorphism can be chained.
pub proof fn lemma_isomorphic_transitive(a: Position, b: Position, c: Position)
    requires
        isomorphic(a, b),
        isomorphic(b, c),
    ensures
        isomorphic(a, c),
{
    let f = choose|f: spec_fn((int, int)) -> (int, int)| relabels(a, b, f);
    let g = choose|g: spec_fn((int, int)) -> (int, int)| relabels(b, c, g);
    let h = |p: (int, int)| g(f(p));
    assert forall|p: (int, int)| a.contains(p) implies #[trigger] b.contains(f(p)) by {}
    assert(keeps_lines(a, h) || swaps_lines(a, h)) by {
        assert forall|p: (int, int), q: (int, int)| #![trigger h(p), h(q)]
            a.contains(p) && a.contains(q) implies {
            &&& b.contains(f(p)) && b.contains(f(q))
            &&& h(p) == g(f(p)) && h(q) == g(f(q))
        } by {}
    }
    assert(a.map(h) =~= c) by {
        assert forall|x: (int, int)| c.contains(x) implies a.map(h).contains(x) by {
            let y = choose|y: (int, int)| b.contains(y) && g(y) == x;
            let p = choose|p: (int, int)| a.contains(p) && f(p) == y;
            assert(a.contains(p) && h(p) == x);
        }
        assert forall|x: (int, int)| a.map(h).contains(x) implies c.contains(x) by {
            let p = choose|p: (int, int)| a.contains(p) && h(p) == x;
            assert(b.contains(f(p)));
        }
    }
    assert(relabels(a, c, h));
}

/// Whether no line holds a node of `a` and a node of `b`.
pub open spec fn separate(a: Position, b: Position) -> bool {
    forall|p: (int, int), q: (int, int)|
        #[trigger] a.contains(p) && #[trigger] b.contains(q) ==> p.0 != q.0 && p.1 != q.1
}

proof fn lemma_option_of_left(a: Position, b: Position, t: Position)
    requires
        a.finite(),
        b.finite(),
        separate(a, b),
        is_option(a, t),
    ensures
        is_option(a.union(b), t.union(b)),
        separate(t, b),
{
    vstd::set_lib::lemma_len_subset(t, a);
    assert(a.disjoint(b)) by {
        assert forall|p: (int, int)| a.contains(p) implies !b.contains(p) by {}
    }
    assert(t.disjoint(b));
    vstd::set_lib::lemma_set_disjoint_lens(a, b);
    vstd::set_lib::lemma_set_disjoint_lens(t, b);
    assert(a.union(b).difference(t.union(b)) =~= a.difference(t));
}

proof fn lemma_option_splits(a: Position, b: Position, t: Position)
    requires
        a.finite(),
        b.finite(),
        separate(a, b),
        is_option(a.union(b), t),
    ensures
        t == t.intersect(a).union(t.intersect(b)),
        (t.intersect(b) == b && is_option(a, t.intersect(a))) || (t.intersect(a) == a && is_option(
            b,
            t.intersect(b),
        )),
{
    let s = a.union(b);
    let ta = t.intersect(a);
    let tb = t.intersect(b);
    vstd::set_lib::lemma_len_subset(t, s);
    assert(t =~= ta.union(tb));
    assert(a.disjoint(b)) by {
        assert forall|p: (int, int)| a.contains(p) implies !b.contains(p) by {}
    }
    vstd::set_lib::lemma_set_disjoint_lens(a, b);
    vstd::set_lib::lemma_set_disjoint_lens(ta, tb);
    vstd::set_lib::lemma_len_subset(ta, a);
    vstd::set_lib::lemma_len_subset(tb, b);
    let d = s.difference(t);
    assert(exists|x: (int, int)| d.contains(x)) by {
        if forall|x: (int, int)| !d.contains(x) {
            assert forall|x: (int, int)| s.contains(x) implies t.contains(x) by {
                assert(!d.contains(x));
            }
            assert(t =~= s);
        }
    }
    let x = choose|x: (int, int)| d.contains(x);
    if a.contains(x) {
        assert forall|q: (int, int)| b.contains(q) implies t.contains(q) by {
            if !t.contains(q) {
                assert(d.contains(q));
                assert(x.0 == q.0 || x.1 == q.1);
            }
        }
        assert(tb =~= b);
        assert(a.difference(ta) =~= d);
    } else {
        assert(b.contains(x));
        assert forall|q: (int, int)| a.contains(q) implies t.contains(q) by {
            if !t.contains(q) {
                assert(d.contains(q));
                assert(x.0 == q.0 || x.1 == q.1);
            }
        }
        assert(ta =~= a);
        assert(b.difference(tb) =~= d);
    }
}

/// The nimber of two positions that share no line is the nim-sum of their nimbers.
pub proof fn lemma_grundy_sum(a: Position, b: Position)
    requires
        a.finite(),
        b.finite(),
        separate(a, b),
    ensures
        grundy(a.union(b)) == nim_sum(grundy(a), grundy(b)),
    decreases a.len() + b.len(),
{
    let s = a.union(b);
    let ga = grundy(a);
    let gb = grundy(b);
    let n = nim_sum(ga, gb);
    lemma_grundy(a);
    lemma_grundy(b);
    assert forall|t: Position| #[trigger] is_option(s, t) implies grundy(t) != n by {
        lemma_option_splits(a, b, t);
        let ta = t.intersect(a);
        let tb = t.intersect(b);
        if tb == b && is_option(a, ta) {
            vstd::set_lib::lemma_len_subset(ta, a);
            lemma_grundy_sum(ta, b);
            if grundy(t) == n {
                lemma_nim_sum_cancels(grundy(ta), gb);
                lemma_nim_sum_cancels(ga, gb);
            }
        } else {
            vstd::set_lib::lemma_len_subset(tb, b);
            lemma_grundy_sum(a, tb);
            if grundy(t) == n {
                lemma_nim_sum_cancels(grundy(tb), ga);
                lemma_nim_sum_cancels(gb, ga);
            }
        }
    }
    assert forall|m: nat| m < n implies #[trigger] reaches(s, m) by {
        lemma_nim_sum_reaches(ga, gb, m);
        if exists|x: nat| x < ga && #[trigger] nim_sum(x, gb) == m {
            let x = choose|x: nat| x < ga && #[trigger] nim_sum(x, gb) == m;
            assert(reaches(a, x));
            let t = choose|t: Position| is_option(a, t) && #[trigger] grundy(t) == x;
            vstd::set_lib::lemma_len_subset(t, a);
            lemma_option_of_left(a, b, t);
            lemma_grundy_sum(t, b);
            assert(is_option(s, t.union(b)) && grundy(t.union(b)) == m);
        } else {
            let y = choose|y: nat| y < gb && #[trigger] nim_sum(ga, y) == m;
            assert(reaches(b, y));
            let t = choose|t: Position| is_option(b, t) && #[trigger] grundy(t) == y;
            vstd::set_lib::lemma_len_subset(t, b);
            lemma_option_of_left(b, a, t);
            assert(separate(a, t));
            lemma_grundy_sum(a, t);
            assert(t.union(a) =~= a.union(t));
            assert(b.union(a) =~= s);
            assert(is_option(s, a.union(t)) && grundy(a.union(t)) == m);
        }
    }
    lemma_grundy_is(s, n);
}

/// The node that the two line maps send `p` to.
pub open spec fn mirrored(
    row_map: spec_fn(int) -> int,
    col_map: spec_fn(int) -> int,
    p: (int, int),
) -> (int, int) {
    (row_map(p.0), col_map(p.1))
}

/// Whether the two line maps pair up the lines of the nodes of `s`, no line with
/// itself, so that every node has its mirror image in `s`.
pub open spec fn is_mirror(
    s: Position,
    row_map: spec_fn(int) -> int,
    col_map: spec_fn(int) -> int,
) -> bool {
    forall|p: (int, int)| #[trigger]
        s.contains(p) ==> {
            &&& s.contains(mirrored(row_map, col_map, p))
            &&& row_map(p.0) != p.0
            &&& col_map(p.1) != p.1
            &&& row_map(row_map(p.0)) == p.0
            &&& col_map(col_map(p.1)) == p.1
        }
}

/// A position that is its own mirror image has the nimber zero: every move can
/// be answered by its mirror image.
pub proof fn lemma_mirror_is_zero(
    s: Position,
    row_map: spec_fn(int) -> int,
    col_map: spec_fn(int) -> int,
)
    requires
        s.finite(),
        is_mirror(s, row_map, col_map),
    ensures
        grundy(s) == 0,
    decreases s.len(),
{
    assert forall|t: Position| #[trigger] is_option(s, t) implies grundy(t) != 0 by {
        let d = s.difference(t);
        let u = t.filter(|p: (int, int)| !d.contains(mirrored(row_map, col_map, p)));
        vstd::set_lib::lemma_len_subset(t, s);
        vstd::set_lib::lemma_len_subset(u, t);
        assert(is_mirror(u, row_map, col_map)) by {
            assert forall|p: (int, int)| #[trigger] u.contains(p) implies u.contains(
                mirrored(row_map, col_map, p),
            ) by {
                assert(s.contains(p));
                let q = mirrored(row_map, col_map, p);
                assert(s.contains(q));
                assert(mirrored(row_map, col_map, q) == p);
            }
        }
        lemma_mirror_is_zero(u, row_map, col_map);
        assert(is_option(t, u)) by {
            let e = t.difference(u);
            assert forall|p: (int, int)| #[trigger] e.contains(p) implies d.contains(
                mirrored(row_map, col_map, p),
            ) && s.contains(p) by {
            }
            assert(exists|x: (int, int)| d.contains(x)) by {
                if forall|x: (int, int)| !d.contains(x) {
                    assert forall|x: (int, int)| s.contains(x) implies t.contains(x) by {
                        assert(!d.contains(x));
                    }
                    assert(t =~= s);
                }
            }
            let x = choose|x: (int, int)| d.contains(x);
            let y = mirrored(row_map, col_map, x);
            assert(s.contains(x) && s.contains(y));
            assert(mirrored(row_map, col_map, y) == x);
            assert(!d.contains(y));
            assert(t.contains(y) && !u.contains(y));
            if u.len() == t.len() {
                vstd::set_lib::lemma_subset_equality(u, t);
            }
            if in_one_row(d) {
                assert(in_one_row(e)) by {
                    assert forall|p: (int, int), q: (int, int)|
                        e.contains(p) && e.contains(q) implies (#[trigger] p.0) == (#[trigger] q.0) by {
                        let p2 = mirrored(row_map, col_map, p);
                        let q2 = mirrored(row_map, col_map, q);
                        assert(d.contains(p2) && d.contains(q2));
                        assert(p2.0 == q2.0);
                    }
                }
            } else {
                assert(in_one_col(e)) by {
                    assert forall|p: (int, int), q: (int, int)|
                        e.contains(p) && e.contains(q) implies (#[trigger] p.1) == (#[trigger] q.1) by {
                        let p2 = mirrored(row_map, col_map, p);
                        let q2 = mirrored(row_map, col_map, q);
                        assert(d.contains(p2) && d.contains(q2));
                        assert(p2.1 == q2.1);
                    }
                }
            }
        }
        lemma_grundy(t);
    }
    lemma_grundy_is(s, 0);
}

} // verus!
