//! Hashes of matrices, and orders of traversal that differ from worker to worker.
use crate::grid::Grid;
use crate::matrix::BitMatrix;
use crate::sorting::{is_permutation, lemma_permutation_covers};
use vstd::prelude::*;

verus! {

/// Byte `k` of `value`, lowest first.
pub open spec fn byte_of(value: u64, k: nat) -> u64 {
    (value >> ((8 * k) as u64)) & 0xff
}

/// `hash` after the first `k` bytes of `value` have been mixed in.
pub open spec fn mixed_bytes(hash: u64, value: u64, k: nat) -> u64
    decreases k,
{
    if k == 0 {
        hash
    } else {
        vstd::wrapping::u64_specs::wrapping_mul(
            mixed_bytes(hash, value, (k - 1) as nat) ^ byte_of(value, (k - 1) as nat),
            0x0000_0100_0000_01b3,
        )
    }
}

/// `hash` after all words have been mixed in.
pub open spec fn mixed_words(hash: u64, words: Seq<u64>) -> u64
    decreases words.len(),
{
    if words.len() == 0 {
        hash
    } else {
        mixed_bytes(mixed_words(hash, words.drop_last()), words.last(), 8)
    }
}

/// The hash of a matrix: its size and its words, mixed one after the other.
pub open spec fn grid_hash(grid: Grid) -> u64 {
    mixed_words(
        0xcbf2_9ce4_8422_2325,
        seq![grid.rows as u64, grid.cols as u64] + grid.words(),
    )
}

/// Mixes the bytes of `value` into `hash`.
pub fn fnv_mix(hash: u64, value: u64) -> (mixed: u64)
    ensures
        mixed == mixed_bytes(hash, value, 8),
{
    let mut mixed: u64 = hash;
    let mut k: u64 = 0;
    while k < 8
        invariant
            k <= 8,
            mixed == mixed_bytes(hash, value, k as nat),
        decreases 8 - k,
    {
        let byte: u64 = (value >> (8 * k)) & 0xff;
        mixed = (mixed ^ byte).wrapping_mul(0x0000_0100_0000_01b3);
        k = k + 1;
    }
    mixed
}

/// The hash of a matrix. It is the same in every process.
pub fn stable_matrix_hash(matrix: &BitMatrix) -> (hash: u64)
    requires
        matrix.wf(),
    ensures
        hash == grid_hash(matrix@),
{
    let rows: u64 = matrix.rows() as u64;
    let cols: u64 = matrix.cols() as u64;
    let words: &[u64] = matrix.words();
    let mut hash: u64 = fnv_mix(0xcbf2_9ce4_8422_2325, rows);
    hash = fnv_mix(hash, cols);
    let ghost head = seq![rows, cols];
    proof {
        reveal_with_fuel(mixed_words, 3);
        assert(head.drop_last() =~= seq![rows]);
        assert(head.drop_last().drop_last() =~= Seq::empty());
        assert(head + words@.take(0) =~= head);
    }
    let mut k: usize = 0;
    while k < words.len()
        invariant
            k <= words@.len(),
            hash == mixed_words(0xcbf2_9ce4_8422_2325, head + words@.take(k as int)),
        decreases words@.len() - k,
    {
        proof {
            let more = head + words@.take(k + 1);
            assert(more.drop_last() =~= head + words@.take(k as int));
            assert(more.last() == words@[k as int]);
        }
        hash = fnv_mix(hash, words[k]);
        k = k + 1;
    }
    proof {
        assert(words@.take(k as int) =~= words@);
    }
    hash
}

/// The two halves of a hash folded together.
pub open spec fn folded(hash: u64) -> usize {
    (hash ^ ((hash >> 32) | (hash << 32))) as usize
}

/// A seed for the order in which a worker visits the moves of a component.
pub fn traversal_seed(component: &BitMatrix, depth: usize, worker_seed: usize) -> (seed: usize)
    requires
        component.wf(),
    ensures
        seed == folded(
            mixed_words(
                grid_hash(component@),
                seq![depth as u64, worker_seed as u64],
            ),
        ),
{
    let mut hash: u64 = stable_matrix_hash(component);
    proof {
        reveal_with_fuel(mixed_words, 3);
        let both = seq![depth as u64, worker_seed as u64];
        assert(both.drop_last() =~= seq![depth as u64]);
        assert(both.drop_last().drop_last() =~= Seq::empty());
    }
    hash = fnv_mix(hash, depth as u64);
    hash = fnv_mix(hash, worker_seed as u64);
    (hash ^ ((hash >> 32) | (hash << 32))) as usize
}

/// The greatest common divisor.
pub open spec fn gcd_of(first: nat, second: nat) -> nat
    decreases second,
{
    if second == 0 {
        first
    } else {
        gcd_of(second, first % second)
    }
}

/// The greatest common divisor is a combination of the two numbers.
proof fn lemma_combination(first: nat, second: nat) -> (factors: (int, int))
    ensures
        first * factors.0 + second * factors.1 == gcd_of(first, second),
    decreases second,
{
    if second == 0 {
        assert(first * 1 + second * 0 == first) by (nonlinear_arith);
        (1, 0)
    } else {
        let (x, y) = lemma_combination(second, first % second);
        let q = (first / second) as int;
        let r = (first % second) as int;
        vstd::arithmetic::div_mod::lemma_fundamental_div_mod(first as int, second as int);
        assert(second * x + r * y == first * y + second * (x - q * y)) by (nonlinear_arith)
            requires
                first == second * q + r,
        ;
        (y, x - q * y)
    }
}

/// The greatest common divisor divides both numbers, and every common divisor divides it.
pub proof fn lemma_gcd(first: nat, second: nat, divisor: nat)
    requires
        divisor > 0,
        first > 0 || second > 0,
    ensures
        gcd_of(first, second) > 0,
        first % gcd_of(first, second) == 0,
        second % gcd_of(first, second) == 0,
        first % divisor == 0 && second % divisor == 0 ==> gcd_of(first, second) % divisor == 0,
    decreases second,
{
    if second == 0 {
        vstd::arithmetic::div_mod::lemma_mod_self_0(first as int);
        vstd::arithmetic::div_mod::lemma_small_mod(0, first);
    } else {
        let r = first % second;
        lemma_gcd(second, r, divisor);
        let d = gcd_of(second, r) as int;
        let q = (first / second) as int;
        vstd::arithmetic::div_mod::lemma_fundamental_div_mod(first as int, second as int);
        lemma_divides_combination(second as int, r as int, q, d);
        if first % divisor == 0 && second % divisor == 0 {
            lemma_divides_combination(second as int, first as int, -q, divisor as int);
            assert(r == second * (-q) + first) by (nonlinear_arith)
                requires
                    first == second * q + r,
            ;
        }
    }
}

proof fn lemma_divides_combination(a: int, b: int, q: int, d: int)
    requires
        d > 0,
        a % d == 0,
        b % d == 0,
    ensures
        (a * q + b) % d == 0,
{
    vstd::arithmetic::div_mod::lemma_fundamental_div_mod(a, d);
    vstd::arithmetic::div_mod::lemma_fundamental_div_mod(b, d);
    let x = a / d;
    let y = b / d;
    assert(a * q + b == d * (x * q + y)) by (nonlinear_arith)
        requires
            a == d * x,
            b == d * y,
    ;
    vstd::arithmetic::div_mod::lemma_mod_multiples_basic(x * q + y, d);
    vstd::arithmetic::mul::lemma_mul_is_commutative(d, x * q + y);
}

pub fn gcd(first: usize, second: usize) -> (divisor: usize)
    ensures
        divisor == gcd_of(first as nat, second as nat),
{
    let mut a: usize = first;
    let mut b: usize = second;
    while b != 0
        invariant
            gcd_of(a as nat, b as nat) == gcd_of(first as nat, second as nat),
        decreases b,
    {
        let remainder: usize = a % b;
        a = b;
        b = remainder;
    }
    a
}

/// A rotation to the left.
pub open spec fn rotated(value: u64, bits: u64) -> u64 {
    (value << bits) | (value >> ((64 - bits) as u64))
}

/// The first stride that is tried.
pub open spec fn first_stride(seed: usize, len: usize) -> int {
    let mixed = rotated(
        vstd::wrapping::u64_specs::wrapping_mul(seed as u64, 0x9e37_79b9_7f4a_7c15),
        17,
    ) | 1;
    1 + (mixed as usize) % len
}

fn mixed_stride(seed: usize, len: usize) -> (stride: usize)
    requires
        0 < len,
    ensures
        stride == first_stride(seed, len),
        1 <= stride <= len,
{
    let product: u64 = (seed as u64).wrapping_mul(0x9e37_79b9_7f4a_7c15);
    let mixed: u64 = ((product << 17) | (product >> 47)) | 1;
    1 + (mixed as usize) % len
}

/// The first stride from the seeded one on that has no common divisor with `len`.
pub fn coprime_stride(seed: usize, len: usize) -> (stride: usize)
    requires
        0 < len < usize::MAX,
    ensures
        first_stride(seed, len) <= stride <= len + 1,
        gcd_of(stride as nat, len as nat) == 1,
        forall|s: int|
            first_stride(seed, len) <= s < stride ==> #[trigger] gcd_of(s as nat, len as nat) != 1,
{
    let mut stride: usize = mixed_stride(seed, len);
    while gcd(stride, len) != 1
        invariant
            0 < len < usize::MAX,
            first_stride(seed, len) <= stride <= len + 1,
            forall|s: int|
                first_stride(seed, len) <= s < stride ==> #[trigger] gcd_of(s as nat, len as nat)
                    != 1,
        decreases len + 1 - stride,
    {
        proof {
            if stride == len + 1 {
                assert(gcd_of((len + 1) as nat, len as nat) == 1) by {
                    reveal_with_fuel(gcd_of, 3);
                    if len > 1 {
                        vstd::arithmetic::div_mod::lemma_mod_add_multiples_vanish(1, len as int);
                        vstd::arithmetic::div_mod::lemma_small_mod(1, len as nat);
                        assert((len + 1) % (len as int) == 1);
                        assert((len as int) % 1 == 0);
                    }
                }
            }
        }
        stride = stride + 1;
    }
    stride
}

/// A number that differs from group to group.
pub open spec fn mixed_seed(seed: usize, value: usize) -> usize {
    seed ^ (rotated(
        vstd::wrapping::u64_specs::wrapping_mul(value as u64, 0x9e37_79b9_7f4a_7c15),
        23,
    ) as usize)
}

pub fn mix_usize(seed: usize, value: usize) -> (mixed: usize)
    ensures
        mixed == mixed_seed(seed, value),
{
    let product: u64 = (value as u64).wrapping_mul(0x9e37_79b9_7f4a_7c15);
    seed ^ (((product << 23) | (product >> 41)) as usize)
}

/// A walk over the indices below `len` that visits each of them once.
#[derive(Clone, Copy, Debug)]
pub struct Stride {
    len: usize,
    start: usize,
    stride: usize,
}

impl Stride {
    pub closed spec fn wf(&self) -> bool {
        &&& self.len > 0 ==> self.start < self.len
        &&& self.len > 0 ==> self.stride <= self.len + 1 && gcd_of(
            self.stride as nat,
            self.len as nat,
        ) == 1
    }

    /// The number of indices.
    pub closed spec fn length(&self) -> nat {
        self.len as nat
    }

    /// The index that is visited first.
    pub closed spec fn first(&self) -> int {
        self.start as int
    }

    /// How far apart the indices are that are visited one after the other.
    pub closed spec fn step(&self) -> int {
        self.stride as int
    }

    /// The index that is visited after `visited` others.
    pub open spec fn at(&self, visited: int) -> int {
        (self.first() + visited * self.step()) % (self.length() as int)
    }

    /// A walk that the seed chooses.
    pub fn new(len: usize, seed: usize) -> (walk: Self)
        ensures
            walk.wf(),
            walk.length() == len,
            len > 0 ==> walk.first() == seed % len,
            len == usize::MAX ==> walk.step() == 1,
            0 < len < usize::MAX ==> {
                &&& first_stride(seed, len) <= walk.step() <= len + 1
                &&& gcd_of(walk.step() as nat, len as nat) == 1
                &&& forall|s: int|
                    first_stride(seed, len) <= s < walk.step() ==> #[trigger] gcd_of(
                        s as nat,
                        len as nat,
                    ) != 1
            },
    {
        if len == 0 {
            return Stride { len, start: 0, stride: 1 };
        }
        if len == usize::MAX {
            proof {
                reveal_with_fuel(gcd_of, 4);
                vstd::arithmetic::div_mod::lemma_small_mod(1, len as nat);
            }
            return Stride { len, start: seed % len, stride: 1 };
        }
        Stride { len, start: seed % len, stride: coprime_stride(seed, len) }
    }

    pub fn len(&self) -> (len: usize)
        ensures
            len == self.length(),
    {
        self.len
    }

    /// The index that is visited after `visited` others.
    pub fn index(&self, visited: usize) -> (index: usize)
        requires
            self.wf(),
            visited < self.length(),
        ensures
            index == self.at(visited as int),
            index < self.length(),
    {
        let start: u128 = self.start as u128;
        let stride: u128 = self.stride as u128;
        let steps: u128 = visited as u128;
        let len: u128 = self.len as u128;
        proof {
            assert(steps * stride <= 0xffff_ffff_ffff_fffe * 0xffff_ffff_ffff_ffff)
                by (nonlinear_arith)
                requires
                    0 <= steps <= 0xffff_ffff_ffff_fffe,
                    0 <= stride <= 0xffff_ffff_ffff_ffff,
            ;
        }
        ((start + steps * stride) % len) as usize
    }
}

/// Different steps of a walk visit different indices.
proof fn lemma_steps_differ(walk: Stride, i: int, j: int)
    requires
        walk.wf(),
        0 <= i < j < walk.length(),
    ensures
        walk.at(i) != walk.at(j),
{
    let n = walk.len as int;
    let s = walk.stride as int;
    if walk.at(i) == walk.at(j) {
        let a = walk.start + i * s;
        let b = walk.start + j * s;
        let d = j - i;
        vstd::arithmetic::div_mod::lemma_fundamental_div_mod(a, n);
        vstd::arithmetic::div_mod::lemma_fundamental_div_mod(b, n);
        let q = b / n - a / n;
        assert(d * s == n * q) by (nonlinear_arith)
            requires
                a == walk.start + i * s,
                b == walk.start + j * s,
                d == j - i,
                a == n * (a / n) + a % n,
                b == n * (b / n) + b % n,
                a % n == b % n,
                q == b / n - a / n,
        ;
        let (x, y) = lemma_combination(walk.stride as nat, walk.len as nat);
        assert(d == n * (q * x + d * y)) by (nonlinear_arith)
            requires
                d * s == n * q,
                s * x + n * y == 1,
        ;
        let m = q * x + d * y;
        assert(false) by (nonlinear_arith)
            requires
                d == n * m,
                0 < d < n,
        ;
    }
}

/// A walk visits every index.
pub proof fn lemma_walk_covers(walk: Stride, index: int) -> (visited: int)
    requires
        walk.wf(),
        0 <= index < walk.length(),
    ensures
        0 <= visited < walk.length(),
        walk.at(visited) == index,
{
    let n = walk.len as nat;
    let order = Seq::new(n, |k: int| walk.at(k) as usize);
    assert forall|k: int| 0 <= k < n implies 0 <= #[trigger] walk.at(k) < n by {
        vstd::arithmetic::div_mod::lemma_mod_bound(walk.start + k * walk.stride, n as int);
    }
    assert(is_permutation(order, n)) by {
        assert forall|i: int, j: int| 0 <= i < n && 0 <= j < n && i != j implies order[i]
            != order[j] by {
            assert(0 <= walk.at(i) < n && 0 <= walk.at(j) < n);
            if i < j {
                lemma_steps_differ(walk, i, j);
            } else {
                lemma_steps_differ(walk, j, i);
            }
        }
        assert forall|i: int| 0 <= i < n implies #[trigger] order[i] < n by {
            assert(0 <= walk.at(i) < n);
        }
    }
    lemma_permutation_covers(order, n);
    assert(order.contains(index as usize));
    let k = choose|k: int| 0 <= k < order.len() && order[k] == index as usize;
    assert(0 <= walk.at(k) < n);
    k
}

} // verus!
