//! How the walks over moves hang together with their length and seed.
use crate::matrix::BitMatrix;
use crate::traversal::{coprime_stride, gcd, lemma_gcd, lemma_walk_covers, mix_usize};
use crate::traversal::{stable_matrix_hash, traversal_seed, Stride};
use vstd::prelude::*;

verus! {

/// The greatest common divisor divides both numbers, and every divisor of both divides it.
pub proof fn lemma_divisor_is_greatest(first: usize, second: usize, divisor: usize, other: usize)
    requires
        0 < first || 0 < second,
        0 < other,
        call_ensures(gcd, (first, second), divisor),
    ensures
        divisor > 0,
        first % divisor == 0,
        second % divisor == 0,
        first % other == 0 && second % other == 0 ==> divisor % other == 0 && other <= divisor,
{
    lemma_gcd(first as nat, second as nat, other as nat);
    if first % other == 0 && second % other == 0 && other > divisor {
        vstd::arithmetic::div_mod::lemma_small_mod(divisor as nat, other as nat);
    }
}

/// A stride has no divisor in common with the length.
pub proof fn lemma_stride_is_coprime(seed: usize, len: usize, stride: usize, divisor: usize)
    requires
        0 < len < usize::MAX,
        call_ensures(coprime_stride, (seed, len), stride),
        call_ensures(gcd, (stride, len), divisor),
    ensures
        divisor == 1,
        1 <= stride <= len + 1,
{
    if stride == 0 {
        lemma_gcd(0, len as nat, 1);
        assert(crate::traversal::first_stride(seed, len) >= 1);
    }
}

/// A walk starts at the place that its seed falls on, and comes to every place once it has made as many
/// steps as there are places.
pub proof fn lemma_walk_comes_everywhere(
    len: usize,
    seed: usize,
    walk: Stride,
    walk_len: usize,
    start: usize,
    place: usize,
)
    requires
        0 < len,
        call_ensures(Stride::new, (len, seed), walk),
        call_ensures(Stride::len, (&walk,), walk_len),
        call_ensures(Stride::index, (&walk, 0usize), start),
        place < len,
    ensures
        walk_len == len,
        start == seed % len,
        exists|visited: usize|
            visited < len && #[trigger] leads_to_place(walk, visited, place),
{
    let visited = lemma_walk_covers(walk, place as int);
    assert(0 * walk.step() == 0);
    vstd::arithmetic::div_mod::lemma_small_mod((seed % len) as nat, len as nat);
    assert(leads_to_place(walk, visited as usize, place));
}

/// Whether a walk is at a place after a number of steps.
pub open spec fn leads_to_place(walk: Stride, visited: usize, place: usize) -> bool {
    forall|index: usize| #[trigger]
        call_ensures(Stride::index, (&walk, visited), index) ==> index == place
}

/// Mixing a value into a seed loses nothing of the seed: mixing it in again gives the seed back.
pub proof fn lemma_mixing_twice_gives_back(seed: usize, value: usize, mixed: usize, again: usize)
    requires
        call_ensures(mix_usize, (seed, value), mixed),
        call_ensures(mix_usize, (mixed, value), again),
    ensures
        again == seed,
{
    let k = crate::traversal::rotated(
        vstd::wrapping::u64_specs::wrapping_mul(value as u64, 0x9e37_79b9_7f4a_7c15),
        23,
    ) as usize;
    assert((seed ^ k) ^ k == seed) by (bit_vector);
}

/// Matrices that are the same have the same hash, and give the same seed to the same worker at the same
/// depth.
pub proof fn lemma_same_matrices_hash_alike(
    a: BitMatrix,
    b: BitMatrix,
    hash: u64,
    other_hash: u64,
    depth: usize,
    worker_seed: usize,
    seed: usize,
    other_seed: usize,
)
    requires
        a.wf(),
        b.wf(),
        call_ensures(BitMatrix::same, (&a, &b), true),
        call_ensures(stable_matrix_hash, (&a,), hash),
        call_ensures(stable_matrix_hash, (&b,), other_hash),
        call_ensures(traversal_seed, (&a, depth, worker_seed), seed),
        call_ensures(traversal_seed, (&b, depth, worker_seed), other_seed),
    ensures
        hash == other_hash,
        seed == other_seed,
{
}

} // verus!
