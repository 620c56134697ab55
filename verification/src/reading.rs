//! What is read of things that other threads change at any time: flags, counters, and what locks
//! guard.
//!
//! A value is read of such a thing only if a call that reads it returned the value. What the value is
//! depends on the other threads, so nothing more is stated of it.
use core::sync::atomic::{AtomicBool, AtomicUsize, Ordering};
use vstd::prelude::*;
use vstd::rwlock::{ReadHandle, RwLock, RwLockPredicate, WriteHandle};

verus! {

/// What `f` gives.
pub fn given<R, F: FnOnce() -> R>(f: F) -> (result: R)
    requires
        f.requires(()),
    ensures
        f.ensures((), result),
{
    f()
}

/// What `f` gives of one thing.
pub fn given_of<A, R, F: FnOnce(A) -> R>(f: F, a: A) -> (result: R)
    requires
        f.requires((a,)),
    ensures
        f.ensures((a,), result),
{
    f(a)
}

/// What `f` gives of two things.
pub fn given_of_both<A, B, R, F: FnOnce(A, B) -> R>(f: F, a: A, b: B) -> (result: R)
    requires
        f.requires((a, b)),
    ensures
        f.ensures((a, b), result),
{
    f(a, b)
}

/// What `f` gives of three things.
pub fn given_of_three<A, B, C, R, F: FnOnce(A, B, C) -> R>(f: F, a: A, b: B, c: C) -> (result: R)
    requires
        f.requires((a, b, c)),
    ensures
        f.ensures((a, b, c), result),
{
    f(a, b, c)
}

/// Whether the flag is read as `set`.
pub open spec fn reads(flag: &AtomicBool, set: bool) -> bool {
    call_ensures(AtomicBool::load, (flag, Ordering::Relaxed), set)
}

/// Reads the flag.
pub fn read_flag(flag: &AtomicBool) -> (set: bool)
    ensures
        reads(flag, set),
{
    given_of_both(AtomicBool::load, flag, Ordering::Relaxed)
}

/// Whether there is a flag, and it is read as set.
pub open spec fn may_cancel(cancel: Option<&AtomicBool>) -> bool {
    cancel matches Some(flag) && reads(flag, true)
}

/// Whether the flag, if there is one, is read as not set.
pub open spec fn may_go_on(cancel: Option<&AtomicBool>) -> bool {
    cancel matches Some(flag) ==> reads(flag, false)
}

/// Whether the counter is read as `count`.
pub open spec fn counts(counter: &AtomicUsize, count: usize) -> bool {
    call_ensures(AtomicUsize::load, (counter, Ordering::Relaxed), count)
}

/// Reads the counter.
pub fn read_counter(counter: &AtomicUsize) -> (count: usize)
    ensures
        counts(counter, count),
{
    given_of_both(AtomicUsize::load, counter, Ordering::Relaxed)
}

/// Whether `amount` is added to the counter, which was at `before`.
pub open spec fn adds(counter: &AtomicUsize, amount: usize, before: usize) -> bool {
    call_ensures(AtomicUsize::fetch_add, (counter, amount, Ordering::Relaxed), before)
}

/// Adds to the counter.
pub fn add_to(counter: &AtomicUsize, amount: usize) -> (before: usize)
    ensures
        adds(counter, amount, before),
{
    given_of_three(AtomicUsize::fetch_add, counter, amount, Ordering::Relaxed)
}

/// Whether `amount` is taken from the counter, which was at `before`.
pub open spec fn subtracts(counter: &AtomicUsize, amount: usize, before: usize) -> bool {
    call_ensures(AtomicUsize::fetch_sub, (counter, amount, Ordering::Relaxed), before)
}

/// Takes from the counter.
pub fn subtract_from(counter: &AtomicUsize, amount: usize) -> (before: usize)
    ensures
        subtracts(counter, amount, before),
{
    given_of_three(AtomicUsize::fetch_sub, counter, amount, Ordering::Relaxed)
}

/// Whether the counter, which was at `before`, is raised to `count` if that is more.
pub open spec fn raises(counter: &AtomicUsize, count: usize, before: usize) -> bool {
    call_ensures(AtomicUsize::fetch_max, (counter, count, Ordering::Relaxed), before)
}

/// Raises the counter to `count`, if that is more.
pub fn raise_to(counter: &AtomicUsize, count: usize) -> (before: usize)
    ensures
        raises(counter, count, before),
{
    given_of_three(AtomicUsize::fetch_max, counter, count, Ordering::Relaxed)
}

/// Whether the counter is a new one that starts at `count`.
pub open spec fn starts_at(counter: AtomicUsize, count: usize) -> bool {
    call_ensures(AtomicUsize::new, (count,), counter)
}

/// A new counter.
pub fn new_counter(count: usize) -> (counter: AtomicUsize)
    ensures
        starts_at(counter, count),
{
    given_of(AtomicUsize::new, count)
}

/// Whether the lock is a new one that guards `value`.
pub open spec fn starts_with<V, P: RwLockPredicate<V>>(lock: RwLock<V, P>, value: V) -> bool {
    call_ensures(RwLock::<V, P>::new, (value, Ghost(lock.pred())), lock)
}

/// A new lock.
pub fn new_lock<V, P: RwLockPredicate<V>>(value: V, Ghost(pred): Ghost<P>) -> (lock: RwLock<V, P>)
    requires
        pred.inv(value),
    ensures
        lock.pred() == pred,
        starts_with(lock, value),
{
    given_of_both(RwLock::<V, P>::new, value, Ghost(pred))
}

/// Whether whoever gets hold of the lock finds `value` there.
pub open spec fn finds<V, P: RwLockPredicate<V>>(lock: &RwLock<V, P>, value: V) -> bool {
    ||| exists|handle: ReadHandle<V, P>|
        #[trigger] call_ensures(RwLock::<V, P>::acquire_read, (lock,), handle) && handle.view()
            == value
    ||| exists|handle: WriteHandle<V, P>| #[trigger]
        call_ensures(RwLock::<V, P>::acquire_write, (lock,), (value, handle))
}

/// Gets hold of the lock, for reading.
pub fn enter_to_read<'a, V, P: RwLockPredicate<V>>(lock: &'a RwLock<V, P>) -> (handle: ReadHandle<
    'a,
    V,
    P,
>)
    ensures
        handle.rwlock() == *lock,
        lock.inv(handle.view()),
        finds(lock, handle.view()),
{
    given_of(RwLock::<V, P>::acquire_read, lock)
}

/// Gets hold of the lock, for writing.
pub fn enter_to_write<'a, V, P: RwLockPredicate<V>>(lock: &'a RwLock<V, P>) -> (entered: (
    V,
    WriteHandle<'a, V, P>,
))
    ensures
        entered.1.rwlock() == *lock,
        lock.inv(entered.0),
        enters(lock, entered.0, entered.1),
        finds(lock, entered.0),
{
    given_of(RwLock::<V, P>::acquire_write, lock)
}

/// Whether whoever gets hold of the lock for writing finds `value`, and holds it by `handle`.
pub open spec fn enters<V, P: RwLockPredicate<V>>(
    lock: &RwLock<V, P>,
    value: V,
    handle: WriteHandle<V, P>,
) -> bool {
    call_ensures(RwLock::<V, P>::acquire_write, (lock,), (value, handle))
}

/// Whether whoever holds a lock by `handle` leaves `value` there.
pub open spec fn leaves<V, P: RwLockPredicate<V>>(handle: WriteHandle<V, P>, value: V) -> bool {
    call_ensures(WriteHandle::<V, P>::release_write, (handle, value), ())
}

/// Whether somebody who gets hold of the lock finds `before` there and leaves `after`.
pub open spec fn replaces<V, P: RwLockPredicate<V>>(
    lock: &RwLock<V, P>,
    before: V,
    after: V,
) -> bool {
    exists|handle: WriteHandle<V, P>| #[trigger]
        enters(lock, before, handle) && leaves(handle, after)
}

/// Lets go of a lock that was held for writing, and leaves `value` there.
pub fn leave<'a, V, P: RwLockPredicate<V>>(handle: WriteHandle<'a, V, P>, value: V)
    requires
        handle.rwlock().inv(value),
    ensures
        leaves(handle, value),
{
    given_of_both(WriteHandle::<'a, V, P>::release_write, handle, value)
}

} // verus!
