//! The pool of worker threads.
use crate::reading::{given_of, given_of_both};
use rayon::{ThreadPool, ThreadPoolBuildError};
use vstd::prelude::*;

verus! {

#[verifier::external_type_specification]
#[verifier::external_body]
pub struct ExThreadPool(rayon::ThreadPool);

#[verifier::external_type_specification]
#[verifier::external_body]
pub struct ExThreadPoolBuildError(rayon::ThreadPoolBuildError);

/// What a thread can be given to do.
pub trait Work: Sync {
    type Output: Send;

    /// Whether it can be done.
    spec fn is_ready(&self) -> bool;

    /// Whether it may give `output`.
    spec fn may_give(&self, output: Self::Output) -> bool;

    fn run(&self) -> (output: Self::Output)
        requires
            self.is_ready(),
        ensures
            self.may_give(output),
    ;
}

/// `rayon::ThreadPool::current_thread_index`: the number of the pool's thread that runs this, which
/// depends on how the threads are scheduled.
pub assume_specification[ rayon::ThreadPool::current_thread_index ](
    pool: &ThreadPool,
) -> (index: Option<usize>);

/// `rayon::ThreadPoolBuilder::build`: starts a pool of `threads` threads, or of a number of threads
/// that suits the machine where `threads` is 0. Whether the machine can start them is not known.
#[verifier::external_body]
fn start_pool(threads: usize) -> (pool: Result<ThreadPool, ThreadPoolBuildError>) {
    rayon::ThreadPoolBuilder::new().num_threads(threads).build()
}

/// `rayon::ThreadPool::install`: does the work once, on a thread of the pool, and returns what it
/// gives.
#[verifier::external_body]
fn run_on_a_thread<W: Work>(pool: &ThreadPool, work: &W) -> (output: W::Output)
    requires
        work.is_ready(),
    ensures
        work.may_give(output),
{
    pool.install(|| work.run())
}

/// `rayon::ThreadPool::broadcast`: does the work once on every thread of the pool, and returns what
/// each of them gives when all are done. The number of threads depends on the machine.
#[verifier::external_body]
fn run_on_every_thread<W: Work>(pool: &ThreadPool, work: &W) -> (results: Vec<W::Output>)
    requires
        work.is_ready(),
    ensures
        forall|i: int| 0 <= i < results@.len() ==> work.may_give(#[trigger] results@[i]),
{
    pool.broadcast(|_context| work.run())
}

/// The worker threads could not be started.
#[derive(Clone, Copy, Debug, PartialEq, Eq, Structural)]
pub struct WorkerPoolError;

impl WorkerPoolError {
    pub fn message(&self) -> (message: &'static str)
        ensures
            message@ == "failed to create evaluator worker pool"@,
    {
        "failed to create evaluator worker pool"
    }
}

/// Whether asking for the given number of threads, or for a number that suits the machine, gives
/// `result`.
spec fn starts(
    threads: Option<usize>,
    result: Result<ThreadPool, ThreadPoolBuildError>,
) -> bool {
    call_ensures(
        start_pool,
        (match threads {
            Some(threads) => threads,
            None => 0,
        },),
        result,
    )
}

/// Whether so many threads, or a number that suits the machine, cannot be started.
pub closed spec fn fails_to_start(threads: Option<usize>) -> bool {
    exists|error: ThreadPoolBuildError| starts(threads, Err(error))
}

/// The worker threads of an evaluator. Where there are none, the calling thread does the work.
pub struct WorkerPool {
    pool: Option<ThreadPool>,
}

impl WorkerPool {
    /// Whether there are worker threads.
    pub closed spec fn has_threads(&self) -> bool {
        self.pool is Some
    }

    /// Whether the worker threads are those that were started when so many were asked for.
    pub closed spec fn has_started(&self, threads: Option<usize>) -> bool {
        self.pool matches Some(pool) && starts(threads, Ok(pool))
    }

    /// Whether `index` is the number of the worker thread that is asked, or 0 where none is.
    pub closed spec fn gives_index(&self, index: usize) -> bool {
        match self.pool {
            Some(pool) => exists|answer: Option<usize>| #[trigger]
                call_ensures(ThreadPool::current_thread_index, (&pool,), answer) && index == (
                match answer {
                    Some(number) => number,
                    None => 0,
                }),
            None => index == 0,
        }
    }

    /// Whether `output` is what a worker thread gives for the work, or the calling thread where there
    /// are no worker threads.
    pub closed spec fn runs<W: Work>(&self, work: W, output: W::Output) -> bool {
        match self.pool {
            Some(pool) => call_ensures(run_on_a_thread::<W>, (&pool, &work), output),
            None => call_ensures(W::run, (&work,), output),
        }
    }

    /// Whether `results` is what the worker threads give for the work, one each. The calling thread
    /// gives one result where there are none.
    pub closed spec fn runs_on_all<W: Work>(&self, work: W, results: Vec<W::Output>) -> bool {
        match self.pool {
            Some(pool) => exists|given: Vec<W::Output>| #[trigger]
                call_ensures(run_on_every_thread::<W>, (&pool, &work), given) && (given@.len() > 0
                    ==> results == given) && (given@.len() == 0 ==> results@.len() == 1),
            None => results@.len() == 1 && call_ensures(W::run, (&work,), results@[0]),
        }
    }

    /// No worker threads.
    pub fn without_threads() -> (pool: Self)
        ensures
            !pool.has_threads(),
    {
        WorkerPool { pool: None }
    }

    /// Starts worker threads, of a number that suits the machine where none is given. It fails only
    /// where so many cannot be started.
    pub fn start(threads: Option<usize>) -> (pool: Result<Self, WorkerPoolError>)
        requires
            threads != Some(0usize),
        ensures
            match pool {
                Ok(pool) => pool.has_started(threads),
                Err(_) => fails_to_start(threads),
            },
    {
        let count: usize = match threads {
            Some(threads) => threads,
            None => 0,
        };
        let result: Result<ThreadPool, ThreadPoolBuildError> = given_of(start_pool, count);
        proof {
            assert(starts(threads, result));
        }
        match result {
            Ok(pool) => Ok(WorkerPool { pool: Some(pool) }),
            Err(_) => Err(WorkerPoolError),
        }
    }

    /// Does the work on a worker thread.
    pub fn install<W: Work>(&self, work: &W) -> (output: W::Output)
        requires
            work.is_ready(),
        ensures
            work.may_give(output),
            self.runs(*work, output),
    {
        match &self.pool {
            Some(pool) => given_of_both(run_on_a_thread::<W>, pool, work),
            None => given_of(W::run, work),
        }
    }

    /// Does the work on every worker thread, at least once.
    pub fn broadcast<W: Work>(&self, work: &W) -> (results: Vec<W::Output>)
        requires
            work.is_ready(),
        ensures
            results@.len() > 0,
            forall|i: int| 0 <= i < results@.len() ==> work.may_give(#[trigger] results@[i]),
            self.runs_on_all(*work, results),
    {
        match &self.pool {
            Some(pool) => {
                let results: Vec<W::Output> = given_of_both(run_on_every_thread::<W>, pool, work);
                if results.len() > 0 {
                    return results;
                }
            },
            None => {},
        }
        let mut results: Vec<W::Output> = Vec::new();
        results.push(given_of(W::run, work));
        results
    }

    /// The number of the worker thread that runs this, or 0 where none does.
    pub fn current_thread_index(&self) -> (index: usize)
        ensures
            !self.has_threads() ==> index == 0,
            self.gives_index(index),
    {
        match &self.pool {
            Some(pool) => match given_of(ThreadPool::current_thread_index, pool) {
                Some(index) => index,
                None => 0,
            },
            None => 0,
        }
    }
}

} // verus!
