//! Sizing of the worker pool.
use vstd::prelude::*;

verus! {

/// The most workers a pool may have.
pub const MAX_THREAD_COUNT: usize = 16;

/// Why a pool of the asked size cannot be made.
#[derive(Debug, Clone, Copy, PartialEq, Eq, Structural)]
pub enum PoolCreationError {
    EmptyPool,
    TooManyThreads(usize),
}

/// The number of workers to start: at least one and at most the cap.
pub fn pool_size(requested: usize) -> (r: Result<usize, PoolCreationError>)
    ensures
        requested == 0 <==> r == Err::<usize, PoolCreationError>(PoolCreationError::EmptyPool),
        requested > MAX_THREAD_COUNT <==> r == Err::<usize, PoolCreationError>(
            PoolCreationError::TooManyThreads(requested),
        ),
        0 < requested <= MAX_THREAD_COUNT <==> r == Ok::<usize, PoolCreationError>(requested),
{
    if requested == 0 {
        Err(PoolCreationError::EmptyPool)
    } else if requested > MAX_THREAD_COUNT {
        Err(PoolCreationError::TooManyThreads(requested))
    } else {
        Ok(requested)
    }
}

} // verus!
