//! An adapter that lets two different task types share one scheduler queue.
//! A queue holds a single element type — there are no trait objects here —
//! so a mixed workload wraps each task in `Either`.

use vstd::prelude::*;

use crate::futures::{FutError, FutResult, Future};

verus! {

/// One of two task types, scheduled interchangeably. A workload of more
/// than two task types nests the adapter: `Either<A, Either<B, C>>`.
#[derive(Debug, Clone)]
pub enum Either<A, B> {
    Left(A),
    Right(B),
}

impl<A, B> Future for Either<A, B> where
    A: Future<Error = FutError>,
    B: Future<Output = A::Output, Error = FutError>,
 {
    type Output = A::Output;

    type Error = FutError;

    open spec fn inv(&self) -> bool {
        match self {
            Either::Left(a) => a.inv(),
            Either::Right(b) => b.inv(),
        }
    }

    open spec fn poll_spec(pre: Self, post: Self, r: Result<FutResult<A::Output>, FutError>) -> bool {
        match (pre, post) {
            (Either::Left(a0), Either::Left(a1)) => A::poll_spec(a0, a1, r),
            (Either::Right(b0), Either::Right(b1)) => B::poll_spec(b0, b1, r),
            _ => false,
        }
    }

    open spec fn cleanup_spec(pre: Self, post: Self) -> bool {
        match (pre, post) {
            (Either::Left(a0), Either::Left(a1)) => A::cleanup_spec(a0, a1),
            (Either::Right(b0), Either::Right(b1)) => B::cleanup_spec(b0, b1),
            _ => false,
        }
    }

    open spec fn steps(&self) -> nat {
        match self {
            Either::Left(a) => a.steps(),
            Either::Right(b) => b.steps(),
        }
    }

    proof fn poll_keeps_going_decreases(
        pre: Self,
        post: Self,
        r: Result<FutResult<A::Output>, FutError>,
    ) {
        match (pre, post) {
            (Either::Left(a0), Either::Left(a1)) => A::poll_keeps_going_decreases(a0, a1, r),
            (Either::Right(b0), Either::Right(b1)) => B::poll_keeps_going_decreases(b0, b1, r),
            _ => {},
        }
    }

    proof fn poll_ok_preserves_inv(
        pre: Self,
        post: Self,
        r: Result<FutResult<A::Output>, FutError>,
    ) {
        match (pre, post) {
            (Either::Left(a0), Either::Left(a1)) => A::poll_ok_preserves_inv(a0, a1, r),
            (Either::Right(b0), Either::Right(b1)) => B::poll_ok_preserves_inv(b0, b1, r),
            _ => {},
        }
    }

    fn poll(&mut self) -> (r: Result<FutResult<A::Output>, FutError>) {
        match self {
            Either::Left(a) => a.poll(),
            Either::Right(b) => b.poll(),
        }
    }

    fn cleanup(&mut self) {
        match self {
            Either::Left(a) => a.cleanup(),
            Either::Right(b) => b.cleanup(),
        }
    }
}

} // verus!
