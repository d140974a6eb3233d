//! The sequencing combinator: `Chain` runs a first task to completion, feeds
//! its output into a single-use transform producing a second task, then runs
//! that to completion.

use vstd::prelude::*;

use crate::futures::{keeps_going, FutError, FutResult, FutState, Future};
use crate::trace::{advances, lemma_reaches_prepend, lemma_reaches_refl, reaches, yields_done};

verus! {

/// Whether `b` bounds the steps of every task the transform can produce from
/// a value the first stage can ever complete with.
pub open spec fn bounds_second<F1, F2, T>(future: F1, transform: T, b: nat) -> bool where
    F1: Future,
    F2: Future,
    T: FnOnce(F1::Output) -> F2,
 {
    forall|g: F1, h: F1, a: F1::Output, f2: F2|
        reaches(future, g) && #[trigger] yields_done(g, h, Some(a)) && #[trigger] call_ensures(
            transform,
            (a,),
            f2,
        ) ==> f2.steps() <= b
}

/// The least bound on the steps of any second stage the transform can
/// produce, or zero when no bound exists.
pub open spec fn second_bound<F1, F2, T>(future: F1, transform: T) -> nat where
    F1: Future,
    F2: Future,
    T: FnOnce(F1::Output) -> F2,
 {
    if exists|b: nat| bounds_second::<F1, F2, T>(future, transform, b) {
        choose|b: nat|
            bounds_second::<F1, F2, T>(future, transform, b) && (forall|c: nat|
                c < b ==> !bounds_second::<F1, F2, T>(future, transform, c))
    } else {
        0
    }
}

/// Any bound witnesses that the least bound is no larger and is itself a bound.
proof fn lemma_second_bound_le<F1, F2, T>(future: F1, transform: T, b: nat) where
    F1: Future,
    F2: Future,
    T: FnOnce(F1::Output) -> F2,

    requires
        bounds_second::<F1, F2, T>(future, transform, b),
    ensures
        bounds_second::<F1, F2, T>(future, transform, second_bound::<F1, F2, T>(future, transform)),
        second_bound::<F1, F2, T>(future, transform) <= b,
    decreases b,
{
    if exists|c: nat| c < b && bounds_second::<F1, F2, T>(future, transform, c) {
        let c = choose|c: nat| c < b && bounds_second::<F1, F2, T>(future, transform, c);
        lemma_second_bound_le::<F1, F2, T>(future, transform, c);
    } else {
        assert(bounds_second::<F1, F2, T>(future, transform, b) && (forall|c: nat|
            c < b ==> !bounds_second::<F1, F2, T>(future, transform, c)));
        let m = second_bound::<F1, F2, T>(future, transform);
        assert(bounds_second::<F1, F2, T>(future, transform, m) && (forall|c: nat|
            c < m ==> !bounds_second::<F1, F2, T>(future, transform, c)));
        if m > b {
            assert(!bounds_second::<F1, F2, T>(future, transform, b));
        }
    }
}

/// One in-flight poll of the first stage cannot raise the least bound on the
/// second stage, and keeps some bound in existence.
proof fn lemma_second_bound_mono<F1, F2, T>(future: F1, fp: F1, transform: T) where
    F1: Future,
    F2: Future,
    T: FnOnce(F1::Output) -> F2,

    requires
        advances(future, fp),
        exists|b: nat| bounds_second::<F1, F2, T>(future, transform, b),
    ensures
        exists|b: nat| bounds_second::<F1, F2, T>(fp, transform, b),
        second_bound::<F1, F2, T>(fp, transform) <= second_bound::<F1, F2, T>(future, transform),
{
    let b = choose|b: nat| bounds_second::<F1, F2, T>(future, transform, b);
    lemma_second_bound_le::<F1, F2, T>(future, transform, b);
    let sbf = second_bound::<F1, F2, T>(future, transform);
    assert forall|g: F1, h: F1, a: F1::Output, f2: F2|
        reaches(fp, g) && #[trigger] yields_done(g, h, Some(a)) && #[trigger] call_ensures(
            transform,
            (a,),
            f2,
        ) implies f2.steps() <= sbf by {
        lemma_reaches_prepend(future, fp, g);
    }
    assert(bounds_second::<F1, F2, T>(fp, transform, sbf));
    lemma_second_bound_le::<F1, F2, T>(fp, transform, sbf);
}

/// One in-flight poll of the first stage preserves the `First`-state side
/// conditions of the chain's invariant.
proof fn lemma_first_conjuncts_step<F1, F2, T>(future: F1, fp: F1, transform: T) where
    F1: Future,
    F2: Future,
    T: FnOnce(F1::Output) -> F2,

    requires
        advances(future, fp),
        first_inv::<F1, F2, T>(future, transform),
    ensures
        first_inv::<F1, F2, T>(fp, transform),
{
    lemma_second_bound_mono::<F1, F2, T>(future, fp, transform);
    assert forall|g: F1, h: F1, a: F1::Output|
        reaches(fp, g) && #[trigger] yields_done(g, h, Some(a)) implies call_requires(
        transform,
        (a,),
    ) by {
        lemma_reaches_prepend(future, fp, g);
    }
    assert forall|g: F1, h: F1, a: F1::Output, f2: F2|
        reaches(fp, g) && #[trigger] yields_done(g, h, Some(a)) && #[trigger] call_ensures(
            transform,
            (a,),
            f2,
        ) implies f2.inv() by {
        lemma_reaches_prepend(future, fp, g);
    }
}

/// The side conditions the chain's invariant puts on a first stage and its
/// transform: the transform accepts every value the first stage can ever
/// complete with, every task it can produce from such a value is well-formed,
/// and some bound on those tasks' steps exists.
pub open spec fn first_inv<F1, F2, T>(future: F1, transform: T) -> bool where
    F1: Future,
    F2: Future,
    T: FnOnce(F1::Output) -> F2,
 {
    &&& exists|b: nat| bounds_second::<F1, F2, T>(future, transform, b)
    &&& forall|g: F1, h: F1, a: F1::Output|
        reaches(future, g) && #[trigger] yields_done(g, h, Some(a)) ==> call_requires(
            transform,
            (a,),
        )
    &&& forall|g: F1, h: F1, a: F1::Output, f2: F2|
        reaches(future, g) && #[trigger] yields_done(g, h, Some(a)) && #[trigger] call_ensures(
            transform,
            (a,),
            f2,
        ) ==> f2.inv()
}

/// Where a sequencing task stands: still driving the first stage, driving the
/// second stage the transform produced, or retired.
///
/// The transition from `First` to `Second` happens exactly once, when the
/// first stage reports `Done`; the transform is invoked exactly once and
/// consumes the first stage's output by value.
#[derive(Debug, Clone)]
pub enum ChainState<F1, F2, T> {
    First { future: F1, transform: T },
    Second { future: F2 },
    Finished,
}

/// A task that runs `future`, hands its output to `transform`, and then runs
/// the task the transform produced.
///
/// To schedule a chain, its invariant asks that the transform's contract
/// pin down enough about the tasks it produces: that they are well-formed
/// and that some bound on their remaining polls exists. A transform with no
/// postcondition at all therefore cannot be handed to a verified scheduler
/// when it produces tasks of unbounded step budget, such as further chains.
#[derive(Debug, Clone)]
#[verifier::ext_equal]
pub struct Chain<F1, F2, T> {
    pub state: ChainState<F1, F2, T>,
}

/// Another name the sequencing combinator goes by.
pub type Then<F1, F2, T> = Chain<F1, F2, T>;

/// The chain's hand-over: the first stage completed with `a`, the transform
/// produced the chain's new second stage, and the chain reported `Pending`.
pub open spec fn hands_to_second<F1, F2, T>(
    transform: T,
    a: F1::Output,
    post: Chain<F1, F2, T>,
    r: Result<FutResult<F2::Output>, FutError>,
) -> bool where
    F1: Future<Error = FutError>,
    F2: Future<Error = FutError>,
    T: FnOnce(F1::Output) -> F2,
 {
    exists|f2: F2|
        #[trigger] call_ensures(transform, (a,), f2) && post.state == (ChainState::<
            F1,
            F2,
            T,
        >::Second { future: f2 }) && r == Ok::<FutResult<F2::Output>, FutError>(
            FutResult { state: FutState::Pending, value: None },
        )
}

/// What one poll in `First` state does, given how the inner poll went: the
/// inner task moved from `future` to `fp` returning `ri`, and the chain ended
/// as `post` returning `r`.
pub open spec fn first_step<F1, F2, T>(
    transform: T,
    fp: F1,
    ri: Result<FutResult<F1::Output>, FutError>,
    post: Chain<F1, F2, T>,
    r: Result<FutResult<F2::Output>, FutError>,
) -> bool where
    F1: Future<Error = FutError>,
    F2: Future<Error = FutError>,
    T: FnOnce(F1::Output) -> F2,
 {
    match ri {
        Ok(fr) => match fr.state {
            FutState::Pending => post.state == (ChainState::<F1, F2, T>::First {
                future: fp,
                transform,
            }) && r == Ok::<FutResult<F2::Output>, FutError>(
                FutResult { state: FutState::Pending, value: None },
            ),
            FutState::Waiting => post.state == (ChainState::<F1, F2, T>::First {
                future: fp,
                transform,
            }) && r == Ok::<FutResult<F2::Output>, FutError>(
                FutResult { state: FutState::Waiting, value: None },
            ),
            FutState::Done => match fr.value {
                Some(a) => hands_to_second(transform, a, post, r),
                None => post.state == ChainState::<F1, F2, T>::Finished && r == Err::<
                    FutResult<F2::Output>,
                    FutError,
                >(FutError::CompletedWithoutValue),
            },
        },
        Err(e) => post.state == ChainState::<F1, F2, T>::Finished && r == Err::<
            FutResult<F2::Output>,
            FutError,
        >(e),
    }
}

/// What one poll in `Second` state does: the inner task moved from `future`
/// to `fp`, its result is handed up verbatim, and the chain stays in `Second`.
pub open spec fn second_step<F1, F2, T>(
    fp: F2,
    ri: Result<FutResult<F2::Output>, FutError>,
    post: Chain<F1, F2, T>,
    r: Result<FutResult<F2::Output>, FutError>,
) -> bool where
    F1: Future<Error = FutError>,
    F2: Future<Error = FutError>,
    T: FnOnce(F1::Output) -> F2,
 {
    r == ri && post.state == (ChainState::<F1, F2, T>::Second { future: fp })
}

/// A chain still driving `future` as its first stage, with `transform` in hand.
pub open spec fn chain_in_first<F1, F2, T>(future: F1, transform: T) -> Chain<F1, F2, T> {
    Chain { state: ChainState::First { future, transform } }
}

/// A chain driving `future` as its second stage.
pub open spec fn chain_in_second<F1, F2, T>(future: F2) -> Chain<F1, F2, T> {
    Chain { state: ChainState::Second { future } }
}

/// The chain's whole step relation out of `First` state: some inner poll of
/// the first stage explains the chain's new state and result.
pub open spec fn polls_from_first<F1, F2, T>(
    future: F1,
    transform: T,
    post: Chain<F1, F2, T>,
    r: Result<FutResult<F2::Output>, FutError>,
) -> bool where
    F1: Future<Error = FutError>,
    F2: Future<Error = FutError>,
    T: FnOnce(F1::Output) -> F2,
 {
    exists|fp: F1, ri: Result<FutResult<F1::Output>, FutError>|
        #[trigger] F1::poll_spec(future, fp, ri) && first_step(transform, fp, ri, post, r)
}

/// The chain's whole step relation out of `Second` state: some inner poll of
/// the second stage explains the chain's new state and result.
pub open spec fn polls_from_second<F1, F2, T>(
    future: F2,
    post: Chain<F1, F2, T>,
    r: Result<FutResult<F2::Output>, FutError>,
) -> bool where
    F1: Future<Error = FutError>,
    F2: Future<Error = FutError>,
    T: FnOnce(F1::Output) -> F2,
 {
    exists|fp: F2, ri: Result<FutResult<F2::Output>, FutError>|
        #[trigger] F2::poll_spec(future, fp, ri) && second_step::<F1, F2, T>(fp, ri, post, r)
}

impl<F1, F2, T> Chain<F1, F2, T> where
    F1: Future<Error = FutError>,
    F2: Future<Error = FutError>,
    T: FnOnce(F1::Output) -> F2,
 {
    pub fn new(future: F1, transform: T) -> (r: Self)
        ensures
            r.state == (ChainState::<F1, F2, T>::First { future, transform }),
    {
        Self { state: ChainState::First { future, transform } }
    }
}

impl<F1, F2, T> Future for Chain<F1, F2, T> where
    F1: Future<Error = FutError>,
    F2: Future<Error = FutError>,
    T: FnOnce(F1::Output) -> F2,
 {
    type Output = F2::Output;

    type Error = FutError;

    /// In `First` state the transform must accept every value the first stage
    /// can ever complete with, every task it can produce from such a value
    /// must itself be well-formed, and some bound on those tasks' steps must
    /// exist.
    open spec fn inv(&self) -> bool {
        match self.state {
            ChainState::First { future, transform } => future.inv() && first_inv::<F1, F2, T>(
                future,
                transform,
            ),
            ChainState::Second { future } => future.inv(),
            ChainState::Finished => true,
        }
    }

    open spec fn poll_spec(pre: Self, post: Self, r: Result<FutResult<F2::Output>, FutError>) -> bool {
        match pre.state {
            ChainState::First { future, transform } => polls_from_first(future, transform, post, r),
            ChainState::Second { future } => polls_from_second(future, post, r),
            ChainState::Finished => post == pre && r == Err::<FutResult<F2::Output>, FutError>(
                FutError::PolledAfterCompletion,
            ),
        }
    }

    open spec fn cleanup_spec(pre: Self, post: Self) -> bool {
        match pre.state {
            ChainState::First { future, transform } => exists|fp: F1|
                #[trigger] F1::cleanup_spec(future, fp) && post.state == (ChainState::<
                    F1,
                    F2,
                    T,
                >::First { future: fp, transform }),
            ChainState::Second { future } => exists|fp: F2|
                #[trigger] F2::cleanup_spec(future, fp) && post.state == (ChainState::<
                    F1,
                    F2,
                    T,
                >::Second { future: fp }),
            ChainState::Finished => post == pre,
        }
    }

    open spec fn steps(&self) -> nat {
        match self.state {
            ChainState::First { future, transform } => future.steps() + second_bound::<
                F1,
                F2,
                T,
            >(future, transform) + 2,
            ChainState::Second { future } => future.steps() + 1,
            ChainState::Finished => 0,
        }
    }

    #[verifier::rlimit(80)]
    proof fn poll_keeps_going_decreases(
        pre: Self,
        post: Self,
        r: Result<FutResult<F2::Output>, FutError>,
    ) {
        match pre.state {
            ChainState::First { future, transform } => {
                assert(exists|fp: F1, ri: Result<FutResult<F1::Output>, FutError>|
                    #[trigger] F1::poll_spec(future, fp, ri) && first_step(
                        transform,
                        fp,
                        ri,
                        post,
                        r,
                    ));
                let (fp, ri) = choose|fp: F1, ri: Result<FutResult<F1::Output>, FutError>|
                    #[trigger] F1::poll_spec(future, fp, ri) && first_step(
                        transform,
                        fp,
                        ri,
                        post,
                        r,
                    );
                match ri {
                    Ok(fr) => {
                        if fr.state == FutState::Pending || fr.state == FutState::Waiting {
                            F1::poll_keeps_going_decreases(future, fp, ri);
                            assert(advances(future, fp));
                            lemma_second_bound_mono::<F1, F2, T>(future, fp, transform);
                        } else {
                            match fr.value {
                                Some(a) => {
                                    let f2 = choose|f2: F2|
                                        #[trigger] call_ensures(transform, (a,), f2) && post.state
                                            == (ChainState::<F1, F2, T>::Second { future: f2 })
                                            && r == Ok::<FutResult<F2::Output>, FutError>(
                                            FutResult { state: FutState::Pending, value: None },
                                        );
                                    let b = choose|b: nat|
                                        bounds_second::<F1, F2, T>(future, transform, b);
                                    lemma_second_bound_le::<F1, F2, T>(future, transform, b);
                                    lemma_reaches_refl(future);
                                    assert(yields_done(future, fp, Some(a)));
                                    assert(f2.steps() <= second_bound::<F1, F2, T>(
                                        future,
                                        transform,
                                    ));
                                },
                                None => {
                                    assert(!keeps_going(r));
                                },
                            }
                        }
                    },
                    Err(e) => {
                        assert(!keeps_going(r));
                    },
                }
            },
            ChainState::Second { future } => {
                assert(exists|fp: F2, ri: Result<FutResult<F2::Output>, FutError>|
                    #[trigger] F2::poll_spec(future, fp, ri) && second_step::<F1, F2, T>(
                        fp,
                        ri,
                        post,
                        r,
                    ));
                let (fp, ri) = choose|fp: F2, ri: Result<FutResult<F2::Output>, FutError>|
                    #[trigger] F2::poll_spec(future, fp, ri) && second_step::<F1, F2, T>(
                        fp,
                        ri,
                        post,
                        r,
                    );
                F2::poll_keeps_going_decreases(future, fp, ri);
            },
            ChainState::Finished => {
                assert(!keeps_going(r));
            },
        }
    }

    #[verifier::rlimit(100)]
    #[verifier::spinoff_prover]
    proof fn poll_ok_preserves_inv(
        pre: Self,
        post: Self,
        r: Result<FutResult<F2::Output>, FutError>,
    ) {
        match pre.state {
            ChainState::First { future, transform } => {
                assert(exists|fp: F1, ri: Result<FutResult<F1::Output>, FutError>|
                    #[trigger] F1::poll_spec(future, fp, ri) && first_step(
                        transform,
                        fp,
                        ri,
                        post,
                        r,
                    ));
                let (fp, ri) = choose|fp: F1, ri: Result<FutResult<F1::Output>, FutError>|
                    #[trigger] F1::poll_spec(future, fp, ri) && first_step(
                        transform,
                        fp,
                        ri,
                        post,
                        r,
                    );
                match ri {
                    Ok(fr) => {
                        if fr.state == FutState::Pending || fr.state == FutState::Waiting {
                            F1::poll_ok_preserves_inv(future, fp, ri);
                            assert(advances(future, fp));
                            lemma_first_conjuncts_step::<F1, F2, T>(future, fp, transform);
                            assert(post.inv());
                        } else {
                            match fr.value {
                                Some(a) => {
                                    let f2 = choose|f2: F2|
                                        #[trigger] call_ensures(transform, (a,), f2) && post.state
                                            == (ChainState::<F1, F2, T>::Second { future: f2 })
                                            && r == Ok::<FutResult<F2::Output>, FutError>(
                                            FutResult { state: FutState::Pending, value: None },
                                        );
                                    lemma_reaches_refl(future);
                                    assert(yields_done(future, fp, Some(a)));
                                    assert(f2.inv());
                                },
                                None => {
                                    assert(r is Err);
                                },
                            }
                        }
                    },
                    Err(e) => {
                        assert(r is Err);
                    },
                }
            },
            ChainState::Second { future } => {
                assert(exists|fp: F2, ri: Result<FutResult<F2::Output>, FutError>|
                    #[trigger] F2::poll_spec(future, fp, ri) && second_step::<F1, F2, T>(
                        fp,
                        ri,
                        post,
                        r,
                    ));
                let (fp, ri) = choose|fp: F2, ri: Result<FutResult<F2::Output>, FutError>|
                    #[trigger] F2::poll_spec(future, fp, ri) && second_step::<F1, F2, T>(
                        fp,
                        ri,
                        post,
                        r,
                    );
                F2::poll_ok_preserves_inv(future, fp, ri);
            },
            ChainState::Finished => {
                assert(r is Err);
            },
        }
    }

    fn poll(&mut self) -> (r: Result<FutResult<F2::Output>, FutError>) {
        let mut taken = ChainState::Finished;
        core::mem::swap(&mut self.state, &mut taken);
        match taken {
            ChainState::First { mut future, transform } => {
                let ghost f0 = future;
                match future.poll() {
                    Ok(fr) => match fr.state {
                        FutState::Done => match fr.value {
                            Some(value) => {
                                proof {
                                    lemma_reaches_refl(f0);
                                    assert(yields_done(f0, future, Some(value)));
                                }
                                let second = transform(value);
                                self.state = ChainState::Second { future: second };
                                Ok(FutResult::pending())
                            },
                            None => Err(FutError::CompletedWithoutValue),
                        },
                        FutState::Pending => {
                            self.state = ChainState::First { future, transform };
                            Ok(FutResult::pending())
                        },
                        FutState::Waiting => {
                            self.state = ChainState::First { future, transform };
                            Ok(FutResult { state: FutState::Waiting, value: None })
                        },
                    },
                    Err(e) => Err(e),
                }
            },
            ChainState::Second { mut future } => {
                let r = future.poll();
                self.state = ChainState::Second { future };
                r
            },
            ChainState::Finished => Err(FutError::PolledAfterCompletion),
        }
    }

    fn cleanup(&mut self) {
        let mut taken = ChainState::Finished;
        core::mem::swap(&mut self.state, &mut taken);
        match taken {
            ChainState::First { mut future, transform } => {
                future.cleanup();
                self.state = ChainState::First { future, transform };
            },
            ChainState::Second { mut future } => {
                future.cleanup();
                self.state = ChainState::Second { future };
            },
            ChainState::Finished => {},
        }
    }
}

/// Packages one observed first-stage poll into the chain's own step relation.
pub proof fn lemma_build_poll_spec_first<F1, F2, T>(
    future: F1,
    transform: T,
    fp: F1,
    ri: Result<FutResult<F1::Output>, FutError>,
    post: Chain<F1, F2, T>,
    r: Result<FutResult<F2::Output>, FutError>,
) where
    F1: Future<Error = FutError>,
    F2: Future<Error = FutError>,
    T: FnOnce(F1::Output) -> F2,

    requires
        F1::poll_spec(future, fp, ri),
        first_step(transform, fp, ri, post, r),
    ensures
        Chain::<F1, F2, T>::poll_spec(chain_in_first(future, transform), post, r),
{
    let pre = chain_in_first::<F1, F2, T>(future, transform);
    assert(pre.state == (ChainState::<F1, F2, T>::First { future, transform }));
    assert(polls_from_first(future, transform, post, r));
    assert(Chain::<F1, F2, T>::poll_spec(pre, post, r));
}

/// Packages one observed second-stage poll into the chain's own step relation.
pub proof fn lemma_build_poll_spec_second<F1, F2, T>(
    future: F2,
    fp: F2,
    ri: Result<FutResult<F2::Output>, FutError>,
    post: Chain<F1, F2, T>,
    r: Result<FutResult<F2::Output>, FutError>,
) where
    F1: Future<Error = FutError>,
    F2: Future<Error = FutError>,
    T: FnOnce(F1::Output) -> F2,

    requires
        F2::poll_spec(future, fp, ri),
        second_step::<F1, F2, T>(fp, ri, post, r),
    ensures
        Chain::<F1, F2, T>::poll_spec(chain_in_second(future), post, r),
{
    let pre = chain_in_second::<F1, F2, T>(future);
    assert(pre.state == (ChainState::<F1, F2, T>::Second { future }));
    assert(polls_from_second::<F1, F2, T>(future, post, r));
    assert(Chain::<F1, F2, T>::poll_spec(pre, post, r));
}

/// Opens the chain's step relation back up into what the inner poll did.
pub proof fn lemma_destruct_poll_spec<F1, F2, T>(
    pre: Chain<F1, F2, T>,
    post: Chain<F1, F2, T>,
    r: Result<FutResult<F2::Output>, FutError>,
) where
    F1: Future<Error = FutError>,
    F2: Future<Error = FutError>,
    T: FnOnce(F1::Output) -> F2,

    requires
        Chain::<F1, F2, T>::poll_spec(pre, post, r),
    ensures
        match pre.state {
            ChainState::First { future, transform } => polls_from_first(future, transform, post, r),
            ChainState::Second { future } => polls_from_second(future, post, r),
            ChainState::Finished => post == pre && r == Err::<FutResult<F2::Output>, FutError>(
                FutError::PolledAfterCompletion,
            ),
        },
{
}

/// The chain's `First`-to-`Second` transition: when the first stage completes
/// and the transform can produce `f2`, the chain can step into `Second`.
pub proof fn lemma_build_transition<F1, F2, T>(
    future: F1,
    transform: T,
    h: F1,
    x: F1::Output,
    f2: F2,
) where
    F1: Future<Error = FutError>,
    F2: Future<Error = FutError>,
    T: FnOnce(F1::Output) -> F2,

    requires
        yields_done(future, h, Some(x)),
        call_ensures(transform, (x,), f2),
    ensures
        Chain::<F1, F2, T>::poll_spec(
            chain_in_first(future, transform),
            chain_in_second(f2),
            Ok(FutResult { state: FutState::Pending, value: None }),
        ),
{
    let cs = chain_in_second::<F1, F2, T>(f2);
    let cr = Ok::<FutResult<F2::Output>, FutError>(
        FutResult { state: FutState::Pending, value: None },
    );
    let ri = Ok::<FutResult<F1::Output>, FutError>(
        FutResult { state: FutState::Done, value: Some(x) },
    );
    assert(cs.state == (ChainState::<F1, F2, T>::Second { future: f2 }));
    assert(hands_to_second(transform, x, cs, cr));
    assert(first_step(transform, h, ri, cs, cr));
    lemma_build_poll_spec_first(future, transform, h, ri, cs, cr);
}

/// A chain freshly in `First` state is well-formed once its stage and
/// transform meet the `First`-state side conditions.
pub proof fn lemma_first_state_inv<F1, F2, T>(future: F1, transform: T) where
    F1: Future<Error = FutError>,
    F2: Future<Error = FutError>,
    T: FnOnce(F1::Output) -> F2,

    requires
        future.inv(),
        first_inv::<F1, F2, T>(future, transform),
    ensures
        chain_in_first::<F1, F2, T>(future, transform).inv(),
{
}

} // verus!
