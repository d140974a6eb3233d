//! The library's laws, proved once and for all: the single-completion
//! behaviour of the primitive task and the ordering guarantee of the
//! sequencing combinator.

use vstd::prelude::*;

use crate::chain::{
    chain_in_first, chain_in_second, first_step, lemma_build_poll_spec_first,
    lemma_build_poll_spec_second, lemma_build_transition, lemma_destruct_poll_spec, second_step,
    Chain, ChainState,
};
use crate::futures::{
    keeps_going, lemma_fresh_snooze_only_waits, lemma_silent_snooze_is_dropped, Done, FutError,
    FutResult, FutState, Future, Snooze,
};
use crate::runner::{PollRunner, SimpleRunner};
use crate::trace::{
    advances, completes_to, lemma_may_fail_ready_widens, lemma_may_fail_swept_widens,
    lemma_may_wait_ready_widens, lemma_reaches_extend, lemma_reaches_refl, lemma_reaches_trans,
    may_fail_ready, may_fail_swept, may_fail_with, may_wait, may_wait_ready, reaches, reaches_in,
    retired_ready, set_aside, yields_done, yields_err, yields_waiting,
};

verus! {

/// Law: a `Done` task completes exactly once. Its first poll yields `Done`
/// carrying the held value, and polling it again fails with
/// `PolledAfterCompletion`.
pub proof fn lemma_done_single_completion<T>(
    d: Done<T>,
    v: T,
    d1: Done<T>,
    r1: Result<FutResult<T>, FutError>,
    d2: Done<T>,
    r2: Result<FutResult<T>, FutError>,
)
    requires
        d.held() == Some(v),
        Done::<T>::poll_spec(d, d1, r1),
        Done::<T>::poll_spec(d1, d2, r2),
    ensures
        r1 == Ok::<FutResult<T>, FutError>(
            FutResult { state: FutState::Done, value: Some(v) },
        ),
        r2 == Err::<FutResult<T>, FutError>(FutError::PolledAfterCompletion),
        d2 == d1,
{
}

/// A fresh `Done` task can reach no state but itself: it never reports
/// `Pending` or `Waiting`.
pub proof fn lemma_done_reaches_only_itself<T>(d: Done<T>, g: Done<T>)
    requires
        reaches(d, g),
    ensures
        g == d,
{
    let n = choose|n: nat| reaches_in(d, g, n);
    lemma_done_reaches_only_itself_in(d, g, n);
}

proof fn lemma_done_reaches_only_itself_in<T>(d: Done<T>, g: Done<T>, n: nat)
    requires
        reaches_in(d, g, n),
    ensures
        g == d,
    decreases n,
{
    if n > 0 {
        let mid = choose|mid: Done<T>|
            reaches_in(d, mid, (n - 1) as nat) && #[trigger] advances(mid, g);
        let r = choose|r: Result<FutResult<T>, FutError>|
            #[trigger] Done::<T>::poll_spec(mid, g, r) && keeps_going(r);
        assert(false);
    }
}

/// Every poll of the chain in `First` state lifts to a poll of the chain:
/// the chain tracks its first stage step for step.
proof fn lemma_chain_lifts_first<F1, F2, T>(a: F1, g: F1, t: T, n: nat) where
    F1: Future<Error = FutError>,
    F2: Future<Error = FutError>,
    T: FnOnce(F1::Output) -> F2,

    requires
        reaches_in(a, g, n),
    ensures
        reaches_in(
            chain_in_first::<F1, F2, T>(a, t),
            chain_in_first::<F1, F2, T>(g, t),
            n,
        ),
    decreases n,
{
    if n > 0 {
        let mid = choose|mid: F1| reaches_in(a, mid, (n - 1) as nat) && #[trigger] advances(mid, g);
        lemma_chain_lifts_first::<F1, F2, T>(a, mid, t, (n - 1) as nat);
        let ri = choose|ri: Result<FutResult<F1::Output>, FutError>|
            #[trigger] F1::poll_spec(mid, g, ri) && keeps_going(ri);
        let cm = chain_in_first::<F1, F2, T>(mid, t);
        let cg = chain_in_first::<F1, F2, T>(g, t);
        match ri {
            Ok(fr) => {
                if fr.state == FutState::Pending {
                    let cr = Ok::<FutResult<F2::Output>, FutError>(
                        FutResult { state: FutState::Pending, value: None },
                    );
                    assert(first_step(t, g, ri, cg, cr));
                    lemma_build_poll_spec_first(mid, t, g, ri, cg, cr);
                    assert(advances(cm, cg));
                } else {
                    let cr = Ok::<FutResult<F2::Output>, FutError>(
                        FutResult { state: FutState::Waiting, value: None },
                    );
                    assert(first_step(t, g, ri, cg, cr));
                    lemma_build_poll_spec_first(mid, t, g, ri, cg, cr);
                    assert(advances(cm, cg));
                }
            },
            Err(e) => {
                assert(false);
            },
        }
        assert(reaches_in(chain_in_first::<F1, F2, T>(a, t), cg, n));
    }
}

/// Every poll of the chain in `Second` state lifts to a poll of the chain:
/// the chain hands the second stage's outcomes up verbatim.
proof fn lemma_chain_lifts_second<F1, F2, T>(f2: F2, g2: F2, t: T, n: nat) where
    F1: Future<Error = FutError>,
    F2: Future<Error = FutError>,
    T: FnOnce(F1::Output) -> F2,

    requires
        reaches_in(f2, g2, n),
    ensures
        reaches_in(
            chain_in_second::<F1, F2, T>(f2),
            chain_in_second::<F1, F2, T>(g2),
            n,
        ),
    decreases n,
{
    if n > 0 {
        let mid = choose|mid: F2|
            reaches_in(f2, mid, (n - 1) as nat) && #[trigger] advances(mid, g2);
        lemma_chain_lifts_second::<F1, F2, T>(f2, mid, t, (n - 1) as nat);
        let ri = choose|ri: Result<FutResult<F2::Output>, FutError>|
            #[trigger] F2::poll_spec(mid, g2, ri) && keeps_going(ri);
        let cm = chain_in_second::<F1, F2, T>(mid);
        let cg = chain_in_second::<F1, F2, T>(g2);
        assert(second_step::<F1, F2, T>(g2, ri, cg, ri));
        lemma_build_poll_spec_second(mid, g2, ri, cg, ri);
        assert(advances(cm, cg));
        assert(reaches_in(chain_in_second::<F1, F2, T>(f2), cg, n));
    }
}

/// Every state a chain reaches from `First` is either still in `First`, with
/// the first stage advanced, or in `Second`, with the transform's product
/// advanced after the first stage completed.
proof fn lemma_chain_run_decomposes<F1, F2, T>(a: F1, t: T, c2: Chain<F1, F2, T>, n: nat) where
    F1: Future<Error = FutError>,
    F2: Future<Error = FutError>,
    T: FnOnce(F1::Output) -> F2,

    requires
        reaches_in(chain_in_first::<F1, F2, T>(a, t), c2, n),
    ensures
        match c2.state {
            ChainState::First { future: g, transform: t2 } => t2 == t && reaches(a, g),
            ChainState::Second { future: g2 } => exists|x: F1::Output, f2: F2|
                completes_to(a, x) && #[trigger] call_ensures(t, (x,), f2) && reaches(f2, g2),
            ChainState::Finished => false,
        },
    decreases n,
{
    if n == 0 {
        lemma_reaches_refl(a);
    } else {
        let mid = choose|mid: Chain<F1, F2, T>|
            reaches_in(chain_in_first::<F1, F2, T>(a, t), mid, (n - 1) as nat)
                && #[trigger] advances(mid, c2);
        lemma_chain_run_decomposes::<F1, F2, T>(a, t, mid, (n - 1) as nat);
        let cr = choose|cr: Result<FutResult<F2::Output>, FutError>|
            #[trigger] Chain::<F1, F2, T>::poll_spec(mid, c2, cr) && keeps_going(cr);
        lemma_destruct_poll_spec(mid, c2, cr);
        match mid.state {
            ChainState::First { future: g, transform: t2 } => {
                let (fp, ri) = choose|fp: F1, ri: Result<FutResult<F1::Output>, FutError>|
                    #[trigger] F1::poll_spec(g, fp, ri) && first_step(t2, fp, ri, c2, cr);
                match ri {
                    Ok(fr) => {
                        if fr.state == FutState::Pending || fr.state == FutState::Waiting {
                            assert(advances(g, fp));
                            lemma_reaches_extend(a, g, fp);
                        } else {
                            match fr.value {
                                Some(x) => {
                                    let f2 = choose|f2: F2|
                                        #[trigger] call_ensures(t2, (x,), f2) && c2.state == (
                                        ChainState::<F1, F2, T>::Second { future: f2 }) && cr
                                            == Ok::<FutResult<F2::Output>, FutError>(
                                            FutResult { state: FutState::Pending, value: None },
                                        );
                                    assert(yields_done(g, fp, Some(x)));
                                    assert(completes_to(a, x));
                                    lemma_reaches_refl(f2);
                                },
                                None => {
                                    assert(!keeps_going(cr));
                                },
                            }
                        }
                    },
                    Err(e) => {
                        assert(!keeps_going(cr));
                    },
                }
            },
            ChainState::Second { future: g2 } => {
                let (fp, ri) = choose|fp: F2, ri: Result<FutResult<F2::Output>, FutError>|
                    #[trigger] F2::poll_spec(g2, fp, ri) && second_step::<F1, F2, T>(
                        fp,
                        ri,
                        c2,
                        cr,
                    );
                assert(advances(g2, fp));
                let (x, f2) = choose|x: F1::Output, f2: F2|
                    completes_to(a, x) && #[trigger] call_ensures(t, (x,), f2) && reaches(f2, g2);
                lemma_reaches_extend(f2, g2, fp);
            },
            ChainState::Finished => {
                assert(false);
            },
        }
    }
}

/// Law: chain ordering. A chain built from a first task `a` and a transform
/// `t` can complete with a value `v` exactly when `a` can complete with some
/// output `x`, `t` applied to `x` can produce a second task, and that second
/// task can complete with `v`: sequencing first, transform once, then the
/// second task, never interleaving.
pub proof fn lemma_chain_ordering<F1, F2, T>(a: F1, t: T, v: F2::Output) where
    F1: Future<Error = FutError>,
    F2: Future<Error = FutError>,
    T: FnOnce(F1::Output) -> F2,

    ensures
        completes_to(chain_in_first::<F1, F2, T>(a, t), v) <==> exists|x: F1::Output, f2: F2|
            completes_to(a, x) && #[trigger] call_ensures(t, (x,), f2) && completes_to(f2, v),
{
    let ca = chain_in_first::<F1, F2, T>(a, t);
    if completes_to(ca, v) {
        let (cg, ch) = choose|cg: Chain<F1, F2, T>, ch: Chain<F1, F2, T>|
            #[trigger] reaches(ca, cg) && #[trigger] yields_done(cg, ch, Some(v));
        let n = choose|n: nat| reaches_in(ca, cg, n);
        lemma_chain_run_decomposes::<F1, F2, T>(a, t, cg, n);
        lemma_destruct_poll_spec(
            cg,
            ch,
            Ok::<FutResult<F2::Output>, FutError>(
                FutResult { state: FutState::Done, value: Some(v) },
            ),
        );
        match cg.state {
            ChainState::First { future: g, transform: t2 } => {
                let (fp, ri) = choose|fp: F1, ri: Result<FutResult<F1::Output>, FutError>|
                    #[trigger] F1::poll_spec(g, fp, ri) && first_step(
                        t2,
                        fp,
                        ri,
                        ch,
                        Ok::<FutResult<F2::Output>, FutError>(
                            FutResult { state: FutState::Done, value: Some(v) },
                        ),
                    );
                assert(false);
            },
            ChainState::Second { future: g2 } => {
                let (fp, ri) = choose|fp: F2, ri: Result<FutResult<F2::Output>, FutError>|
                    #[trigger] F2::poll_spec(g2, fp, ri) && second_step::<F1, F2, T>(
                        fp,
                        ri,
                        ch,
                        Ok::<FutResult<F2::Output>, FutError>(
                            FutResult { state: FutState::Done, value: Some(v) },
                        ),
                    );
                let (x, f2) = choose|x: F1::Output, f2: F2|
                    completes_to(a, x) && #[trigger] call_ensures(t, (x,), f2) && reaches(f2, g2);
                assert(yields_done(g2, fp, Some(v)));
                assert(completes_to(f2, v));
            },
            ChainState::Finished => {
                assert(false);
            },
        }
    }
    if exists|x: F1::Output, f2: F2|
        completes_to(a, x) && #[trigger] call_ensures(t, (x,), f2) && completes_to(f2, v) {
        let (x, f2) = choose|x: F1::Output, f2: F2|
            completes_to(a, x) && #[trigger] call_ensures(t, (x,), f2) && completes_to(f2, v);
        let (g, h) = choose|g: F1, h: F1|
            #[trigger] reaches(a, g) && #[trigger] yields_done(g, h, Some(x));
        let n = choose|n: nat| reaches_in(a, g, n);
        lemma_chain_lifts_first::<F1, F2, T>(a, g, t, n);
        let cg = chain_in_first::<F1, F2, T>(g, t);
        let cs = chain_in_second::<F1, F2, T>(f2);
        let ri = Ok::<FutResult<F1::Output>, FutError>(
            FutResult { state: FutState::Done, value: Some(x) },
        );
        let cr = Ok::<FutResult<F2::Output>, FutError>(
            FutResult { state: FutState::Pending, value: None },
        );
        assert(yields_done(g, h, Some(x)));
        lemma_build_transition(g, t, h, x, f2);
        assert(advances(cg, cs));
        assert(reaches(ca, cg));
        lemma_reaches_extend(ca, cg, cs);
        let (g2, h2) = choose|g2: F2, h2: F2|
            #[trigger] reaches(f2, g2) && #[trigger] yields_done(g2, h2, Some(v));
        let m = choose|m: nat| reaches_in(f2, g2, m);
        lemma_chain_lifts_second::<F1, F2, T>(f2, g2, t, m);
        assert(reaches(cs, chain_in_second::<F1, F2, T>(g2)));
        lemma_reaches_trans(ca, cs, chain_in_second::<F1, F2, T>(g2));
        let rd = Ok::<FutResult<F2::Output>, FutError>(
            FutResult { state: FutState::Done, value: Some(v) },
        );
        assert(second_step::<F1, F2, T>(h2, rd, chain_in_second::<F1, F2, T>(h2), rd));
        lemma_build_poll_spec_second(g2, h2, rd, chain_in_second::<F1, F2, T>(h2), rd);
        assert(yields_done(
            chain_in_second::<F1, F2, T>(g2),
            chain_in_second::<F1, F2, T>(h2),
            Some(v),
        ));
        assert(completes_to(ca, v));
    }
}

/// Law: a fresh `Done` task never parks and never fails. A scheduler
/// loaded only with such tasks can neither abort with `SleepingUnsupported`
/// nor propagate a task error: its run drives every task to `Done`.
pub proof fn lemma_done_task_never_parks<T>(d: Done<T>)
    requires
        d.held() is Some,
    ensures
        !may_wait(d),
        !set_aside(d),
        forall|e: FutError| !may_fail_with(d, e),
{
    if may_wait(d) {
        let (g, h, vo) = choose|g: Done<T>, h: Done<T>, vo: Option<T>|
            #[trigger] reaches(d, g) && #[trigger] yields_waiting(g, h, vo);
        lemma_done_reaches_only_itself(d, g);
        assert(false);
    }
    if set_aside(d) {
        let (g, h) = choose|g: Done<T>, h: Done<T>|
            #[trigger] reaches(d, g) && #[trigger] yields_waiting(g, h, None);
        lemma_done_reaches_only_itself(d, g);
        assert(false);
    }
    assert forall|e: FutError| !may_fail_with(d, e) by {
        if may_fail_with(d, e) {
            let (g, h) = choose|g: Done<T>, h: Done<T>|
                #[trigger] reaches(d, g) && #[trigger] yields_err(g, h, e);
            lemma_done_reaches_only_itself(d, g);
            assert(false);
        }
    }
}

/// Law: scheduling any number of fresh `Done` tasks on a `PollRunner` and
/// running it comes back `Ok`, with every queue drained — proved, not just
/// observed: no such task can fail a poll, so the run cannot abort.
pub fn run_fresh_done_tasks(vals: Vec<usize>) -> (r: Result<(), FutError>)
    ensures
        r is Ok,
{
    let mut runner: PollRunner<Done<usize>> = PollRunner::new();
    let mut i: usize = 0;
    while i < vals.len()
        invariant
            i <= vals@.len(),
            runner.active_tasks().len() == 0,
            runner.sleeping_tasks().len() == 0,
            forall|k: int|
                0 <= k < runner.pending_tasks().len() ==> (#[trigger] runner.pending_tasks()[k]).held() is Some,
        decreases vals@.len() - i,
    {
        runner.schedule(Done::new(vals[i]));
        i = i + 1;
    }
    let ghost t0 = runner.tasks();
    proof {
        assert(t0 =~= runner.pending_tasks());
    }
    let r = runner.run();
    proof {
        match r {
            Ok(_) => {},
            Err(e) => {
                let j = choose|j: int| 0 <= j < t0.len() && may_fail_swept(#[trigger] t0[j], e);
                lemma_may_fail_swept_widens(t0[j], e);
                lemma_done_task_never_parks(t0[j]);
                assert(false);
            },
        }
    }
    r
}

/// Law: a chain whose stages are immediate tasks never parks and never
/// fails, provided the transform only hands back fresh tasks.
pub proof fn lemma_done_chain_never_parks<T, U, Tr>(d: Done<T>, t: Tr) where
    Tr: FnOnce(T) -> Done<U>,

    requires
        d.held() is Some,
        forall|x: T, f2: Done<U>| #[trigger] call_ensures(t, (x,), f2) ==> f2.held() is Some,
    ensures
        forall|e: FutError| !may_fail_with(chain_in_first::<Done<T>, Done<U>, Tr>(d, t), e),
        !may_wait(chain_in_first::<Done<T>, Done<U>, Tr>(d, t)),
        !set_aside(chain_in_first::<Done<T>, Done<U>, Tr>(d, t)),
{
    let c = chain_in_first::<Done<T>, Done<U>, Tr>(d, t);
    assert forall|e: FutError| !may_fail_with(c, e) by {
        if may_fail_with(c, e) {
            let (g, h) = choose|g: Chain<Done<T>, Done<U>, Tr>, h: Chain<Done<T>, Done<U>, Tr>|
                #[trigger] reaches(c, g) && #[trigger] yields_err(g, h, e);
            lemma_done_chain_poll_is_ok(d, t, g, h, Err(e));
        }
    }
    if may_wait(c) {
        let (g, h, vo) = choose|
            g: Chain<Done<T>, Done<U>, Tr>,
            h: Chain<Done<T>, Done<U>, Tr>,
            vo: Option<U>,
        | #[trigger] reaches(c, g) && #[trigger] yields_waiting(g, h, vo);
        lemma_done_chain_poll_is_ok(
            d,
            t,
            g,
            h,
            Ok(FutResult { state: FutState::Waiting, value: vo }),
        );
    }
    if set_aside(c) {
        let (g, h) = choose|g: Chain<Done<T>, Done<U>, Tr>, h: Chain<Done<T>, Done<U>, Tr>|
            #[trigger] reaches(c, g) && #[trigger] yields_waiting(g, h, None);
        lemma_done_chain_poll_is_ok(
            d,
            t,
            g,
            h,
            Ok(FutResult { state: FutState::Waiting, value: None }),
        );
    }
}

/// Any poll of a state such a chain reaches returns neither an error nor a
/// `Waiting` outcome: the stages answer at once or the chain reports
/// `Pending` while handing over.
proof fn lemma_done_chain_poll_is_ok<T, U, Tr>(
    d: Done<T>,
    t: Tr,
    g: Chain<Done<T>, Done<U>, Tr>,
    h: Chain<Done<T>, Done<U>, Tr>,
    r: Result<FutResult<U>, FutError>,
) where
    Tr: FnOnce(T) -> Done<U>,

    requires
        d.held() is Some,
        forall|x: T, f2: Done<U>| #[trigger] call_ensures(t, (x,), f2) ==> f2.held() is Some,
        reaches(chain_in_first::<Done<T>, Done<U>, Tr>(d, t), g),
        Chain::<Done<T>, Done<U>, Tr>::poll_spec(g, h, r),
    ensures
        !(r is Err),
        r matches Ok(fr) ==> fr.state != FutState::Waiting,
{
    let n = choose|n: nat| reaches_in(chain_in_first::<Done<T>, Done<U>, Tr>(d, t), g, n);
    lemma_chain_run_decomposes::<Done<T>, Done<U>, Tr>(d, t, g, n);
    lemma_destruct_poll_spec(g, h, r);
    match g.state {
        ChainState::First { future: gf, transform: t2 } => {
            lemma_done_reaches_only_itself(d, gf);
            let (fp, ri) = choose|fp: Done<T>, ri: Result<FutResult<T>, FutError>|
                #[trigger] Done::<T>::poll_spec(gf, fp, ri) && first_step(t2, fp, ri, h, r);
        },
        ChainState::Second { future: g2 } => {
            let (x, f2) = choose|x: T, f2: Done<U>|
                completes_to(d, x) && #[trigger] call_ensures(t, (x,), f2) && reaches(f2, g2);
            lemma_done_reaches_only_itself(f2, g2);
            let (fp, ri) = choose|fp: Done<U>, ri: Result<FutResult<U>, FutError>|
                #[trigger] Done::<U>::poll_spec(g2, fp, ri) && second_step::<
                    Done<T>,
                    Done<U>,
                    Tr,
                >(fp, ri, h, r);
        },
        ChainState::Finished => {},
    }
}

/// The transform of the demonstration chain: turns the first stage's output
/// into an immediate task carrying five more.
fn add_five(x: usize) -> (r: Done<usize>)
    requires
        x <= usize::MAX - 5,
    ensures
        r.held() == Some((x + 5) as usize),
{
    Done::new(x + 5)
}

/// Law: the schedulers compose with the sequencing combinator — a chain of
/// two immediate tasks scheduled on the round-robin runner is proved, not
/// just observed, to run to completion: the transform's precondition is
/// discharged from the one value the first stage can complete with.
pub fn run_increment_chain() -> (r: Result<(), FutError>)
    ensures
        r is Ok,
{
    let first = Done::new(10usize);
    let ghost d = first;
    let chain = Chain::new(first, add_five);
    let ghost c0 = chain;
    proof {
        assert(c0 =~= chain_in_first::<Done<usize>, Done<usize>, _>(d, add_five));
        assert forall|g: Done<usize>, h: Done<usize>, a: usize, f2: Done<usize>|
            reaches(d, g) && #[trigger] yields_done(g, h, Some(a)) && #[trigger] call_ensures(
                add_five,
                (a,),
                f2,
            ) implies f2.steps() <= 0 by {}
        assert(crate::chain::bounds_second::<Done<usize>, Done<usize>, _>(d, add_five, 0));
        assert forall|g: Done<usize>, h: Done<usize>, a: usize|
            reaches(d, g) && #[trigger] yields_done(g, h, Some(a)) implies call_requires(
            add_five,
            (a,),
        ) by {
            lemma_done_reaches_only_itself(d, g);
            assert(a == 10);
        }
        assert forall|g: Done<usize>, h: Done<usize>, a: usize, f2: Done<usize>|
            reaches(d, g) && #[trigger] yields_done(g, h, Some(a)) && #[trigger] call_ensures(
                add_five,
                (a,),
                f2,
            ) implies f2.inv() by {}
        assert(crate::chain::first_inv::<Done<usize>, Done<usize>, _>(d, add_five));
        crate::chain::lemma_first_state_inv::<Done<usize>, Done<usize>, _>(d, add_five);
        assert(chain.inv());
    }
    let mut runner = SimpleRunner::new();
    runner.schedule(chain);
    let r = runner.run();
    proof {
        match r {
            Ok(_) => {},
            Err(e) => {
                assert forall|x: usize, f2: Done<usize>|
                    #[trigger] call_ensures(add_five, (x,), f2) implies f2.held() is Some by {}
                lemma_done_chain_never_parks::<usize, usize, _>(d, add_five);
                if may_fail_ready(c0, e) {
                    lemma_may_fail_ready_widens(c0, e);
                } else {
                    lemma_may_wait_ready_widens(c0);
                }
                assert(false);
            },
        }
    }
    r
}

/// Law: the same chained workload handed to the parking scheduler is also
/// proved to run to completion.
pub fn run_increment_chain_parked() -> (r: Result<(), FutError>)
    ensures
        r is Ok,
{
    let first = Done::new(10usize);
    let ghost d = first;
    let chain = Chain::new(first, add_five);
    let ghost c0 = chain;
    proof {
        assert(c0 =~= chain_in_first::<Done<usize>, Done<usize>, _>(d, add_five));
        assert forall|g: Done<usize>, h: Done<usize>, a: usize, f2: Done<usize>|
            reaches(d, g) && #[trigger] yields_done(g, h, Some(a)) && #[trigger] call_ensures(
                add_five,
                (a,),
                f2,
            ) implies f2.steps() <= 0 by {}
        assert(crate::chain::bounds_second::<Done<usize>, Done<usize>, _>(d, add_five, 0));
        assert forall|g: Done<usize>, h: Done<usize>, a: usize|
            reaches(d, g) && #[trigger] yields_done(g, h, Some(a)) implies call_requires(
            add_five,
            (a,),
        ) by {
            lemma_done_reaches_only_itself(d, g);
            assert(a == 10);
        }
        assert forall|g: Done<usize>, h: Done<usize>, a: usize, f2: Done<usize>|
            reaches(d, g) && #[trigger] yields_done(g, h, Some(a)) && #[trigger] call_ensures(
                add_five,
                (a,),
                f2,
            ) implies f2.inv() by {}
        assert(crate::chain::first_inv::<Done<usize>, Done<usize>, _>(d, add_five));
        crate::chain::lemma_first_state_inv::<Done<usize>, Done<usize>, _>(d, add_five);
        assert(chain.inv());
    }
    let mut runner = PollRunner::new();
    runner.schedule(chain);
    let r = runner.run();
    proof {
        match r {
            Ok(_) => {},
            Err(e) => {
                assert forall|x: usize, f2: Done<usize>|
                    #[trigger] call_ensures(add_five, (x,), f2) implies f2.held() is Some by {}
                lemma_done_chain_never_parks::<usize, usize, _>(d, add_five);
                lemma_may_fail_swept_widens(c0, e);
                assert(false);
            },
        }
    }
    r
}

/// Law: a task whose one wait signal carries no value is proved to be
/// silently dropped by the parking scheduler — the run still comes back
/// `Ok`, with no error raised on its account.
pub fn run_silent_snooze() -> (r: Result<(), FutError>)
    ensures
        r is Ok,
{
    let mut runner: PollRunner<Snooze<usize>> = PollRunner::new();
    let task: Snooze<usize> = Snooze::silent();
    let ghost t = task;
    runner.schedule(task);
    let r = runner.run();
    proof {
        match r {
            Ok(_) => {},
            Err(e) => {
                lemma_silent_snooze_is_dropped(t);
                assert(false);
            },
        }
    }
    r
}

/// Law: a task that parks itself makes the non-parking scheduler abort —
/// proved, not just observed: the run returns exactly `SleepingUnsupported`,
/// and the runner's contract adds that the task stays queued, uncleaned.
pub fn run_snooze_unsupported() -> (r: Result<(), FutError>)
    ensures
        r == Err::<(), FutError>(FutError::SleepingUnsupported),
{
    let mut runner: SimpleRunner<Snooze<usize>> = SimpleRunner::new();
    let task: Snooze<usize> = Snooze::new(2);
    let ghost t = task;
    runner.schedule(task);
    let ghost queued = runner.tasks();
    proof {
        assert(queued =~= Seq::<Snooze<usize>>::empty().push(t));
    }
    let r = runner.run();
    proof {
        lemma_fresh_snooze_only_waits(t);
        match r {
            Ok(_) => {
                assert(retired_ready(queued[0]));
                assert(false);
            },
            Err(e) => {
                let j = choose|j: int|
                    0 <= j < queued.len() && (may_fail_ready(#[trigger] queued[j], e) || (e
                        == FutError::SleepingUnsupported && may_wait_ready(queued[j])));
                assert(queued[j] == t);
                assert(e == FutError::SleepingUnsupported);
            },
        }
    }
    r
}

} // verus!
