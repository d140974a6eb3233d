//! The step semantics of tasks, derived from each task's `poll_spec`: chains
//! of non-terminal polls, and what a task can be driven to across a whole
//! scheduler run. The schedulers' contracts and the sequencing law are stated
//! over these predicates.

use vstd::prelude::*;

use crate::futures::{keeps_going, FutResult, FutState, Future};

verus! {

/// One poll step from `a` to `b` after which the task is still in flight.
pub open spec fn advances<F: Future>(a: F, b: F) -> bool {
    exists|r: Result<FutResult<F::Output>, F::Error>| #[trigger] F::poll_spec(a, b, r) && keeps_going(r)
}

/// `b` arises from `a` by exactly `n` non-terminal polls.
pub open spec fn reaches_in<F: Future>(a: F, b: F, n: nat) -> bool
    decreases n,
{
    if n == 0 {
        a == b
    } else {
        exists|mid: F| reaches_in(a, mid, (n - 1) as nat) && #[trigger] advances(mid, b)
    }
}

/// `b` arises from `a` by some number of non-terminal polls.
pub open spec fn reaches<F: Future>(a: F, b: F) -> bool {
    exists|n: nat| reaches_in(a, b, n)
}

/// Polling `g` once can report `Done`, carrying `vo`, and leave the task as `h`.
pub open spec fn yields_done<F: Future>(g: F, h: F, vo: Option<F::Output>) -> bool {
    F::poll_spec(g, h, Ok(FutResult { state: FutState::Done, value: vo }))
}

/// Polling `g` once can report `Waiting`, carrying `vo`, and leave the task as `h`.
pub open spec fn yields_waiting<F: Future>(g: F, h: F, vo: Option<F::Output>) -> bool {
    F::poll_spec(g, h, Ok(FutResult { state: FutState::Waiting, value: vo }))
}

/// Polling `g` once can fail with `e` and leave the task as `h`.
pub open spec fn yields_err<F: Future>(g: F, h: F, e: F::Error) -> bool {
    F::poll_spec(g, h, Err(e))
}

/// The task can be driven from `f` to a terminal `Done` outcome carrying `v`.
pub open spec fn completes_to<F: Future>(f: F, v: F::Output) -> bool {
    exists|g: F, h: F| #[trigger] reaches(f, g) && #[trigger] yields_done(g, h, Some(v))
}

/// The task was driven from `f` through the polling protocol to a `Done`
/// outcome and then had `cleanup` called on it: how a scheduler retires a
/// completed task.
pub open spec fn retired<F: Future>(f: F) -> bool {
    exists|g: F, h: F, vo: Option<F::Output>, after: F|
        #[trigger] reaches(f, g) && #[trigger] yields_done(g, h, vo) && #[trigger] F::cleanup_spec(
            h,
            after,
        )
}

/// The task can be driven from `f` to a `Waiting` outcome that carries no
/// value: the case in which a parking scheduler silently drops it.
pub open spec fn set_aside<F: Future>(f: F) -> bool {
    exists|g: F, h: F| #[trigger] reaches(f, g) && #[trigger] yields_waiting(g, h, None)
}

/// The task can be driven from `f` to a `Waiting` outcome: what makes a
/// non-parking scheduler abort.
pub open spec fn may_wait<F: Future>(f: F) -> bool {
    exists|g: F, h: F, vo: Option<F::Output>| #[trigger] reaches(f, g) && #[trigger] yields_waiting(
        g,
        h,
        vo,
    )
}

/// The task can be driven from `f` to a poll that fails with `e`.
pub open spec fn may_fail_with<F: Future>(f: F, e: F::Error) -> bool {
    exists|g: F, h: F| #[trigger] reaches(f, g) && #[trigger] yields_err(g, h, e)
}

/// Reaching is reflexive: every task state arises from itself by zero polls.
pub proof fn lemma_reaches_refl<F: Future>(a: F)
    ensures
        reaches(a, a),
{
    assert(reaches_in(a, a, 0));
}

/// A reached state followed by one more in-flight poll is still reached.
pub proof fn lemma_reaches_extend<F: Future>(a: F, b: F, c: F)
    requires
        reaches(a, b),
        advances(b, c),
    ensures
        reaches(a, c),
{
    let n = choose|n: nat| reaches_in(a, b, n);
    assert(reaches_in(a, c, n + 1));
}

proof fn lemma_reaches_in_prepend<F: Future>(a: F, b: F, c: F, n: nat)
    requires
        advances(a, b),
        reaches_in(b, c, n),
    ensures
        reaches_in(a, c, n + 1),
    decreases n,
{
    if n == 0 {
        assert(c == b);
        assert(reaches_in(a, a, 0));
        assert(reaches_in(a, c, 1));
    } else {
        let mid = choose|mid: F| reaches_in(b, mid, (n - 1) as nat) && #[trigger] advances(mid, c);
        lemma_reaches_in_prepend(a, b, mid, (n - 1) as nat);
        assert(reaches_in(a, c, n + 1));
    }
}

/// One in-flight poll followed by a chain of reached states is itself reached.
pub proof fn lemma_reaches_prepend<F: Future>(a: F, b: F, c: F)
    requires
        advances(a, b),
        reaches(b, c),
    ensures
        reaches(a, c),
{
    let n = choose|n: nat| reaches_in(b, c, n);
    lemma_reaches_in_prepend(a, b, c, n);
}

proof fn lemma_reaches_in_trans<F: Future>(a: F, b: F, c: F, n: nat, m: nat)
    requires
        reaches_in(a, b, n),
        reaches_in(b, c, m),
    ensures
        reaches_in(a, c, n + m),
    decreases m,
{
    if m == 0 {
        assert(c == b);
    } else {
        let mid = choose|mid: F| reaches_in(b, mid, (m - 1) as nat) && #[trigger] advances(mid, c);
        lemma_reaches_in_trans(a, b, mid, n, (m - 1) as nat);
        assert(reaches_in(a, c, n + m));
    }
}

/// Reaching is transitive.
pub proof fn lemma_reaches_trans<F: Future>(a: F, b: F, c: F)
    requires
        reaches(a, b),
        reaches(b, c),
    ensures
        reaches(a, c),
{
    let n = choose|n: nat| reaches_in(a, b, n);
    let m = choose|m: nat| reaches_in(b, c, m);
    lemma_reaches_in_trans(a, b, c, n, m);
}

/// One poll step after which a non-parking scheduler polls the task again:
/// the poll reported `Pending`.
pub open spec fn steps_ready<F: Future>(a: F, b: F) -> bool {
    exists|vo: Option<F::Output>|
        #[trigger] F::poll_spec(a, b, Ok(FutResult { state: FutState::Pending, value: vo }))
}

/// One poll step after which the parking scheduler keeps the task for a
/// later sweep: the poll reported `Pending`, or `Waiting` with a value.
pub open spec fn steps_swept<F: Future>(a: F, b: F) -> bool {
    steps_ready(a, b) || exists|v: F::Output|
        #[trigger] F::poll_spec(a, b, Ok(FutResult { state: FutState::Waiting, value: Some(v) }))
}

/// `b` arises from `a` by exactly `n` polls that all reported `Pending`.
pub open spec fn reaches_ready_in<F: Future>(a: F, b: F, n: nat) -> bool
    decreases n,
{
    if n == 0 {
        a == b
    } else {
        exists|mid: F| reaches_ready_in(a, mid, (n - 1) as nat) && #[trigger] steps_ready(mid, b)
    }
}

/// `b` arises from `a` by polls that all reported `Pending`: the only
/// re-polls the non-parking scheduler ever performs.
pub open spec fn reaches_ready<F: Future>(a: F, b: F) -> bool {
    exists|n: nat| reaches_ready_in(a, b, n)
}

/// `b` arises from `a` by exactly `n` polls that reported `Pending` or
/// `Waiting` with a value.
pub open spec fn reaches_swept_in<F: Future>(a: F, b: F, n: nat) -> bool
    decreases n,
{
    if n == 0 {
        a == b
    } else {
        exists|mid: F| reaches_swept_in(a, mid, (n - 1) as nat) && #[trigger] steps_swept(mid, b)
    }
}

/// `b` arises from `a` by polls that reported `Pending` or `Waiting` with a
/// value: the re-polls the parking scheduler performs, which drops a task at
/// a valueless `Waiting` instead of polling it again.
pub open spec fn reaches_swept<F: Future>(a: F, b: F) -> bool {
    exists|n: nat| reaches_swept_in(a, b, n)
}

/// `b` arises from `a` by in-flight polls followed by at most one poll of
/// any outcome: how far a scheduler can have driven a task it still holds
/// when a run aborts.
pub open spec fn reaches_polled<F: Future>(a: F, b: F) -> bool {
    reaches(a, b) || exists|g: F, r: Result<FutResult<F::Output>, F::Error>|
        reaches(a, g) && #[trigger] F::poll_spec(g, b, r)
}

/// The task was driven from `f` through `Pending` re-polls to a `Done`
/// outcome and then had `cleanup` called: how the non-parking scheduler
/// retires a completed task, never re-polling past a `Waiting`.
pub open spec fn retired_ready<F: Future>(f: F) -> bool {
    exists|g: F, h: F, vo: Option<F::Output>, after: F|
        #[trigger] reaches_ready(f, g) && #[trigger] yields_done(g, h, vo)
            && #[trigger] F::cleanup_spec(h, after)
}

/// The task can report `Waiting` after `Pending` re-polls alone: what makes
/// the non-parking scheduler abort.
pub open spec fn may_wait_ready<F: Future>(f: F) -> bool {
    exists|g: F, h: F, vo: Option<F::Output>|
        #[trigger] reaches_ready(f, g) && #[trigger] yields_waiting(g, h, vo)
}

/// The task can fail a poll after `Pending` re-polls alone.
pub open spec fn may_fail_ready<F: Future>(f: F, e: F::Error) -> bool {
    exists|g: F, h: F| #[trigger] reaches_ready(f, g) && #[trigger] yields_err(g, h, e)
}

/// The task was driven from `f` through the parking scheduler's re-polls to
/// a `Done` outcome and then had `cleanup` called.
pub open spec fn retired_swept<F: Future>(f: F) -> bool {
    exists|g: F, h: F, vo: Option<F::Output>, after: F|
        #[trigger] reaches_swept(f, g) && #[trigger] yields_done(g, h, vo)
            && #[trigger] F::cleanup_spec(h, after)
}

/// The task can report a valueless `Waiting` under the parking scheduler's
/// re-polls: the case in which that scheduler silently drops it.
pub open spec fn set_aside_swept<F: Future>(f: F) -> bool {
    exists|g: F, h: F| #[trigger] reaches_swept(f, g) && #[trigger] yields_waiting(g, h, None)
}

/// The task can fail a poll under the parking scheduler's re-polls.
pub open spec fn may_fail_swept<F: Future>(f: F, e: F::Error) -> bool {
    exists|g: F, h: F| #[trigger] reaches_swept(f, g) && #[trigger] yields_err(g, h, e)
}

/// Ready-reaching is reflexive.
pub proof fn lemma_reaches_ready_refl<F: Future>(a: F)
    ensures
        reaches_ready(a, a),
{
    assert(reaches_ready_in(a, a, 0));
}

/// A ready-reached state followed by one more `Pending` poll is still
/// ready-reached.
pub proof fn lemma_reaches_ready_extend<F: Future>(a: F, b: F, c: F)
    requires
        reaches_ready(a, b),
        steps_ready(b, c),
    ensures
        reaches_ready(a, c),
{
    let n = choose|n: nat| reaches_ready_in(a, b, n);
    assert(reaches_ready_in(a, c, n + 1));
}

/// Swept-reaching is reflexive.
pub proof fn lemma_reaches_swept_refl<F: Future>(a: F)
    ensures
        reaches_swept(a, a),
{
    assert(reaches_swept_in(a, a, 0));
}

/// A swept-reached state followed by one more sweep-surviving poll is still
/// swept-reached.
pub proof fn lemma_reaches_swept_extend<F: Future>(a: F, b: F, c: F)
    requires
        reaches_swept(a, b),
        steps_swept(b, c),
    ensures
        reaches_swept(a, c),
{
    let n = choose|n: nat| reaches_swept_in(a, b, n);
    assert(reaches_swept_in(a, c, n + 1));
}

proof fn lemma_reaches_ready_in_implies_reaches<F: Future>(a: F, b: F, n: nat)
    requires
        reaches_ready_in(a, b, n),
    ensures
        reaches_in(a, b, n),
    decreases n,
{
    if n > 0 {
        let mid = choose|mid: F|
            reaches_ready_in(a, mid, (n - 1) as nat) && #[trigger] steps_ready(mid, b);
        lemma_reaches_ready_in_implies_reaches(a, mid, (n - 1) as nat);
        let vo = choose|vo: Option<F::Output>|
            #[trigger] F::poll_spec(mid, b, Ok(FutResult { state: FutState::Pending, value: vo }));
        assert(advances(mid, b));
        assert(reaches_in(a, b, n));
    }
}

/// Every chain of `Pending` re-polls is a chain of in-flight polls.
pub proof fn lemma_reaches_ready_implies_reaches<F: Future>(a: F, b: F)
    requires
        reaches_ready(a, b),
    ensures
        reaches(a, b),
{
    let n = choose|n: nat| reaches_ready_in(a, b, n);
    lemma_reaches_ready_in_implies_reaches(a, b, n);
}

proof fn lemma_reaches_swept_in_implies_reaches<F: Future>(a: F, b: F, n: nat)
    requires
        reaches_swept_in(a, b, n),
    ensures
        reaches_in(a, b, n),
    decreases n,
{
    if n > 0 {
        let mid = choose|mid: F|
            reaches_swept_in(a, mid, (n - 1) as nat) && #[trigger] steps_swept(mid, b);
        lemma_reaches_swept_in_implies_reaches(a, mid, (n - 1) as nat);
        if steps_ready(mid, b) {
            let vo = choose|vo: Option<F::Output>|
                #[trigger] F::poll_spec(
                    mid,
                    b,
                    Ok(FutResult { state: FutState::Pending, value: vo }),
                );
            assert(advances(mid, b));
        } else {
            let v = choose|v: F::Output|
                #[trigger] F::poll_spec(
                    mid,
                    b,
                    Ok(FutResult { state: FutState::Waiting, value: Some(v) }),
                );
            assert(advances(mid, b));
        }
        assert(reaches_in(a, b, n));
    }
}

/// Every chain of sweep-surviving re-polls is a chain of in-flight polls.
pub proof fn lemma_reaches_swept_implies_reaches<F: Future>(a: F, b: F)
    requires
        reaches_swept(a, b),
    ensures
        reaches(a, b),
{
    let n = choose|n: nat| reaches_swept_in(a, b, n);
    lemma_reaches_swept_in_implies_reaches(a, b, n);
}

/// A failure producible under `Pending` re-polls alone is producible in
/// general.
pub proof fn lemma_may_fail_ready_widens<F: Future>(f: F, e: F::Error)
    requires
        may_fail_ready(f, e),
    ensures
        may_fail_with(f, e),
{
    let (g, h) = choose|g: F, h: F| #[trigger] reaches_ready(f, g) && #[trigger] yields_err(g, h, e);
    lemma_reaches_ready_implies_reaches(f, g);
}

/// A wait producible under `Pending` re-polls alone is producible in general.
pub proof fn lemma_may_wait_ready_widens<F: Future>(f: F)
    requires
        may_wait_ready(f),
    ensures
        may_wait(f),
{
    let (g, h, vo) = choose|g: F, h: F, vo: Option<F::Output>|
        #[trigger] reaches_ready(f, g) && #[trigger] yields_waiting(g, h, vo);
    lemma_reaches_ready_implies_reaches(f, g);
}

/// A failure producible under the parking scheduler's re-polls is producible
/// in general.
pub proof fn lemma_may_fail_swept_widens<F: Future>(f: F, e: F::Error)
    requires
        may_fail_swept(f, e),
    ensures
        may_fail_with(f, e),
{
    let (g, h) = choose|g: F, h: F| #[trigger] reaches_swept(f, g) && #[trigger] yields_err(g, h, e);
    lemma_reaches_swept_implies_reaches(f, g);
}

} // verus!
