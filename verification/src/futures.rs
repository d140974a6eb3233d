//! Poll-driven task primitives: the outcome type a poll reports, the polling
//! contract every task obeys, and the immediate tasks `Done` and `Failed`.

use vstd::prelude::*;

verus! {

/// The ways a poll or a scheduler run can fail.
#[derive(Debug, Clone, Copy, PartialEq, Eq, Structural)]
pub enum FutError {
    /// A task reported `Waiting` to a scheduler that cannot park tasks.
    SleepingUnsupported,
    /// `poll` was invoked on a task already in a terminal state.
    PolledAfterCompletion,
    /// The first stage of a sequence reported `Done` without carrying a value.
    CompletedWithoutValue,
}

/// The state tag of one poll's outcome.
#[derive(Debug, Clone, Copy, PartialEq, Eq, Structural)]
pub enum FutState {
    /// Not ready yet; poll again on the next sweep.
    Pending,
    /// Terminal success; the outcome carries the task's value.
    Done,
    /// Not ready, self-parked; a scheduler may delay the re-poll or reject it.
    Waiting,
}

/// What one successful poll reports: a state tag and an optional carried value.
#[derive(Debug)]
pub struct FutResult<T> {
    pub state: FutState,
    pub value: Option<T>,
}

impl<T> FutResult<T> {
    /// An outcome that says "not ready, try again", carrying nothing.
    pub fn pending() -> (r: Self)
        ensures
            r == (FutResult::<T> { state: FutState::Pending, value: None }),
            r.state == FutState::Pending,
            r.value == Option::<T>::None,
    {
        Self { state: FutState::Pending, value: None }
    }

    /// A terminal outcome carrying the task's value.
    pub fn finished(val: T) -> (r: Self)
        ensures
            r == (FutResult::<T> { state: FutState::Done, value: Some(val) }),
            r.state == FutState::Done,
            r.value == Some(val),
    {
        Self { state: FutState::Done, value: Some(val) }
    }

    /// A self-parked outcome carrying a value as its wake hint.
    pub fn waiting(val: T) -> (r: Self)
        ensures
            r == (FutResult::<T> { state: FutState::Waiting, value: Some(val) }),
            r.state == FutState::Waiting,
            r.value == Some(val),
    {
        Self { state: FutState::Waiting, value: Some(val) }
    }
}

/// A poll result after which a scheduler keeps the task in flight: the task
/// neither completed nor failed.
pub open spec fn keeps_going<O, E>(r: Result<FutResult<O>, E>) -> bool {
    match r {
        Ok(fr) => fr.state == FutState::Pending || fr.state == FutState::Waiting,
        Err(_) => false,
    }
}

/// A unit of incrementally-advanced computation, polled by a scheduler until
/// it reports a terminal `Done` outcome.
///
/// Each implementation supplies, besides the two executable operations, a
/// well-formedness predicate `inv` and two relations that pin the operations
/// down exactly: `poll_spec` relates the task before a poll, the task after
/// it, and what the poll returned; `cleanup_spec` does the same for `cleanup`.
/// The measure `steps` bounds how many more polls the task can absorb while
/// staying in flight, which is what lets a scheduler's run loop terminate.
pub trait Future: Sized {
    type Output;

    type Error;

    /// Well-formedness: what must hold of the task for it to be polled.
    spec fn inv(&self) -> bool;

    /// The exact relation between the task before a poll, the task after it,
    /// and the poll's result.
    spec fn poll_spec(pre: Self, post: Self, r: Result<FutResult<Self::Output>, Self::Error>) -> bool;

    /// The exact relation between the task before `cleanup` and after it.
    spec fn cleanup_spec(pre: Self, post: Self) -> bool;

    /// How many more polls the task can absorb while staying in flight.
    spec fn steps(&self) -> nat;

    /// Every poll that leaves the task in flight consumes one of its steps:
    /// no well-formed task reports `Pending` or `Waiting` forever.
    proof fn poll_keeps_going_decreases(
        pre: Self,
        post: Self,
        r: Result<FutResult<Self::Output>, Self::Error>,
    )
        requires
            pre.inv(),
            Self::poll_spec(pre, post, r),
            keeps_going(r),
        ensures
            post.steps() < pre.steps(),
    ;

    /// Every poll that returns `Ok` leaves the task well-formed, so that a
    /// scheduler may poll it again or retire it.
    proof fn poll_ok_preserves_inv(
        pre: Self,
        post: Self,
        r: Result<FutResult<Self::Output>, Self::Error>,
    )
        requires
            pre.inv(),
            Self::poll_spec(pre, post, r),
            r is Ok,
        ensures
            post.inv(),
    ;

    /// Advances the task by one step.
    fn poll(&mut self) -> (r: Result<FutResult<Self::Output>, Self::Error>)
        requires
            old(self).inv(),
        ensures
            Self::poll_spec(*old(self), *final(self), r),
    ;

    /// Releases the task's resources; issued by a scheduler when the task
    /// reaches `Done`, or on abandonment.
    fn cleanup(&mut self)
        requires
            old(self).inv(),
        ensures
            Self::cleanup_spec(*old(self), *final(self)),
    ;
}

/// A task that completes on its first poll, handing out the one value it
/// holds; every later poll fails with `PolledAfterCompletion`.
#[derive(Debug, Clone)]
pub struct Done<T> {
    res: Option<T>,
}

impl<T> Done<T> {
    /// The value still held: `Some` until the first poll hands it out.
    pub closed spec fn held(&self) -> Option<T> {
        self.res
    }

    pub fn new(val: T) -> (r: Self)
        ensures
            r.held() == Some(val),
    {
        Self { res: Some(val) }
    }
}

impl<T> Future for Done<T> {
    type Output = T;

    type Error = FutError;

    open spec fn inv(&self) -> bool {
        true
    }

    open spec fn poll_spec(pre: Self, post: Self, r: Result<FutResult<T>, FutError>) -> bool {
        match pre.held() {
            Some(v) => post.held() is None && r == Ok::<FutResult<T>, FutError>(
                FutResult::<T> { state: FutState::Done, value: Some(v) },
            ),
            None => post == pre && r == Err::<FutResult<T>, FutError>(
                FutError::PolledAfterCompletion,
            ),
        }
    }

    open spec fn cleanup_spec(pre: Self, post: Self) -> bool {
        post == pre
    }

    open spec fn steps(&self) -> nat {
        0
    }

    proof fn poll_keeps_going_decreases(
        pre: Self,
        post: Self,
        r: Result<FutResult<T>, FutError>,
    ) {
    }

    proof fn poll_ok_preserves_inv(pre: Self, post: Self, r: Result<FutResult<T>, FutError>) {
    }

    fn poll(&mut self) -> (r: Result<FutResult<T>, FutError>) {
        match self.res.take() {
            Some(v) => Ok(FutResult::finished(v)),
            None => Err(FutError::PolledAfterCompletion),
        }
    }

    fn cleanup(&mut self) {
    }
}

/// A task that fails on its first poll, handing out the one error it holds.
/// Polling it a second time is a contract violation, ruled out by `inv`.
#[derive(Debug, Clone)]
pub struct Failed<T> {
    err: Option<T>,
}

impl<T> Failed<T> {
    /// The error still held: `Some` until the first poll hands it out.
    pub closed spec fn held_err(&self) -> Option<T> {
        self.err
    }

    pub fn _new(err: T) -> (r: Self)
        ensures
            r.held_err() == Some(err),
    {
        Self { err: Some(err) }
    }

    pub fn new(err: T) -> (r: Self)
        ensures
            r.held_err() == Some(err),
    {
        Self { err: Some(err) }
    }
}

impl<T> Future for Failed<T> {
    type Output = ();

    type Error = T;

    open spec fn inv(&self) -> bool {
        self.held_err() is Some
    }

    open spec fn poll_spec(pre: Self, post: Self, r: Result<FutResult<()>, T>) -> bool {
        match pre.held_err() {
            Some(e) => post.held_err() is None && r == Err::<FutResult<()>, T>(e),
            None => false,
        }
    }

    open spec fn cleanup_spec(pre: Self, post: Self) -> bool {
        post == pre
    }

    open spec fn steps(&self) -> nat {
        0
    }

    proof fn poll_keeps_going_decreases(pre: Self, post: Self, r: Result<FutResult<()>, T>) {
    }

    proof fn poll_ok_preserves_inv(pre: Self, post: Self, r: Result<FutResult<()>, T>) {
    }

    fn poll(&mut self) -> (r: Result<FutResult<()>, T>) {
        match self.err.take() {
            Some(e) => Err(e),
            None => vstd::pervasive::unreached(),
        }
    }

    fn cleanup(&mut self) {
    }
}

/// Another name the failing primitive goes by.
pub type Reject<T> = Failed<T>;

/// A task that parks itself once: its first poll reports `Waiting`, carrying
/// a copy of the held value as its wake hint, and its second poll completes
/// with the value. A `Snooze` built without a value waits empty-handed, the
/// case a parking scheduler silently drops.
#[derive(Debug, Clone)]
pub struct Snooze<T> {
    value: Option<T>,
    rested: bool,
}

impl<T: Copy> Snooze<T> {
    /// The value still held, handed out when the task completes.
    pub closed spec fn held(&self) -> Option<T> {
        self.value
    }

    /// Whether the task has already reported `Waiting` once.
    pub closed spec fn has_rested(&self) -> bool {
        self.rested
    }

    pub fn new(val: T) -> (r: Self)
        ensures
            r.held() == Some(val),
            !r.has_rested(),
    {
        Self { value: Some(val), rested: false }
    }

    /// A task whose one wait signal carries no value.
    pub fn silent() -> (r: Self)
        ensures
            r.held() == Option::<T>::None,
            !r.has_rested(),
    {
        Self { value: None, rested: false }
    }
}

impl<T: Copy> Future for Snooze<T> {
    type Output = T;

    type Error = FutError;

    open spec fn inv(&self) -> bool {
        true
    }

    open spec fn poll_spec(pre: Self, post: Self, r: Result<FutResult<T>, FutError>) -> bool {
        if !pre.has_rested() {
            post.held() == pre.held() && post.has_rested() && r == Ok::<FutResult<T>, FutError>(
                FutResult { state: FutState::Waiting, value: pre.held() },
            )
        } else {
            match pre.held() {
                Some(v) => post.held() is None && post.has_rested() && r == Ok::<
                    FutResult<T>,
                    FutError,
                >(FutResult { state: FutState::Done, value: Some(v) }),
                None => post == pre && r == Err::<FutResult<T>, FutError>(
                    FutError::PolledAfterCompletion,
                ),
            }
        }
    }

    open spec fn cleanup_spec(pre: Self, post: Self) -> bool {
        post == pre
    }

    open spec fn steps(&self) -> nat {
        if !self.has_rested() {
            1
        } else {
            0
        }
    }

    proof fn poll_keeps_going_decreases(pre: Self, post: Self, r: Result<FutResult<T>, FutError>) {
    }

    proof fn poll_ok_preserves_inv(pre: Self, post: Self, r: Result<FutResult<T>, FutError>) {
    }

    fn poll(&mut self) -> (r: Result<FutResult<T>, FutError>) {
        if !self.rested {
            self.rested = true;
            Ok(FutResult { state: FutState::Waiting, value: self.value })
        } else {
            match self.value.take() {
                Some(v) => Ok(FutResult::finished(v)),
                None => Err(FutError::PolledAfterCompletion),
            }
        }
    }

    fn cleanup(&mut self) {
    }
}

/// Law: a `Snooze` task's first poll always reports `Waiting`, carrying the
/// held value as its wake hint.
pub proof fn lemma_snooze_first_poll_waits<T: Copy>(
    s: Snooze<T>,
    post: Snooze<T>,
    r: Result<FutResult<T>, FutError>,
)
    requires
        !s.has_rested(),
        Snooze::<T>::poll_spec(s, post, r),
    ensures
        r == Ok::<FutResult<T>, FutError>(
            FutResult { state: FutState::Waiting, value: s.held() },
        ),
{
}

/// Law: a `Snooze` task holding a value still completes with it — one poll
/// reports `Waiting`, the next reports `Done` carrying the value.
pub proof fn lemma_snooze_completes<T: Copy>(s: Snooze<T>, v: T)
    requires
        s.held() == Some(v),
        !s.has_rested(),
    ensures
        crate::trace::completes_to(s, v),
{
    let g = Snooze { value: s.value, rested: true };
    let h = Snooze { value: None::<T>, rested: true };
    let wr = Ok::<FutResult<T>, FutError>(
        FutResult { state: FutState::Waiting, value: s.held() },
    );
    assert(Snooze::<T>::poll_spec(s, g, wr));
    assert(crate::trace::advances(s, g));
    crate::trace::lemma_reaches_refl(s);
    crate::trace::lemma_reaches_extend(s, s, g);
    assert(Snooze::<T>::poll_spec(
        g,
        h,
        Ok::<FutResult<T>, FutError>(FutResult { state: FutState::Done, value: Some(v) }),
    ));
    assert(crate::trace::yields_done(g, h, Some(v)));
}

proof fn lemma_silent_snooze_stays_put_in<T: Copy>(s: Snooze<T>, g: Snooze<T>, n: nat)
    requires
        !s.has_rested(),
        s.held() is None,
        crate::trace::reaches_swept_in(s, g, n),
    ensures
        g == s,
    decreases n,
{
    if n > 0 {
        let mid = choose|mid: Snooze<T>|
            crate::trace::reaches_swept_in(s, mid, (n - 1) as nat)
                && #[trigger] crate::trace::steps_swept(mid, g);
        lemma_silent_snooze_stays_put_in(s, mid, (n - 1) as nat);
        if crate::trace::steps_ready(mid, g) {
            let vo = choose|vo: Option<T>|
                #[trigger] Snooze::<T>::poll_spec(
                    mid,
                    g,
                    Ok(FutResult { state: FutState::Pending, value: vo }),
                );
            assert(false);
        } else {
            let v = choose|v: T|
                #[trigger] Snooze::<T>::poll_spec(
                    mid,
                    g,
                    Ok(FutResult { state: FutState::Waiting, value: Some(v) }),
                );
            assert(false);
        }
    }
}

/// Law: a task whose one wait signal carries no value cannot make the
/// parking scheduler abort — its only poll under that scheduler's re-poll
/// policy reports the valueless `Waiting` at which it is silently dropped.
pub proof fn lemma_silent_snooze_is_dropped<T: Copy>(s: Snooze<T>)
    requires
        !s.has_rested(),
        s.held() is None,
    ensures
        crate::trace::set_aside_swept(s),
        forall|e: FutError| !crate::trace::may_fail_swept(s, e),
{
    let g = Snooze { value: None::<T>, rested: true };
    assert(Snooze::<T>::poll_spec(
        s,
        g,
        Ok(FutResult { state: FutState::Waiting, value: None }),
    ));
    crate::trace::lemma_reaches_swept_refl(s);
    assert(crate::trace::yields_waiting(s, g, None));
    assert forall|e: FutError| !crate::trace::may_fail_swept(s, e) by {
        if crate::trace::may_fail_swept(s, e) {
            let (g2, h) = choose|g2: Snooze<T>, h: Snooze<T>|
                #[trigger] crate::trace::reaches_swept(s, g2) && #[trigger] crate::trace::yields_err(
                    g2,
                    h,
                    e,
                );
            let n = choose|n: nat| crate::trace::reaches_swept_in(s, g2, n);
            lemma_silent_snooze_stays_put_in(s, g2, n);
            assert(false);
        }
    }
}

proof fn lemma_fresh_snooze_stays_put_in<T: Copy>(s: Snooze<T>, g: Snooze<T>, n: nat)
    requires
        !s.has_rested(),
        crate::trace::reaches_ready_in(s, g, n),
    ensures
        g == s,
    decreases n,
{
    if n > 0 {
        let mid = choose|mid: Snooze<T>|
            crate::trace::reaches_ready_in(s, mid, (n - 1) as nat)
                && #[trigger] crate::trace::steps_ready(mid, g);
        lemma_fresh_snooze_stays_put_in(s, mid, (n - 1) as nat);
        let vo = choose|vo: Option<T>|
            #[trigger] Snooze::<T>::poll_spec(
                mid,
                g,
                Ok(FutResult { state: FutState::Pending, value: vo }),
            );
        assert(false);
    }
}

/// Law: under `Pending`-only re-polls a fresh `Snooze` can do nothing but
/// wait: it cannot be retired along a wait-free trace and cannot fail, so
/// the non-parking scheduler has no choice but to reject it.
pub proof fn lemma_fresh_snooze_only_waits<T: Copy>(s: Snooze<T>)
    requires
        !s.has_rested(),
    ensures
        crate::trace::may_wait_ready(s),
        !crate::trace::retired_ready(s),
        forall|e: FutError| !crate::trace::may_fail_ready(s, e),
{
    let g = Snooze { value: s.value, rested: true };
    assert(Snooze::<T>::poll_spec(
        s,
        g,
        Ok(FutResult { state: FutState::Waiting, value: s.held() }),
    ));
    crate::trace::lemma_reaches_ready_refl(s);
    assert(crate::trace::yields_waiting(s, g, s.held()));
    if crate::trace::retired_ready(s) {
        let (g2, h, vo, after) = choose|g2: Snooze<T>, h: Snooze<T>, vo: Option<T>, after: Snooze<T>|
            #[trigger] crate::trace::reaches_ready(s, g2) && #[trigger] crate::trace::yields_done(
                g2,
                h,
                vo,
            ) && #[trigger] Snooze::<T>::cleanup_spec(h, after);
        let n = choose|n: nat| crate::trace::reaches_ready_in(s, g2, n);
        lemma_fresh_snooze_stays_put_in(s, g2, n);
        assert(false);
    }
    assert forall|e: FutError| !crate::trace::may_fail_ready(s, e) by {
        if crate::trace::may_fail_ready(s, e) {
            let (g2, h) = choose|g2: Snooze<T>, h: Snooze<T>|
                #[trigger] crate::trace::reaches_ready(s, g2)
                    && #[trigger] crate::trace::yields_err(g2, h, e);
            let n = choose|n: nat| crate::trace::reaches_ready_in(s, g2, n);
            lemma_fresh_snooze_stays_put_in(s, g2, n);
            assert(false);
        }
    }
}

} // verus!
