//! The schedulers: `SimpleRunner`, a strict round-robin loop that rejects
//! waiting tasks, and `PollRunner`, a three-queue scheduler that parks
//! waiting tasks for one sweep.

use vstd::prelude::*;

use crate::futures::{FutError, FutResult, FutState, Future};
use crate::trace::{
    lemma_reaches_ready_extend, lemma_reaches_ready_implies_reaches, lemma_reaches_ready_refl,
    lemma_reaches_swept_extend, lemma_reaches_swept_refl,
    may_fail_ready, may_fail_swept, may_wait_ready, reaches_polled, reaches_ready, reaches_swept,
    retired_ready, retired_swept, set_aside_swept, steps_ready, steps_swept, yields_done,
    yields_err, yields_waiting,
};

verus! {

/// The combined step budget of a queue of tasks: what a scheduler's run loop
/// decreases on.
pub open spec fn total_steps<F: Future>(s: Seq<F>) -> nat
    decreases s.len(),
{
    if s.len() == 0 {
        0
    } else {
        s[0].steps() + total_steps(s.subrange(1, s.len() as int))
    }
}

proof fn lemma_total_steps_push<F: Future>(s: Seq<F>, x: F)
    ensures
        total_steps(s.push(x)) == total_steps(s) + x.steps(),
    decreases s.len(),
{
    if s.len() == 0 {
        assert(s.push(x)[0] == x);
        assert(s.push(x).subrange(1, 1) =~= Seq::<F>::empty());
        assert(total_steps(s.push(x)) == x.steps() + total_steps(Seq::<F>::empty()));
    } else {
        assert(s.push(x)[0] == s[0]);
        assert(s.push(x).subrange(1, s.len() as int + 1) =~= s.subrange(1, s.len() as int).push(x));
        lemma_total_steps_push(s.subrange(1, s.len() as int), x);
        assert(total_steps(s.push(x)) == s[0].steps() + total_steps(
            s.subrange(1, s.len() as int).push(x),
        ));
    }
}

proof fn lemma_total_steps_remove<F: Future>(s: Seq<F>, i: int)
    requires
        0 <= i < s.len(),
    ensures
        total_steps(s.remove(i)) + s[i].steps() == total_steps(s),
    decreases s.len(),
{
    if i == 0 {
        assert(s.remove(0) =~= s.subrange(1, s.len() as int));
    } else {
        assert(s.remove(i).subrange(1, s.len() - 1) =~= s.subrange(1, s.len() as int).remove(
            i - 1,
        ));
        assert(s.remove(i)[0] == s[0]);
        lemma_total_steps_remove(s.subrange(1, s.len() as int), i - 1);
    }
}

proof fn lemma_total_steps_update<F: Future>(s: Seq<F>, i: int, x: F)
    requires
        0 <= i < s.len(),
    ensures
        total_steps(s.update(i, x)) + s[i].steps() == total_steps(s) + x.steps(),
    decreases s.len(),
{
    if i == 0 {
        assert(s.update(0, x)[0] == x);
        assert(s.update(0, x).subrange(1, s.len() as int) =~= s.subrange(1, s.len() as int));
    } else {
        assert(s.update(i, x)[0] == s[0]);
        assert(s.update(i, x).subrange(1, s.len() as int) =~= s.subrange(1, s.len() as int).update(
            i - 1,
            x,
        ));
        lemma_total_steps_update(s.subrange(1, s.len() as int), i - 1, x);
    }
}

proof fn lemma_total_steps_append<F: Future>(s: Seq<F>, t: Seq<F>)
    ensures
        total_steps(s + t) == total_steps(s) + total_steps(t),
    decreases s.len(),
{
    if s.len() == 0 {
        assert(s + t =~= t);
    } else {
        assert((s + t)[0] == s[0]);
        assert((s + t).subrange(1, s.len() as int + t.len() as int) =~= s.subrange(1, s.len() as int) + t);
        lemma_total_steps_append(s.subrange(1, s.len() as int), t);
    }
}

/// A round-robin scheduler with a single active queue and no concept of
/// parking: any task that reports `Waiting` aborts the whole run.
pub struct SimpleRunner<F: Future<Error = FutError>> {
    futs: Vec<F>,
}

impl<F: Future<Error = FutError>> SimpleRunner<F> {
    /// The tasks queued, front to back.
    pub closed spec fn tasks(&self) -> Seq<F> {
        self.futs@
    }

    /// Every queued task may be polled.
    pub open spec fn wf(&self) -> bool {
        forall|i: int| 0 <= i < self.tasks().len() ==> (#[trigger] self.tasks()[i]).inv()
    }

    pub fn new() -> (r: Self)
        ensures
            r.tasks() == Seq::<F>::empty(),
            r.wf(),
    {
        Self { futs: Vec::new() }
    }

    /// Appends a task at the tail of the queue.
    pub fn schedule(&mut self, fut: F)
        ensures
            final(self).tasks() == old(self).tasks().push(fut),
    {
        self.futs.push(fut);
    }

    pub fn is_empty(&self) -> (r: bool)
        ensures
            r == (self.tasks().len() == 0),
    {
        self.futs.is_empty()
    }

    /// Polls every queued task in index order, over and over, until the queue
    /// is empty: `Pending` leaves the task in place, `Done` removes it and
    /// cleans it up, `Waiting` is a fatal scheduling error, and a failing
    /// poll aborts the run at once with that task's error.
    ///
    /// The contract speaks of wait-free traces: on success every task was
    /// driven to `Done` through `Pending` re-polls alone, so a task that can
    /// only wait forces the error; and an abort is pinned to the first
    /// offending poll in the sense that the offending task was itself
    /// reached through `Pending` re-polls alone, while every other task
    /// stays queued, behind at most one further poll, with none cleaned up
    /// after the abort.
    pub fn run(&mut self) -> (r: Result<(), FutError>)
        requires
            old(self).wf(),
        ensures
            r is Ok ==> final(self).tasks().len() == 0,
            r is Ok ==> forall|j: int|
                0 <= j < old(self).tasks().len() ==> retired_ready(#[trigger] old(self).tasks()[j]),
            r matches Err(e) ==> exists|j: int|
                0 <= j < old(self).tasks().len() && (may_fail_ready(
                    #[trigger] old(self).tasks()[j],
                    e,
                ) || (e == FutError::SleepingUnsupported && may_wait_ready(old(self).tasks()[j]))),
            r is Err ==> forall|j: int|
                0 <= j < old(self).tasks().len() ==> retired_ready(#[trigger] old(self).tasks()[j])
                    || (exists|k: int|
                    0 <= k < final(self).tasks().len() && reaches_polled(
                        old(self).tasks()[j],
                        #[trigger] final(self).tasks()[k],
                    )),
            r is Err ==> forall|k: int|
                0 <= k < final(self).tasks().len() ==> exists|j: int|
                    0 <= j < old(self).tasks().len() && reaches_polled(
                        old(self).tasks()[j],
                        #[trigger] final(self).tasks()[k],
                    ),
    {
        let ghost init: Seq<F> = self.futs@;
        let ghost mut src: Seq<F> = self.futs@;
        proof {
            assert forall|k: int| 0 <= k < src.len() implies reaches_ready(
                src[k],
                #[trigger] self.futs@[k],
            ) by {
                lemma_reaches_ready_refl(src[k]);
            }
        }
        let mut i: usize = 0;
        while !self.futs.is_empty()
            invariant
                init == old(self).tasks(),
                i <= self.futs@.len(),
                src.len() == self.futs@.len(),
                forall|k: int| 0 <= k < src.len() ==> (#[trigger] self.futs@[k]).inv(),
                forall|k: int| 0 <= k < src.len() ==> reaches_ready(
                    src[k],
                    #[trigger] self.futs@[k],
                ),
                forall|k: int| 0 <= k < src.len() ==> init.contains(#[trigger] src[k]),
                forall|j: int|
                    0 <= j < init.len() ==> retired_ready(#[trigger] init[j]) || src.contains(
                        init[j],
                    ),
            decreases total_steps(self.futs@), self.futs@.len(),
        {
            if i >= self.futs.len() {
                i = 0;
            }
            let ghost futs0 = self.futs@;
            let ghost pre = self.futs@[i as int];
            let res = self.futs[i].poll();
            let ghost post = self.futs@[i as int];
            let ghost gres = res;
            proof {
                assert(self.futs@ =~= futs0.update(i as int, post));
            }
            match res {
                Ok(FutResult { state: FutState::Pending, value: pv }) => {
                    proof {
                        F::poll_ok_preserves_inv(pre, post, gres);
                        F::poll_keeps_going_decreases(pre, post, gres);
                        assert(steps_ready(pre, post));
                        lemma_reaches_ready_extend(src[i as int], pre, post);
                        lemma_total_steps_update(futs0, i as int, post);
                    }
                    i = i + 1;
                },
                Ok(FutResult { state: FutState::Waiting, value: wv }) => {
                    proof {
                        let s = src[i as int];
                        assert(yields_waiting(pre, post, wv));
                        assert(may_wait_ready(s));
                        assert(init.contains(s));
                        let j = choose|j: int| 0 <= j < init.len() && init[j] == s;
                        assert(0 <= j < old(self).tasks().len() && may_wait_ready(
                            old(self).tasks()[j],
                        ));
                        self.lemma_abort_state(init, src, futs0, pre, post, gres, i as int);
                    }
                    return Err(FutError::SleepingUnsupported);
                },
                Ok(FutResult { state: FutState::Done, value: dv }) => {
                    proof {
                        F::poll_ok_preserves_inv(pre, post, gres);
                    }
                    let mut f = self.futs.remove(i);
                    f.cleanup();
                    proof {
                        let s = src[i as int];
                        assert(yields_done(pre, post, dv));
                        assert(retired_ready(s));
                        lemma_total_steps_update(futs0, i as int, post);
                        lemma_total_steps_remove(futs0.update(i as int, post), i as int);
                        let old_src = src;
                        src = src.remove(i as int);
                        assert forall|j: int|
                            0 <= j < init.len() implies retired_ready(#[trigger] init[j])
                            || src.contains(init[j]) by {
                            if !retired_ready(init[j]) {
                                let k = choose|k: int|
                                    0 <= k < old_src.len() && old_src[k] == init[j];
                                if k == i as int {
                                    assert(retired_ready(init[j]));
                                } else if k < i as int {
                                    assert(src[k] == init[j]);
                                } else {
                                    assert(src[k - 1] == init[j]);
                                }
                            }
                        }
                    }
                },
                Err(e) => {
                    proof {
                        let s = src[i as int];
                        assert(yields_err(pre, post, e));
                        assert(may_fail_ready(s, e));
                        assert(init.contains(s));
                        let j = choose|j: int| 0 <= j < init.len() && init[j] == s;
                        assert(0 <= j < old(self).tasks().len() && may_fail_ready(
                            old(self).tasks()[j],
                            e,
                        ));
                        self.lemma_abort_state(init, src, futs0, pre, post, gres, i as int);
                    }
                    return Err(e);
                },
            }
        }
        Ok(())
    }

    /// At an abort, every originally queued task was either already retired
    /// along a wait-free trace or still sits in the queue, behind at most
    /// one further poll — and everything in the queue descends from an
    /// originally queued task.
    proof fn lemma_abort_state(
        &self,
        init: Seq<F>,
        src: Seq<F>,
        futs0: Seq<F>,
        pre: F,
        post: F,
        gres: Result<FutResult<F::Output>, FutError>,
        i: int,
    )
        requires
            0 <= i < futs0.len(),
            src.len() == futs0.len(),
            self.tasks() == futs0.update(i, post),
            pre == futs0[i],
            F::poll_spec(pre, post, gres),
            forall|k: int| 0 <= k < src.len() ==> reaches_ready(src[k], #[trigger] futs0[k]),
            forall|k: int| 0 <= k < src.len() ==> init.contains(#[trigger] src[k]),
            forall|j: int|
                0 <= j < init.len() ==> retired_ready(#[trigger] init[j]) || src.contains(init[j]),
        ensures
            forall|j: int|
                0 <= j < init.len() ==> retired_ready(#[trigger] init[j]) || (exists|k: int|
                    0 <= k < self.tasks().len() && reaches_polled(init[j], #[trigger] self.tasks()[k])),
            forall|k: int|
                0 <= k < self.tasks().len() ==> exists|j: int|
                    0 <= j < init.len() && reaches_polled(init[j], #[trigger] self.tasks()[k]),
    {
        assert forall|k: int| 0 <= k < self.tasks().len() implies reaches_polled(
            src[k],
            #[trigger] self.tasks()[k],
        ) by {
            if k == i {
                lemma_reaches_ready_implies_reaches(src[k], pre);
                assert(self.tasks()[k] == post);
            } else {
                lemma_reaches_ready_implies_reaches(src[k], futs0[k]);
                assert(self.tasks()[k] == futs0[k]);
            }
        }
        assert forall|j: int|
            0 <= j < init.len() implies retired_ready(#[trigger] init[j]) || (exists|k: int|
            0 <= k < self.tasks().len() && reaches_polled(init[j], #[trigger] self.tasks()[k])) by {
            if !retired_ready(init[j]) {
                let k = choose|k: int| 0 <= k < src.len() && src[k] == init[j];
                assert(reaches_polled(init[j], self.tasks()[k]));
            }
        }
        assert forall|k: int| 0 <= k < self.tasks().len() implies exists|j: int|
            0 <= j < init.len() && reaches_polled(init[j], #[trigger] self.tasks()[k]) by {
            assert(init.contains(src[k]));
            let j = choose|j: int| 0 <= j < init.len() && init[j] == src[k];
            assert(reaches_polled(init[j], self.tasks()[k]));
        }
    }
}

/// A three-queue scheduler: newly scheduled and re-queued tasks wait in
/// `pending`, the current sweep is drained from `active`, and a task that
/// reports `Waiting` with a value is parked in `sleeping` for one sweep.
/// A task that reports `Waiting` with no value is silently dropped: its one
/// wait signal carried no continuation data, so it is treated as having
/// nothing further to do.
pub struct PollRunner<F: Future<Error = FutError>> {
    active: Vec<F>,
    pending: Vec<F>,
    sleeping: Vec<F>,
}

impl<F: Future<Error = FutError>> PollRunner<F> {
    /// The current sweep, front to back.
    pub closed spec fn active_tasks(&self) -> Seq<F> {
        self.active@
    }

    /// Newly scheduled or re-queued tasks, front to back.
    pub closed spec fn pending_tasks(&self) -> Seq<F> {
        self.pending@
    }

    /// Tasks parked after a `Waiting` outcome that carried a value.
    pub closed spec fn sleeping_tasks(&self) -> Seq<F> {
        self.sleeping@
    }

    /// Every queued task, across all three queues.
    pub open spec fn tasks(&self) -> Seq<F> {
        self.active_tasks() + self.pending_tasks() + self.sleeping_tasks()
    }

    /// Every queued task may be polled.
    pub open spec fn wf(&self) -> bool {
        forall|i: int| 0 <= i < self.tasks().len() ==> (#[trigger] self.tasks()[i]).inv()
    }

    pub fn new() -> (r: Self)
        ensures
            r.tasks() == Seq::<F>::empty(),
            r.active_tasks() == Seq::<F>::empty(),
            r.pending_tasks() == Seq::<F>::empty(),
            r.sleeping_tasks() == Seq::<F>::empty(),
            r.wf(),
    {
        let r = Self { active: Vec::new(), pending: Vec::new(), sleeping: Vec::new() };
        proof {
            assert(r.tasks() =~= Seq::<F>::empty());
        }
        r
    }

    /// Appends a task at the tail of the pending queue.
    pub fn schedule(&mut self, fut: F)
        ensures
            final(self).pending_tasks() == old(self).pending_tasks().push(fut),
            final(self).active_tasks() == old(self).active_tasks(),
            final(self).sleeping_tasks() == old(self).sleeping_tasks(),
    {
        self.pending.push(fut);
    }

    pub fn is_empty(&self) -> (r: bool)
        ensures
            r == (self.tasks().len() == 0),
    {
        self.active.is_empty() && self.sleeping.is_empty() && self.pending.is_empty()
    }

    /// Wakes every parked task: moves all of `sleeping` to the tail of
    /// `pending`, preserving order. There is no readiness check; parking
    /// only delays the re-poll by one sweep.
    fn handle_sleeping_futures(&mut self)
        ensures
            final(self).pending_tasks() == old(self).pending_tasks() + old(self).sleeping_tasks(),
            final(self).sleeping_tasks() == Seq::<F>::empty(),
            final(self).active_tasks() == old(self).active_tasks(),
    {
        if self.sleeping.is_empty() {
            proof {
                assert(self.pending@ =~= self.pending@ + self.sleeping@);
                assert(self.sleeping@ =~= Seq::<F>::empty());
            }
            return ;
        }
        self.pending.append(&mut self.sleeping);
    }

    /// Sweeps until every queue is empty: each sweep moves `pending` into
    /// `active` and polls `active` from the front. `Pending` re-queues the
    /// task, `Waiting` with a value parks it, `Waiting` without a value drops
    /// it silently and the run continues, `Done` cleans it up and discards
    /// it, and a failing poll aborts the whole run at once with that task's
    /// error, abandoning the tasks in flight without cleanup.
    ///
    /// The contract speaks of sweep-consistent traces — re-polls happen only
    /// after `Pending` or a valued `Waiting`, never past a valueless
    /// `Waiting` — so a task that can only wait empty-handed cannot produce
    /// the abort, and on success every task was retired or silently dropped
    /// along such a trace. On an abort, every task is accounted for: already
    /// retired, already dropped, able to produce the error, or still queued.
    pub fn run(&mut self) -> (r: Result<(), FutError>)
        requires
            old(self).wf(),
        ensures
            r is Ok ==> final(self).tasks().len() == 0,
            r is Ok ==> forall|j: int|
                0 <= j < old(self).tasks().len() ==> retired_swept(#[trigger] old(self).tasks()[j])
                    || set_aside_swept(old(self).tasks()[j]),
            r matches Err(e) ==> exists|j: int|
                0 <= j < old(self).tasks().len() && may_fail_swept(
                    #[trigger] old(self).tasks()[j],
                    e,
                ),
            r matches Err(e) ==> forall|j: int|
                0 <= j < old(self).tasks().len() ==> retired_swept(#[trigger] old(self).tasks()[j])
                    || set_aside_swept(old(self).tasks()[j]) || may_fail_swept(
                    old(self).tasks()[j],
                    e,
                ) || (exists|k: int|
                    0 <= k < final(self).tasks().len() && reaches_swept(
                        old(self).tasks()[j],
                        #[trigger] final(self).tasks()[k],
                    )),
            r is Err ==> forall|k: int|
                0 <= k < final(self).tasks().len() ==> exists|j: int|
                    0 <= j < old(self).tasks().len() && reaches_swept(
                        old(self).tasks()[j],
                        #[trigger] final(self).tasks()[k],
                    ),
    {
        let ghost init: Seq<F> = self.tasks();
        let ghost mut srca: Seq<F> = self.active@;
        let ghost mut srcp: Seq<F> = self.pending@;
        let ghost mut srcs: Seq<F> = self.sleeping@;
        proof {
            assert forall|k: int| 0 <= k < srca.len() implies reaches_swept(
                srca[k],
                #[trigger] self.active@[k],
            ) by {
                lemma_reaches_swept_refl(srca[k]);
            }
            assert forall|k: int| 0 <= k < srcp.len() implies reaches_swept(
                srcp[k],
                #[trigger] self.pending@[k],
            ) by {
                lemma_reaches_swept_refl(srcp[k]);
            }
            assert forall|k: int| 0 <= k < srcs.len() implies reaches_swept(
                srcs[k],
                #[trigger] self.sleeping@[k],
            ) by {
                lemma_reaches_swept_refl(srcs[k]);
            }
            assert forall|j: int| 0 <= j < init.len() implies srca.contains(#[trigger] init[j])
                || srcp.contains(init[j]) || srcs.contains(init[j]) by {
                if j < srca.len() {
                    assert(srca[j] == init[j]);
                } else if j < srca.len() + srcp.len() {
                    assert(srcp[j - srca.len()] == init[j]);
                } else {
                    assert(srcs[j - srca.len() - srcp.len()] == init[j]);
                }
            }
            assert forall|k: int| 0 <= k < srca.len() implies (#[trigger] self.active@[k]).inv()
                && init.contains(srca[k]) by {
                assert(init[k] == self.active@[k]);
                assert(self.tasks()[k].inv());
            }
            assert forall|k: int| 0 <= k < srcp.len() implies (#[trigger] self.pending@[k]).inv()
                && init.contains(srcp[k]) by {
                assert(init[srca.len() + k] == self.pending@[k]);
                assert(self.tasks()[srca.len() + k].inv());
            }
            assert forall|k: int| 0 <= k < srcs.len() implies (#[trigger] self.sleeping@[k]).inv()
                && init.contains(srcs[k]) by {
                assert(init[srca.len() + srcp.len() + k] == self.sleeping@[k]);
                assert(self.tasks()[srca.len() + srcp.len() + k].inv());
            }
        }
        while !self.is_empty()
            invariant
                init == old(self).tasks(),
                srca.len() == self.active@.len(),
                srcp.len() == self.pending@.len(),
                srcs.len() == self.sleeping@.len(),
                forall|k: int| 0 <= k < srca.len() ==> (#[trigger] self.active@[k]).inv(),
                forall|k: int| 0 <= k < srcp.len() ==> (#[trigger] self.pending@[k]).inv(),
                forall|k: int| 0 <= k < srcs.len() ==> (#[trigger] self.sleeping@[k]).inv(),
                forall|k: int| 0 <= k < srca.len() ==> reaches_swept(
                    srca[k],
                    #[trigger] self.active@[k],
                ),
                forall|k: int| 0 <= k < srcp.len() ==> reaches_swept(
                    srcp[k],
                    #[trigger] self.pending@[k],
                ),
                forall|k: int| 0 <= k < srcs.len() ==> reaches_swept(
                    srcs[k],
                    #[trigger] self.sleeping@[k],
                ),
                forall|k: int| 0 <= k < srca.len() ==> init.contains(#[trigger] srca[k]),
                forall|k: int| 0 <= k < srcp.len() ==> init.contains(#[trigger] srcp[k]),
                forall|k: int| 0 <= k < srcs.len() ==> init.contains(#[trigger] srcs[k]),
                forall|j: int|
                    0 <= j < init.len() ==> retired_swept(#[trigger] init[j]) || set_aside_swept(
                        init[j],
                    ) || srca.contains(init[j]) || srcp.contains(init[j]) || srcs.contains(
                        init[j],
                    ),
            decreases
                    total_steps(self.active@) + total_steps(self.pending@) + total_steps(
                        self.sleeping@,
                    ),
                    self.active@.len() + self.pending@.len() + self.sleeping@.len(),
                    self.pending@.len() + self.sleeping@.len(),
        {
            if self.active.is_empty() {
                let ghost pend0 = self.pending@;
                let ghost slee0 = self.sleeping@;
                let ghost srcp_head = srcp;
                let ghost srcs_head = srcs;
                self.handle_sleeping_futures();
                self.active.append(&mut self.pending);
                proof {
                    srca = srcp_head + srcs_head;
                    srcp = Seq::empty();
                    srcs = Seq::empty();
                    assert(self.active@ =~= pend0 + slee0);
                    lemma_total_steps_append(pend0, slee0);
                    assert forall|k: int| 0 <= k < srca.len() implies reaches_swept(
                        srca[k],
                        #[trigger] self.active@[k],
                    ) && self.active@[k].inv() && init.contains(srca[k]) by {
                        if k < srcp_head.len() {
                            assert(srca[k] == srcp_head[k]);
                            assert(self.active@[k] == pend0[k]);
                        } else {
                            assert(srca[k] == srcs_head[k - srcp_head.len()]);
                            assert(self.active@[k] == slee0[k - pend0.len()]);
                        }
                    }
                    assert forall|j: int|
                        0 <= j < init.len() implies retired_swept(#[trigger] init[j])
                        || set_aside_swept(init[j]) || srca.contains(init[j]) || srcp.contains(
                        init[j],
                    ) || srcs.contains(init[j]) by {
                        if !retired_swept(init[j]) && !set_aside_swept(init[j]) {
                            if srcp_head.contains(init[j]) {
                                let k = choose|k: int|
                                    0 <= k < srcp_head.len() && srcp_head[k] == init[j];
                                assert(srca[k] == init[j]);
                            } else if srcs_head.contains(init[j]) {
                                let k = choose|k: int|
                                    0 <= k < srcs_head.len() && srcs_head[k] == init[j];
                                assert(srca[srcp_head.len() + k] == init[j]);
                            }
                        }
                    }
                }
            } else {
                let ghost act0 = self.active@;
                let ghost pre = self.active@[0];
                let ghost srca_head = srca;
                let ghost s = srca_head[0];
                let mut fut = self.active.remove(0);
                proof {
                    srca = srca_head.subrange(1, srca_head.len() as int);
                    assert(self.active@ =~= act0.subrange(1, act0.len() as int));
                    lemma_total_steps_remove(act0, 0);
                    assert forall|k: int| 0 <= k < srca.len() implies init.contains(
                        #[trigger] srca[k],
                    ) by {
                        assert(srca[k] == srca_head[k + 1]);
                    }
                }
                let res = fut.poll();
                let ghost gres = res;
                let ghost post = fut;
                match res {
                    Ok(FutResult { state: FutState::Pending, value: pv }) => {
                        proof {
                            F::poll_ok_preserves_inv(pre, post, gres);
                            F::poll_keeps_going_decreases(pre, post, gres);
                            assert(steps_ready(pre, post));
                            lemma_reaches_swept_extend(s, pre, post);
                            lemma_total_steps_push(self.pending@, post);
                        }
                        let ghost srcp_head = srcp;
                        self.pending.push(fut);
                        proof {
                            srcp = srcp_head.push(s);
                            assert forall|j: int|
                                0 <= j < init.len() implies retired_swept(#[trigger] init[j])
                                || set_aside_swept(init[j]) || srca.contains(init[j])
                                || srcp.contains(init[j]) || srcs.contains(init[j]) by {
                                if !retired_swept(init[j]) && !set_aside_swept(init[j]) {
                                    if srca_head.contains(init[j]) {
                                        let k = choose|k: int|
                                            0 <= k < srca_head.len() && srca_head[k] == init[j];
                                        if k == 0 {
                                            assert(srcp[srcp.len() - 1] == init[j]);
                                        } else {
                                            assert(srca[k - 1] == init[j]);
                                        }
                                    } else if srcp_head.contains(init[j]) {
                                        let k = choose|k: int|
                                            0 <= k < srcp_head.len() && srcp_head[k] == init[j];
                                        assert(srcp[k] == init[j]);
                                    }
                                }
                            }
                        }
                    },
                    Ok(FutResult { state: FutState::Waiting, value: wv }) => {
                        match wv {
                            Some(v) => {
                                proof {
                                    F::poll_ok_preserves_inv(pre, post, gres);
                                    F::poll_keeps_going_decreases(pre, post, gres);
                                    assert(F::poll_spec(
                                        pre,
                                        post,
                                        Ok(FutResult { state: FutState::Waiting, value: Some(v) }),
                                    ));
                                    assert(steps_swept(pre, post));
                                    lemma_reaches_swept_extend(s, pre, post);
                                    lemma_total_steps_push(self.sleeping@, post);
                                }
                                let ghost srcs_head = srcs;
                                self.sleeping.push(fut);
                                proof {
                                    srcs = srcs_head.push(s);
                                    assert forall|j: int|
                                        0 <= j < init.len() implies retired_swept(
                                        #[trigger] init[j],
                                    ) || set_aside_swept(init[j]) || srca.contains(init[j])
                                        || srcp.contains(init[j]) || srcs.contains(init[j]) by {
                                        if !retired_swept(init[j]) && !set_aside_swept(init[j]) {
                                            if srca_head.contains(init[j]) {
                                                let k = choose|k: int|
                                                    0 <= k < srca_head.len() && srca_head[k]
                                                        == init[j];
                                                if k == 0 {
                                                    assert(srcs[srcs.len() - 1] == init[j]);
                                                } else {
                                                    assert(srca[k - 1] == init[j]);
                                                }
                                            } else if srcs_head.contains(init[j]) {
                                                let k = choose|k: int|
                                                    0 <= k < srcs_head.len() && srcs_head[k]
                                                        == init[j];
                                                assert(srcs[k] == init[j]);
                                            }
                                        }
                                    }
                                }
                            },
                            None => {
                                proof {
                                    F::poll_keeps_going_decreases(pre, post, gres);
                                    assert(yields_waiting(pre, post, None));
                                    assert(set_aside_swept(s));
                                    assert forall|j: int|
                                        0 <= j < init.len() implies retired_swept(
                                        #[trigger] init[j],
                                    ) || set_aside_swept(init[j]) || srca.contains(init[j])
                                        || srcp.contains(init[j]) || srcs.contains(init[j]) by {
                                        if !retired_swept(init[j]) && !set_aside_swept(init[j])
                                            && srca_head.contains(init[j]) {
                                            let k = choose|k: int|
                                                0 <= k < srca_head.len() && srca_head[k] == init[j];
                                            if k == 0 {
                                                assert(set_aside_swept(init[j]));
                                            } else {
                                                assert(srca[k - 1] == init[j]);
                                            }
                                        }
                                    }
                                }
                            },
                        }
                    },
                    Ok(FutResult { state: FutState::Done, value: dv }) => {
                        proof {
                            F::poll_ok_preserves_inv(pre, post, gres);
                        }
                        fut.cleanup();
                        proof {
                            assert(yields_done(pre, post, dv));
                            assert(retired_swept(s));
                            assert forall|j: int|
                                0 <= j < init.len() implies retired_swept(#[trigger] init[j])
                                || set_aside_swept(init[j]) || srca.contains(init[j])
                                || srcp.contains(init[j]) || srcs.contains(init[j]) by {
                                if !retired_swept(init[j]) && !set_aside_swept(init[j])
                                    && srca_head.contains(init[j]) {
                                    let k = choose|k: int|
                                        0 <= k < srca_head.len() && srca_head[k] == init[j];
                                    if k == 0 {
                                        assert(retired_swept(init[j]));
                                    } else {
                                        assert(srca[k - 1] == init[j]);
                                    }
                                }
                            }
                        }
                    },
                    Err(e) => {
                        proof {
                            assert(yields_err(pre, post, e));
                            assert(may_fail_swept(s, e));
                            assert(init.contains(s));
                            let j0 = choose|j: int| 0 <= j < init.len() && init[j] == s;
                            assert(0 <= j0 < old(self).tasks().len() && may_fail_swept(
                                old(self).tasks()[j0],
                                e,
                            ));
                            assert forall|k: int|
                                0 <= k < self.tasks().len() implies exists|j: int|
                                0 <= j < init.len() && reaches_swept(
                                    init[j],
                                    #[trigger] self.tasks()[k],
                                ) by {
                                let t = self.tasks()[k];
                                if k < srca.len() {
                                    assert(t == self.active@[k]);
                                    assert(init.contains(srca[k]));
                                    let j = choose|j: int| 0 <= j < init.len() && init[j] == srca[k];
                                    assert(reaches_swept(init[j], t));
                                } else if k < srca.len() + srcp.len() {
                                    assert(t == self.pending@[k - srca.len()]);
                                    assert(init.contains(srcp[k - srca.len()]));
                                    let j = choose|j: int|
                                        0 <= j < init.len() && init[j] == srcp[k - srca.len()];
                                    assert(reaches_swept(init[j], t));
                                } else {
                                    assert(t == self.sleeping@[k - srca.len() - srcp.len()]);
                                    assert(init.contains(srcs[k - srca.len() - srcp.len()]));
                                    let j = choose|j: int|
                                        0 <= j < init.len() && init[j] == srcs[
                                            k - srca.len() - srcp.len()
                                        ];
                                    assert(reaches_swept(init[j], t));
                                }
                            }
                            assert forall|j: int|
                                0 <= j < init.len() implies retired_swept(#[trigger] init[j])
                                || set_aside_swept(init[j]) || may_fail_swept(init[j], e) || (
                            exists|k: int|
                                0 <= k < self.tasks().len() && reaches_swept(
                                    init[j],
                                    #[trigger] self.tasks()[k],
                                )) by {
                                if !retired_swept(init[j]) && !set_aside_swept(init[j]) {
                                    if srca_head.contains(init[j]) {
                                        let k = choose|k: int|
                                            0 <= k < srca_head.len() && srca_head[k] == init[j];
                                        if k == 0 {
                                            assert(may_fail_swept(init[j], e));
                                        } else {
                                            assert(self.tasks()[k - 1] == self.active@[k - 1]);
                                            assert(reaches_swept(init[j], self.tasks()[k - 1]));
                                        }
                                    } else if srcp.contains(init[j]) {
                                        let k = choose|k: int|
                                            0 <= k < srcp.len() && srcp[k] == init[j];
                                        assert(self.tasks()[srca.len() + k] == self.pending@[k]);
                                        assert(reaches_swept(
                                            init[j],
                                            self.tasks()[srca.len() + k],
                                        ));
                                    } else {
                                        let k = choose|k: int|
                                            0 <= k < srcs.len() && srcs[k] == init[j];
                                        assert(self.tasks()[srca.len() + srcp.len() + k]
                                            == self.sleeping@[k]);
                                        assert(reaches_swept(
                                            init[j],
                                            self.tasks()[srca.len() + srcp.len() + k],
                                        ));
                                    }
                                }
                            }
                        }
                        return Err(e);
                    },
                }
            }
        }
        proof {
            assert(self.tasks() =~= Seq::<F>::empty());
        }
        Ok(())
    }
}

} // verus!
