use coopfut::chain::{Chain, Then};
use coopfut::either::Either;
use coopfut::futures::{Done, Failed, FutError, FutResult, FutState, Future, Reject, Snooze};
use coopfut::runner::{PollRunner, SimpleRunner};

#[test]
fn fut_result_constructors_carry_fields() {
    let p: FutResult<usize> = FutResult::pending();
    assert_eq!(p.state, FutState::Pending);
    assert_eq!(p.value, None);
    let f = FutResult::finished(3usize);
    assert_eq!(f.state, FutState::Done);
    assert_eq!(f.value, Some(3));
    let w = FutResult::waiting(4usize);
    assert_eq!(w.state, FutState::Waiting);
    assert_eq!(w.value, Some(4));
}

#[test]
fn done_completes_once_then_rejects() {
    let mut d = Done::new(7usize);
    let r = d.poll().unwrap();
    assert_eq!(r.state, FutState::Done);
    assert_eq!(r.value, Some(7));
    let e = d.poll();
    assert!(matches!(e, Err(FutError::PolledAfterCompletion)));
    d.cleanup();
}

#[test]
fn failed_hands_out_its_error() {
    let mut f: Failed<FutError> = Failed::_new(FutError::CompletedWithoutValue);
    let r = f.poll();
    assert!(matches!(r, Err(FutError::CompletedWithoutValue)));
}

#[test]
fn chain_matches_direct_transform_result() {
    let mut c = Chain::new(Done::new(10usize), |x: usize| Done::new(x + 5));
    let r1 = c.poll().unwrap();
    assert_eq!(r1.state, FutState::Pending);
    assert_eq!(r1.value, None);
    let r2 = c.poll().unwrap();
    assert_eq!(r2.state, FutState::Done);
    assert_eq!(r2.value, Some(15));

    let mut direct = Done::new(15usize);
    let rd = direct.poll().unwrap();
    assert_eq!(rd.value, r2.value);
}

#[test]
fn nested_chain_completes_with_transformed_value() {
    let mut c = Chain::new(Done::new(5usize), |x: usize| {
        Chain::new(Done::new(x * 2), |y: usize| Done::new(y))
    });
    let r1 = c.poll().unwrap();
    assert_eq!(r1.state, FutState::Pending);
    let r2 = c.poll().unwrap();
    assert_eq!(r2.state, FutState::Pending);
    let r3 = c.poll().unwrap();
    assert_eq!(r3.state, FutState::Done);
    assert_eq!(r3.value, Some(10));
}

#[test]
fn chain_propagates_first_stage_error_then_finishes() {
    let mut c = Chain::new(
        Failed::_new(FutError::SleepingUnsupported),
        |_x: ()| Done::new(1usize),
    );
    let r1 = c.poll();
    assert!(matches!(r1, Err(FutError::SleepingUnsupported)));
    let r2 = c.poll();
    assert!(matches!(r2, Err(FutError::PolledAfterCompletion)));
}

#[test]
fn chain_masks_inner_waiting_value() {
    let mut c = Chain::new(Snooze::new(8usize), |x: usize| Done::new(x));
    let r1 = c.poll().unwrap();
    assert_eq!(r1.state, FutState::Waiting);
    assert_eq!(r1.value, None);
}

#[test]
fn then_is_the_chain_combinator() {
    let mut c: Then<Done<usize>, Done<usize>, fn(usize) -> Done<usize>> =
        Then::new(Done::new(2usize), double_task as fn(usize) -> Done<usize>);
    let r1 = c.poll().unwrap();
    assert_eq!(r1.state, FutState::Pending);
    let r2 = c.poll().unwrap();
    assert_eq!(r2.value, Some(4));
}

fn double_task(x: usize) -> Done<usize> {
    Done::new(x.wrapping_mul(2))
}

#[test]
fn simple_runner_drains_done_tasks() {
    let mut runner: SimpleRunner<Done<usize>> = SimpleRunner::new();
    assert!(runner.is_empty());
    runner.schedule(Done::new(1));
    runner.schedule(Done::new(2));
    assert!(!runner.is_empty());
    assert!(runner.run().is_ok());
    assert!(runner.is_empty());
}

#[test]
fn simple_runner_rejects_waiting_task() {
    let mut runner: SimpleRunner<Either<Done<usize>, Snooze<usize>>> = SimpleRunner::new();
    runner.schedule(Either::Left(Done::new(1)));
    runner.schedule(Either::Right(Snooze::new(2)));
    let r = runner.run();
    assert!(matches!(r, Err(FutError::SleepingUnsupported)));
}

#[test]
fn simple_runner_propagates_task_error() {
    let mut runner: SimpleRunner<Failed<FutError>> = SimpleRunner::new();
    runner.schedule(Failed::_new(FutError::CompletedWithoutValue));
    let r = runner.run();
    assert!(matches!(r, Err(FutError::CompletedWithoutValue)));
}

#[test]
fn poll_runner_converges_on_done_tasks() {
    let mut runner: PollRunner<Done<usize>> = PollRunner::new();
    assert!(runner.is_empty());
    for v in [3usize, 1, 4, 1, 5] {
        runner.schedule(Done::new(v));
    }
    assert!(!runner.is_empty());
    assert!(runner.run().is_ok());
    assert!(runner.is_empty());
}

#[test]
fn poll_runner_wakes_sleeping_task() {
    let mut runner: PollRunner<Snooze<usize>> = PollRunner::new();
    runner.schedule(Snooze::new(9));
    assert!(runner.run().is_ok());
    assert!(runner.is_empty());
}

#[test]
fn poll_runner_drops_waiting_task_without_value() {
    let mut runner: PollRunner<Snooze<usize>> = PollRunner::new();
    runner.schedule(Snooze::silent());
    assert!(runner.run().is_ok());
    assert!(runner.is_empty());
}

#[test]
fn poll_runner_mixes_done_and_chain() {
    let mut runner: PollRunner<
        Either<Done<usize>, Chain<Done<usize>, Done<usize>, fn(usize) -> Done<usize>>>,
    > = PollRunner::new();
    runner.schedule(Either::Left(Done::new(42)));
    runner.schedule(Either::Right(Chain::new(
        Done::new(10),
        add_five as fn(usize) -> Done<usize>,
    )));
    assert!(runner.run().is_ok());
    assert!(runner.is_empty());
}

fn add_five(x: usize) -> Done<usize> {
    Done::new(x.wrapping_add(5))
}

#[test]
fn poll_runner_aborts_whole_run_on_error() {
    let mut runner: PollRunner<Failed<FutError>> = PollRunner::new();
    runner.schedule(Failed::_new(FutError::SleepingUnsupported));
    runner.schedule(Failed::_new(FutError::CompletedWithoutValue));
    let r = runner.run();
    assert!(matches!(r, Err(FutError::SleepingUnsupported)));
    assert!(!runner.is_empty());
}

#[test]
fn snooze_waits_once_then_completes() {
    let mut s = Snooze::new(11usize);
    let r1 = s.poll().unwrap();
    assert_eq!(r1.state, FutState::Waiting);
    assert_eq!(r1.value, Some(11));
    let r2 = s.poll().unwrap();
    assert_eq!(r2.state, FutState::Done);
    assert_eq!(r2.value, Some(11));
    let r3 = s.poll();
    assert!(matches!(r3, Err(FutError::PolledAfterCompletion)));
}

#[test]
fn verified_demonstrations_run() {
    assert!(coopfut::laws::run_increment_chain().is_ok());
    assert!(coopfut::laws::run_increment_chain_parked().is_ok());
    assert!(coopfut::laws::run_silent_snooze().is_ok());
    assert!(matches!(
        coopfut::laws::run_snooze_unsupported(),
        Err(FutError::SleepingUnsupported)
    ));
    assert!(coopfut::laws::run_fresh_done_tasks(vec![7, 0, 9]).is_ok());
    assert!(coopfut::laws::run_fresh_done_tasks(Vec::new()).is_ok());
}

#[test]
fn reject_hands_out_its_error() {
    let mut f: Reject<FutError> = Reject::new(FutError::SleepingUnsupported);
    let r = f.poll();
    assert!(matches!(r, Err(FutError::SleepingUnsupported)));
}
