//! A minimal cooperative-scheduling core: poll-driven tasks, the `Chain`
//! combinator that sequences one task after another, and two schedulers that
//! drive collections of tasks to completion.
//!
//! Every task declares, besides its polling contract, a bound on how many
//! polls it can absorb while still in flight; that bound is what lets each
//! scheduler's run loop be proved to terminate. A task that reports
//! `Pending` or `Waiting` forever is thereby ruled out by construction.

pub mod futures;
pub mod trace;
pub mod chain;
pub mod runner;
pub mod either;
pub mod laws;
