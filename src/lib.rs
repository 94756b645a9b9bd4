//! A last-in-first-out container in two variants that share one node pool.
//!
//! Slots of the pool stand for node addresses, and a freed slot is handed out
//! again, so that the address reuse behind the ABA hazard can occur. Every
//! mutation of the shared head is one atomic commit step; callers interleave
//! the steps of several agents (threads) in one total order.

mod pool;

pub mod model;
pub mod stack;
pub mod stack_with_aba_problem;
