//! A cooperative, stackful coroutine runtime, modelled over plain values.
//!
//! The crate covers the execution engine of such a runtime: guarded stack
//! memory with its size arithmetic, per-size stack pools with a process-wide
//! registry, a monotonically keyed id generator, a deadline-ordered timer
//! list, coroutine records with their life cycle, a single-thread scheduler
//! that drives ready and suspended coroutines, and the arithmetic of the
//! interposed sleep family.  Operating-system work (mapping pages, the real
//! `nanosleep`) stays outside; the logic here receives its results as plain
//! values.

pub mod api;
pub mod coroutine;
pub mod hook;
pub mod ids;
pub mod memory;
pub mod pool;
pub mod pools;
pub mod scheduler;
pub mod system;
pub mod timer;
