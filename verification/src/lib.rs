//! A cycle-collecting reference-counted heap for use by one thread.
//!
//! Allocations live in a [`unsync::Dumpster`] and are referred to through
//! [`unsync::Gc`] handles, which the headers count. Dropping the last handle
//! to an allocation destroys it at once. An allocation that loses a handle
//! but keeps others becomes a suspect, and a collection destroys the suspects
//! that only refer to one another.
//!
//! The modules, from the ground up:
//!
//! - [`tally`]: sums over sequences;
//! - [`heap`]: the heap as the contracts see it, and what holds of it at
//!   every stable point;
//! - [`trial`]: which suspects a collection destroys;
//! - [`cascade`]: what dropping a handle sets off;
//! - [`laws`]: what holds across the operations;
//! - [`unsync`]: the dumpster, the handles and the collector themselves.
pub mod cascade;
pub mod heap;
pub mod laws;
pub mod tally;
pub mod trial;
pub mod unsync;
