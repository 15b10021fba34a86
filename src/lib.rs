//! In-place sorting of integer sequences through an instrumented array.
//!
//! Every access to an element goes through a [`TargetArray`] view over a
//! shared [`Buffer`], which records the kind of the last access on the
//! element for display.  The sort routines are written against that view
//! and are proved to leave their range as a sorted permutation of what it
//! held, without touching anything outside it.

pub mod mark;
pub mod context;
pub mod order;
pub mod array;
pub mod partition;
pub mod insertion;
pub mod heap;
pub mod intro;
pub mod bucket;
pub mod quick;
pub mod radix;
pub mod laws;
