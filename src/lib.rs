//! An unbounded queue of asynchronous computations in which each enrolment
//! occupies a slot, and a slot may hold a series of computations that run one
//! after another.
//!
//! The queue here is the bookkeeping half of such a stream: it assigns slot
//! indices, keeps the pending tails of series, accounts for the length, and
//! decides what happens when the active set reports a completion. Whoever
//! drives the computations concurrently inserts the tagged computations that
//! the queue hands out and reports back each completion.
//!
//! Within a slot, outputs come in the order of its series. Across slots they
//! come in the order the active set completes them: a completed output is
//! never held back for an earlier slot.

pub mod laws;
mod model;
mod queue;

pub use model::{total_pending, Drive, Retrieved, SeriesModel, SeriesWrapper};
pub use queue::FuturesUnorderedSeries;
