//! Progress of a batch of work.
use vstd::prelude::*;

verus! {

/// Hears of the progress of a batch: `start` once with the number of units,
/// `advance` once per finished unit (from any thread), `finish` once.
pub trait LoadCallback {
    fn start(&self, count: u64);

    fn advance(&self);

    fn finish(&self);
}

} // verus!
