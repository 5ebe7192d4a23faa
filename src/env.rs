//! What the environment layer hands the engine.
use vstd::prelude::*;

verus! {

/// An advisory lock on a file, named by the path it locks.
pub struct FileLock {
    pub id: String,
}

} // verus!
