use vstd::prelude::*;

verus! {

/// A command of the store; `Put` and `Rm` are the records of the log.
pub enum Commands {
    /// Read the value of a key.
    Get { key: String },
    /// Set key and value in the store.
    Put { key: String, value: String },
    /// Remove a key from the store.
    Rm { key: String },
}

} // verus!
