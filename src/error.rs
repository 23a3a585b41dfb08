use vstd::prelude::*;

verus! {

#[verifier::external_type_specification]
#[verifier::external_body]
pub struct ExJsonError(serde_json::Error);

#[verifier::external_type_specification]
#[verifier::external_body]
pub struct ExIoError(std::io::Error);

/// The ways an operation on the store can fail.
pub enum KvErr {
    /// The file system failed.
    Io(std::io::Error),
    /// A string of a record could not be encoded or decoded as JSON.
    SerializeErr(serde_json::Error),
    /// `remove` was asked for a key that the store does not hold.
    KeyNotFound,
    /// A read at an index location found a record other than a `Set`.
    UnknownCommand,
    /// The bytes of a segment do not frame a record.
    Corrupt,
}

/// Result of the store's operations.
pub type Result<T> = core::result::Result<T, KvErr>;

impl From<std::io::Error> for KvErr {
    fn from(value: std::io::Error) -> (r: KvErr)
        ensures
            r == KvErr::Io(value),
    {
        KvErr::Io(value)
    }
}

impl vstd::std_specs::convert::FromSpecImpl<std::io::Error> for KvErr {
    open spec fn obeys_from_spec() -> bool {
        true
    }

    open spec fn from_spec(v: std::io::Error) -> KvErr {
        KvErr::Io(v)
    }
}

impl From<serde_json::Error> for KvErr {
    fn from(value: serde_json::Error) -> (r: KvErr)
        ensures
            r == KvErr::SerializeErr(value),
    {
        KvErr::SerializeErr(value)
    }
}

impl vstd::std_specs::convert::FromSpecImpl<serde_json::Error> for KvErr {
    open spec fn obeys_from_spec() -> bool {
        true
    }

    open spec fn from_spec(v: serde_json::Error) -> KvErr {
        KvErr::SerializeErr(v)
    }
}

} // verus!
