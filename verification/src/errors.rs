//! The error taxonomy of the storage engine. Every fallible operation
//! returns one of these kinds rather than aborting the process.
use vstd::prelude::*;

verus! {

/// Category of an underlying storage failure, mirroring the broad
/// operating-system error classes the engine cares about.
#[derive(Clone, Copy, Debug, PartialEq, Eq, Structural)]
pub enum IoKind {
    NotFound,
    PermissionDenied,
    AlreadyExists,
    WouldBlock,
    UnexpectedEof,
    Other,
}

/// Everything that can go wrong inside the engine.
#[derive(Debug)]
pub enum Error {
    /// Tried to create a bucket under a key that is already taken.
    BucketExists,
    /// Tried to open a bucket that does not exist.
    BucketMissing,
    /// Tried to read or delete a key / value pair that does not exist.
    KeyValueMissing,
    /// Found a bucket where a plain value was expected, or the reverse.
    IncompatibleValue,
    /// Tried to mutate through a read-only transaction.
    ReadOnlyTx,
    /// An underlying storage failure, with its category and context.
    Io(IoKind, String),
    /// A synchronization primitive failed.
    Sync(String),
    /// The database failed meta / integrity validation: corruption.
    InvalidDB(String),
    /// A requested configuration value is out of the supported range.
    Unsupported(String),
}

impl Error {
    /// A human-readable description of the error, with the exact text
    /// fixed per kind; kinds that carry context append it to a fixed
    /// prefix.
    pub fn message(&self) -> (r: String)
        ensures
            r@.len() > 0,
            self is BucketExists ==> r@ == "Bucket already exists"@,
            self is BucketMissing ==> r@ == "Bucket does not exist"@,
            self is KeyValueMissing ==> r@ == "Key / Value pair does not exist"@,
            self is IncompatibleValue ==> r@ == "Value not compatible"@,
            self is ReadOnlyTx ==> r@ == "Cannot write in a read-only transaction"@,
            match self {
                Error::Io(_, s) => r@ == "IO Error: "@ + s@,
                Error::Sync(s) => r@ == "Sync Error: "@ + s@,
                Error::InvalidDB(s) => r@ == "Invalid DB: "@ + s@,
                Error::Unsupported(s) => r@ == "Unsupported operation: "@ + s@,
                _ => true,
            },
    {
        let r = match self {
            Error::BucketExists => String::from_str("Bucket already exists"),
            Error::BucketMissing => String::from_str("Bucket does not exist"),
            Error::KeyValueMissing => String::from_str("Key / Value pair does not exist"),
            Error::IncompatibleValue => String::from_str("Value not compatible"),
            Error::ReadOnlyTx => String::from_str("Cannot write in a read-only transaction"),
            Error::Io(_, s) => String::from_str("IO Error: ").concat(s.as_str()),
            Error::Sync(s) => String::from_str("Sync Error: ").concat(s.as_str()),
            Error::InvalidDB(s) => String::from_str("Invalid DB: ").concat(s.as_str()),
            Error::Unsupported(s) => String::from_str("Unsupported operation: ").concat(s.as_str()),
        };
        proof {
            reveal_strlit("Bucket already exists");
            reveal_strlit("Bucket does not exist");
            reveal_strlit("Key / Value pair does not exist");
            reveal_strlit("Value not compatible");
            reveal_strlit("Cannot write in a read-only transaction");
            reveal_strlit("IO Error: ");
            reveal_strlit("Sync Error: ");
            reveal_strlit("Invalid DB: ");
            reveal_strlit("Unsupported operation: ");
        }
        r
    }
}

/// What equality of two errors means: kinds must match, and the carried
/// detail strings must match; two storage failures never compare equal
/// because their contexts are incidental.
pub open spec fn error_eq_spec(a: &Error, b: &Error) -> bool {
    match (a, b) {
        (Error::BucketExists, Error::BucketExists) => true,
        (Error::BucketMissing, Error::BucketMissing) => true,
        (Error::KeyValueMissing, Error::KeyValueMissing) => true,
        (Error::IncompatibleValue, Error::IncompatibleValue) => true,
        (Error::ReadOnlyTx, Error::ReadOnlyTx) => true,
        (Error::Sync(s1), Error::Sync(s2)) => s1@ == s2@,
        (Error::InvalidDB(s1), Error::InvalidDB(s2)) => s1@ == s2@,
        (Error::Unsupported(s1), Error::Unsupported(s2)) => s1@ == s2@,
        _ => false,
    }
}

impl PartialEq for Error {
    fn eq(&self, other: &Self) -> (r: bool) {
        match (self, other) {
            (Error::BucketExists, Error::BucketExists) => true,
            (Error::BucketMissing, Error::BucketMissing) => true,
            (Error::KeyValueMissing, Error::KeyValueMissing) => true,
            (Error::IncompatibleValue, Error::IncompatibleValue) => true,
            (Error::ReadOnlyTx, Error::ReadOnlyTx) => true,
            (Error::Sync(s1), Error::Sync(s2)) => s1.eq(s2),
            (Error::InvalidDB(s1), Error::InvalidDB(s2)) => s1.eq(s2),
            (Error::Unsupported(s1), Error::Unsupported(s2)) => s1.eq(s2),
            _ => false,
        }
    }
}

impl vstd::std_specs::cmp::PartialEqSpecImpl for Error {
    open spec fn obeys_eq_spec() -> bool {
        true
    }

    open spec fn eq_spec(&self, other: &Error) -> bool {
        error_eq_spec(self, other)
    }
}

} // verus!
