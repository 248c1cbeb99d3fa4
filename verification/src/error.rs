use vstd::prelude::*;
use vstd::string::StringExecFns;

verus! {

/// Why a store operation did not succeed.
#[derive(Clone, Copy, Debug, PartialEq, Eq, Structural)]
pub enum StoreError {
    /// Durable storage was unavailable or refused the operation.
    Io,
    /// A text handed in from outside is not the encoding of any event.
    Encoding,
    /// A payload or setting that the store holds cannot be decoded.
    CorruptRecord,
    /// A row would repeat an identifier or a fingerprint that is in use.
    Constraint,
}

impl StoreError {
    /// A short human-readable rendering of the error.
    pub fn message(&self) -> (text: String)
        ensures
            text@ == match *self {
                StoreError::Io => "storage unavailable"@,
                StoreError::Encoding => "event cannot be encoded or decoded"@,
                StoreError::CorruptRecord => "stored record is corrupt"@,
                StoreError::Constraint => "uniqueness constraint violated"@,
            },
    {
        match self {
            StoreError::Io => String::from_str("storage unavailable"),
            StoreError::Encoding => String::from_str("event cannot be encoded or decoded"),
            StoreError::CorruptRecord => String::from_str("stored record is corrupt"),
            StoreError::Constraint => String::from_str("uniqueness constraint violated"),
        }
    }
}

} // verus!
