//! What can go wrong with a storage operation.

use vstd::prelude::*;

use crate::numbers::decimal;
use crate::numbers::decimal_text;

verus! {

/// Why a storage operation was refused.
#[derive(Debug)]
pub enum StorageError {
    Collision,
    Unauthorized,
    InvalidArgument(String),
    Internal(String),
    TooManyEntries(usize),
    AddOnlyViolation,
    ReadOnly,
}

/// A `StorageError` as a value of the specification.
pub enum Failure {
    Collision,
    Unauthorized,
    InvalidArgument(Seq<char>),
    Internal(Seq<char>),
    TooManyEntries(nat),
    AddOnlyViolation,
    ReadOnly,
}

impl View for StorageError {
    type V = Failure;

    open spec fn view(&self) -> Failure {
        match self {
            StorageError::Collision => Failure::Collision,
            StorageError::Unauthorized => Failure::Unauthorized,
            StorageError::InvalidArgument(m) => Failure::InvalidArgument(m@),
            StorageError::Internal(m) => Failure::Internal(m@),
            StorageError::TooManyEntries(n) => Failure::TooManyEntries(*n as nat),
            StorageError::AddOnlyViolation => Failure::AddOnlyViolation,
            StorageError::ReadOnly => Failure::ReadOnly,
        }
    }
}

/// The message of a failure.
pub open spec fn failure_message(f: Failure) -> Seq<char> {
    match f {
        Failure::Collision =>
            "Record already exists and is bonded to a different fingerprint (Collision)"@,
        Failure::Unauthorized => "Unauthorized: Record belongs to another team"@,
        Failure::InvalidArgument(m) => "Invalid argument: "@ + m,
        Failure::Internal(m) => "Internal storage error: "@ + m,
        Failure::TooManyEntries(n) => "Too many entries selected ("@ + decimal(n) + " matched)"@,
        Failure::AddOnlyViolation =>
            "Change command would have overridden existing field, and addonly option is on"@,
        Failure::ReadOnly => "Operation failed because database is read-only"@,
    }
}

impl StorageError {
    /// What went wrong, in words.
    pub fn message(&self) -> (m: String)
        ensures
            m@ == failure_message(self@),
    {
        match self {
            StorageError::Collision =>
                "Record already exists and is bonded to a different fingerprint (Collision)".to_string(),
            StorageError::Unauthorized => "Unauthorized: Record belongs to another team".to_string(),
            StorageError::InvalidArgument(reason) => {
                let mut m = "Invalid argument: ".to_string();
                m.append(reason.as_str());
                m
            },
            StorageError::Internal(reason) => {
                let mut m = "Internal storage error: ".to_string();
                m.append(reason.as_str());
                m
            },
            StorageError::TooManyEntries(n) => {
                let mut m = "Too many entries selected (".to_string();
                m.append(decimal_text(*n).as_str());
                m.append(" matched)");
                m
            },
            StorageError::AddOnlyViolation =>
                "Change command would have overridden existing field, and addonly option is on".to_string(),
            StorageError::ReadOnly => "Operation failed because database is read-only".to_string(),
        }
    }
}

/// A result with its error taken by its view.
pub open spec fn outcome<T>(r: Result<T, StorageError>) -> Result<T, Failure> {
    match r {
        Ok(v) => Ok(v),
        Err(e) => Err(e@),
    }
}

/// What each failure says.
pub proof fn law_messages(reason: Seq<char>, n: nat)
    ensures
        failure_message(Failure::Collision)
            == "Record already exists and is bonded to a different fingerprint (Collision)"@,
        failure_message(Failure::Unauthorized) == "Unauthorized: Record belongs to another team"@,
        failure_message(Failure::InvalidArgument(reason)) == "Invalid argument: "@ + reason,
        failure_message(Failure::Internal(reason)) == "Internal storage error: "@ + reason,
        failure_message(Failure::TooManyEntries(n)) == "Too many entries selected ("@ + decimal(n)
            + " matched)"@,
        failure_message(Failure::AddOnlyViolation)
            == "Change command would have overridden existing field, and addonly option is on"@,
        failure_message(Failure::ReadOnly) == "Operation failed because database is read-only"@,
{
}

} // verus!
