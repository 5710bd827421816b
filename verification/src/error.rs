//! Error types of the store and of the HTTP layer.
use vstd::prelude::*;
use vstd::string::*;

verus! {

/// What can go wrong in the store: a missing entry, a failure of the storage
/// engine, or stored bytes that do not decode.
#[derive(Debug, Clone)]
pub enum SummError {
    NotFound,
    Storage(String),
    InvalidData(String),
}

impl SummError {
    pub open spec fn spec_message(&self) -> Seq<char> {
        match self {
            SummError::NotFound => "not found"@,
            SummError::Storage(m) => "storage error: "@ + m@,
            SummError::InvalidData(m) => "invalid data: "@ + m@,
        }
    }

    /// The text of the error.
    pub fn message(&self) -> (s: String)
        ensures
            s@ == self.spec_message(),
    {
        match self {
            SummError::NotFound => "not found".to_owned(),
            SummError::Storage(m) => {
                let mut s = "storage error: ".to_owned();
                s.append(m.as_str());
                s
            },
            SummError::InvalidData(m) => {
                let mut s = "invalid data: ".to_owned();
                s.append(m.as_str());
                s
            },
        }
    }
}

/// Whether `m` is the text of a failure of the storage engine.
pub open spec fn storage_failure(m: Seq<char>) -> bool {
    exists|x: Seq<char>| #[trigger] ("storage error: "@ + x) == m
}

/// The text of a storage failure says so.
pub proof fn lemma_storage_message(e: SummError)
    requires
        e is Storage,
    ensures
        storage_failure(e.spec_message()),
{
    let x = e->Storage_0@;
    assert(("storage error: "@ + x) == e.spec_message());
}

/// Whether `m` is the text of stored bytes that do not decode.
pub open spec fn decode_failure(m: Seq<char>) -> bool {
    exists|x: Seq<char>| #[trigger] ("invalid data: "@ + x) == m
}

/// The text of a decoding failure says so.
pub proof fn lemma_invalid_data_message(e: SummError)
    requires
        e is InvalidData,
    ensures
        decode_failure(e.spec_message()),
{
    let x = e->InvalidData_0@;
    assert(("invalid data: "@ + x) == e.spec_message());
}

/// An error as the HTTP API reports it.
#[derive(Debug, Clone)]
pub enum AppError {
    NotFound,
    Internal(String),
}

impl AppError {
    /// A missing entry stays "not found"; any other store error becomes an
    /// internal error carrying its text.
    pub fn from_summ(e: SummError) -> (r: AppError)
        ensures
            e is NotFound ==> r is NotFound,
            !(e is NotFound) ==> (r matches AppError::Internal(m) && m@ == e.spec_message()),
    {
        match e {
            SummError::NotFound => AppError::NotFound,
            other => AppError::Internal(other.message()),
        }
    }

    /// The HTTP status code and the message of the JSON error body.
    pub fn status_and_message(self) -> (r: (u16, String))
        ensures
            self is NotFound ==> r.0 == 404 && r.1@ == "not found"@,
            self matches AppError::Internal(m) ==> r.0 == 500 && r.1@ == m@,
    {
        match self {
            AppError::NotFound => (404, "not found".to_owned()),
            AppError::Internal(m) => (500, m),
        }
    }
}

} // verus!
