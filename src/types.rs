//! Values exchanged with callers: items, list summaries, errors and the
//! response envelope.
use vstd::prelude::*;

verus! {

/// An error as reported to a client: a stable code and a description.
pub struct RspErr {
    pub code: usize,
    pub description: String,
}

/// A response envelope: the payload or the error.
pub enum RspData<T> {
    Success(T),
    Failure(RspErr),
}

impl<T> RspData<T> {
    /// Turns the envelope into a `Result`, keeping its content.
    pub fn into_result(self) -> (r: Result<T, RspErr>)
        ensures
            match self {
                RspData::Success(v) => r == Ok::<T, RspErr>(v),
                RspData::Failure(e) => r == Err::<T, RspErr>(e),
            },
    {
        match self {
            RspData::Success(v) => Ok(v),
            RspData::Failure(e) => Err(e),
        }
    }
}

/// A payload without content.
pub struct Empty {}

/// How a user stands towards a list.
#[derive(Clone, Copy, Debug, PartialEq, Eq, Structural)]
pub enum ListStatus {
    Owned,
    SharedWrite,
    SharedRead,
}

/// A list item as a reader sees it.
pub struct Item {
    pub id: i32,
    pub name: String,
    pub amount: Option<String>,
}

/// A list as it appears in a user's overview.
pub struct ListInfo {
    pub id: u128,
    pub name: String,
    pub status: ListStatus,
    pub public: bool,
    pub owner: u128,
}

/// A pantry item as a reader sees it.
pub struct PantryItem {
    pub id: i32,
    pub name: String,
    pub amount: u32,
    pub target: Option<u32>,
}

/// Why an operation failed.
#[derive(Clone, Copy, Debug, PartialEq, Eq, Structural)]
pub enum Error {
    /// The list or item does not exist, or may not be revealed.
    NotFound,
    /// The caller lacks the permission that the operation needs.
    NotAuthorized,
    /// The owner already has a list of that name.
    AlreadyExists,
    /// The request is malformed.
    InvalidInput,
    /// The store could not carry out the operation.
    InternalError,
}

pub open spec fn error_code(e: Error) -> usize {
    match e {
        Error::NotFound => 1,
        Error::NotAuthorized => 2,
        Error::AlreadyExists => 3,
        Error::InvalidInput => 4,
        Error::InternalError => 5,
    }
}

impl Error {
    /// The stable code of this error.
    pub fn code(&self) -> (r: usize)
        ensures
            r == error_code(*self),
    {
        match self {
            Error::NotFound => 1,
            Error::NotAuthorized => 2,
            Error::AlreadyExists => 3,
            Error::InvalidInput => 4,
            Error::InternalError => 5,
        }
    }

    /// The error as reported to a client: its code and a description.
    pub fn to_rsp_err(&self) -> (r: RspErr)
        ensures
            r.code == error_code(*self),
            r.description@.len() > 0,
    {
        let text = match self {
            Error::NotFound => "not found",
            Error::NotAuthorized => "not authorized",
            Error::AlreadyExists => "a list of that name already exists",
            Error::InvalidInput => "invalid input",
            Error::InternalError => "internal error",
        };
        proof {
            reveal_strlit("not found");
            reveal_strlit("not authorized");
            reveal_strlit("a list of that name already exists");
            reveal_strlit("invalid input");
            reveal_strlit("internal error");
        }
        RspErr { code: self.code(), description: text.to_string() }
    }
}

} // verus!
