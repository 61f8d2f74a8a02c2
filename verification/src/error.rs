use vstd::prelude::*;

verus! {

/// The three kinds of failure the service reports.
#[derive(Clone, Copy, Debug, PartialEq, Eq)]
pub enum Status {
    BadRequest,
    NotFound,
    Internal,
}

/// The HTTP status code that a `Status` is answered with.
pub open spec fn status_code_of(s: Status) -> u16 {
    match s {
        Status::BadRequest => 400,
        Status::NotFound => 404,
        Status::Internal => 500,
    }
}

/// An error answered to a client: a status and a human-readable detail.
#[derive(Debug, PartialEq, Eq)]
pub struct AppError {
    pub status: Status,
    pub detail: String,
}

impl AppError {
    /// A `400 Bad Request` error.
    pub fn bad_request(detail: String) -> (e: AppError)
        ensures
            e.status == Status::BadRequest,
            e.detail@ == detail@,
    {
        AppError { status: Status::BadRequest, detail }
    }

    /// A `404 Not Found` error.
    pub fn not_found(detail: String) -> (e: AppError)
        ensures
            e.status == Status::NotFound,
            e.detail@ == detail@,
    {
        AppError { status: Status::NotFound, detail }
    }

    /// A `500 Internal Server Error` error.
    pub fn internal(detail: String) -> (e: AppError)
        ensures
            e.status == Status::Internal,
            e.detail@ == detail@,
    {
        AppError { status: Status::Internal, detail }
    }

    /// The HTTP status code of this error.
    pub fn status_code(&self) -> (code: u16)
        ensures
            code == status_code_of(self.status),
    {
        match self.status {
            Status::BadRequest => 400,
            Status::NotFound => 404,
            Status::Internal => 500,
        }
    }
}

} // verus!
