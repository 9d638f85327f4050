use vstd::prelude::*;

verus! {

/// Errors reported to a client, each with a message.
#[derive(Debug, PartialEq, Eq)]
pub enum AppError {
    BadRequest(String),
    NotFound(String),
    Unauthorized(String),
}

impl AppError {
    /// The HTTP status code that reports this error.
    pub open spec fn spec_status_code(&self) -> u16 {
        match self {
            AppError::BadRequest(_) => 400,
            AppError::NotFound(_) => 404,
            AppError::Unauthorized(_) => 401,
        }
    }

    /// The message carried by this error.
    pub open spec fn spec_message(&self) -> Seq<char> {
        match self {
            AppError::BadRequest(m) => m@,
            AppError::NotFound(m) => m@,
            AppError::Unauthorized(m) => m@,
        }
    }

    pub fn status_code(&self) -> (r: u16)
        ensures
            r == self.spec_status_code(),
    {
        match self {
            AppError::BadRequest(_) => 400,
            AppError::NotFound(_) => 404,
            AppError::Unauthorized(_) => 401,
        }
    }

    pub fn message(&self) -> (r: &str)
        ensures
            r@ == self.spec_message(),
    {
        match self {
            AppError::BadRequest(m) => m.as_str(),
            AppError::NotFound(m) => m.as_str(),
            AppError::Unauthorized(m) => m.as_str(),
        }
    }
}

} // verus!
