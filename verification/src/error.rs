//! The error a request handler answers with, and its status code.

use vstd::prelude::*;

use crate::fmt::concat3;
use crate::models::ErrorResponse;

verus! {

/// The error of a request that cannot be served.
#[derive(Debug)]
pub enum AppError {
    /// 400: a missing or invalid parameter.
    BadRequest(String),
    /// 401: missing or invalid credentials.
    Unauthorized(String),
    /// 404: no such resource.
    NotFound(String),
    /// 500: an unexpected internal error.
    Internal(String),
}

/// The HTTP status code of an error.
pub open spec fn error_status(e: AppError) -> u16 {
    match e {
        AppError::BadRequest(_) => 400,
        AppError::Unauthorized(_) => 401,
        AppError::NotFound(_) => 404,
        AppError::Internal(_) => 500,
    }
}

/// The message an error carries.
pub open spec fn error_message(e: AppError) -> Seq<char> {
    match e {
        AppError::BadRequest(m) => m@,
        AppError::Unauthorized(m) => m@,
        AppError::NotFound(m) => m@,
        AppError::Internal(m) => m@,
    }
}

/// The status line of an error's status code: the number and the
/// canonical reason phrase.
pub open spec fn status_text(code: u16) -> Seq<char> {
    if code == 400 {
        "400 Bad Request"@
    } else if code == 401 {
        "401 Unauthorized"@
    } else if code == 404 {
        "404 Not Found"@
    } else {
        "500 Internal Server Error"@
    }
}

/// Calls `http::StatusCode::from_u16` and formats the status with its
/// `Display` impl, which writes the number, a space and the canonical
/// reason phrase. Claimed, as the source shows, for the four codes errors
/// answer with: the texts `400 Bad Request`, `401 Unauthorized`, `404 Not
/// Found` and `500 Internal Server Error`.
#[verifier::external_body]
fn status_line(code: u16) -> (res: String)
    requires
        code == 400 || code == 401 || code == 404 || code == 500,
    ensures
        res@ == status_text(code),
{
    match axum::http::StatusCode::from_u16(code) {
        Ok(status) => status.to_string(),
        Err(e) => e.to_string(),
    }
}

impl AppError {
    /// The HTTP status code the error answers with.
    pub fn status_code(&self) -> (res: u16)
        ensures
            res == error_status(*self),
    {
        match self {
            AppError::BadRequest(_) => 400,
            AppError::Unauthorized(_) => 401,
            AppError::NotFound(_) => 404,
            AppError::Internal(_) => 500,
        }
    }

    /// The message the error carries.
    pub fn message(&self) -> (res: &str)
        ensures
            res@ == error_message(*self),
    {
        match self {
            AppError::BadRequest(m) => m.as_str(),
            AppError::Unauthorized(m) => m.as_str(),
            AppError::NotFound(m) => m.as_str(),
            AppError::Internal(m) => m.as_str(),
        }
    }

    /// The body of the error response: the status line and the message.
    pub fn error_response(&self) -> (res: ErrorResponse)
        ensures
            res.error@ == status_text(error_status(*self)),
            res.message@ == error_message(*self),
    {
        let status = status_line(self.status_code());
        ErrorResponse { error: status, message: self.message().to_owned() }
    }

    /// The error as text: the status line, a colon and the message.
    pub fn to_text(&self) -> (res: String)
        ensures
            res@ == status_text(error_status(*self)) + ": "@ + error_message(*self),
    {
        let status = status_line(self.status_code());
        concat3(status.as_str(), ": ", self.message())
    }
}

} // verus!
