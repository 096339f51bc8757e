//! The bodies of the service's JSON responses.

use vstd::prelude::*;

use crate::str_map::StrMap;

verus! {

/// The body of an error response.
pub struct ErrorResponse {
    /// The status line, such as `400 Bad Request`.
    pub error: String,
    /// What went wrong.
    pub message: String,
}

/// A reflection of an incoming request, as the echo endpoints return it.
pub struct RequestInfo {
    /// The request method, such as `POST`.
    pub method: String,
    /// The full request URL: scheme, host, path and query.
    pub url: String,
    /// The request headers by name.
    pub headers: StrMap<String>,
    /// The address the request came from.
    pub origin: String,
    /// The query parameters.
    pub args: StrMap<String>,
    /// The body as JSON, when it was sent as JSON and parses.
    pub json: Option<serde_json::Value>,
    /// The body as UTF-8 text; empty when it was read as JSON or as a form.
    pub data: String,
    /// The form fields, from a URL-encoded or multipart body.
    pub form: StrMap<String>,
    /// The uploaded files of a multipart body: file name to size in bytes.
    pub files: StrMap<u64>,
}

/// The body of the `/get` response: exactly four fields, as httpbin has it.
pub struct GetResponse {
    /// The full request URL.
    pub url: String,
    /// The request headers by name.
    pub headers: StrMap<String>,
    /// The address the request came from.
    pub origin: String,
    /// The query parameters.
    pub args: StrMap<String>,
}

/// The common envelope of a success response: some data or a message.
pub struct SuccessResponse<T> {
    /// The payload, if any.
    pub data: Option<T>,
    /// A message, if any.
    pub message: Option<String>,
}

impl<T> SuccessResponse<T> {
    /// An envelope around `data`, without a message.
    pub fn data(data: T) -> (res: Self)
        ensures
            res.data == Some(data),
            res.message is None,
    {
        SuccessResponse { data: Some(data), message: None }
    }

    /// An envelope with `message` and no data.
    pub fn message(message: String) -> (res: Self)
        ensures
            res.data is None,
            res.message == Some(message),
    {
        SuccessResponse { data: None, message: Some(message) }
    }
}

/// The body of the `/uuid` response.
pub struct UuidResponse {
    /// A random version-4 UUID in hyphenated form.
    pub uuid: String,
}

/// One event of the `/stream/{n}` response.
pub struct StreamItem {
    /// The position of the event, from 0.
    pub id: usize,
    /// The path of the stream.
    pub url: String,
}

} // verus!
