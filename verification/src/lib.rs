//! An HTTP request-inspection service in the style of httpbin, with the
//! request-handling logic stated and proved in Verus.
//!
//! The verified library holds everything that decides what a response
//! says: header lookup and client-address resolution, cookie and form
//! parsing, the multipart body parser, the raw header parser, the
//! authentication checks and the parameter checks of the response-control
//! endpoints.  The HTTP server around it lives in `app/`.

pub mod byte_seq;
pub mod text;
pub mod str_map;
pub mod headers;
pub mod client_ip;
pub mod encoding;
pub mod raw_headers;
pub mod json_utils;
pub mod fmt;
pub mod models;
pub mod error;
pub mod state;
pub mod request_body;
pub mod http_rules;
pub mod cookies;
pub mod auth;
pub mod inspect;
pub mod response;
pub mod utility;
