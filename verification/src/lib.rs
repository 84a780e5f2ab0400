//! Handler-side adapter for a message-oriented HTTP gateway.
//!
//! A gateway forwards HTTP requests to handlers as single framed messages:
//! three space-delimited tokens (sender uuid, connection id, request path)
//! followed by two self-delimiting wire values holding the headers and the
//! body.  This crate decodes such messages into structured [`Request`]
//! values, serializes raw and HTTP-shaped replies, and proves the decoder
//! and serializers against an exact mathematical model of the wire format.
//!
//! Channel handling (the sockets a [`Connection`] is driven by) is plain
//! I/O and lives outside the verified library.

use vstd::prelude::*;

pub mod connection;
mod digits;
pub mod frames;
pub mod laws;
pub mod headers;
pub mod json;
pub mod request;
mod strings;
pub mod tnetstring;

pub use connection::Connection;
pub use digits::u64_dec_digits;
pub use frames::http_payload;
pub use frames::reply_frame;
pub use frames::reply_http_frame;
pub use frames::send_frame;
pub use headers::Headers;
pub use request::parse;
pub use request::Error;
pub use request::Request;

verus! {

} // verus!
