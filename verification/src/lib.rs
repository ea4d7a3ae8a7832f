//! A static-file HTTP server's request handling, as pure functions on bytes.
//!
//! The crate holds everything a server decides between reading a request and
//! writing a response: how the request line is parsed, where a request path
//! points below the served directory, which media type a file gets, what the
//! response for a file, a directory or a missing entry looks like, and how a
//! response is laid out on the wire. Sockets and the filesystem stay with the
//! caller, which feeds what it read into [`connection::handle_connection`]
//! and carries out the action it gets back.
//!
//! All text is handled as bytes (`Vec<u8>` and `&[u8]`): a request path is
//! whatever octets the client sent, and a file body need not be UTF-8.

pub mod connection;
pub mod headers;
pub mod http;
pub mod mime;
pub mod path;
pub mod respond;
pub mod text;

