//! A minimal file-serving HTTP responder.
//!
//! The text of a request is read into an [`http::request::HttpRequest`], and
//! answered with an [`http::response::HttpResponse`], whose bytes go on the
//! wire. The file system stays outside: the caller looks up the path that
//! [`http::path::resolve`] gives, and hands in what it found there as an
//! [`http::response::Entry`].

pub mod http;
pub mod text;
