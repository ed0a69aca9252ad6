//! The protocol core: from the text of a request to the bytes of a response.

pub mod mime;
pub mod path;
pub mod request;
pub mod response;
