//! A verified core of a minimal HTTP/1.1 request/response pipeline:
//! request parsing, template-based routing, response serialization,
//! and optional gzip content encoding.

pub mod encoding;
pub mod handlers;
pub mod request;
pub mod response;
pub mod router;
pub mod routes;
pub mod text;
