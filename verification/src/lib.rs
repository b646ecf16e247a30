//! A minimal HTTP/1.1 request parser and method-based router.
//!
//! The `web` module turns a raw request string into a structured
//! [`web::HttpRequest`] and derives query parameters from its URI; the
//! `server` module binds (method, URI) pairs to handlers and dispatches
//! structured requests to the unique matching handler.

pub mod server;
pub mod string_map;
pub mod text;
pub mod web;
