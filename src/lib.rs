//! A small HTTP request-dispatch library: a segment trie router with scoped
//! data, a middleware pipeline with a deferred command queue, and the
//! request and response values that flow through them.

pub mod data;
pub mod path;
pub mod router;
pub mod lookup;
pub mod http;
pub mod pipeline;
pub mod server;
pub mod handler;
pub mod json;
pub mod wire;
pub mod request;
