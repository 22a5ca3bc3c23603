//! Streaming archive codec and reverse-proxy rules, with machine-checked contracts.

pub mod archive;
pub mod cipher;
pub mod entries;
pub mod error;
pub mod forward;
pub mod framing;
pub mod http;
pub mod progress;
pub mod request;
pub mod rewrite;
pub mod routes;
pub mod state;
pub mod stream;
pub mod text;
pub mod websocket;
