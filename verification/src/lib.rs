//! A rule-driven reverse proxy core: path-prefix routing over a circuit of
//! rule nodes, and a rewrite algebra that turns an inbound request into the
//! upstream request the matched rule asks for.
//!
//! The surrounding process (sockets, threads, the HTTP client) lives outside
//! this crate; everything here is plain data and verified logic.

pub mod circuit;
pub mod conf;
pub mod engine;
pub mod path;
pub mod request;
pub mod response;
pub mod strmap;
pub mod upstream;
pub mod worker;
