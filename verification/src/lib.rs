//! A minimal legacy HTTP engine for the 0.9 and 1.0 dialects.
//!
//! The crate turns the bytes of one request into a structured [`data::Request`],
//! decides how a confined file root answers it, and renders the
//! [`data::Response`] back into wire bytes.  Every step is specified against a
//! byte-level model of the two grammars and verified.

pub mod data;
pub mod handler;
pub mod parser;
pub mod server;
