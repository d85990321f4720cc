//! A small HTTP gateway core: it re-encodes a caller's query string for one
//! upstream listing endpoint, interprets the outcome of the upstream call,
//! and builds the outgoing response, normalizing transport and decode
//! failures into a uniform error envelope.

pub mod decode;
pub mod handler;
pub mod params;
pub mod envelope;
