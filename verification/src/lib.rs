//! The core of a TLS-terminating reverse proxy that hands the original client
//! address to its backend in a short header ahead of the forwarded bytes.
//!
//! Everything here is plain computation on plain values: the header codec
//! works on byte buffers, and the terminator, forwarder, listener and shutdown
//! coordinator are transition functions that a runtime drives with the events
//! it observes.

pub mod address;
pub mod bytes;
pub mod header;
pub mod binary;
pub mod text;
pub mod codec;
pub mod display;
pub mod context;
pub mod terminator;
pub mod forwarder;
pub mod listener;
pub mod shutdown;
