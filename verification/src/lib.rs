//! Zero-copy extraction of the Server Name Indication (SNI) hostname from the
//! first TLS record of a connection, for SNI-based passthrough routing.
//!
//! The decoder walks a nested, length-prefixed, big-endian binary format over
//! a caller-supplied buffer using only bounds-checked slicing, and returns
//! either the hostname the client asked for or a precise reason why the
//! buffer cannot be routed by SNI. It never panics and never reads outside
//! the buffer, whatever the input.

pub mod tls;
