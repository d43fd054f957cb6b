//! A minimal DNS message codec and the decision logic of a single-upstream
//! forwarding resolver.
//!
//! The codec covers the fixed 12-byte header with its bit-packed flags,
//! question and answer records, and RFC 1035 label compression with
//! pointer-based back-references.  The forwarding logic maps one
//! multi-question client request onto one single-question upstream
//! round-trip per question and reassembles the collected answers into the
//! final response.  The socket loop itself lives outside this crate and
//! only shuttles byte buffers in and out.

pub mod dns_error;
pub mod dns_message;
pub mod labels_helpers;
pub mod server;
pub mod wire;
