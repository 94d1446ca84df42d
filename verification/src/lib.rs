//! Veil: the decisions of a probing-resistant transport, without any I/O.

pub mod buffers;
pub mod client;
pub mod clock;
pub mod crypto;
pub mod encoding;
pub mod protocol;
pub mod relay;
pub mod trace;
