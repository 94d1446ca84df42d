//! What goes over the wire to open a tunnel.

pub mod auth;
pub mod frame;
pub mod ticket;
pub mod varint;
