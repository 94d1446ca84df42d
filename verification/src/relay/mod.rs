//! The relay: who gets a tunnel, and what goes through it.

pub mod gate;
pub mod tickets;
pub mod tunnel;
