//! Choosing, starting and giving up obfuscation methods.

pub mod average;
pub mod candidates;
pub mod fsm;
pub mod method;
pub mod obfuscator;
pub mod scoring;
pub mod session;
pub mod veil_front;
