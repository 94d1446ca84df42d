//! What a capture of the traffic looks like to someone who cannot decrypt it.

pub mod flow;
pub mod records;
pub mod packet;
pub mod capture;
pub mod sorting;
pub mod ratio;
pub mod stats;
pub mod summary;
