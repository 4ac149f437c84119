//! What is known of Docker's containers, networks, images and volumes.

pub mod container;
pub mod network_usage;
pub mod usage;
