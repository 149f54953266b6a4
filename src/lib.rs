//! Work correlation, hardware pump decisions and fair multi-client scheduling
//! for ASIC mining hardware.

pub mod error;
pub mod work;
pub mod engine;
pub mod work_registry;
pub mod scheduler;
pub mod client;
pub mod pump;
