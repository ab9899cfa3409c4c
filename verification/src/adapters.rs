//! Implementations of the ports, and what the outer layers need decided.

pub mod clock;
pub mod file_event_store;
pub mod file_names;
pub mod http_api;
pub mod memory_event_log;
pub mod memory_event_store;
pub mod memory_read_model;
pub mod memory_repository;
