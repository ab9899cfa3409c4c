//! Event-sourced bookmark keeping: an ordered event log, an aggregate that is
//! rebuilt by replaying its events and that validates commands, and a read model
//! that projects the log into records that can be queried.

pub mod adapters;
pub mod app;
pub mod domain;
pub mod entities;
pub mod log;
pub mod order;
pub mod ports;
pub mod projection;
pub mod repositories;
pub mod text;
pub mod values;
