//! The domain: instants, events, commands, errors and the bookmark aggregate.

pub mod aggregates;
pub mod commands;
pub mod data;
pub mod errors;
pub mod events;
pub mod time;
