//! The protocol client: its turn clock, its configuration, its messages, and
//! the state machine that plays games.

pub mod bot;
pub mod client;
pub mod clock;
pub mod conduct;
pub mod config;
pub mod engine;
pub mod machine;
pub mod message;
pub mod ponder;
