//! A simulator of binary signal wires joined by direct and inverted
//! relations, advanced one propagation layer per tick.
pub mod model;
pub mod engine;
pub mod command;
pub mod client;

pub use client::{AtomicBatch, Mailbox};
pub use command::{Command, Engine};
pub use engine::{Runner, State, Wire};
pub mod laws;
