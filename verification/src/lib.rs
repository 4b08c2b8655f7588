//! Ethereum watcher: polls an Ethereum node for the events that matter to the network (priority
//! operations, protocol upgrades and the like) and hands them to event processors, once they have
//! enough confirmations.
//!
//! What the watcher decides stands here, verified. Reading from the node, storage and clocks is left to the
//! caller: the library tells it which action to perform next, and is told what came of it.
pub mod chunk;
pub mod client_layer;
pub mod guarantees;
pub mod history;
pub mod iteration;
pub mod logs;
pub mod passes;
pub mod pause;
pub mod retry;
pub mod types;
pub mod watch;
