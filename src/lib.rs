//! Causally ordered broadcast between directly connected peers, driven by vector
//! clocks.
//!
//! - `clock`: vector clocks, their merge and the causal-delivery test.
//! - `message`: the message a peer broadcasts, and its data frame.
//! - `store`: the clocks this node has observed.
//! - `delivery`: the buffer of held messages and the engine that delivers in causal
//!   order.
//! - `fault`: delaying or dropping the messages of one peer.
//! - `session`: the protocol state of one connection.
//! - `handler`: the node, which runs the events of its connections.
//! - `laws`: what holds of these across calls.

pub mod clock;
pub mod message;
pub mod store;
pub mod delivery;
pub mod fault;
pub mod session;
pub mod handler;
pub mod laws;
