//! Packs the pending messages of a connection's channels into packets that
//! are no longer than the transport allows.
//!
//! [`builder::PacketBuilder::build_packets`] takes the queues of all
//! channels and gives the packets to send. What the packets hold is stated
//! by the functions of [`model`], over the packet layouts of [`layout`];
//! [`laws`] proves what follows from it: nothing is lost, the messages of a
//! channel are sent shortest first, the channels in ascending order.
//! [`grammar`] says how a payload is read, and proves that reading gives
//! back what was packed.

use vstd::prelude::*;

pub mod builder;
pub mod channels;
pub mod content;
pub mod error;
pub mod grammar;
pub mod header;
pub mod laws;
pub mod layout;
pub mod message;
pub mod model;
pub mod packet;
pub mod parse;
pub mod sort;
pub mod wire;

verus! {

/// Largest number of bytes that one packet's payload may hold.
pub const MTU_PAYLOAD_BYTES: usize = 1150;

} // verus!
