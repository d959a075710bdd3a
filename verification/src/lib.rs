//! The core of a household switchboard: a relay that passes sealed datagrams
//! between peers on named channels.
//!
//! - [`feistel`] is the keyed permutation of 64-bit blocks.
//! - [`frame`] defines the sealed frame; [`transform`] seals and opens
//!   frames, and [`guarantees`] proves what the frame format promises.
//! - [`proto`] holds the data that peers exchange.
//! - [`board`] defines the broker's state and what each request does to it;
//!   [`switchboard`] is the broker.
//! - [`hexdump`] renders a rejected datagram for the log.
//! - [`envelope`] is the envelope of the authorization protocol.
//!
//! Nothing here reads a socket, a clock or a file. The program around the
//! library does, and hands over what it read.
pub mod board;
pub mod envelope;
pub mod feistel;
pub mod frame;
pub mod guarantees;
pub mod hexdump;
mod ordered;
pub mod proto;
pub mod switchboard;
pub mod transform;
