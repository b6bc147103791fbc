//! Core of a line-oriented TCP echo server that can be shut down gracefully
//! by an in-band client command.
//!
//! The library holds the three pieces of logic worth stating precisely:
//! the line codec that turns a raw byte stream into newline-delimited text
//! messages ([`codec`]), the per-connection sink decision that diverts the
//! reserved `"shutdown"` line into a control channel ([`sink`]), and the
//! accept/merge loop's state machine that merges new-connection events with
//! shutdown requests and stops on the first shutdown or listener failure
//! ([`server`]). The sockets, the reactor and the channel itself live
//! outside the library and hand it plain values.

pub mod codec;
pub mod server;
pub mod sink;

pub use codec::{FrameBuffer, LineCodec};
pub use server::{AcceptLoop, LoopAction, MergeEvent, ServerState, ShutdownRequest, StopReason};
pub use sink::{route_message, SinkRoute};
