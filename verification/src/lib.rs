//! Verified core of a multi-user chat relay.
//!
//! Clients join named conversations over a persistent connection, post text,
//! and receive broadcasts of other members' posts plus replayed history on
//! join. This crate holds the parts worth proving: the wire framing, the
//! envelope codec, the shared conversation-and-session store, the broadcast
//! recipient snapshot, and the per-connection protocol state machine. The
//! transport itself (sockets, threads, the accept loop) stays outside; it
//! hands this library plain values and carries the library's answers back.

pub mod bytes;
pub mod frame;
pub mod handler;
pub mod model;
pub mod protocol;
pub mod store;





