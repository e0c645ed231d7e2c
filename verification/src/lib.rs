//! Core of a key-value configuration-discovery protocol carried over a
//! best-effort gossip overlay.
//!
//! A client node starts with a want-list of configuration keys whose values
//! are unknown, broadcasts `Get` requests for them while the overlay gate
//! permits, and fills values in as `Notification` responses arrive, matched
//! through a correlation table of outstanding request ids. A server node
//! owns the authoritative store: it answers `Get`, applies `Set`, and replies
//! with a `Notification` carrying the resolved value.
//!
//! The overlay itself (peer discovery, message propagation, transport) is an
//! external collaborator: this crate only builds the bytes to publish and
//! consumes the bytes that were delivered.

pub mod assoc;
pub mod client;
pub mod codec;
pub mod gate;
pub mod probe;
pub mod server;
