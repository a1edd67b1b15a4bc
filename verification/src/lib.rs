//! In-process relay connecting one host per room to its listeners.
//!
//! A room oscillates between two states: idle (no host connection entry) and
//! hosted (exactly one host connection entry, with zero or more listeners).
//! The relay keeps, per room, a bounded outbound queue for the host and one
//! for each listener; inbound frames are decoded and routed onto the right
//! queue, and a background pump outside this crate drains each queue onto its
//! socket.
//!
//! The crate is organised as follows:
//! - [`errors`]: the error taxonomy of the relay and its HTTP equivalents;
//! - [`frames`]: the wire grammar of host frames and their rendering;
//! - [`relay`]: the connection registry, session admission and teardown, and
//!   the message router;
//! - [`laws`]: proofs of the relay's cross-operation guarantees;
//! - [`auth`]: the bearer-credential parsing and token-window rules used by
//!   the authentication gate in front of the host path.

pub mod auth;
pub mod errors;
pub mod frames;
pub mod laws;
pub mod relay;
