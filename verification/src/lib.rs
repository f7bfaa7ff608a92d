//! A BGP-4 speaker core: message model and codec, routing information base
//! with best-path selection, per-peer state, and the decision logic of the
//! session state machine and the control interface.
//!
//! Everything here is plain data and pure mutation; the surrounding daemon
//! owns the sockets, timers and channels and calls into this crate for every
//! decision it makes.

pub mod api;
pub mod attr;
pub mod codec;
pub mod family;
pub mod global;
pub mod laws;
pub mod message;
pub mod net;
pub mod peer;
pub mod rewrite;
pub mod rib;
pub mod service;
pub mod session;
