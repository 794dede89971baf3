//! Rendezvous logic for TCP hole punching: the wire codec, the server's
//! peer registry, and the client's connector coordination.
pub mod codec;
pub mod punch;
pub mod registry;
