//! Turns the chunked body of a Kubernetes watch request into a sequence of
//! parsed watch events.

pub mod decoder;
pub mod laws;
pub mod stream;
pub mod watch;
