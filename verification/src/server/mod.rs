//! The wire protocol and the server's decisions.

pub mod protocol;
pub mod wire_laws;
pub mod server;

pub use protocol::{Request, Response};
