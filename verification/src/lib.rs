//! Client-side core of a Bolt-family binary graph-database wire protocol:
//! version-negotiation handshake, the PackStream value codec, chunked message
//! framing, and the session protocol state machine, over a caller-supplied
//! byte-stream transport.

pub mod bytes;
pub mod connection;
pub mod error;
pub mod framing;
pub mod handshake;
pub mod session;
pub mod signatures;
pub mod transport;
pub mod packstream;
pub mod value;

pub use connection::MgConnection;
pub use error::MgError;
pub use error::SessionState;
pub use session::QueryHandle;
pub use session::Session;
pub use transport::Transport;
pub use value::MgValue;
