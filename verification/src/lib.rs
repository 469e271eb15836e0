//! A verified core for a bus-based reverse-proxy mesh: a gateway maps inbound
//! requests to registered per-domain workers, serves cached responses when it
//! can, and otherwise dispatches the request over a message bus.
//!
//! Everything here works on plain byte vectors; the surrounding binaries do
//! the actual network and store I/O and hand bytes in and out.


pub mod codec;
pub mod messages;
pub mod cache;
pub mod filter;
pub mod refresh;
pub mod hash;
pub mod registry;
pub mod router;
pub mod worker;
pub mod discovery;

pub use messages::HashComponents;
