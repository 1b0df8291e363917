//! A caching, load-balancing reverse proxy core for Ethereum-style JSON-RPC
//! endpoints.
//!
//! The library holds the upstream-connection pool and request router: it
//! tracks which upstreams agree on a head block, selects upstreams per
//! request under rate-limit and block-availability constraints, caches
//! idempotent responses with single-flight deduplication, and multiplexes
//! per-client subscriptions onto shared upstream subscription streams.
//! Network transport, authentication and process wiring live outside.

pub mod block;
pub mod cache;
pub mod connection;
pub mod consensus;
pub mod relay;
pub mod router;
pub mod strutil;
pub mod subs;
pub mod supervisor;
pub mod ws;

pub use block::SavedBlock;
pub use cache::{CacheEntry, Fingerprint, FlightOutcome, ResponseCache};
pub use connection::{Connection, Health, Transport};
pub use consensus::{SyncedConn, SyncedConnections, Web3Connections};
pub use relay::RelayOutcome;
pub use router::{MethodClass, RouterState, Web3ProxyError};
pub use subs::{ClientSink, SubKind, Subscription, SubscriptionHub};
