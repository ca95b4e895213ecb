//! Connectivity management of a peer-to-peer node: which peers are dialled, what state the
//! connections to them are in, which connections a caller is handed, which neighbours a node of
//! the distributed hash table keeps, and what a wallet server that runs on it is set up with.
//!
//! But for the clock and for random numbers, nothing here reaches outside the library. Where a
//! decision needs the outside world in the middle (a dial, a database query), the library hands
//! out an action and is resumed with what came of it.
pub mod connection_pool;
pub mod dht;
pub mod manager;
pub mod node_id;
pub mod peer;
pub mod requester;
pub mod selection;
pub mod wallet;
