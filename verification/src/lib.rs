//! Per-device internet access control for a router: device aliases, the nftables
//! rules that cut a device off from the internet while leaving the local network
//! reachable, and the decisions of the small HTTP interface that drives them.
//!
//! Nothing here performs I/O: running `nft` and serving HTTP are up to the caller,
//! which hands the outcomes back.

pub mod api;
pub mod config;
pub mod nftables;
pub mod text;
pub mod types;
