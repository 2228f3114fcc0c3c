//! Verified core of a distance-vector (RIP-style) router: address and mask
//! arithmetic, the routing table and its update rule, the advertisement wire
//! format, and the router logic that ties them together.

pub mod config;
pub mod net;
pub mod rip;
pub mod routing;
pub mod wire;
