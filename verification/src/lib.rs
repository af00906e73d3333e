//! A mycorrhizal mesh of hub and leaf nodes joined by hyphae links: routing,
//! error-correcting relay, resilience analysis and multi-path broadcast.
//!
//! Quantities are fixed-point integers: rates, probabilities and correction
//! factors in units of 10^-18 (so that products of a few rates given to six
//! or nine decimals are exact), latencies in microseconds, positions in
//! millionths of a unit.
pub mod ident;
pub mod walk;
pub mod flow;
pub mod mesh;
pub mod hyphae_link;
pub mod hub_relay;
pub mod mesh_routing;
pub mod resilience;
pub mod spore_broadcast;

pub use mesh::{Mesh, MeshNode};
pub use hyphae_link::HyphaeLink;
pub use hub_relay::{HubRelay, RelayHop, RelayResult};
pub use mesh_routing::{Route, RoutingAlgorithm};
pub use resilience::{ResilienceReport, LinkFailure};
pub use spore_broadcast::SporeBroadcast;
