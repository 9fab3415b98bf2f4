//! Dependencies between architectures: which upstreams hold a dependent back,
//! what is reported about them, and whether the declared edges form a DAG.
//!
//! - [`LavaArchitectureDependency`] is an edge from a dependent to an upstream,
//!   hard (`BlocksOn`) or soft (`Influences`).
//! - [`PhaseRegistry`] looks up the current phase of an address;
//!   [`InMemoryPhaseRegistry`] keeps the phases in memory.
//! - [`DependencyResolver`] turns dependencies and phases into a
//!   [`ResolutionVerdict`].
//! - [`emit_blocked_anomaly`] turns a [`BlockReason`] into a [`LavaAnomaly`].
//! - [`validate_acyclic`] refuses dependencies that run in a circle.

pub mod acyclic;
pub mod address;
pub mod anomaly;
pub mod dependency;
pub mod entries;
pub mod reach;
pub mod registry;
pub mod resolver;
mod search;
pub mod text;

pub use acyclic::{validate_acyclic, DependencyError};
pub use address::ResourceAddress;
pub use anomaly::{emit_blocked_anomaly, AnomalyKind, LavaAnomaly, Severity};
pub use dependency::{default_require_phase, DependencyKind, LavaArchitectureDependency};
pub use registry::{InMemoryPhaseRegistry, PhaseRegistry};
pub use resolver::{BlockReason, DependencyResolver, ResolutionVerdict};
