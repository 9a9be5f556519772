//! Analysis core of a place/transition net workbench: a random-firing
//! simulator with an incrementally maintained enabled-transition set, a
//! reachability-graph builder with a coverability cutoff, and a property
//! analyzer (boundedness, deadlock, liveness, reversibility) over the
//! strongly connected components of the reachability graph.

pub mod clock;
pub mod coverability;
pub mod dot;
pub mod model_checking;
pub mod net;
pub mod properties;
pub mod reachability;
pub mod responses;
pub mod scc;
pub mod simulator;
pub mod updates;
