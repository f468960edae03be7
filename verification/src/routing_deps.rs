//! Which track has to run before which: children before their group, what a
//! side chain reads before the reader, a send's source before its destination.
//! Cyclic wiring silences the engine, so every edit that adds an edge asks here.

pub mod consumers;
pub mod edit;
pub mod graph;
pub mod laws;
pub mod moving;
pub mod moving_laws;
pub mod wiring_laws;

pub use consumers::{aux_consumers, AuxConsumer, AuxConsumerIter, ConsumerModel};
pub use graph::{DependencyCycle, EdgeScope, TrackDeps};
