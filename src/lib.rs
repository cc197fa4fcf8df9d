//! The core of a static actor runtime: arenas that pack actors at fixed
//! offsets, the registry of actor types, lookups that give keys, the dependence
//! graph and its cycle check, the routing and batching of messages between
//! contexts, and the count of outstanding events that decides when the system
//! is quiescent.

pub mod arena;
pub mod context;
pub mod graph;
pub mod ids;
pub mod lookup;
pub mod queue;
pub mod registry;
pub mod runtime;
