//! Secret Santa assignment engine.
//!
//! Participants are partitioned into groups. Everybody is to give to exactly
//! one other participant and to receive from exactly one, if possible from
//! another group. The engine builds a directed compatibility graph over the
//! participants and searches it in three layers: for a single giving chain
//! through everybody that never stays inside a group, then for one that may,
//! then for a cover by several chains.
//!
//! - [`person`] and [`group`] hold the participants and the groups.
//! - [`picker`] holds the registries, the graph builder and the searches.
//! - [`rules`] says which participants may give to which.
//! - [`graph`] says what a Hamiltonian cycle and an assignment along it are,
//!   and what follows from that.
//! - [`plan`] says what the layered search owes.
//! - [`token`] draws the identifiers.
//!
//! Identifiers are 128-bit tokens. The collections of the engine are keyed by
//! the number of a token.
//!
//! Two calls leave the verified code: the draw of a fresh identifier and the
//! random choice of the participant at which a search begins. Of both only
//! what holds of every outcome is used.

mod chance;
mod cover;
pub mod graph;
pub mod group;
pub mod person;
pub mod picker;
pub mod plan;
pub mod rules;
mod sets;
pub mod token;
mod trail;
