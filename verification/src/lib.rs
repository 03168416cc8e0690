//! Rules engine for a 9x9 Go-like board game: legal-move validation, group
//! capture, full-history repetition (superko) prevention, and a flood-fill
//! territory estimate.
//!
//! Every position is modeled as a sequence of 81 tri-state cells; the
//! contracts of the executable functions are stated over that model and over
//! `reaches`, the spec-level notion of same-colored connectivity.

pub mod bits;
pub mod board;
pub mod game;
pub mod group;
pub mod laws;
pub mod territory;
pub mod tritvector;
