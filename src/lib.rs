//! The wrap-around rule behind a planar angle kept in the canonical range
//! (-half turn, +half turn].
//!
//! An angle is normalised in two steps: first its measure is reduced by the
//! truncating remainder of a full turn, which leaves a value of the same sign
//! strictly inside (-full turn, +full turn); then at most one whole turn is
//! added or taken away. This crate decides that second step from how the
//! remainder compares with the two half turns, and proves, over an exact
//! integer measure, that the two steps together land every measure on one
//! representative of its class.
pub mod exact;
pub mod turn;

pub use turn::{turn_correction, TurnCorrection};
