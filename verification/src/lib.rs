//! Exact tableau simplex solving over an extended-number arithmetic.
//!
//! Every scalar of the computation is a rational carrying two extra nilpotent
//! units: an infinite unit `M` and an infinitesimal unit `eps`. The builder
//! turns relational constraints into a standardized slack/surplus tableau and
//! the engine pivots on it, primal or dual as feasibility requires.

pub mod constraint;
pub mod laws;
pub mod rat;
pub mod row;
pub mod simplex;
pub mod superreal;
