//! Mean-shift mode-seeking and density-based clustering over fixed-dimension
//! point sets, accelerated by a pluggable spatial-neighbor abstraction.
//!
//! The verified core consists of the neighbor-query capability ([`traits::Index`])
//! with its two implementations — an exhaustive scan ([`index::FullSearch`]) and a
//! uniform spatial grid with point-location tracking ([`index::GridIndex`]) — and
//! the greedy, density-ordered deduplication state ([`merge::MergeState`]) that
//! turns converged modes into cluster labels. The floating-point shell (kernel
//! evaluation, the Welford-style weighted mean iteration, and coordinate-to-bin
//! conversion) lives outside the verified library and drives it through these
//! integer-valued interfaces.

pub mod index;
pub mod merge;
pub mod traits;
