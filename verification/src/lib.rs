//! Building blocks for resource-conscious services, each with its behaviour
//! stated and proved:
//!
//! - [`self_modifying`]: a bounded cache that watches its hit rate and
//!   switches between least-recently-used and least-frequently-used
//!   eviction, built on the stores of [`recency`] and [`frequency`];
//! - [`adversarial_first`]: a hash map that draws new seeds when chains grow;
//! - [`algebraic_composability`]: monoids and checks of their laws;
//! - [`causal_reasoning`]: outcome counts, overall and by group;
//! - [`time_aware`]: quicksort under a deadline.
//!
//! [`linked`] holds what is taken on trust from the `linked_hash_map` crate,
//! and [`keyed`] the sequences of keyed pairs that describe it.

pub mod adversarial_first;
pub mod algebraic_composability;
pub mod causal_reasoning;
pub mod frequency;
pub mod keyed;
pub mod linked;
pub mod recency;
pub mod self_modifying;
pub mod time_aware;
