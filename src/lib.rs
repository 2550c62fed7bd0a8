//! A binary heap ordered by a pluggable strategy, with min- and max-orders built in.
pub mod order;
pub mod multiset_facts;
pub mod heap;
pub mod laws;
