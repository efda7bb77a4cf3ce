//! A fixed-capacity least-recently-used cache backed by a slot arena with an
//! intrusive doubly-linked recency chain, and a multi-tier ("generational")
//! cache that chains several such caches so that evictions cascade into the
//! next tier.

pub mod lru;
pub mod mglru;
