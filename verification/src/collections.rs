//! Collections used by the stream adapters.

pub mod linked_slab;
