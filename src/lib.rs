//! A concurrent, size-classed pool of fixed-capacity buffers.
//!
//! Buffers are rented by minimum capacity, used by the caller and released
//! back into the releasing thread's stash, from which any thread may reuse
//! them later.
pub mod listing;
pub mod pool;
pub mod raw_buffer;
pub mod vec;
