//! A fixed-capacity FIFO ring buffer that overwrites its oldest element when
//! full, with contracts proved by Verus.
//!
//! The buffer keeps its elements in one array of `CAP` slots that it reuses
//! cyclically. Every operation is specified against [`RingState`], a small
//! mathematical model made of the capacity, the position of the oldest
//! element and the sequence of live elements, oldest first.

pub mod buffer;
pub mod error;
pub mod index;
pub mod iter;
pub mod laws;
pub mod state;

pub use buffer::RingBuff;
pub use error::RingBuffError;
pub use iter::RingBuffIter;
pub use state::RingState;
