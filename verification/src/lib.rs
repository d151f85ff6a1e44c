//! A fixed-capacity circular buffer that is always full.
//!
//! The buffer holds exactly as many elements as it was built with and can
//! never be empty: inserting a new element (`queue`) evicts and returns the
//! oldest one.  Logical positions are translated to physical storage slots
//! by modular arithmetic around a rotating origin, so every index-taking
//! operation accepts arbitrarily large indices and wraps around instead of
//! failing.  A companion adaptor, [`SavedValues`], walks an input sequence
//! while keeping such a buffer as a rolling window of the most recently
//! yielded elements.

mod buffer;
mod errors;
mod saved;

pub use buffer::CircularBuffer;
pub use buffer::physical_of;
pub use buffer::physical_of_reversed;
pub use buffer::spec_queue;
pub use buffer::spec_queue_reversed;
pub use errors::RingError;
pub use saved::SavedValues;
