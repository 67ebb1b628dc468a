//! A fixed-capacity FIFO ring buffer that overwrites its oldest element when
//! full, with borrowing and consuming iteration.
pub mod model;
pub mod ring_buffer;

pub use ring_buffer::{ConsumingRingBufferIterator, RingBuffer, RingBufferIterator};
