//! Non-blocking, intrusive, singly-linked collections with FIFO (queue) and
//! LIFO (stack) access, plus simple blocking companions.
//!
//! The storage unit is a linked node arena: a slab of nodes with stable
//! indices, each node holding one element and a "next" slot, recycled through
//! a free list once a removal detaches it. A FIFO core keeps a sentinel node
//! behind the logical head so that emptiness is detected by looking at the
//! sentinel's "next" slot alone; the LIFO collection keeps a single head
//! index. Every operation states its effect on an abstract sequence of
//! elements, and the ordering laws (FIFO delivery, LIFO delivery, batch
//! equivalence, conservation of elements) are proved in `laws`.

mod arena;
mod buffer;
mod fifo;

pub mod blocking_queue;
pub mod blocking_stack;
pub mod laws;
pub mod pool;
pub mod queue;
pub mod stack;

pub use blocking_queue::BlockingQueue;
pub use blocking_stack::BlockingStack;
pub use pool::ConcurrentPool;
pub use pool::PoolError;
pub use queue::LockFreeQueue;
pub use stack::LockFreeStack;
