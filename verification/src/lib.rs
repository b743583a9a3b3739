//! Hand-rolled ordered and queue data-structure prototypes.
//!
//! The centerpiece is [`lockfree_queue::LinkedQueue`], an unbounded FIFO
//! linked queue with a sentinel front node, verified against a sequence
//! view.  Beside it stand two smaller prototypes: a key-ordered store
//! backed by a `BTreeMap` and a leveled skip list keyed by `usize`.

pub mod kvstore;
pub mod lockfree_queue;
pub mod skip;
