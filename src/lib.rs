//! A page-level buffer pool: a bounded cache of fixed-size pages with pin
//! counts, a page table, a free list and a pluggable eviction policy.
//!
//! The pool decides; the caller moves bytes. Whenever a decision requires
//! disk traffic (a write-back of an evicted dirty page, a read of a missing
//! page) the pool hands the caller what to write and waits for the bytes it
//! needs, so all of the bookkeeping is verified here while the file itself
//! stays outside.
use vstd::prelude::*;

pub mod config;
pub mod page;
pub mod replacer;
pub mod buffer_manager;
