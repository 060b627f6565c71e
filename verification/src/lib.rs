//! The core of Coffin, a page-fencing allocator that turns silent memory
//! corruption into a crash with a post-mortem.
//!
//! Every allocation lives on pages of its own next to a guard page, so that an
//! access past the buffer faults at once. A freed region is sealed and kept in
//! quarantine, so that a use after free faults too. What is here decides and
//! computes; mapping memory, signals, threads and output are left to the
//! program around it.
//!
//! * [`config`]: what the environment variables mean
//! * [`region`]: where guard page, buffer and padding lie in a mapping
//! * [`registry`]: the table of tracked allocations, and the quarantine
//! * [`model`]: what that table stands for
//! * [`publish`]: in which order a slot is written under the eyes of a reader
//! * [`allocator`]: what becomes of a request to allocate or free
//! * [`reentrancy`]: the guard against the allocator calling itself
//! * [`handler`]: classification of a fault, and the report on it
//! * [`annotate`]: names for frames, and annotations at source lines
//! * [`report`], [`text`], [`bits`]: numbers, text and rounding
//! * [`laws`]: what holds of the registry over any number of operations
//! * [`meaning`], [`wording`]: what the contracts come down to, in numbers and in
//!   characters

pub mod allocator;
pub mod annotate;
pub mod bits;
pub mod config;
pub mod handler;
pub mod laws;
pub mod meaning;
pub mod model;
pub mod publish;
pub mod reentrancy;
pub mod region;
pub mod registry;
pub mod report;
pub mod text;
pub mod wording;
