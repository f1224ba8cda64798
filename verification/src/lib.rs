//! A distributed C/C++ build accelerator library.
//!
//! The crate plans and executes a directed acyclic graph of build tasks,
//! splits each compile into a preprocess step and a compile step so that a
//! content-addressed cache can key on the preprocessed text, and frames the
//! request/response exchange between a client and a remote builder.

pub mod task;
pub mod expand;
pub mod flags;
pub mod graph;
pub mod scheduler;
pub mod wire;
pub mod vs;
pub mod cache;
pub mod cluster;
