//! A small virtual machine for studying garbage collection.
//!
//! A program of allocate, read, write and collect instructions runs against
//! a model heap: a bounded address space of one-cell fields, an ordered map
//! of objects, a set of roots and a list of maximal free runs.

pub mod text;
pub mod chance;
pub mod error;
pub mod object;
pub mod ordered;
pub mod free_list;
pub mod heap;
pub mod allocator;
pub mod mutator;
pub mod gc;
pub mod rts_cfg;
pub mod program;
pub mod log;
pub mod wsmsg;
pub mod vm;
pub mod simulator;
pub mod session;
pub mod server;
pub mod file_utils;
pub mod grid;
pub mod app;
