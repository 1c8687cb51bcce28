//! Execution traces of Game Boy (and related) emulators: the trace header,
//! columnar trace storage, condition queries, trace alignment and
//! comparison, frame reconstruction and snapshot payloads.
use vstd::prelude::*;

pub mod text;
pub mod names;
pub mod reader;
pub mod format;
pub mod trace_store;
pub mod downsample;
pub mod edit;
pub mod display;
pub mod error;
pub mod header;
pub mod query;
pub mod snapshot;
pub mod framebuffer;
pub mod diff_store;
pub mod diff;
pub mod system;
pub mod adapter;
pub mod entry;
pub mod capture;
pub mod profile;
pub mod catalogue;
pub mod column_store;
pub mod field_writer;
pub mod row_groups;
pub mod loader;

verus! {

} // verus!
