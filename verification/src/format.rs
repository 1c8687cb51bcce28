//! The records of the native binary trace format: field groups, per-chunk
//! field statistics, and the chunk and frame indexes of its footer.
use vstd::prelude::*;

verus! {

/// The format's version byte.
pub const VERSION: u8 = 1;

/// The default largest number of entries in a chunk.
pub const DEFAULT_CHUNK_SIZE: usize = 65536;

/// A field group: a name and the fields stored together under it.
#[derive(Debug, Clone)]
pub struct FieldGroup {
    pub name: String,
    pub fields: Vec<String>,
}

/// Per-chunk statistics of one numeric field.
#[derive(Debug, Clone, Copy)]
pub struct FieldStats {
    pub min: u64,
    pub max: u64,
}

impl Default for FieldStats {
    fn default() -> (r: Self)
        ensures
            r.min == 0 && r.max == 0,
    {
        FieldStats { min: 0, max: 0 }
    }
}

/// An entry of the chunk index.
#[derive(Debug, Clone, Copy)]
pub struct ChunkIndexEntry {
    /// Byte offset of the chunk from the start of the file.
    pub offset: u64,
    /// Number of entries in the chunk.
    pub entry_count: u32,
}

/// An entry of the frame index.
#[derive(Debug, Clone, Copy)]
pub struct FrameIndexEntry {
    /// Index of the entry where the frame starts.
    pub entry_index: u64,
    /// Byte offset of the frame's framebuffer blob (0 when it has none).
    pub framebuffer_offset: u64,
    /// Compressed size of the framebuffer blob.
    pub framebuffer_size: u32,
}

/// The footer at the end of a file.
#[derive(Debug, Clone)]
pub struct Footer {
    pub chunks: Vec<ChunkIndexEntry>,
    pub frames: Vec<FrameIndexEntry>,
    pub total_entries: u64,
}

} // verus!
