//! Reading and writing RPAK asset archives: a fixed header, independently
//! stored (optionally LZ4-compressed) chunks, and a table of contents that is
//! checksummed, compressed and obfuscated or sealed.

pub mod args;
mod codec;
mod crypto;
mod deterministic;
mod error;
pub mod ffi;
mod format;
mod index;
mod layout;
mod limits;
mod model;
mod options;
mod order;
mod pack;
mod path;
mod reader;
mod roundtrip;
mod sink;
mod source;
mod text;
mod toc;

pub use error::{spec_io_kind, Error, ErrorView, IoKind, Result};
pub use format::{
    lemma_alignments_are_powers_of_two, two_to, read_header, write_header, Header, DEFAULT_ALIGNMENT, DEFAULT_CHUNK_SIZE, HEADER_SIZE, MAGIC,
    MAX_ALIGNMENT, MAX_CHUNK_SIZE, TOC_MAGIC, VERSION,
};
pub use limits::ArchiveLimits;
pub use options::{PackMode, PackOptions, Protection};
pub use order::{bytes_le, paths_sorted, path_views, sort_virtual_paths};
pub use pack::{pack, pack_with_options, AssetRead, InputFile, PackSummary, Packer};
pub use path::{hash_path, normalize_path, AssetId, MAX_PATH_LEN, MAX_PATH_SEGMENTS};
pub use reader::{Archive, ArchiveScratch};
pub use sink::ArchiveWrite;
pub use source::RandomAccessRead;
pub use toc::Entry;

pub use deterministic::lemma_pack_deterministic;
pub use path::lemma_normalize_idempotent;
pub use model::{lemma_read_by_id_is_read, lemma_read_into_is_read};
pub use reader::{lemma_chunk_read_is_slice, lemma_open_layout, lemma_open_within_limits, lemma_range_read_is_slice};
pub use roundtrip::{lemma_packed_entries, lemma_pack_opens, lemma_pack_roundtrip, lemma_pack_verifies, lemma_packed_files_read_back};
pub use limits::lemma_clamped_within_hard;

pub use model::{
    ids_match_paths, layout_holds, spec_lookup, spec_lookup_id, spec_read, spec_read_by_id, spec_read_chunk, spec_read_into,
    spec_read_range, spec_verify, ArchiveModel,
};
pub use pack::{file_datas, file_paths, is_packing};
pub use path::{spec_hash_path, spec_normalize};
pub use reader::spec_open;
pub use roundtrip::{packed_within, packing_within};
