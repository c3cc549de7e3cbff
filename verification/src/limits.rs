use vstd::prelude::*;

use crate::error::{Error, Result};
use crate::format::{
    spec_flags_paths_stripped, Header, HEADER_FLAG_PATHS_STRIPPED, MAX_TOC_RAW_SIZE, MAX_TOC_STORED_SIZE,
};
use crate::path::MAX_PATH_LEN;

verus! {

/// Resource limits applied when opening and reading an archive.
#[derive(Debug, Copy, Clone, PartialEq, Eq, Structural)]
pub struct ArchiveLimits {
    /// Maximum stored TOC bytes accepted from this caller.
    pub max_toc_stored_bytes: u64,
    /// Maximum decoded TOC bytes accepted from this caller.
    pub max_toc_raw_bytes: u64,
    /// Maximum number of archive entries accepted from this caller.
    pub max_entries: u32,
    /// Maximum number of chunks accepted from this caller.
    pub max_chunks: u32,
    /// Maximum chunks decoded by one read or verification operation.
    pub max_chunks_per_operation: u32,
    /// Maximum bytes in one encoded archive path.
    pub max_path_bytes: usize,
    /// Maximum combined bytes in all encoded archive paths.
    pub max_total_path_bytes: u64,
    /// Maximum combined original size of all archive assets.
    pub max_total_decompressed_bytes: u64,
    /// Maximum original size of one archive asset.
    pub max_single_asset_bytes: u64,
    /// Maximum estimated memory used by decoded archive metadata and indexes.
    pub max_metadata_bytes: u64,
}

/// Estimated bytes of decoded metadata per entry (two entry records and an
/// index slot).
pub const ENTRY_METADATA_BYTES: u64 = 128;
/// Estimated bytes of decoded metadata per chunk (a chunk record and an
/// ownership flag).
pub const CHUNK_METADATA_BYTES: u64 = 41;

impl ArchiveLimits {
    /// Hard maximum stored TOC size. Caller limits cannot raise it.
    pub const HARD_MAX_TOC_STORED_BYTES: u64 = 268435456;
    /// Hard maximum decoded TOC size. Caller limits cannot raise it.
    pub const HARD_MAX_TOC_RAW_BYTES: u64 = 536870912;
    /// Hard maximum archive entry count. Caller limits cannot raise it.
    pub const HARD_MAX_ENTRIES: u32 = 1000000;
    /// Hard maximum archive chunk count. Caller limits cannot raise it.
    pub const HARD_MAX_CHUNKS: u32 = 8000000;
    /// Hard maximum chunks decoded by one operation. Caller limits cannot raise it.
    pub const HARD_MAX_CHUNKS_PER_OPERATION: u32 = 8000000;
    /// Hard maximum encoded path size. Caller limits cannot raise it.
    pub const HARD_MAX_PATH_BYTES: usize = 65535;
    /// Hard maximum combined encoded path size. Caller limits cannot raise it.
    pub const HARD_MAX_TOTAL_PATH_BYTES: u64 = 67108864;
    /// Hard maximum combined decompressed asset size. Caller limits cannot raise it.
    pub const HARD_MAX_TOTAL_DECOMPRESSED_BYTES: u64 = 8589934592;
    /// Hard maximum size of one decompressed asset. Caller limits cannot raise it.
    pub const HARD_MAX_SINGLE_ASSET_BYTES: u64 = 8589934592;
    /// Hard maximum estimated metadata memory. Caller limits cannot raise it.
    pub const HARD_MAX_METADATA_BYTES: u64 = 2147483648;
    /// Hard maximum entries sharing one identifier.
    pub const HARD_MAX_IDENTIFIER_BUCKET_ENTRIES: usize = 64;

    /// Limits for game runtimes.
    pub fn runtime_default() -> (r: Self)
        ensures
            r == (ArchiveLimits {
                max_toc_stored_bytes: 67108864,
                max_toc_raw_bytes: 134217728,
                max_entries: 100000,
                max_chunks: 500000,
                max_chunks_per_operation: 65536,
                max_path_bytes: 65535,
                max_total_path_bytes: 67108864,
                max_total_decompressed_bytes: 4294967296,
                max_single_asset_bytes: 536870912,
                max_metadata_bytes: 536870912,
            }),
    {
        ArchiveLimits {
            max_toc_stored_bytes: 67108864,
            max_toc_raw_bytes: 134217728,
            max_entries: 100000,
            max_chunks: 500000,
            max_chunks_per_operation: 65536,
            max_path_bytes: Self::HARD_MAX_PATH_BYTES,
            max_total_path_bytes: 67108864,
            max_total_decompressed_bytes: 4294967296,
            max_single_asset_bytes: 536870912,
            max_metadata_bytes: 536870912,
        }
    }

    /// Limits for editors and build tools: the hard maxima.
    pub fn tooling_default() -> (r: Self)
        ensures
            r == spec_hard_limits(),
    {
        ArchiveLimits {
            max_toc_stored_bytes: Self::HARD_MAX_TOC_STORED_BYTES,
            max_toc_raw_bytes: Self::HARD_MAX_TOC_RAW_BYTES,
            max_entries: Self::HARD_MAX_ENTRIES,
            max_chunks: Self::HARD_MAX_CHUNKS,
            max_chunks_per_operation: Self::HARD_MAX_CHUNKS_PER_OPERATION,
            max_path_bytes: Self::HARD_MAX_PATH_BYTES,
            max_total_path_bytes: Self::HARD_MAX_TOTAL_PATH_BYTES,
            max_total_decompressed_bytes: Self::HARD_MAX_TOTAL_DECOMPRESSED_BYTES,
            max_single_asset_bytes: Self::HARD_MAX_SINGLE_ASSET_BYTES,
            max_metadata_bytes: Self::HARD_MAX_METADATA_BYTES,
        }
    }

    /// The format-maximal limits; the same as [`Self::tooling_default`].
    pub fn permissive_v1() -> (r: Self)
        ensures
            r == spec_hard_limits(),
    {
        Self::tooling_default()
    }

    /// These limits with every field lowered to its hard maximum.
    pub fn clamped(self) -> (r: Self)
        ensures
            r == spec_clamped(self),
    {
        ArchiveLimits {
            max_toc_stored_bytes: min_u64(self.max_toc_stored_bytes, Self::HARD_MAX_TOC_STORED_BYTES),
            max_toc_raw_bytes: min_u64(self.max_toc_raw_bytes, Self::HARD_MAX_TOC_RAW_BYTES),
            max_entries: if self.max_entries < Self::HARD_MAX_ENTRIES {
                self.max_entries
            } else {
                Self::HARD_MAX_ENTRIES
            },
            max_chunks: if self.max_chunks < Self::HARD_MAX_CHUNKS {
                self.max_chunks
            } else {
                Self::HARD_MAX_CHUNKS
            },
            max_chunks_per_operation: if self.max_chunks_per_operation
                < Self::HARD_MAX_CHUNKS_PER_OPERATION {
                self.max_chunks_per_operation
            } else {
                Self::HARD_MAX_CHUNKS_PER_OPERATION
            },
            max_path_bytes: if self.max_path_bytes < Self::HARD_MAX_PATH_BYTES {
                self.max_path_bytes
            } else {
                Self::HARD_MAX_PATH_BYTES
            },
            max_total_path_bytes: min_u64(self.max_total_path_bytes, Self::HARD_MAX_TOTAL_PATH_BYTES),
            max_total_decompressed_bytes: min_u64(
                self.max_total_decompressed_bytes,
                Self::HARD_MAX_TOTAL_DECOMPRESSED_BYTES,
            ),
            max_single_asset_bytes: min_u64(self.max_single_asset_bytes, Self::HARD_MAX_SINGLE_ASSET_BYTES),
            max_metadata_bytes: min_u64(self.max_metadata_bytes, Self::HARD_MAX_METADATA_BYTES),
        }
    }
}

impl Default for ArchiveLimits {
    fn default() -> (r: Self)
        ensures
            r == spec_runtime_limits(),
    {
        Self::runtime_default()
    }
}

fn min_u64(a: u64, b: u64) -> (r: u64)
    ensures
        r == spec_min(a as int, b as int),
{
    if a < b {
        a
    } else {
        b
    }
}

pub open spec fn spec_min(a: int, b: int) -> int {
    if a < b {
        a
    } else {
        b
    }
}

/// The runtime defaults.
pub open spec fn spec_runtime_limits() -> ArchiveLimits {
    ArchiveLimits {
        max_toc_stored_bytes: 67108864,
        max_toc_raw_bytes: 134217728,
        max_entries: 100000,
        max_chunks: 500000,
        max_chunks_per_operation: 65536,
        max_path_bytes: 65535,
        max_total_path_bytes: 67108864,
        max_total_decompressed_bytes: 4294967296,
        max_single_asset_bytes: 536870912,
        max_metadata_bytes: 536870912,
    }
}

/// The hard maxima, which are also the tooling defaults.
pub open spec fn spec_hard_limits() -> ArchiveLimits {
    ArchiveLimits {
        max_toc_stored_bytes: 268435456,
        max_toc_raw_bytes: 536870912,
        max_entries: 1000000,
        max_chunks: 8000000,
        max_chunks_per_operation: 8000000,
        max_path_bytes: 65535,
        max_total_path_bytes: 67108864,
        max_total_decompressed_bytes: 8589934592,
        max_single_asset_bytes: 8589934592,
        max_metadata_bytes: 2147483648,
    }
}

/// Every field of `l` lowered to its hard maximum.
pub open spec fn spec_clamped(l: ArchiveLimits) -> ArchiveLimits {
    let h = spec_hard_limits();
    ArchiveLimits {
        max_toc_stored_bytes: spec_min(l.max_toc_stored_bytes as int, h.max_toc_stored_bytes as int) as u64,
        max_toc_raw_bytes: spec_min(l.max_toc_raw_bytes as int, h.max_toc_raw_bytes as int) as u64,
        max_entries: spec_min(l.max_entries as int, h.max_entries as int) as u32,
        max_chunks: spec_min(l.max_chunks as int, h.max_chunks as int) as u32,
        max_chunks_per_operation: spec_min(
            l.max_chunks_per_operation as int,
            h.max_chunks_per_operation as int,
        ) as u32,
        max_path_bytes: spec_min(l.max_path_bytes as int, h.max_path_bytes as int) as usize,
        max_total_path_bytes: spec_min(l.max_total_path_bytes as int, h.max_total_path_bytes as int) as u64,
        max_total_decompressed_bytes: spec_min(
            l.max_total_decompressed_bytes as int,
            h.max_total_decompressed_bytes as int,
        ) as u64,
        max_single_asset_bytes: spec_min(
            l.max_single_asset_bytes as int,
            h.max_single_asset_bytes as int,
        ) as u64,
        max_metadata_bytes: spec_min(l.max_metadata_bytes as int, h.max_metadata_bytes as int) as u64,
    }
}

/// Whether no field exceeds its hard maximum.
pub open spec fn within_hard_limits(l: ArchiveLimits) -> bool {
    let h = spec_hard_limits();
    &&& l.max_toc_stored_bytes <= h.max_toc_stored_bytes
    &&& l.max_toc_raw_bytes <= h.max_toc_raw_bytes
    &&& l.max_entries <= h.max_entries
    &&& l.max_chunks <= h.max_chunks
    &&& l.max_chunks_per_operation <= h.max_chunks_per_operation
    &&& l.max_path_bytes <= h.max_path_bytes
    &&& l.max_total_path_bytes <= h.max_total_path_bytes
    &&& l.max_total_decompressed_bytes <= h.max_total_decompressed_bytes
    &&& l.max_single_asset_bytes <= h.max_single_asset_bytes
    &&& l.max_metadata_bytes <= h.max_metadata_bytes
}

/// Clamping leaves limits within the hard maxima and never raises a limit.
pub proof fn lemma_clamped_within_hard(l: ArchiveLimits)
    ensures
        within_hard_limits(spec_clamped(l)),
        spec_clamped(l).max_entries <= l.max_entries,
        spec_clamped(l).max_chunks <= l.max_chunks,
        spec_clamped(l).max_toc_stored_bytes <= l.max_toc_stored_bytes,
        spec_clamped(l).max_toc_raw_bytes <= l.max_toc_raw_bytes,
        spec_clamped(l).max_metadata_bytes <= l.max_metadata_bytes,
{
}

/// The metadata memory an archive with this header is estimated to need.
pub open spec fn spec_metadata_estimate(h: Header) -> int {
    h.toc_size + 2 * h.toc_raw_size + ENTRY_METADATA_BYTES * h.entry_count + CHUNK_METADATA_BYTES
        * h.chunk_count
}

/// The smallest decoded TOC that can hold the header's record counts.
pub open spec fn spec_min_toc_raw(h: Header) -> int {
    36 * h.entry_count + 36 * h.chunk_count + 4 + if spec_flags_paths_stripped(h.flags) {
        0
    } else {
        h.entry_count as int
    }
}

/// The limit checks an opened archive's header passes, in order.
pub open spec fn spec_validate_limits(h: Header, l: ArchiveLimits) -> Result<()> {
    if h.toc_size > l.max_toc_stored_bytes {
        Err(Error::TooLarge("stored TOC limit"))
    } else if h.toc_raw_size > l.max_toc_raw_bytes {
        Err(Error::TooLarge("raw TOC limit"))
    } else if h.entry_count > l.max_entries {
        Err(Error::TooManyEntries)
    } else if h.chunk_count > l.max_chunks {
        Err(Error::TooManyChunks)
    } else if !spec_flags_paths_stripped(h.flags) && h.entry_count > l.max_total_path_bytes {
        Err(Error::MetadataLimitExceeded)
    } else if spec_min_toc_raw(h) > h.toc_raw_size {
        Err(Error::Corrupt("TOC counts exceed raw TOC size"))
    } else if spec_metadata_estimate(h) > l.max_metadata_bytes {
        Err(Error::MetadataLimitExceeded)
    } else {
        Ok(())
    }
}

/// Checks a validated header against the caller's limits.
pub fn validate_limits(h: Header, l: ArchiveLimits) -> (r: Result<()>)
    ensures
        r == spec_validate_limits(h, l),
{
    if h.toc_size > l.max_toc_stored_bytes {
        return Err(Error::TooLarge("stored TOC limit"));
    }
    if h.toc_raw_size > l.max_toc_raw_bytes {
        return Err(Error::TooLarge("raw TOC limit"));
    }
    if h.entry_count > l.max_entries {
        return Err(Error::TooManyEntries);
    }
    if h.chunk_count > l.max_chunks {
        return Err(Error::TooManyChunks);
    }
    let stripped = h.flags & HEADER_FLAG_PATHS_STRIPPED != 0;
    if !stripped && h.entry_count as u64 > l.max_total_path_bytes {
        return Err(Error::MetadataLimitExceeded);
    }
    let ec = h.entry_count as u64;
    let cc = h.chunk_count as u64;
    let minimum: u64 = 36 * ec + 36 * cc + 4 + if stripped {
        0
    } else {
        ec
    };
    if minimum > h.toc_raw_size {
        return Err(Error::Corrupt("TOC counts exceed raw TOC size"));
    }
    // An estimate past the 64-bit range exceeds every limit.
    let fixed: u64 = ENTRY_METADATA_BYTES * ec + CHUNK_METADATA_BYTES * cc;
    if h.toc_size > u64::MAX - fixed {
        return Err(Error::MetadataLimitExceeded);
    }
    let with_stored: u64 = fixed + h.toc_size;
    if h.toc_raw_size > (u64::MAX - with_stored) / 2 {
        return Err(Error::MetadataLimitExceeded);
    }
    let estimate: u64 = with_stored + 2 * h.toc_raw_size;
    if estimate > l.max_metadata_bytes {
        return Err(Error::MetadataLimitExceeded);
    }
    Ok(())
}

} // verus!
