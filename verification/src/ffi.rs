//! The values that cross the C interface: status codes, plain-data mirrors of
//! limits, options, summaries and archive facts, and the conversions between
//! them and the library's own types.
use vstd::prelude::*;

use crate::error::{Error, ErrorView, Result};
use crate::limits::ArchiveLimits;
use crate::options::{spec_default_options, PackMode, PackOptions, Protection};
use crate::pack::{
    file_datas, file_paths, is_packing, pack_files, pack_fits, spec_check_files, write_may_fail, InputFile,
    PackSummary,
};
use crate::options::spec_validate_options;
use crate::reader::{Archive, ArchiveScratch};
use crate::sink::ArchiveWrite;
use crate::source::RandomAccessRead;
use crate::path::string_from_chars;
use crate::deterministic::chunk_total;
use crate::text::{decimal, push_decimal};

verus! {

/// The version of the C interface.
pub const ABI_VERSION: u32 = 1;

/// `PackMode::Debug` across the C interface.
pub const PACK_MODE_DEBUG: u32 = 0;

/// `PackMode::Production` across the C interface.
pub const PACK_MODE_PRODUCTION: u32 = 1;

/// `Protection::Xor` across the C interface.
pub const PROTECTION_XOR: u32 = 0;

/// `Protection::Aead` across the C interface.
pub const PROTECTION_AEAD: u32 = 1;

/// The outcome of a call through the C interface.
#[derive(Debug, Copy, Clone, PartialEq, Eq, Structural)]
pub enum RasenStatus {
    Success,
    NullPointer,
    InvalidUtf8,
    InvalidValue,
    OutOfRange,
    CallbackFailed,
    Panic,
    Io,
    BadMagic,
    BadTocMagic,
    UnsupportedVersion,
    UnsupportedFlags,
    UnsupportedHeaderSize,
    EmptyKey,
    Crypto,
    IncompletePack,
    NonEmptyDestination,
    InvalidPath,
    InvalidChunkSize,
    InvalidAlignment,
    InvalidRange,
    BufferSizeMismatch,
    ChunkOutOfRange,
    DuplicatePath,
    AssetTooLarge,
    ArchiveTooLarge,
    TooManyEntries,
    TooManyChunks,
    MetadataLimitExceeded,
    Corrupt,
    TooLarge,
    Lz4,
    NotFound,
    HashCollision,
    ChecksumMismatch,
}

/// The number that C callers see for a status: 0 for success, small numbers
/// for failures at the interface itself, 100 and up for library errors.
pub open spec fn status_number(s: RasenStatus) -> i32 {
    match s {
        RasenStatus::Success => 0,
        RasenStatus::NullPointer => 1,
        RasenStatus::InvalidUtf8 => 2,
        RasenStatus::InvalidValue => 3,
        RasenStatus::OutOfRange => 4,
        RasenStatus::CallbackFailed => 5,
        RasenStatus::Panic => 6,
        RasenStatus::Io => 100,
        RasenStatus::BadMagic => 101,
        RasenStatus::BadTocMagic => 102,
        RasenStatus::UnsupportedVersion => 103,
        RasenStatus::UnsupportedFlags => 104,
        RasenStatus::UnsupportedHeaderSize => 105,
        RasenStatus::EmptyKey => 106,
        RasenStatus::Crypto => 107,
        RasenStatus::IncompletePack => 108,
        RasenStatus::NonEmptyDestination => 109,
        RasenStatus::InvalidPath => 110,
        RasenStatus::InvalidChunkSize => 111,
        RasenStatus::InvalidAlignment => 112,
        RasenStatus::InvalidRange => 113,
        RasenStatus::BufferSizeMismatch => 114,
        RasenStatus::ChunkOutOfRange => 115,
        RasenStatus::DuplicatePath => 116,
        RasenStatus::AssetTooLarge => 117,
        RasenStatus::ArchiveTooLarge => 118,
        RasenStatus::TooManyEntries => 119,
        RasenStatus::TooManyChunks => 120,
        RasenStatus::MetadataLimitExceeded => 121,
        RasenStatus::Corrupt => 122,
        RasenStatus::TooLarge => 123,
        RasenStatus::Lz4 => 124,
        RasenStatus::NotFound => 125,
        RasenStatus::HashCollision => 126,
        RasenStatus::ChecksumMismatch => 127,
    }
}

impl RasenStatus {
    /// The number that C callers see for this status.
    pub fn code(self) -> (r: i32)
        ensures
            r == status_number(self),
    {
        match self {
            RasenStatus::Success => 0,
            RasenStatus::NullPointer => 1,
            RasenStatus::InvalidUtf8 => 2,
            RasenStatus::InvalidValue => 3,
            RasenStatus::OutOfRange => 4,
            RasenStatus::CallbackFailed => 5,
            RasenStatus::Panic => 6,
            RasenStatus::Io => 100,
            RasenStatus::BadMagic => 101,
            RasenStatus::BadTocMagic => 102,
            RasenStatus::UnsupportedVersion => 103,
            RasenStatus::UnsupportedFlags => 104,
            RasenStatus::UnsupportedHeaderSize => 105,
            RasenStatus::EmptyKey => 106,
            RasenStatus::Crypto => 107,
            RasenStatus::IncompletePack => 108,
            RasenStatus::NonEmptyDestination => 109,
            RasenStatus::InvalidPath => 110,
            RasenStatus::InvalidChunkSize => 111,
            RasenStatus::InvalidAlignment => 112,
            RasenStatus::InvalidRange => 113,
            RasenStatus::BufferSizeMismatch => 114,
            RasenStatus::ChunkOutOfRange => 115,
            RasenStatus::DuplicatePath => 116,
            RasenStatus::AssetTooLarge => 117,
            RasenStatus::ArchiveTooLarge => 118,
            RasenStatus::TooManyEntries => 119,
            RasenStatus::TooManyChunks => 120,
            RasenStatus::MetadataLimitExceeded => 121,
            RasenStatus::Corrupt => 122,
            RasenStatus::TooLarge => 123,
            RasenStatus::Lz4 => 124,
            RasenStatus::NotFound => 125,
            RasenStatus::HashCollision => 126,
            RasenStatus::ChecksumMismatch => 127,
        }
    }
}

/// The status that reports a library error: the status of the same name
/// (`EmptyKey` for an empty key).
pub open spec fn status_of(e: ErrorView) -> RasenStatus {
    match e {
        ErrorView::Io => RasenStatus::Io,
        ErrorView::BadMagic => RasenStatus::BadMagic,
        ErrorView::BadTocMagic => RasenStatus::BadTocMagic,
        ErrorView::UnsupportedVersion(_) => RasenStatus::UnsupportedVersion,
        ErrorView::UnsupportedFlags(_) => RasenStatus::UnsupportedFlags,
        ErrorView::UnsupportedHeaderSize(_) => RasenStatus::UnsupportedHeaderSize,
        ErrorView::EmptyXorKey => RasenStatus::EmptyKey,
        ErrorView::Crypto(_) => RasenStatus::Crypto,
        ErrorView::IncompletePack => RasenStatus::IncompletePack,
        ErrorView::NonEmptyDestination => RasenStatus::NonEmptyDestination,
        ErrorView::InvalidPath => RasenStatus::InvalidPath,
        ErrorView::InvalidChunkSize => RasenStatus::InvalidChunkSize,
        ErrorView::InvalidAlignment => RasenStatus::InvalidAlignment,
        ErrorView::InvalidRange => RasenStatus::InvalidRange,
        ErrorView::BufferSizeMismatch { .. } => RasenStatus::BufferSizeMismatch,
        ErrorView::ChunkOutOfRange { .. } => RasenStatus::ChunkOutOfRange,
        ErrorView::DuplicatePath(_) => RasenStatus::DuplicatePath,
        ErrorView::AssetTooLarge => RasenStatus::AssetTooLarge,
        ErrorView::ArchiveTooLarge => RasenStatus::ArchiveTooLarge,
        ErrorView::TooManyEntries => RasenStatus::TooManyEntries,
        ErrorView::TooManyChunks => RasenStatus::TooManyChunks,
        ErrorView::MetadataLimitExceeded => RasenStatus::MetadataLimitExceeded,
        ErrorView::Corrupt(_) => RasenStatus::Corrupt,
        ErrorView::TooLarge(_) => RasenStatus::TooLarge,
        ErrorView::Lz4 => RasenStatus::Lz4,
        ErrorView::NotFound(_) => RasenStatus::NotFound,
        ErrorView::HashCollision(_) => RasenStatus::HashCollision,
        ErrorView::ChecksumMismatch { .. } => RasenStatus::ChecksumMismatch,
    }
}

/// The status that reports `error`.
pub fn core_status(error: &Error) -> (r: RasenStatus)
    ensures
        r == status_of(error@),
{
    match error {
        Error::Io(_) => RasenStatus::Io,
        Error::BadMagic => RasenStatus::BadMagic,
        Error::BadTocMagic => RasenStatus::BadTocMagic,
        Error::UnsupportedVersion(_) => RasenStatus::UnsupportedVersion,
        Error::UnsupportedFlags(_) => RasenStatus::UnsupportedFlags,
        Error::UnsupportedHeaderSize(_) => RasenStatus::UnsupportedHeaderSize,
        Error::EmptyXorKey => RasenStatus::EmptyKey,
        Error::Crypto(_) => RasenStatus::Crypto,
        Error::IncompletePack => RasenStatus::IncompletePack,
        Error::NonEmptyDestination => RasenStatus::NonEmptyDestination,
        Error::InvalidPath => RasenStatus::InvalidPath,
        Error::InvalidChunkSize => RasenStatus::InvalidChunkSize,
        Error::InvalidAlignment => RasenStatus::InvalidAlignment,
        Error::InvalidRange => RasenStatus::InvalidRange,
        Error::BufferSizeMismatch { .. } => RasenStatus::BufferSizeMismatch,
        Error::ChunkOutOfRange { .. } => RasenStatus::ChunkOutOfRange,
        Error::DuplicatePath(_) => RasenStatus::DuplicatePath,
        Error::AssetTooLarge => RasenStatus::AssetTooLarge,
        Error::ArchiveTooLarge => RasenStatus::ArchiveTooLarge,
        Error::TooManyEntries => RasenStatus::TooManyEntries,
        Error::TooManyChunks => RasenStatus::TooManyChunks,
        Error::MetadataLimitExceeded => RasenStatus::MetadataLimitExceeded,
        Error::Corrupt(_) => RasenStatus::Corrupt,
        Error::TooLarge(_) => RasenStatus::TooLarge,
        Error::Lz4(_) => RasenStatus::Lz4,
        Error::NotFound(_) => RasenStatus::NotFound,
        Error::HashCollision(_) => RasenStatus::HashCollision,
        Error::ChecksumMismatch { .. } => RasenStatus::ChecksumMismatch,
    }
}

/// A failed call: its status and the message kept for the caller.
#[derive(Debug)]
pub struct FfiFailure {
    pub status: RasenStatus,
    pub message: String,
}

/// A failure with `status` and `message`.
pub fn failure(status: RasenStatus, message: String) -> (r: FfiFailure)
    ensures
        r.status == status,
        r.message@ == message@,
{
    FfiFailure { status, message }
}

/// `label`, a colon and a space, then `value` in decimal.
pub open spec fn labelled_value(label: Seq<char>, value: u32) -> Seq<char> {
    label + seq![':', ' '] + decimal(value as nat)
}

/// The message `label: value`.
fn labelled_message(label: &[char], value: u32) -> (r: String)
    ensures
        r@ == labelled_value(label@, value),
{
    let mut out: Vec<char> = Vec::new();
    let mut i: usize = 0;
    while i < label.len()
        invariant
            i <= label@.len(),
            out@ == label@.take(i as int),
        decreases label@.len() - i,
    {
        out.push(label[i]);
        i = i + 1;
        assert(out@ =~= label@.take(i as int));
    }
    out.push(':');
    out.push(' ');
    push_decimal(&mut out, value as u64);
    proof {
        assert(label@.take(label@.len() as int) =~= label@);
        assert(out@ =~= labelled_value(label@, value));
    }
    string_from_chars(out.as_slice())
}

/// Resource limits as C callers hold them.
#[derive(Debug, Copy, Clone, PartialEq, Eq, Structural)]
pub struct RasenArchiveLimits {
    pub max_toc_stored_bytes: u64,
    pub max_toc_raw_bytes: u64,
    pub max_entries: u32,
    pub max_chunks: u32,
    pub max_chunks_per_operation: u32,
    pub max_path_bytes: usize,
    pub max_total_path_bytes: u64,
    pub max_total_decompressed_bytes: u64,
    pub max_single_asset_bytes: u64,
    pub max_metadata_bytes: u64,
}

/// The C form of `l`, field by field.
pub open spec fn limits_to_c(l: ArchiveLimits) -> RasenArchiveLimits {
    RasenArchiveLimits {
        max_toc_stored_bytes: l.max_toc_stored_bytes,
        max_toc_raw_bytes: l.max_toc_raw_bytes,
        max_entries: l.max_entries,
        max_chunks: l.max_chunks,
        max_chunks_per_operation: l.max_chunks_per_operation,
        max_path_bytes: l.max_path_bytes,
        max_total_path_bytes: l.max_total_path_bytes,
        max_total_decompressed_bytes: l.max_total_decompressed_bytes,
        max_single_asset_bytes: l.max_single_asset_bytes,
        max_metadata_bytes: l.max_metadata_bytes,
    }
}

/// The limits that C form `l` holds, field by field.
pub open spec fn limits_from_c(l: RasenArchiveLimits) -> ArchiveLimits {
    ArchiveLimits {
        max_toc_stored_bytes: l.max_toc_stored_bytes,
        max_toc_raw_bytes: l.max_toc_raw_bytes,
        max_entries: l.max_entries,
        max_chunks: l.max_chunks,
        max_chunks_per_operation: l.max_chunks_per_operation,
        max_path_bytes: l.max_path_bytes,
        max_total_path_bytes: l.max_total_path_bytes,
        max_total_decompressed_bytes: l.max_total_decompressed_bytes,
        max_single_asset_bytes: l.max_single_asset_bytes,
        max_metadata_bytes: l.max_metadata_bytes,
    }
}

impl From<ArchiveLimits> for RasenArchiveLimits {
    fn from(value: ArchiveLimits) -> (r: Self)
        ensures
            r.max_toc_stored_bytes == value.max_toc_stored_bytes,
            r.max_toc_raw_bytes == value.max_toc_raw_bytes,
            r.max_entries == value.max_entries,
            r.max_chunks == value.max_chunks,
            r.max_chunks_per_operation == value.max_chunks_per_operation,
            r.max_path_bytes == value.max_path_bytes,
            r.max_total_path_bytes == value.max_total_path_bytes,
            r.max_total_decompressed_bytes == value.max_total_decompressed_bytes,
            r.max_single_asset_bytes == value.max_single_asset_bytes,
            r.max_metadata_bytes == value.max_metadata_bytes,
    {
        RasenArchiveLimits {
            max_toc_stored_bytes: value.max_toc_stored_bytes,
            max_toc_raw_bytes: value.max_toc_raw_bytes,
            max_entries: value.max_entries,
            max_chunks: value.max_chunks,
            max_chunks_per_operation: value.max_chunks_per_operation,
            max_path_bytes: value.max_path_bytes,
            max_total_path_bytes: value.max_total_path_bytes,
            max_total_decompressed_bytes: value.max_total_decompressed_bytes,
            max_single_asset_bytes: value.max_single_asset_bytes,
            max_metadata_bytes: value.max_metadata_bytes,
        }
    }
}

impl vstd::std_specs::convert::FromSpecImpl<ArchiveLimits> for RasenArchiveLimits {
    open spec fn obeys_from_spec() -> bool {
        true
    }

    open spec fn from_spec(v: ArchiveLimits) -> Self {
        limits_to_c(v)
    }
}

impl From<RasenArchiveLimits> for ArchiveLimits {
    fn from(value: RasenArchiveLimits) -> (r: Self)
        ensures
            r.max_toc_stored_bytes == value.max_toc_stored_bytes,
            r.max_toc_raw_bytes == value.max_toc_raw_bytes,
            r.max_entries == value.max_entries,
            r.max_chunks == value.max_chunks,
            r.max_chunks_per_operation == value.max_chunks_per_operation,
            r.max_path_bytes == value.max_path_bytes,
            r.max_total_path_bytes == value.max_total_path_bytes,
            r.max_total_decompressed_bytes == value.max_total_decompressed_bytes,
            r.max_single_asset_bytes == value.max_single_asset_bytes,
            r.max_metadata_bytes == value.max_metadata_bytes,
    {
        ArchiveLimits {
            max_toc_stored_bytes: value.max_toc_stored_bytes,
            max_toc_raw_bytes: value.max_toc_raw_bytes,
            max_entries: value.max_entries,
            max_chunks: value.max_chunks,
            max_chunks_per_operation: value.max_chunks_per_operation,
            max_path_bytes: value.max_path_bytes,
            max_total_path_bytes: value.max_total_path_bytes,
            max_total_decompressed_bytes: value.max_total_decompressed_bytes,
            max_single_asset_bytes: value.max_single_asset_bytes,
            max_metadata_bytes: value.max_metadata_bytes,
        }
    }
}

impl vstd::std_specs::convert::FromSpecImpl<RasenArchiveLimits> for ArchiveLimits {
    open spec fn obeys_from_spec() -> bool {
        true
    }

    open spec fn from_spec(v: RasenArchiveLimits) -> Self {
        limits_from_c(v)
    }
}

/// Limits pass between their Rust and C forms field by field: each limit
/// keeps its value under its own name, both ways, so a round trip changes
/// nothing.
pub proof fn lemma_limits_cross_unchanged(l: ArchiveLimits, c: RasenArchiveLimits)
    ensures
        limits_to_c(l).max_toc_stored_bytes == l.max_toc_stored_bytes,
        limits_to_c(l).max_toc_raw_bytes == l.max_toc_raw_bytes,
        limits_to_c(l).max_entries == l.max_entries,
        limits_to_c(l).max_chunks == l.max_chunks,
        limits_to_c(l).max_chunks_per_operation == l.max_chunks_per_operation,
        limits_to_c(l).max_path_bytes == l.max_path_bytes,
        limits_to_c(l).max_total_path_bytes == l.max_total_path_bytes,
        limits_to_c(l).max_total_decompressed_bytes == l.max_total_decompressed_bytes,
        limits_to_c(l).max_single_asset_bytes == l.max_single_asset_bytes,
        limits_to_c(l).max_metadata_bytes == l.max_metadata_bytes,
        limits_from_c(c).max_toc_stored_bytes == c.max_toc_stored_bytes,
        limits_from_c(c).max_toc_raw_bytes == c.max_toc_raw_bytes,
        limits_from_c(c).max_entries == c.max_entries,
        limits_from_c(c).max_chunks == c.max_chunks,
        limits_from_c(c).max_chunks_per_operation == c.max_chunks_per_operation,
        limits_from_c(c).max_path_bytes == c.max_path_bytes,
        limits_from_c(c).max_total_path_bytes == c.max_total_path_bytes,
        limits_from_c(c).max_total_decompressed_bytes == c.max_total_decompressed_bytes,
        limits_from_c(c).max_single_asset_bytes == c.max_single_asset_bytes,
        limits_from_c(c).max_metadata_bytes == c.max_metadata_bytes,
        limits_from_c(limits_to_c(l)) == l,
        limits_to_c(limits_from_c(c)) == c,
{
}

/// The limits a C caller asked for: the defaults when it passed none.
pub fn limits(requested: Option<RasenArchiveLimits>) -> (r: ArchiveLimits)
    ensures
        requested is None ==> r == crate::limits::spec_runtime_limits(),
        requested matches Some(l) ==> r == limits_from_c(l),
        requested matches Some(l) ==> {
            &&& r.max_toc_stored_bytes == l.max_toc_stored_bytes
            &&& r.max_toc_raw_bytes == l.max_toc_raw_bytes
            &&& r.max_entries == l.max_entries
            &&& r.max_chunks == l.max_chunks
            &&& r.max_chunks_per_operation == l.max_chunks_per_operation
            &&& r.max_path_bytes == l.max_path_bytes
            &&& r.max_total_path_bytes == l.max_total_path_bytes
            &&& r.max_total_decompressed_bytes == l.max_total_decompressed_bytes
            &&& r.max_single_asset_bytes == l.max_single_asset_bytes
            &&& r.max_metadata_bytes == l.max_metadata_bytes
        },
{
    match requested {
        None => ArchiveLimits::default(),
        Some(l) => ArchiveLimits::from(l),
    }
}

/// Packing options as C callers hold them, modes and protections as numbers.
#[derive(Debug, Copy, Clone, PartialEq, Eq, Structural)]
pub struct RasenPackOptions {
    pub chunk_size: usize,
    pub alignment: u32,
    pub mode: u32,
    pub protection: u32,
}

/// The number of a packing mode.
pub open spec fn mode_number(m: PackMode) -> u32 {
    match m {
        PackMode::Debug => PACK_MODE_DEBUG,
        PackMode::Production => PACK_MODE_PRODUCTION,
    }
}

/// The number of a protection.
pub open spec fn protection_number(p: Protection) -> u32 {
    match p {
        Protection::Xor => PROTECTION_XOR,
        Protection::Aead => PROTECTION_AEAD,
    }
}

/// Modes and protections cross to C as distinct numbers that read back as
/// the same mode and protection; options keep their sizes.
pub proof fn lemma_pack_option_numbers(m: PackMode, p: Protection)
    ensures
        mode_of(mode_number(m)) == Some(m),
        protection_of(protection_number(p)) == Some(p),
        mode_number(PackMode::Debug) != mode_number(PackMode::Production),
        protection_number(Protection::Xor) != protection_number(Protection::Aead),
{
}

/// Distinct statuses reach C callers as distinct numbers; success alone is
/// 0, and every library error is 100 or more.
pub proof fn lemma_status_numbers_distinct(a: RasenStatus, b: RasenStatus, e: ErrorView)
    ensures
        a != b ==> status_number(a) != status_number(b),
        (status_number(a) == 0) == (a == RasenStatus::Success),
        status_number(status_of(e)) >= 100,
{
}

impl From<PackOptions> for RasenPackOptions {
    fn from(value: PackOptions) -> (r: Self)
        ensures
            r.chunk_size == value.chunk_size,
            r.alignment == value.alignment,
            mode_of(r.mode) == Some(value.mode),
            protection_of(r.protection) == Some(value.protection),
    {
        RasenPackOptions {
            chunk_size: value.chunk_size,
            alignment: value.alignment,
            mode: match value.mode {
                PackMode::Debug => PACK_MODE_DEBUG,
                PackMode::Production => PACK_MODE_PRODUCTION,
            },
            protection: match value.protection {
                Protection::Xor => PROTECTION_XOR,
                Protection::Aead => PROTECTION_AEAD,
            },
        }
    }
}

impl vstd::std_specs::convert::FromSpecImpl<PackOptions> for RasenPackOptions {
    open spec fn obeys_from_spec() -> bool {
        true
    }

    open spec fn from_spec(v: PackOptions) -> Self {
        RasenPackOptions {
            chunk_size: v.chunk_size,
            alignment: v.alignment,
            mode: mode_number(v.mode),
            protection: protection_number(v.protection),
        }
    }
}

/// The packing mode numbered `n`, if there is one.
pub open spec fn mode_of(n: u32) -> Option<PackMode> {
    if n == PACK_MODE_DEBUG {
        Some(PackMode::Debug)
    } else if n == PACK_MODE_PRODUCTION {
        Some(PackMode::Production)
    } else {
        None
    }
}

/// The protection numbered `n`, if there is one.
pub open spec fn protection_of(n: u32) -> Option<Protection> {
    if n == PROTECTION_XOR {
        Some(Protection::Xor)
    } else if n == PROTECTION_AEAD {
        Some(Protection::Aead)
    } else {
        None
    }
}

/// The options a C caller asked for: the defaults when it passed none; an
/// `InvalidValue` failure naming the number when the mode, and then when the
/// protection, is not one of the known numbers. Sizes are checked later, by
/// the packer.
pub fn pack_options(options: Option<RasenPackOptions>) -> (r: core::result::Result<PackOptions, FfiFailure>)
    ensures
        options is None ==> r == Ok::<PackOptions, FfiFailure>(spec_default_options()),
        options matches Some(o) ==> match (mode_of(o.mode), protection_of(o.protection)) {
            (Some(m), Some(p)) => r == Ok::<PackOptions, FfiFailure>(
                PackOptions { chunk_size: o.chunk_size, alignment: o.alignment, mode: m, protection: p },
            ),
            (None, _) => r matches Err(f) && f.status == RasenStatus::InvalidValue && f.message@
                == labelled_value(seq!['i', 'n', 'v', 'a', 'l', 'i', 'd', ' ', 'p', 'a', 'c', 'k', ' ', 'm', 'o', 'd', 'e'], o.mode),
            (Some(_), None) => r matches Err(f) && f.status == RasenStatus::InvalidValue && f.message@
                == labelled_value(seq!['i', 'n', 'v', 'a', 'l', 'i', 'd', ' ', 'p', 'r', 'o', 't', 'e', 'c', 't', 'i', 'o', 'n'], o.protection),
        },
{
    let options = match options {
        None => return Ok(PackOptions::default()),
        Some(o) => o,
    };
    let mode = if options.mode == PACK_MODE_DEBUG {
        PackMode::Debug
    } else if options.mode == PACK_MODE_PRODUCTION {
        PackMode::Production
    } else {
        let label = ['i', 'n', 'v', 'a', 'l', 'i', 'd', ' ', 'p', 'a', 'c', 'k', ' ', 'm', 'o', 'd', 'e'];
        return Err(failure(RasenStatus::InvalidValue, labelled_message(&label, options.mode)));
    };
    let protection = if options.protection == PROTECTION_XOR {
        Protection::Xor
    } else if options.protection == PROTECTION_AEAD {
        Protection::Aead
    } else {
        let label = ['i', 'n', 'v', 'a', 'l', 'i', 'd', ' ', 'p', 'r', 'o', 't', 'e', 'c', 't', 'i', 'o', 'n'];
        return Err(failure(RasenStatus::InvalidValue, labelled_message(&label, options.protection)));
    };
    Ok(PackOptions { chunk_size: options.chunk_size, alignment: options.alignment, mode, protection })
}

/// What a finished pack wrote, as C callers hold it.
#[derive(Debug, Copy, Clone, PartialEq, Eq, Structural)]
pub struct RasenPackSummary {
    pub archive_len: u64,
    pub entry_count: u32,
    pub chunk_count: u32,
}

impl From<PackSummary> for RasenPackSummary {
    fn from(value: PackSummary) -> (r: Self) {
        RasenPackSummary {
            archive_len: value.archive_len,
            entry_count: value.entry_count,
            chunk_count: value.chunk_count,
        }
    }
}

impl vstd::std_specs::convert::FromSpecImpl<PackSummary> for RasenPackSummary {
    open spec fn obeys_from_spec() -> bool {
        true
    }

    open spec fn from_spec(v: PackSummary) -> Self {
        RasenPackSummary { archive_len: v.archive_len, entry_count: v.entry_count, chunk_count: v.chunk_count }
    }
}

/// Facts about an opened archive, as C callers hold them.
#[derive(Debug, Copy, Clone, PartialEq, Eq, Structural)]
pub struct RasenArchiveInfo {
    pub entry_count: usize,
    pub chunk_size: u32,
    pub alignment: u32,
    pub paths_stripped: u8,
    pub protection: u32,
}

/// The facts C callers are given about `archive`: its entry count, chunk
/// size and alignment, 1 or 0 for stripped paths, and its protection's
/// number.
pub fn archive_info<R: RandomAccessRead>(archive: &Archive<R>) -> (r: RasenArchiveInfo)
    ensures
        r.entry_count == archive@.entries.len(),
        r.chunk_size == archive@.chunk_size,
        r.alignment == archive@.alignment,
        r.paths_stripped == (if archive@.paths_stripped {
            1u8
        } else {
            0u8
        }),
        r.protection == (if archive@.aead_key is Some {
            PROTECTION_AEAD
        } else {
            PROTECTION_XOR
        }),
{
    let entries = archive.entries();
    proof {
        assert(entries@.map_values(|e: crate::toc::Entry| e@).len() == entries@.len());
    }
    RasenArchiveInfo {
        entry_count: entries.len(),
        chunk_size: archive.chunk_size(),
        alignment: archive.alignment(),
        paths_stripped: if archive.paths_stripped() {
            1
        } else {
            0
        },
        protection: match archive.protection() {
            Protection::Xor => PROTECTION_XOR,
            Protection::Aead => PROTECTION_AEAD,
        },
    }
}

/// Read buffers that a C caller owns and passes back to reads.
pub struct RasenScratch {
    pub inner: ArchiveScratch,
}

/// Packs in-memory files into `writer` as
/// [`pack_with_options`](crate::pack_with_options) does, and reports what was
/// written.
pub fn pack_buffered<W: ArchiveWrite>(writer: &mut W, files: &[InputFile], key: &[u8], options: PackOptions) -> (r:
    Result<PackSummary>)
    ensures
        r matches Err(e) && (e@ == ErrorView::NonEmptyDestination || e@ == ErrorView::EmptyXorKey
            || e@ == ErrorView::InvalidChunkSize || e@ == ErrorView::InvalidAlignment) ==> final(writer).written()
            == old(writer).written(),
        key@.len() == 0 ==> (r matches Err(e) && e@ == ErrorView::EmptyXorKey),
        key@.len() > 0 ==> (spec_validate_options(options) matches Err(x) ==> (r matches Err(e) && e == x)),
        r matches Ok(sm) ==> sm.archive_len == final(writer).written().len() && sm.entry_count
            == files@.len() && sm.chunk_count == chunk_total(file_datas(files@), options.chunk_size as nat),
        r is Ok ==> old(writer).written().len() == 0 && is_packing(
            final(writer).written(),
            key@,
            options,
            file_paths(files@),
            file_datas(files@),
        ),
        r matches Err(e) ==> e@ == ErrorView::Io || e@ is TooLarge || e@ is Crypto || (e@
            == ErrorView::EmptyXorKey && key@.len() == 0) || (spec_validate_options(options) matches Err(x)
            && e == x) || (e@ == ErrorView::NonEmptyDestination && old(writer).written().len() > 0)
            || spec_check_files(file_paths(files@), options.mode) == Err::<
            Seq<(Seq<char>, u64)>,
            ErrorView,
        >(e@),
        r matches Err(e) && e@ == ErrorView::Io ==> write_may_fail(*final(writer)),
        r matches Err(e) && e@ is Crypto ==> options.protection == Protection::Aead,
        key@.len() > 0 && spec_validate_options(options) is Ok && options.protection == Protection::Xor && old(
            writer,
        ).in_memory() && old(writer).written().len() == 0 && spec_check_files(file_paths(files@), options.mode)
            is Ok && pack_fits(files@, options) ==> r is Ok,
{
    pack_files(writer, files, key, options)
}

} // verus!
