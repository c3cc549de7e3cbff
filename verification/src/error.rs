use vstd::prelude::*;

use crate::path::string_from_chars;
use crate::text::{decimal, hex_digits, push_decimal, push_hex, push_text};

verus! {

#[verifier::external_type_specification]
#[verifier::external_body]
pub struct ExIoError(std::io::Error);

/// The kinds of I/O error that the library's own errors carry.
pub enum IoKind {
    UnexpectedEof,
    InvalidInput,
}

/// The kind that `std::io::Error::kind` reports of an I/O error that the
/// library built.
pub uninterp spec fn spec_io_kind(e: std::io::Error) -> IoKind;

/// Every failure the library reports.
#[derive(Debug)]
pub enum Error {
    Io(std::io::Error),
    BadMagic,
    BadTocMagic,
    UnsupportedVersion(u16),
    UnsupportedFlags(u16),
    UnsupportedHeaderSize(u32),
    EmptyXorKey,
    Crypto(&'static str),
    IncompletePack,
    NonEmptyDestination,
    InvalidPath,
    InvalidChunkSize,
    InvalidAlignment,
    InvalidRange,
    BufferSizeMismatch { expected: usize, actual: usize },
    ChunkOutOfRange { chunk: u32, count: u32 },
    DuplicatePath(String),
    AssetTooLarge,
    ArchiveTooLarge,
    TooManyEntries,
    TooManyChunks,
    MetadataLimitExceeded,
    Corrupt(&'static str),
    TooLarge(&'static str),
    Lz4(String),
    NotFound(String),
    HashCollision(u64),
    ChecksumMismatch { path: String, chunk: u32 },
}

pub type Result<T> = core::result::Result<T, Error>;

/// The value of an [`Error`]: strings as characters, I/O errors without
/// their details.
pub enum ErrorView {
    Io,
    BadMagic,
    BadTocMagic,
    UnsupportedVersion(u16),
    UnsupportedFlags(u16),
    UnsupportedHeaderSize(u32),
    EmptyXorKey,
    Crypto(&'static str),
    IncompletePack,
    NonEmptyDestination,
    InvalidPath,
    InvalidChunkSize,
    InvalidAlignment,
    InvalidRange,
    BufferSizeMismatch { expected: usize, actual: usize },
    ChunkOutOfRange { chunk: u32, count: u32 },
    DuplicatePath(Seq<char>),
    AssetTooLarge,
    ArchiveTooLarge,
    TooManyEntries,
    TooManyChunks,
    MetadataLimitExceeded,
    Corrupt(&'static str),
    TooLarge(&'static str),
    Lz4,
    NotFound(Seq<char>),
    HashCollision(u64),
    ChecksumMismatch { path: Seq<char>, chunk: u32 },
}

impl View for Error {
    type V = ErrorView;

    open spec fn view(&self) -> ErrorView {
        match self {
            Error::Io(_) => ErrorView::Io,
            Error::BadMagic => ErrorView::BadMagic,
            Error::BadTocMagic => ErrorView::BadTocMagic,
            Error::UnsupportedVersion(v) => ErrorView::UnsupportedVersion(*v),
            Error::UnsupportedFlags(v) => ErrorView::UnsupportedFlags(*v),
            Error::UnsupportedHeaderSize(v) => ErrorView::UnsupportedHeaderSize(*v),
            Error::EmptyXorKey => ErrorView::EmptyXorKey,
            Error::Crypto(s) => ErrorView::Crypto(*s),
            Error::IncompletePack => ErrorView::IncompletePack,
            Error::NonEmptyDestination => ErrorView::NonEmptyDestination,
            Error::InvalidPath => ErrorView::InvalidPath,
            Error::InvalidChunkSize => ErrorView::InvalidChunkSize,
            Error::InvalidAlignment => ErrorView::InvalidAlignment,
            Error::InvalidRange => ErrorView::InvalidRange,
            Error::BufferSizeMismatch { expected, actual } => ErrorView::BufferSizeMismatch {
                expected: *expected,
                actual: *actual,
            },
            Error::ChunkOutOfRange { chunk, count } => ErrorView::ChunkOutOfRange {
                chunk: *chunk,
                count: *count,
            },
            Error::DuplicatePath(p) => ErrorView::DuplicatePath(p@),
            Error::AssetTooLarge => ErrorView::AssetTooLarge,
            Error::ArchiveTooLarge => ErrorView::ArchiveTooLarge,
            Error::TooManyEntries => ErrorView::TooManyEntries,
            Error::TooManyChunks => ErrorView::TooManyChunks,
            Error::MetadataLimitExceeded => ErrorView::MetadataLimitExceeded,
            Error::Corrupt(s) => ErrorView::Corrupt(*s),
            Error::TooLarge(s) => ErrorView::TooLarge(*s),
            Error::Lz4(_) => ErrorView::Lz4,
            Error::NotFound(p) => ErrorView::NotFound(p@),
            Error::HashCollision(h) => ErrorView::HashCollision(*h),
            Error::ChecksumMismatch { path, chunk } => ErrorView::ChecksumMismatch {
                path: path@,
                chunk: *chunk,
            },
        }
    }
}

/// The value of a result whose error is an [`Error`].
pub open spec fn result_view<T>(r: Result<T>) -> core::result::Result<T, ErrorView> {
    match r {
        Ok(v) => Ok(v),
        Err(e) => Err(e@),
    }
}

/// Calls `std::io::Error`'s `to_string`. Nothing is claimed of the text: it
/// comes from the operating system or from whoever made the error.
#[verifier::external_body]
fn io_error_text(e: &std::io::Error) -> String {
    e.to_string()
}

/// The message of an error other than an I/O error.
pub open spec fn error_text(e: Error) -> Seq<char> {
    match e {
        Error::Io(_) => "I/O error: "@,
        Error::BadMagic => "not a RPAK archive"@,
        Error::BadTocMagic => "invalid TOC magic (wrong XOR key or corrupt archive)"@,
        Error::UnsupportedVersion(v) => "unsupported RPAK version "@ + decimal(v as nat),
        Error::UnsupportedFlags(v) => "unsupported flags: 0x"@ + hex_digits(v as u64, 4),
        Error::UnsupportedHeaderSize(v) => "unsupported header size "@ + decimal(v as nat),
        Error::EmptyXorKey => "XOR key must not be empty"@,
        Error::Crypto(s) => "cryptographic error: "@ + s@,
        Error::IncompletePack => "the pack was abandoned after an earlier error"@,
        Error::NonEmptyDestination => "the archive destination is not empty"@,
        Error::InvalidPath => "invalid archive path"@,
        Error::InvalidChunkSize => "chunk size must be in 1..=64 MiB"@,
        Error::InvalidAlignment => "alignment must be a power of two in 1..=1 MiB"@,
        Error::InvalidRange => "requested range is outside the asset"@,
        Error::BufferSizeMismatch { expected, actual } => "destination holds "@ + decimal(actual as nat)
            + " bytes, "@ + decimal(expected as nat) + " are needed"@,
        Error::ChunkOutOfRange { chunk, count } => "chunk "@ + decimal(chunk as nat)
            + " is out of range for an asset of "@ + decimal(count as nat) + " chunks"@,
        Error::DuplicatePath(p) => "duplicate archive path: "@ + p@,
        Error::AssetTooLarge => "asset exceeds the single asset size limit"@,
        Error::ArchiveTooLarge => "archive exceeds the total decompressed size limit"@,
        Error::TooManyEntries => "archive exceeds the entry limit"@,
        Error::TooManyChunks => "archive or operation exceeds the chunk limit"@,
        Error::MetadataLimitExceeded => "archive metadata exceeds its limit"@,
        Error::Corrupt(s) => "corrupt archive: "@ + s@,
        Error::TooLarge(s) => "value too large: "@ + s@,
        Error::Lz4(s) => "LZ4 error: "@ + s@,
        Error::NotFound(p) => "entry not found: "@ + p@,
        Error::HashCollision(h) => "ambiguous asset hash collision: "@ + hex_digits(h, 16),
        Error::ChecksumMismatch { path, chunk } => "checksum mismatch: "@ + path@ + ", chunk "@ + decimal(
            chunk as nat,
        ),
    }
}

impl Error {
    /// The message shown for this error; for an I/O error, `I/O error: `
    /// and the error's own text.
    pub fn message(&self) -> (r: String)
        ensures
            !(self is Io) ==> r@ == error_text(*self),
            self is Io ==> exists|t: Seq<char>| r@ == error_text(*self) + t,
    {
        let mut out: Vec<char> = Vec::new();
        match self {
            Error::Io(e) => {
                push_text(&mut out, "I/O error: ");
                let t = io_error_text(e);
                push_text(&mut out, t.as_str());
            },
            Error::BadMagic => push_text(&mut out, "not a RPAK archive"),
            Error::BadTocMagic => push_text(&mut out, "invalid TOC magic (wrong XOR key or corrupt archive)"),
            Error::UnsupportedVersion(v) => {
                push_text(&mut out, "unsupported RPAK version ");
                push_decimal(&mut out, *v as u64);
            },
            Error::UnsupportedFlags(v) => {
                push_text(&mut out, "unsupported flags: 0x");
                push_hex(&mut out, *v as u64, 4);
            },
            Error::UnsupportedHeaderSize(v) => {
                push_text(&mut out, "unsupported header size ");
                push_decimal(&mut out, *v as u64);
            },
            Error::EmptyXorKey => push_text(&mut out, "XOR key must not be empty"),
            Error::Crypto(s) => {
                push_text(&mut out, "cryptographic error: ");
                push_text(&mut out, s);
            },
            Error::IncompletePack => push_text(&mut out, "the pack was abandoned after an earlier error"),
            Error::NonEmptyDestination => push_text(&mut out, "the archive destination is not empty"),
            Error::InvalidPath => push_text(&mut out, "invalid archive path"),
            Error::InvalidChunkSize => push_text(&mut out, "chunk size must be in 1..=64 MiB"),
            Error::InvalidAlignment => push_text(&mut out, "alignment must be a power of two in 1..=1 MiB"),
            Error::InvalidRange => push_text(&mut out, "requested range is outside the asset"),
            Error::BufferSizeMismatch { expected, actual } => {
                push_text(&mut out, "destination holds ");
                push_decimal(&mut out, *actual as u64);
                push_text(&mut out, " bytes, ");
                push_decimal(&mut out, *expected as u64);
                push_text(&mut out, " are needed");
            },
            Error::ChunkOutOfRange { chunk, count } => {
                push_text(&mut out, "chunk ");
                push_decimal(&mut out, *chunk as u64);
                push_text(&mut out, " is out of range for an asset of ");
                push_decimal(&mut out, *count as u64);
                push_text(&mut out, " chunks");
            },
            Error::DuplicatePath(p) => {
                push_text(&mut out, "duplicate archive path: ");
                push_text(&mut out, p.as_str());
            },
            Error::AssetTooLarge => push_text(&mut out, "asset exceeds the single asset size limit"),
            Error::ArchiveTooLarge => push_text(&mut out, "archive exceeds the total decompressed size limit"),
            Error::TooManyEntries => push_text(&mut out, "archive exceeds the entry limit"),
            Error::TooManyChunks => push_text(&mut out, "archive or operation exceeds the chunk limit"),
            Error::MetadataLimitExceeded => push_text(&mut out, "archive metadata exceeds its limit"),
            Error::Corrupt(s) => {
                push_text(&mut out, "corrupt archive: ");
                push_text(&mut out, s);
            },
            Error::TooLarge(s) => {
                push_text(&mut out, "value too large: ");
                push_text(&mut out, s);
            },
            Error::Lz4(s) => {
                push_text(&mut out, "LZ4 error: ");
                push_text(&mut out, s.as_str());
            },
            Error::NotFound(p) => {
                push_text(&mut out, "entry not found: ");
                push_text(&mut out, p.as_str());
            },
            Error::HashCollision(h) => {
                push_text(&mut out, "ambiguous asset hash collision: ");
                push_hex(&mut out, *h, 16);
            },
            Error::ChecksumMismatch { path, chunk } => {
                push_text(&mut out, "checksum mismatch: ");
                push_text(&mut out, path.as_str());
                push_text(&mut out, ", chunk ");
                push_decimal(&mut out, *chunk as u64);
            },
        }
        proof {
            assert(Seq::<char>::empty() + error_text(*self) =~= error_text(*self));
        }
        string_from_chars(out.as_slice())
    }
}

} // verus!
