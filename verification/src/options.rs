use vstd::prelude::*;

use crate::error::{Error, Result};
use crate::format::{
    spec_validate_alignment, spec_validate_chunk_size, validate_alignment, validate_chunk_size,
    DEFAULT_ALIGNMENT, DEFAULT_CHUNK_SIZE,
};

verus! {

/// Whether packed archives keep entry paths (debug) or only identifiers
/// (production).
#[derive(Debug, Copy, Clone, PartialEq, Eq, Structural)]
pub enum PackMode {
    Debug,
    Production,
}

/// How the table of contents (and, with AEAD, every chunk) is protected.
#[derive(Debug, Copy, Clone, PartialEq, Eq, Structural)]
pub enum Protection {
    Xor,
    Aead,
}

impl Default for PackMode {
    fn default() -> (r: Self)
        ensures
            r == PackMode::Debug,
    {
        PackMode::Debug
    }
}

impl Default for Protection {
    fn default() -> (r: Self)
        ensures
            r == Protection::Xor,
    {
        Protection::Xor
    }
}

impl PackMode {
    /// Whether archives packed in this mode store no paths.
    pub fn strips_paths(self) -> (r: bool)
        ensures
            r == (self == PackMode::Production),
    {
        match self {
            PackMode::Debug => false,
            PackMode::Production => true,
        }
    }

    /// The mode's name: "debug" or "production".
    pub fn as_str(self) -> (r: &'static str)
        ensures
            r == (if self == PackMode::Debug {
                "debug"
            } else {
                "production"
            }),
    {
        match self {
            PackMode::Debug => "debug",
            PackMode::Production => "production",
        }
    }
}

impl Protection {
    /// The protection's name: "xor" or "aead".
    pub fn as_str(self) -> (r: &'static str)
        ensures
            r == (if self == Protection::Xor {
                "xor"
            } else {
                "aead"
            }),
    {
        match self {
            Protection::Xor => "xor",
            Protection::Aead => "aead",
        }
    }
}

/// How to pack an archive.
#[derive(Debug, Copy, Clone, PartialEq, Eq, Structural)]
pub struct PackOptions {
    pub chunk_size: usize,
    pub alignment: u32,
    pub mode: PackMode,
    pub protection: Protection,
}

impl Default for PackOptions {
    fn default() -> (r: Self)
        ensures
            r == spec_default_options(),
    {
        PackOptions {
            chunk_size: DEFAULT_CHUNK_SIZE,
            alignment: DEFAULT_ALIGNMENT,
            mode: PackMode::Debug,
            protection: Protection::Xor,
        }
    }
}

/// 64 KiB chunks, 16-byte alignment, debug mode, XOR protection.
pub open spec fn spec_default_options() -> PackOptions {
    PackOptions {
        chunk_size: DEFAULT_CHUNK_SIZE,
        alignment: DEFAULT_ALIGNMENT,
        mode: PackMode::Debug,
        protection: Protection::Xor,
    }
}

/// Checking options: the chunk size first, then the alignment.
pub open spec fn spec_validate_options(o: PackOptions) -> Result<PackOptions> {
    if spec_validate_chunk_size(o.chunk_size as int) is Err {
        Err(Error::InvalidChunkSize)
    } else if spec_validate_alignment(o.alignment as int) is Err {
        Err(Error::InvalidAlignment)
    } else {
        Ok(o)
    }
}

impl PackOptions {
    /// These options, if their chunk size and alignment are supported.
    pub fn validate(self) -> (r: Result<Self>)
        ensures
            r == spec_validate_options(self),
    {
        match validate_chunk_size(self.chunk_size) {
            Ok(()) => {},
            Err(e) => return Err(e),
        }
        match validate_alignment(self.alignment) {
            Ok(()) => {},
            Err(e) => return Err(e),
        }
        Ok(self)
    }
}

} // verus!
