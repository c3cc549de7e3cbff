use vstd::bytes::*;
use vstd::prelude::*;

use crate::error::{result_view, spec_io_kind, Error, ErrorView, IoKind, Result};
use crate::source::eof_error;

verus! {

/// "RPAK", the first four bytes of every archive.
pub const MAGIC: [u8; 4] = [82u8, 80u8, 65u8, 75u8];

/// "TOC2", the first four bytes of every decoded table of contents.
pub const TOC_MAGIC: [u8; 4] = [84u8, 79u8, 67u8, 50u8];

pub const VERSION: u16 = 1;
pub const HEADER_SIZE: u64 = 60;
pub const DEFAULT_CHUNK_SIZE: usize = 65536;
pub const DEFAULT_ALIGNMENT: u32 = 16;

/// Header flag: the table of contents is LZ4-compressed.
pub const HEADER_FLAG_TOC_LZ4: u16 = 1;
/// Header flag: the table of contents is XOR-obfuscated.
pub const HEADER_FLAG_TOC_XOR: u16 = 2;
/// Header flag: assets are stored as chunks.
pub const HEADER_FLAG_CHUNKED: u16 = 4;
/// Header flag: checksums are XXH3-64.
pub const HEADER_FLAG_XXH3: u16 = 8;
/// Header flag: entries carry no paths, only identifiers.
pub const HEADER_FLAG_PATHS_STRIPPED: u16 = 16;
/// Header flag: the table of contents and the chunks are sealed with
/// XChaCha20-Poly1305.
pub const HEADER_FLAG_AEAD: u16 = 32;
/// Flags every archive carries.
pub const REQUIRED_HEADER_FLAGS: u16 = 13;

/// Chunk flag: the chunk is LZ4-compressed.
pub const CHUNK_FLAG_LZ4: u16 = 1;

pub const MAX_TOC_STORED_SIZE: u64 = 268435456;
pub const MAX_TOC_RAW_SIZE: u64 = 536870912;
pub const MAX_CHUNK_SIZE: usize = 67108864;
pub const MAX_ALIGNMENT: u32 = 1048576;
pub const TOC_ENTRY_FIXED_SIZE: usize = 36;
pub const TOC_CHUNK_FIXED_SIZE: usize = 36;

/// The fixed-size record at the start of every archive.
#[derive(Debug, Copy, Clone, PartialEq, Eq, Structural)]
pub struct Header {
    pub version: u16,
    pub flags: u16,
    pub header_size: u32,
    pub alignment: u32,
    pub chunk_size: u32,
    pub entry_count: u32,
    pub chunk_count: u32,
    pub toc_offset: u64,
    pub toc_size: u64,
    pub toc_raw_size: u64,
    pub toc_hash: u64,
}

/// "RPAK", the first four bytes of every archive.
pub open spec fn spec_magic() -> Seq<u8> {
    seq![82u8, 80, 65, 75]
}

/// "TOC2", the first four bytes of every decoded table of contents.
pub open spec fn spec_toc_magic() -> Seq<u8> {
    seq![84u8, 79, 67, 50]
}

/// The 60 bytes that encode a header: the magic, then every field in
/// declaration order, little-endian.
pub open spec fn spec_header_bytes(h: Header) -> Seq<u8> {
    spec_magic() + spec_u16_to_le_bytes(h.version) + spec_u16_to_le_bytes(h.flags)
        + spec_u32_to_le_bytes(h.header_size) + spec_u32_to_le_bytes(h.alignment)
        + spec_u32_to_le_bytes(h.chunk_size) + spec_u32_to_le_bytes(h.entry_count)
        + spec_u32_to_le_bytes(h.chunk_count) + spec_u64_to_le_bytes(h.toc_offset)
        + spec_u64_to_le_bytes(h.toc_size) + spec_u64_to_le_bytes(h.toc_raw_size)
        + spec_u64_to_le_bytes(h.toc_hash)
}

/// The header that 60 bytes starting with the magic encode.
pub open spec fn spec_header_fields(b: Seq<u8>) -> Header {
    Header {
        version: spec_u16_from_le_bytes(b.subrange(4, 6)),
        flags: spec_u16_from_le_bytes(b.subrange(6, 8)),
        header_size: spec_u32_from_le_bytes(b.subrange(8, 12)),
        alignment: spec_u32_from_le_bytes(b.subrange(12, 16)),
        chunk_size: spec_u32_from_le_bytes(b.subrange(16, 20)),
        entry_count: spec_u32_from_le_bytes(b.subrange(20, 24)),
        chunk_count: spec_u32_from_le_bytes(b.subrange(24, 28)),
        toc_offset: spec_u64_from_le_bytes(b.subrange(28, 36)),
        toc_size: spec_u64_from_le_bytes(b.subrange(36, 44)),
        toc_raw_size: spec_u64_from_le_bytes(b.subrange(44, 52)),
        toc_hash: spec_u64_from_le_bytes(b.subrange(52, 60)),
    }
}

/// Parsing 60 header bytes: `BadMagic` unless they start with the magic.
pub open spec fn spec_parse_header(b: Seq<u8>) -> Result<Header> {
    if b.subrange(0, 4) != spec_magic() {
        Err(Error::BadMagic)
    } else {
        Ok(spec_header_fields(b))
    }
}

/// Whether `x` is a power of two.
pub open spec fn is_power_of_two(x: nat) -> bool
    decreases x,
{
    if x == 0 {
        false
    } else if x == 1 {
        true
    } else {
        x % 2 == 0 && is_power_of_two(x / 2)
    }
}

/// The header flag sets this version reads: the required flags with either
/// XOR or AEAD protection, with or without stripped paths.
pub open spec fn spec_flags_supported(flags: u16) -> bool {
    flags == 15 || flags == 31 || flags == 45 || flags == 61
}

/// Whether a flag set says that entries carry no paths: its stripped-paths
/// bit is set.
pub open spec fn spec_flags_paths_stripped(flags: u16) -> bool {
    flags & HEADER_FLAG_PATHS_STRIPPED != 0
}

/// Whether a flag set says that the archive is sealed with AEAD: its AEAD
/// bit is set.
pub open spec fn spec_flags_aead(flags: u16) -> bool {
    flags & HEADER_FLAG_AEAD != 0
}

/// The stripped-paths and AEAD bits of the supported flag sets.
pub proof fn lemma_supported_flag_bits()
    ensures
        !spec_flags_paths_stripped(15) && !spec_flags_aead(15),
        spec_flags_paths_stripped(31) && !spec_flags_aead(31),
        !spec_flags_paths_stripped(45) && spec_flags_aead(45),
        spec_flags_paths_stripped(61) && spec_flags_aead(61),
{
    assert(15u16 & 16u16 == 0 && 15u16 & 32u16 == 0) by (bit_vector);
    assert(31u16 & 16u16 != 0 && 31u16 & 32u16 == 0) by (bit_vector);
    assert(45u16 & 16u16 == 0 && 45u16 & 32u16 != 0) by (bit_vector);
    assert(61u16 & 16u16 != 0 && 61u16 & 32u16 != 0) by (bit_vector);
}

pub open spec fn spec_validate_chunk_size(chunk_size: int) -> Result<()> {
    if chunk_size == 0 || chunk_size > MAX_CHUNK_SIZE {
        Err(Error::InvalidChunkSize)
    } else {
        Ok(())
    }
}

pub open spec fn spec_validate_alignment(alignment: int) -> Result<()> {
    if alignment == 0 || alignment > MAX_ALIGNMENT || !is_power_of_two(alignment as nat) {
        Err(Error::InvalidAlignment)
    } else {
        Ok(())
    }
}

/// The checks a header passes, in the order they are made.
pub open spec fn spec_validate_header(h: Header) -> Result<()> {
    if h.version != VERSION {
        Err(Error::UnsupportedVersion(h.version))
    } else if h.header_size != HEADER_SIZE {
        Err(Error::UnsupportedHeaderSize(h.header_size))
    } else if !spec_flags_supported(h.flags) {
        Err(Error::UnsupportedFlags(h.flags))
    } else if spec_validate_chunk_size(h.chunk_size as int) is Err {
        spec_validate_chunk_size(h.chunk_size as int)
    } else if spec_validate_alignment(h.alignment as int) is Err {
        spec_validate_alignment(h.alignment as int)
    } else if h.toc_size > MAX_TOC_STORED_SIZE {
        Err(Error::TooLarge("stored TOC"))
    } else if h.toc_raw_size > MAX_TOC_RAW_SIZE {
        Err(Error::TooLarge("raw TOC"))
    } else {
        Ok(())
    }
}

/// The smallest multiple of `alignment` that is at least `value`.
pub open spec fn spec_align_up(value: int, alignment: int) -> int {
    ((value + alignment - 1) / alignment) * alignment
}

/// Chunk sizes accepted by this version: 1 byte to 64 MiB.
pub fn validate_chunk_size(chunk_size: usize) -> (r: Result<()>)
    ensures
        r == spec_validate_chunk_size(chunk_size as int),
{
    if chunk_size == 0 || chunk_size > MAX_CHUNK_SIZE {
        return Err(Error::InvalidChunkSize);
    }
    Ok(())
}

/// Two to the power `k`.
pub open spec fn two_to(k: nat) -> nat
    decreases k,
{
    if k == 0 {
        1
    } else {
        2 * two_to((k - 1) as nat)
    }
}

proof fn lemma_power_of_two_is_two_to(x: nat)
    ensures
        is_power_of_two(x) <==> exists|k: nat| two_to(k) == x,
    decreases x,
{
    if is_power_of_two(x) {
        if x == 1 {
            assert(two_to(0) == 1);
        } else {
            lemma_power_of_two_is_two_to(x / 2);
            let k = choose|k: nat| two_to(k) == x / 2;
            assert(two_to(k + 1) == x);
        }
    }
    if exists|k: nat| two_to(k) == x {
        let k = choose|k: nat| two_to(k) == x;
        lemma_two_to_is_power_of_two(k);
    }
}

proof fn lemma_two_to_is_power_of_two(k: nat)
    ensures
        is_power_of_two(two_to(k)),
        two_to(k) >= 1,
    decreases k,
{
    if k > 0 {
        lemma_two_to_is_power_of_two((k - 1) as nat);
        let x = two_to(k);
        assert(x % 2 == 0 && x / 2 == two_to((k - 1) as nat));
    }
}

/// The alignments accepted are exactly the powers of two from 1 to
/// `MAX_ALIGNMENT`: 1, 2, 4 and so on up to 1 MiB, and nothing else.
pub proof fn lemma_alignments_are_powers_of_two(a: u32)
    ensures
        spec_validate_alignment(a as int) is Ok <==> (0 < a <= MAX_ALIGNMENT && exists|k: nat| two_to(k) == a),
        spec_validate_alignment(a as int) is Err ==> spec_validate_alignment(a as int) == Err::<(), Error>(
            Error::InvalidAlignment,
        ),
{
    if a > 0 {
        lemma_power_of_two_is_two_to(a as nat);
    }
}

/// Alignments accepted by this version: powers of two up to 1 MiB.
pub fn validate_alignment(alignment: u32) -> (r: Result<()>)
    ensures
        r == spec_validate_alignment(alignment as int),
        r is Ok <==> (0 < alignment <= MAX_ALIGNMENT && exists|k: nat| two_to(k) == alignment),
        r is Err ==> r == Err::<(), Error>(Error::InvalidAlignment),
{
    proof {
        lemma_alignments_are_powers_of_two(alignment);
    }
    if alignment == 0 || alignment > MAX_ALIGNMENT {
        return Err(Error::InvalidAlignment);
    }
    let mut v = alignment;
    while v % 2 == 0
        invariant
            v > 0,
            is_power_of_two(v as nat) == is_power_of_two(alignment as nat),
        decreases v,
    {
        v = v / 2;
    }
    if v != 1 {
        return Err(Error::InvalidAlignment);
    }
    Ok(())
}

/// Rounds `value` up to a multiple of `alignment`; `TooLarge` when that does
/// not fit in 64 bits.
pub fn align_up(value: u64, alignment: u64) -> (r: Result<u64>)
    requires
        alignment > 0,
    ensures
        value + alignment - 1 > u64::MAX ==> r == Err::<u64, Error>(Error::TooLarge("aligned offset")),
        value + alignment - 1 <= u64::MAX ==> r == Ok::<u64, Error>(
            spec_align_up(value as int, alignment as int) as u64,
        ),
{
    let mask = alignment - 1;
    if value > u64::MAX - mask {
        return Err(Error::TooLarge("aligned offset"));
    }
    let sum = value + mask;
    let rem = sum % alignment;
    let aligned = sum - rem;
    assert(aligned as int == spec_align_up(value as int, alignment as int)) by (nonlinear_arith)
        requires
            sum as int == value as int + alignment as int - 1,
            rem as int == (sum as int) % (alignment as int),
            aligned as int == sum as int - rem as int,
            alignment > 0,
    ;
    Ok(aligned)
}

/// Appends the little-endian bytes of a `u16`.
pub fn push_u16(out: &mut Vec<u8>, v: u16)
    ensures
        final(out)@ == old(out)@ + spec_u16_to_le_bytes(v),
{
    let b = u16_to_le_bytes(v);
    proof {
        lemma_auto_spec_u16_to_from_le_bytes();
    }
    out.push(b[0]);
    out.push(b[1]);
    assert(final(out)@ =~= old(out)@ + spec_u16_to_le_bytes(v));
}

/// Appends the little-endian bytes of a `u32`.
pub fn push_u32(out: &mut Vec<u8>, v: u32)
    ensures
        final(out)@ == old(out)@ + spec_u32_to_le_bytes(v),
{
    let b = u32_to_le_bytes(v);
    proof {
        lemma_auto_spec_u32_to_from_le_bytes();
    }
    out.push(b[0]);
    out.push(b[1]);
    out.push(b[2]);
    out.push(b[3]);
    assert(final(out)@ =~= old(out)@ + spec_u32_to_le_bytes(v));
}

/// Appends the little-endian bytes of a `u64`.
pub fn push_u64(out: &mut Vec<u8>, v: u64)
    ensures
        final(out)@ == old(out)@ + spec_u64_to_le_bytes(v),
{
    let b = u64_to_le_bytes(v);
    proof {
        lemma_auto_spec_u64_to_from_le_bytes();
    }
    let mut i: usize = 0;
    while i < 8
        invariant
            b@ == spec_u64_to_le_bytes(v),
            b@.len() == 8,
            i <= 8,
            out@ == old(out)@ + b@.take(i as int),
        decreases 8 - i,
    {
        out.push(b[i]);
        i = i + 1;
        assert(out@ =~= old(out)@ + b@.take(i as int));
    }
    assert(b@.take(8) =~= b@);
}

/// The `u16` stored little-endian at `pos`.
pub fn read_u16_at(data: &[u8], pos: usize) -> (r: u16)
    requires
        pos + 2 <= data@.len(),
    ensures
        r == spec_u16_from_le_bytes(data@.subrange(pos as int, pos + 2)),
{
    let _n = data.len();
    u16_from_le_bytes(vstd::slice::slice_subrange(data, pos, pos + 2))
}

/// The `u32` stored little-endian at `pos`.
pub fn read_u32_at(data: &[u8], pos: usize) -> (r: u32)
    requires
        pos + 4 <= data@.len(),
    ensures
        r == spec_u32_from_le_bytes(data@.subrange(pos as int, pos + 4)),
{
    let _n = data.len();
    u32_from_le_bytes(vstd::slice::slice_subrange(data, pos, pos + 4))
}

/// The `u64` stored little-endian at `pos`.
pub fn read_u64_at(data: &[u8], pos: usize) -> (r: u64)
    requires
        pos + 8 <= data@.len(),
    ensures
        r == spec_u64_from_le_bytes(data@.subrange(pos as int, pos + 8)),
{
    let _n = data.len();
    u64_from_le_bytes(vstd::slice::slice_subrange(data, pos, pos + 8))
}

/// Encodes a header into its 60 bytes.
pub fn write_header(h: Header) -> (r: Vec<u8>)
    ensures
        r@ == spec_header_bytes(h),
        r@.len() == HEADER_SIZE,
{
    let mut out: Vec<u8> = Vec::new();
    out.push(82u8);
    out.push(80u8);
    out.push(65u8);
    out.push(75u8);
    assert(out@ =~= spec_magic());
    push_u16(&mut out, h.version);
    push_u16(&mut out, h.flags);
    push_u32(&mut out, h.header_size);
    push_u32(&mut out, h.alignment);
    push_u32(&mut out, h.chunk_size);
    push_u32(&mut out, h.entry_count);
    push_u32(&mut out, h.chunk_count);
    push_u64(&mut out, h.toc_offset);
    push_u64(&mut out, h.toc_size);
    push_u64(&mut out, h.toc_raw_size);
    push_u64(&mut out, h.toc_hash);
    proof {
        lemma_auto_spec_u16_to_from_le_bytes();
        lemma_auto_spec_u32_to_from_le_bytes();
        lemma_auto_spec_u64_to_from_le_bytes();
    }
    out
}

/// Reading a header from `b`, the bytes a stream holds from its start: an
/// end-of-file error when it ends within the magic, `BadMagic` unless the
/// magic is "RPAK", an end-of-file error when it ends within the header,
/// and otherwise the header its first 60 bytes encode.
pub open spec fn spec_read_header(b: Seq<u8>) -> core::result::Result<Header, ErrorView> {
    if b.len() < 4 {
        Err(ErrorView::Io)
    } else if b.subrange(0, 4) != spec_magic() {
        Err(ErrorView::BadMagic)
    } else if b.len() < HEADER_SIZE {
        Err(ErrorView::Io)
    } else {
        Ok(spec_header_fields(b))
    }
}

/// Reads a header from the bytes a stream holds from its start: the magic
/// first, then the rest of the 60 bytes; a stream that ends early gives an
/// end-of-file I/O error.
pub fn read_header(bytes: &[u8]) -> (r: Result<Header>)
    ensures
        result_view(r) == spec_read_header(bytes@),
        r matches Err(Error::Io(e)) ==> spec_io_kind(e) == IoKind::UnexpectedEof,
        bytes@.len() >= HEADER_SIZE ==> r == spec_parse_header(bytes@),
{
    if bytes.len() < 4 {
        return Err(Error::Io(eof_error()));
    }
    if !(bytes[0] == 82u8 && bytes[1] == 80u8 && bytes[2] == 65u8 && bytes[3] == 75u8) {
        proof {
            if bytes@.subrange(0, 4) == spec_magic() {
                assert(bytes@.subrange(0, 4)[0] == bytes@[0]);
                assert(bytes@.subrange(0, 4)[1] == bytes@[1]);
                assert(bytes@.subrange(0, 4)[2] == bytes@[2]);
                assert(bytes@.subrange(0, 4)[3] == bytes@[3]);
            }
        }
        return Err(Error::BadMagic);
    }
    assert(bytes@.subrange(0, 4) =~= spec_magic());
    if bytes.len() < 60 {
        return Err(Error::Io(eof_error()));
    }
    Ok(
        Header {
            version: read_u16_at(bytes, 4),
            flags: read_u16_at(bytes, 6),
            header_size: read_u32_at(bytes, 8),
            alignment: read_u32_at(bytes, 12),
            chunk_size: read_u32_at(bytes, 16),
            entry_count: read_u32_at(bytes, 20),
            chunk_count: read_u32_at(bytes, 24),
            toc_offset: read_u64_at(bytes, 28),
            toc_size: read_u64_at(bytes, 36),
            toc_raw_size: read_u64_at(bytes, 44),
            toc_hash: read_u64_at(bytes, 52),
        },
    )
}

/// Rejects headers this version cannot read: another version or header size,
/// unknown flag sets, invalid chunk size or alignment, oversized TOC.
pub fn validate_header(h: Header) -> (r: Result<()>)
    ensures
        r == spec_validate_header(h),
{
    if h.version != VERSION {
        return Err(Error::UnsupportedVersion(h.version));
    }
    if h.header_size != 60u32 {
        return Err(Error::UnsupportedHeaderSize(h.header_size));
    }
    if !(h.flags == 15 || h.flags == 31 || h.flags == 45 || h.flags == 61) {
        return Err(Error::UnsupportedFlags(h.flags));
    }
    let chunk_size = h.chunk_size as usize;
    validate_chunk_size(chunk_size)?;
    validate_alignment(h.alignment)?;
    if h.toc_size > MAX_TOC_STORED_SIZE {
        return Err(Error::TooLarge("stored TOC"));
    }
    if h.toc_raw_size > MAX_TOC_RAW_SIZE {
        return Err(Error::TooLarge("raw TOC"));
    }
    Ok(())
}

/// Encoding a header and parsing the bytes gives the header back.
pub proof fn lemma_header_roundtrip(h: Header)
    ensures
        spec_header_bytes(h).len() == HEADER_SIZE,
        spec_parse_header(spec_header_bytes(h)) == Ok::<Header, Error>(h),
{
    lemma_auto_spec_u16_to_from_le_bytes();
    lemma_auto_spec_u32_to_from_le_bytes();
    lemma_auto_spec_u64_to_from_le_bytes();
    let b = spec_header_bytes(h);
    assert(b.subrange(0, 4) =~= spec_magic());
    assert(b.subrange(4, 6) =~= spec_u16_to_le_bytes(h.version));
    assert(b.subrange(6, 8) =~= spec_u16_to_le_bytes(h.flags));
    assert(b.subrange(8, 12) =~= spec_u32_to_le_bytes(h.header_size));
    assert(b.subrange(12, 16) =~= spec_u32_to_le_bytes(h.alignment));
    assert(b.subrange(16, 20) =~= spec_u32_to_le_bytes(h.chunk_size));
    assert(b.subrange(20, 24) =~= spec_u32_to_le_bytes(h.entry_count));
    assert(b.subrange(24, 28) =~= spec_u32_to_le_bytes(h.chunk_count));
    assert(b.subrange(28, 36) =~= spec_u64_to_le_bytes(h.toc_offset));
    assert(b.subrange(36, 44) =~= spec_u64_to_le_bytes(h.toc_size));
    assert(b.subrange(44, 52) =~= spec_u64_to_le_bytes(h.toc_raw_size));
    assert(b.subrange(52, 60) =~= spec_u64_to_le_bytes(h.toc_hash));
}

} // verus!
