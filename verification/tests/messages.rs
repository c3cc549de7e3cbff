use rasen_archive::Error;

#[test]
fn error_messages_name_their_values() {
    assert_eq!(Error::BadMagic.message(), "not a RPAK archive");
    assert_eq!(
        Error::UnsupportedFlags(0x20).message(),
        "unsupported flags: 0x0020"
    );
    assert_eq!(
        Error::UnsupportedVersion(2).message(),
        "unsupported RPAK version 2"
    );
    assert_eq!(
        Error::HashCollision(0xab).message(),
        "ambiguous asset hash collision: 00000000000000ab"
    );
    assert_eq!(
        Error::ChecksumMismatch {
            path: "a.bin".into(),
            chunk: 13
        }
        .message(),
        "checksum mismatch: a.bin, chunk 13"
    );
    assert_eq!(
        Error::BufferSizeMismatch {
            expected: 100,
            actual: 99
        }
        .message(),
        "destination holds 99 bytes, 100 are needed"
    );
    assert_eq!(
        Error::Corrupt("truncated TOC").message(),
        "corrupt archive: truncated TOC"
    );
    assert_eq!(
        Error::NotFound("x/y".into()).message(),
        "entry not found: x/y"
    );
    assert_eq!(
        Error::Io(std::io::Error::other("disk gone")).message(),
        "I/O error: disk gone"
    );
}
