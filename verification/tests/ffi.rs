use std::io::Cursor;

use rasen_archive::ffi::{
    archive_info, core_status, failure, limits, pack_buffered, pack_options, RasenArchiveLimits,
    RasenPackOptions, RasenPackSummary, RasenStatus, ABI_VERSION, PACK_MODE_PRODUCTION,
    PROTECTION_AEAD, PROTECTION_XOR,
};
use rasen_archive::{
    Archive, ArchiveLimits, Error, InputFile, PackMode, PackOptions, Protection,
};

#[test]
fn status_codes_match_the_c_header() {
    assert_eq!(ABI_VERSION, 1);
    assert_eq!(RasenStatus::Success.code(), 0);
    assert_eq!(RasenStatus::NullPointer.code(), 1);
    assert_eq!(RasenStatus::Panic.code(), 6);
    assert_eq!(RasenStatus::Io.code(), 100);
    assert_eq!(RasenStatus::EmptyKey.code(), 106);
    assert_eq!(RasenStatus::ChecksumMismatch.code(), 127);
}

#[test]
fn library_errors_map_to_statuses_of_the_same_name() {
    assert_eq!(core_status(&Error::EmptyXorKey), RasenStatus::EmptyKey);
    assert_eq!(core_status(&Error::InvalidRange), RasenStatus::InvalidRange);
    assert_eq!(
        core_status(&Error::Io(std::io::Error::other("x"))),
        RasenStatus::Io
    );
    assert_eq!(
        core_status(&Error::ChecksumMismatch {
            path: "a".into(),
            chunk: 3
        }),
        RasenStatus::ChecksumMismatch
    );
    assert_eq!(
        core_status(&Error::Corrupt("truncated TOC")),
        RasenStatus::Corrupt
    );
    let f = failure(RasenStatus::OutOfRange, "entry index out of range: 4".into());
    assert_eq!(f.status, RasenStatus::OutOfRange);
    assert_eq!(f.message, "entry index out of range: 4");
}

#[test]
fn pack_options_decode_numbers_and_name_bad_ones() {
    assert_eq!(pack_options(None).unwrap(), PackOptions::default());
    let options = pack_options(Some(RasenPackOptions {
        chunk_size: 4096,
        alignment: 64,
        mode: PACK_MODE_PRODUCTION,
        protection: PROTECTION_AEAD,
    }))
    .unwrap();
    assert_eq!(options.chunk_size, 4096);
    assert_eq!(options.alignment, 64);
    assert_eq!(options.mode, PackMode::Production);
    assert_eq!(options.protection, Protection::Aead);

    let bad_mode = pack_options(Some(RasenPackOptions {
        chunk_size: 4096,
        alignment: 64,
        mode: 7,
        protection: 9,
    }))
    .unwrap_err();
    assert_eq!(bad_mode.status, RasenStatus::InvalidValue);
    assert_eq!(bad_mode.message, "invalid pack mode: 7");

    let bad_protection = pack_options(Some(RasenPackOptions {
        chunk_size: 4096,
        alignment: 64,
        mode: 0,
        protection: 4_000_000_000,
    }))
    .unwrap_err();
    assert_eq!(bad_protection.status, RasenStatus::InvalidValue);
    assert_eq!(bad_protection.message, "invalid protection: 4000000000");

    let round = RasenPackOptions::from(PackOptions::default());
    assert_eq!(round.mode, 0);
    assert_eq!(round.protection, PROTECTION_XOR);
    assert_eq!(pack_options(Some(round)).unwrap(), PackOptions::default());
}

#[test]
fn limits_convert_both_ways() {
    assert_eq!(limits(None), ArchiveLimits::runtime_default());
    let c = RasenArchiveLimits::from(ArchiveLimits::tooling_default());
    assert_eq!(c.max_entries, ArchiveLimits::HARD_MAX_ENTRIES);
    assert_eq!(limits(Some(c)), ArchiveLimits::tooling_default());
    assert_eq!(
        ArchiveLimits::from(RasenArchiveLimits {
            max_entries: 5,
            ..c
        })
        .max_entries,
        5
    );
}

#[test]
fn buffered_pack_reports_its_summary_and_archive_facts() {
    let files = vec![
        InputFile {
            path: "a.bin".into(),
            data: vec![1; 100],
        },
        InputFile {
            path: "b/c.bin".into(),
            data: Vec::new(),
        },
    ];
    let mut out = Cursor::new(Vec::new());
    let options = PackOptions {
        chunk_size: 32,
        alignment: 64,
        ..PackOptions::default()
    };
    let summary = pack_buffered(&mut out, &files, b"key", options).unwrap();
    let bytes = out.into_inner();
    let c = RasenPackSummary::from(summary);
    assert_eq!(c.archive_len, bytes.len() as u64);
    assert_eq!(c.entry_count, 2);
    assert_eq!(c.chunk_count, 4);

    let archive = Archive::open(bytes.as_slice(), b"key").unwrap();
    let info = archive_info(&archive);
    assert_eq!(info.entry_count, 2);
    assert_eq!(info.chunk_size, 32);
    assert_eq!(info.alignment, 64);
    assert_eq!(info.paths_stripped, 0);
    assert_eq!(info.protection, PROTECTION_XOR);
    assert_eq!(archive.read("a.bin").unwrap(), files[0].data);
}
