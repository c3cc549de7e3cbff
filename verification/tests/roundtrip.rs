use std::io::Cursor;

use rasen_archive::{
    hash_path, pack_with_options, Archive, Error, InputFile, PackMode, PackOptions, Protection,
};

#[test]
fn roundtrip_roundtrip_chunked_random_access_and_range() {
    let key = b"key-1234";
    let files = vec![
        InputFile {
            path: "textures/hero.txt".into(),
            data: vec![b'A'; 180_000],
        },
        InputFile {
            path: "audio/raw.bin".into(),
            data: (0..=255).cycle().take(90_000).collect(),
        },
        InputFile {
            path: "empty.bin".into(),
            data: Vec::new(),
        },
    ];

    let mut out = Cursor::new(Vec::new());
    pack_with_options(
        &mut out,
        &files,
        key,
        PackOptions {
            chunk_size: 32 * 1024,
            alignment: 64,
            ..PackOptions::default()
        },
    )
    .unwrap();

    out.set_position(0);
    let archive = Archive::open(out, key).unwrap();
    assert_eq!(archive.chunk_size(), 32 * 1024);
    assert_eq!(archive.alignment(), 64);
    assert_eq!(archive.read("textures/hero.txt").unwrap(), files[0].data);
    assert_eq!(archive.read("audio/raw.bin").unwrap(), files[1].data);
    assert_eq!(archive.read("empty.bin").unwrap(), Vec::<u8>::new());
    assert!(archive.contains("textures\\hero.txt"));

    let range = archive.read_range("audio/raw.bin", 31_900, 3_000).unwrap();
    assert_eq!(range, files[1].data[31_900..34_900]);

    let chunk = archive.read_chunk("textures/hero.txt", 2).unwrap();
    assert_eq!(chunk, files[0].data[65_536..98_304]);
}

#[test]
fn production_mode_strips_paths_and_keeps_hash_lookup() {
    let key = b"prod-key";
    let files = vec![
        InputFile {
            path: "textures/player.dds".into(),
            data: vec![7; 8_192],
        },
        InputFile {
            path: "audio/theme.ogg".into(),
            data: vec![3; 4_096],
        },
    ];

    let mut out = Cursor::new(Vec::new());
    pack_with_options(
        &mut out,
        &files,
        key,
        PackOptions {
            mode: PackMode::Production,
            ..PackOptions::default()
        },
    )
    .unwrap();

    out.set_position(0);
    let archive = Archive::open(out, key).unwrap();
    assert!(archive.paths_stripped());
    assert!(archive.entries().iter().all(|entry| entry.path().is_none()));
    assert_eq!(archive.read("textures/player.dds").unwrap(), files[0].data);

    let asset_id = hash_path("audio/theme.ogg").unwrap();
    assert_eq!(archive.read_by_hash(asset_id).unwrap(), files[1].data);
}

#[test]
fn debug_mode_keeps_paths() {
    let key = b"debug-key";
    let files = vec![InputFile {
        path: "textures/player.dds".into(),
        data: b"debug asset".to_vec(),
    }];

    let mut out = Cursor::new(Vec::new());
    pack_with_options(&mut out, &files, key, PackOptions::default()).unwrap();
    out.set_position(0);

    let archive = Archive::open(out, key).unwrap();
    assert!(!archive.paths_stripped());
    assert_eq!(archive.entries()[0].path, "textures/player.dds");
}

#[test]
fn aead_authenticates_toc_and_chunks() {
    let key = b"correct horse battery staple";
    let mut seed = 0x1234_5678_9abc_def0u64;
    let noise = (0..4096)
        .map(|_| {
            seed ^= seed << 13;
            seed ^= seed >> 7;
            seed ^= seed << 17;
            seed as u8
        })
        .collect();
    let files = vec![
        InputFile {
            path: "secure.bin".into(),
            data: vec![b'A'; 4096],
        },
        InputFile {
            path: "noise.bin".into(),
            data: noise,
        },
    ];
    let options = PackOptions {
        chunk_size: 1024,
        protection: Protection::Aead,
        ..PackOptions::default()
    };
    let mut output = Cursor::new(Vec::new());
    pack_with_options(&mut output, &files, key, options).unwrap();
    let bytes = output.into_inner();

    let archive = Archive::open(Cursor::new(bytes.clone()), key).unwrap();
    assert_eq!(archive.protection(), Protection::Aead);
    assert_eq!(archive.read("secure.bin").unwrap(), files[0].data);
    assert_eq!(archive.read("noise.bin").unwrap(), files[1].data);
    assert!(matches!(
        Archive::open(Cursor::new(bytes.clone()), b"wrong key"),
        Err(Error::Crypto("authentication failed"))
    ));

    let toc_offset = u64::from_le_bytes(bytes[28..36].try_into().unwrap()) as usize;
    let mut bad_toc = bytes.clone();
    bad_toc[toc_offset + 24] ^= 1;
    assert!(matches!(
        Archive::open(Cursor::new(bad_toc), key),
        Err(Error::Crypto("authentication failed"))
    ));

    let chunk_offset = usize::try_from(rasen_archive::HEADER_SIZE.next_multiple_of(16)).unwrap();
    let mut bad_chunk = bytes;
    bad_chunk[chunk_offset + 24] ^= 1;
    let archive = Archive::open(Cursor::new(bad_chunk), key).unwrap();
    assert!(matches!(
        archive.read("secure.bin"),
        Err(Error::Crypto("authentication failed"))
    ));
}

#[test]
fn aead_archives_of_the_same_input_differ_but_read_the_same() {
    let files = vec![InputFile {
        path: "a.bin".into(),
        data: b"sealed twice".to_vec(),
    }];
    let options = PackOptions {
        protection: Protection::Aead,
        ..PackOptions::default()
    };
    let mut first = Cursor::new(Vec::new());
    let mut second = Cursor::new(Vec::new());
    pack_with_options(&mut first, &files, b"key", options).unwrap();
    pack_with_options(&mut second, &files, b"key", options).unwrap();
    let first = first.into_inner();
    let second = second.into_inner();
    assert_ne!(first, second);
    for bytes in [first, second] {
        let archive = Archive::open(bytes.as_slice(), b"key").unwrap();
        assert_eq!(archive.read("a.bin").unwrap(), files[0].data);
    }
}

#[test]
fn empty_key_is_refused() {
    let mut out = Cursor::new(Vec::new());
    assert!(matches!(
        pack_with_options(&mut out, &[], b"", PackOptions::default()),
        Err(Error::EmptyXorKey)
    ));
    let mut out = Cursor::new(Vec::new());
    pack_with_options(&mut out, &[], b"key", PackOptions::default()).unwrap();
    assert!(matches!(
        Archive::open(out.into_inner().as_slice(), b""),
        Err(Error::EmptyXorKey)
    ));
}

#[test]
fn invalid_pack_options_are_refused() {
    let mut out = Cursor::new(Vec::new());
    assert!(matches!(
        pack_with_options(
            &mut out,
            &[],
            b"key",
            PackOptions {
                chunk_size: 0,
                ..PackOptions::default()
            }
        ),
        Err(Error::InvalidChunkSize)
    ));
    assert!(matches!(
        pack_with_options(
            &mut out,
            &[],
            b"key",
            PackOptions {
                alignment: 3,
                ..PackOptions::default()
            }
        ),
        Err(Error::InvalidAlignment)
    ));
}

#[test]
fn duplicate_and_invalid_input_paths_are_refused() {
    let same = vec![
        InputFile {
            path: "a/b.bin".into(),
            data: vec![1],
        },
        InputFile {
            path: "a\\b.bin".into(),
            data: vec![2],
        },
    ];
    let mut out = Cursor::new(Vec::new());
    assert!(matches!(
        pack_with_options(&mut out, &same, b"key", PackOptions::default()),
        Err(Error::DuplicatePath(path)) if path == "a/b.bin"
    ));

    let invalid = vec![InputFile {
        path: "../escape".into(),
        data: vec![1],
    }];
    let mut out = Cursor::new(Vec::new());
    assert!(matches!(
        pack_with_options(&mut out, &invalid, b"key", PackOptions::default()),
        Err(Error::InvalidPath)
    ));
}

#[test]
fn lookups_of_missing_assets_report_not_found() {
    let files = vec![InputFile {
        path: "present.bin".into(),
        data: vec![5; 10],
    }];
    let mut out = Cursor::new(Vec::new());
    pack_with_options(&mut out, &files, b"key", PackOptions::default()).unwrap();
    let bytes = out.into_inner();
    let archive = Archive::open(bytes.as_slice(), b"key").unwrap();
    assert!(matches!(
        archive.read("absent.bin"),
        Err(Error::NotFound(path)) if path == "absent.bin"
    ));
    assert!(!archive.contains("absent.bin"));
    assert!(archive.contains("./present.bin"));
    assert!(matches!(archive.read("/absolute"), Err(Error::InvalidPath)));
    assert!(archive.verify().is_ok());
}

#[test]
fn xor_packing_is_deterministic() {
    let files = vec![
        InputFile {
            path: "b.bin".into(),
            data: (0..5000u32).map(|v| (v % 7) as u8).collect(),
        },
        InputFile {
            path: "a.bin".into(),
            data: b"second file".to_vec(),
        },
    ];
    let options = PackOptions {
        chunk_size: 1024,
        alignment: 32,
        ..PackOptions::default()
    };
    let mut first = Cursor::new(Vec::new());
    let mut second = Cursor::new(Vec::new());
    pack_with_options(&mut first, &files, b"custom-key", options).unwrap();
    pack_with_options(&mut second, &files, b"custom-key", options).unwrap();
    assert_eq!(first.into_inner(), second.into_inner());
}

#[test]
fn chunks_are_aligned_and_padding_is_zero() {
    let files = vec![InputFile {
        path: "a.bin".into(),
        data: (0..3000u32).map(|v| (v * 31 % 251) as u8).collect(),
    }];
    let options = PackOptions {
        chunk_size: 1000,
        alignment: 256,
        ..PackOptions::default()
    };
    let mut out = Cursor::new(Vec::new());
    pack_with_options(&mut out, &files, b"key", options).unwrap();
    let bytes = out.into_inner();
    // The first chunk starts at the first multiple of 256 after the header,
    // and the padding before it is zero.
    assert!(bytes[60..256].iter().all(|&b| b == 0));
    let toc_offset = u64::from_le_bytes(bytes[28..36].try_into().unwrap()) as usize;
    assert_eq!(toc_offset % 256, 0);
    let archive = Archive::open(bytes.as_slice(), b"key").unwrap();
    assert_eq!(archive.read("a.bin").unwrap(), files[0].data);
}

#[test]
fn packed_files_open_as_their_entries() {
    let files = vec![
        InputFile {
            path: "./sounds//boom.ogg".into(),
            data: vec![7; 70],
        },
        InputFile {
            path: "maps/a.bin".into(),
            data: Vec::new(),
        },
    ];
    for mode in [PackMode::Debug, PackMode::Production] {
        let mut out = Cursor::new(Vec::new());
        let options = PackOptions {
            chunk_size: 32,
            mode,
            ..PackOptions::default()
        };
        pack_with_options(&mut out, &files, b"key", options).unwrap();
        let archive = Archive::open(out.into_inner(), b"key").unwrap();
        let entries = archive.entries();
        assert_eq!(entries.len(), 2);
        assert_eq!(archive.paths_stripped(), mode == PackMode::Production);
        let expected = [("sounds/boom.ogg", 70u64, 3u32), ("maps/a.bin", 0, 0)];
        for (entry, (path, size, chunks)) in entries.iter().zip(expected) {
            assert_eq!(entry.original_size, size);
            assert_eq!(entry.chunk_count, chunks);
            assert_eq!(entry.path_hash, hash_path(path).unwrap());
            let shown = if mode == PackMode::Production { "" } else { path };
            assert_eq!(entry.path, shown);
        }
    }
}
