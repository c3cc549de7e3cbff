use rasen_archive::{
    hash_path, normalize_path, sort_virtual_paths, AssetId, Error, MAX_PATH_LEN, MAX_PATH_SEGMENTS,
};

#[test]
fn normalization_rules_and_length_apply_to_result() {
    for invalid in ["", ".", "././", "..", "a/../b", "/a", "\\a", "a\0b"] {
        assert!(matches!(normalize_path(invalid), Err(Error::InvalidPath)));
    }

    assert_eq!(normalize_path("a//b///c").unwrap(), "a/b/c");
    assert_eq!(normalize_path("./a/./b/.").unwrap(), "a/b");
    assert_eq!(normalize_path("a\\b\\c").unwrap(), "a/b/c");

    let maximum = "a".repeat(MAX_PATH_LEN);
    assert_eq!(normalize_path(&maximum).unwrap(), maximum);
    assert!(matches!(
        normalize_path(&"a".repeat(MAX_PATH_LEN + 1)),
        Err(Error::InvalidPath)
    ));

    let oversized_input = format!("{}asset", "./".repeat(MAX_PATH_LEN));
    assert!(matches!(
        normalize_path(&oversized_input),
        Err(Error::InvalidPath)
    ));

    let too_many_segments = format!("{}/asset", "./".repeat(MAX_PATH_SEGMENTS));
    assert!(matches!(
        normalize_path(&too_many_segments),
        Err(Error::InvalidPath)
    ));
    let too_many_separators = format!("asset{}", "/".repeat(MAX_PATH_SEGMENTS));
    assert!(matches!(
        normalize_path(&too_many_separators),
        Err(Error::InvalidPath)
    ));
}

#[test]
fn normalization_is_idempotent() {
    for path in ["a", "a//b", "./a/b/.", "a\\b", "a/b/c"] {
        let normalized = normalize_path(path).unwrap();
        assert_eq!(normalize_path(&normalized).unwrap(), normalized);
    }
}

#[test]
fn normalization_keeps_unicode_segments() {
    assert_eq!(normalize_path("été//ü\\x").unwrap(), "été/ü/x");
    assert_eq!(normalize_path("a/.b/..c").unwrap(), "a/.b/..c");
}

#[test]
fn hash_path_is_xxh3_of_the_normalized_path() {
    assert_eq!(
        hash_path("textures\\hero.txt").unwrap(),
        xxhash_rust::xxh3::xxh3_64(b"textures/hero.txt")
    );
    assert_eq!(
        hash_path("./a//b").unwrap(),
        xxhash_rust::xxh3::xxh3_64(b"a/b")
    );
    assert!(matches!(hash_path("../x"), Err(Error::InvalidPath)));
}

#[test]
fn asset_ids_convert_to_and_from_integers() {
    let id = AssetId::from_path("a/b").unwrap();
    assert_eq!(id.get(), hash_path("a/b").unwrap());
    assert_eq!(AssetId::from_raw(7).get(), 7);
    assert_eq!(u64::from(AssetId::from(9u64)), 9);
    assert!(matches!(AssetId::from_path(""), Err(Error::InvalidPath)));
}

#[test]
fn virtual_paths_sort_by_their_utf8_bytes() {
    let mut paths: Vec<String> = vec![
        "b/a.txt".into(),
        "a/z.txt".into(),
        "Z.txt".into(),
        "a.txt".into(),
        "a/z.txt".into(),
        "\u{e9}.txt".into(),
        "a".into(),
    ];
    sort_virtual_paths(&mut paths);
    assert_eq!(
        paths,
        vec!["Z.txt", "a", "a.txt", "a/z.txt", "a/z.txt", "b/a.txt", "\u{e9}.txt"]
    );
    let mut empty: Vec<String> = Vec::new();
    sort_virtual_paths(&mut empty);
    assert!(empty.is_empty());
}
