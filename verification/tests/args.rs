use rasen_archive::args::{parse_mode, parse_pack_options, take_key, ArgError, PackArgs};
use rasen_archive::{PackMode, PackOptions, Protection, DEFAULT_ALIGNMENT, DEFAULT_CHUNK_SIZE};

fn strings(items: &[&str]) -> Vec<String> {
    items.iter().map(|item| item.to_string()).collect()
}

#[test]
fn key_options_are_taken_out_and_the_last_wins() {
    let mut args = strings(&["list", "--key", "first", "a.rpak", "--key=second"]);
    assert_eq!(take_key(&mut args, None).unwrap(), "second");
    assert_eq!(args, strings(&["list", "a.rpak"]));

    let mut args = strings(&["list", "a.rpak"]);
    assert_eq!(
        take_key(&mut args, Some("from-env".into())).unwrap(),
        "from-env"
    );
    assert_eq!(args, strings(&["list", "a.rpak"]));

    let mut args = strings(&["list", "a.rpak"]);
    assert_eq!(take_key(&mut args, None).unwrap(), "example-key");

    let mut args = strings(&["--key", "--key", "x"]);
    assert_eq!(take_key(&mut args, None).unwrap(), "--key");
    assert_eq!(args, strings(&["x"]));

    let mut args = strings(&["list", "a.rpak", "--key"]);
    assert!(matches!(
        take_key(&mut args, Some("env".into())),
        Err(ArgError::Invalid(message)) if message == "--key requires a value"
    ));
}

#[test]
fn modes_are_read_by_name() {
    assert_eq!(parse_mode("debug").unwrap(), PackMode::Debug);
    assert_eq!(parse_mode("production").unwrap(), PackMode::Production);
    assert_eq!(parse_mode("prod").unwrap(), PackMode::Production);
    assert!(matches!(
        parse_mode("Debug"),
        Err(ArgError::Invalid(message))
            if message == "invalid pack mode 'Debug', expected debug or production"
    ));
}

#[test]
fn pack_options_follow_flags_and_positional_numbers() {
    assert_eq!(parse_pack_options(&[]).unwrap(), PackOptions::default());

    let options =
        parse_pack_options(&strings(&["256", "--production", "4096", "--debug", "--prod"]))
            .unwrap();
    assert_eq!(options.mode, PackMode::Production);
    assert_eq!(options.chunk_size, 256 * 1024);
    assert_eq!(options.alignment, 4096);
    assert_eq!(options.protection, PackOptions::default().protection);

    let options = parse_pack_options(&strings(&["--mode", "prod", "+8"])).unwrap();
    assert_eq!(options.mode, PackMode::Production);
    assert_eq!(options.chunk_size, 8 * 1024);
    assert_eq!(options.alignment, PackOptions::default().alignment);

    let options = parse_pack_options(&strings(&["--mode=debug"])).unwrap();
    assert_eq!(options.mode, PackMode::Debug);
}

#[test]
fn bad_pack_options_are_refused() {
    assert!(matches!(
        parse_pack_options(&strings(&["--fast"])),
        Err(ArgError::Invalid(message)) if message == "unknown pack option: --fast"
    ));
    assert!(matches!(
        parse_pack_options(&strings(&["--mode"])),
        Err(ArgError::Invalid(message)) if message == "--mode requires a value"
    ));
    assert!(matches!(
        parse_pack_options(&strings(&["--mode=fast"])),
        Err(ArgError::Invalid(message))
            if message == "invalid pack mode 'fast', expected debug or production"
    ));
    assert!(matches!(
        parse_pack_options(&strings(&["1", "2", "3"])),
        Err(ArgError::Invalid(message)) if message == "too many positional pack arguments"
    ));
    assert!(matches!(
        parse_pack_options(&strings(&["12x"])),
        Err(ArgError::Number)
    ));
    assert!(matches!(
        parse_pack_options(&strings(&["16", "4294967296"])),
        Err(ArgError::Number)
    ));
    let overflow = (usize::MAX / 1024 + 1).to_string();
    assert!(matches!(
        parse_pack_options(&strings(&[overflow.as_str()])),
        Err(ArgError::Invalid(message)) if message == "chunk size overflow"
    ));
}

#[test]
fn clap_parses_pack_options() {
    // The values that `pack input archive.rpak --mode=production
    // --protection=aead --chunk-kib=256 --alignment=4096` parses to.
    let args = PackArgs {
        input_dir: "input".into(),
        archive: "archive.rpak".into(),
        mode: PackMode::Production,
        protection: Protection::Aead,
        chunk_kib: Some(256),
        alignment: Some(4096),
    };
    let options = args.options().unwrap();
    assert_eq!(options.mode, PackMode::Production);
    assert_eq!(options.protection, Protection::Aead);
    assert_eq!(options.chunk_size, 256 * 1024);
    assert_eq!(options.alignment, 4096);
}

#[test]
fn pack_args_default_and_overflowing_chunk_sizes() {
    let mut args = PackArgs {
        input_dir: "input".into(),
        archive: "archive.rpak".into(),
        mode: PackMode::Debug,
        protection: Protection::Xor,
        chunk_kib: None,
        alignment: None,
    };
    let options = args.options().unwrap();
    assert_eq!(options.chunk_size, DEFAULT_CHUNK_SIZE);
    assert_eq!(options.alignment, DEFAULT_ALIGNMENT);
    assert_eq!(options.mode, PackMode::Debug);
    args.chunk_kib = Some(usize::MAX / 1024 + 1);
    let error = args.options().unwrap_err();
    assert_eq!(error.kind(), std::io::ErrorKind::InvalidInput);
    assert_eq!(error.to_string(), "chunk size overflow");
}
