use rasen_archive::{read_header, write_header, Error, Header, HEADER_SIZE, VERSION};

fn sample() -> Header {
    Header {
        version: VERSION,
        flags: 15,
        header_size: 60,
        alignment: 16,
        chunk_size: 65536,
        entry_count: 3,
        chunk_count: 7,
        toc_offset: 4096,
        toc_size: 300,
        toc_raw_size: 512,
        toc_hash: 0x0123_4567_89ab_cdef,
    }
}

#[test]
fn header_round_trips_through_its_sixty_bytes() {
    let h = sample();
    let bytes = write_header(h);
    assert_eq!(bytes.len() as u64, HEADER_SIZE);
    assert_eq!(&bytes[..4], b"RPAK");
    assert_eq!(&bytes[28..36], &4096u64.to_le_bytes());
    assert_eq!(read_header(&bytes).unwrap(), h);
}

#[test]
fn short_or_foreign_header_bytes_are_refused() {
    let bytes = write_header(sample());
    for cut in [0usize, 3, 4, 59] {
        match read_header(&bytes[..cut]) {
            Err(Error::Io(e)) => assert_eq!(e.kind(), std::io::ErrorKind::UnexpectedEof),
            other => panic!("expected an end-of-file error, got {other:?}"),
        }
    }
    let mut foreign = bytes.clone();
    foreign[0] = b'X';
    assert!(matches!(read_header(&foreign), Err(Error::BadMagic)));
    assert!(matches!(read_header(&foreign[..10]), Err(Error::BadMagic)));
}
