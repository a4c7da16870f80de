use reda::formats::nbt::{decompression, from_gzip_bytes, to_gzip_bytes, FormatError};

#[test]
fn a_gzip_stream_gives_back_what_went_in() {
    for document in [Vec::new(), vec![0x0a, 0, 0, 0], (0..5000).map(|i| (i % 251) as u8).collect()] {
        let stream = to_gzip_bytes(&document).expect("compresses");
        assert_eq!(&stream[..2], &[0x1f, 0x8b], "a gzip stream begins with its mark");
        assert_ne!(stream, document);
        assert_eq!(from_gzip_bytes(&stream).expect("decompresses"), document);
    }
}

#[test]
fn what_is_no_gzip_stream_is_an_io_error() {
    let refused = from_gzip_bytes(&[1, 2, 3, 4]);
    assert!(matches!(refused, Err(FormatError::Io(_))));
}

#[test]
fn a_stream_that_was_cut_short_is_an_io_error() {
    let stream = to_gzip_bytes(&[7; 100]).expect("compresses");
    assert!(matches!(from_gzip_bytes(&stream[..stream.len() - 4]), Err(FormatError::Io(_))));
}

#[test]
fn what_the_decoder_says_decides() {
    assert_eq!(decompression(Ok(vec![1, 2])).expect("payload"), vec![1, 2]);
    let refused = decompression(Err("corrupt".to_string())).expect_err("refused");
    assert_eq!(refused.message(), "io error: corrupt");
}

#[test]
fn every_format_error_says_what_it_is() {
    assert_eq!(FormatError::Nbt("bad tag".to_string()).message(), "nbt error: bad tag");
    assert_eq!(FormatError::UnsupportedVersion(-3).message(), "unsupported schematic version: -3");
}
