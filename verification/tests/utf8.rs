use engine::byte_transform::utf8_encoder::Utf8Encoder;
use engine::byte_transform::ByteTransform;

#[test]
fn test_utf8_encoder_ascii() {
    let mut encoder = Utf8Encoder::new(b"utf-8").unwrap();
    let output = encoder.transform(b"hello", true);
    assert_eq!(output, b"hello");
}

#[test]
fn test_utf8_encoder_latin1() {
    let mut encoder = Utf8Encoder::new(b"windows-1252").unwrap();
    // 0xE9 is 'é' in Windows-1252
    let output = encoder.transform(&[0xE9], true);
    assert_eq!(output, "é".as_bytes());
}

#[test]
fn test_utf8_encoder_chunked() {
    let mut encoder = Utf8Encoder::new(b"utf-8").unwrap();
    let output1 = encoder.transform(b"hel", false);
    let output2 = encoder.transform(b"lo", true);

    let mut combined = Vec::new();
    combined.extend_from_slice(&output1);
    combined.extend_from_slice(&output2);

    assert_eq!(combined, b"hello");
}

#[test]
fn test_utf8_encoder_split_multibyte() {
    // An incomplete UTF-8 sequence at a slice boundary is buffered and
    // decoded together with the next slice.
    let mut encoder = Utf8Encoder::new(b"utf-8").unwrap();
    let output1 = encoder.transform(&[0x68, 0xC3], false);
    let output2 = encoder.transform(&[0xA9], true);

    assert_eq!(output1, b"h");
    let mut combined = Vec::new();
    combined.extend_from_slice(&output1);
    combined.extend_from_slice(&output2);
    assert_eq!(combined, "hé".as_bytes());
}

#[test]
fn test_utf8_encoder_unknown_label() {
    assert!(Utf8Encoder::new(b"no-such-encoding").is_none());
}

#[test]
fn test_utf8_encoder_state_restores_buffer() {
    let mut encoder = Utf8Encoder::new(b"utf-8").unwrap();
    encoder.transform(&[0xC3], false);
    let state = encoder.state();
    assert_eq!(state, vec![0xC3]);

    let mut resumed = encoder.with_state(&state);
    let output = resumed.transform(&[0xA9], true);
    assert_eq!(output, "é".as_bytes());
}

#[test]
fn test_utf8_convert() {
    let output = Utf8Encoder::convert(b"windows-1252", &[0xE9, 0x21]).unwrap();
    assert_eq!(output, "é!".as_bytes());
    assert!(Utf8Encoder::convert(b"no-such-encoding", b"x").is_none());
}

#[test]
fn test_utf8_encoder_malformed_replaced_at_end() {
    // A dangling lead byte at the very end of the stream is replaced per
    // the decoder's replacement policy when the stream is marked last.
    let mut encoder = Utf8Encoder::new(b"utf-8").unwrap();
    let output = encoder.transform(&[0x61, 0xC3], true);
    assert_eq!(output, "a\u{FFFD}".as_bytes());
}
