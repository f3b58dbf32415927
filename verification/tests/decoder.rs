use engine::byte_transform::chunked::ChunkedDecoderBuilder;
use engine::byte_transform::remove_line_breaks::RemoveLinebreaks;
use engine::byte_transform::utf8_encoder::Utf8Encoder;
use engine::byte_transform::wrap_file::WrapFile;
use engine::byte_transform::wrap_lines::WrapLines;
use engine::byte_transform::Decoder;
use engine::file::{FileSource, TransformedFileSource};
use engine::utils::chunk_ranges;

/// Builds a decoder by feeding `source` in `chunk_size`-byte slices.
fn build_decoder<T: engine::byte_transform::ByteTransform>(
    transform: T,
    source: &[u8],
    chunk_size: u64,
) -> impl Decoder {
    let mut builder = ChunkedDecoderBuilder::new_with_state(transform);
    for (a, b, last) in chunk_ranges(source.len() as u64, chunk_size) {
        builder.feed(&source[a as usize..b as usize], last);
    }
    builder.build()
}

#[test]
fn test_chunk_ranges_partition() {
    let ranges = chunk_ranges(10, 3);
    assert_eq!(ranges, vec![(0, 3, false), (3, 6, false), (6, 9, false), (9, 10, true)]);
}

#[test]
fn test_chunk_ranges_exact_multiple() {
    let ranges = chunk_ranges(6, 3);
    assert_eq!(ranges, vec![(0, 3, false), (3, 6, true)]);
}

#[test]
fn test_chunk_ranges_empty() {
    assert!(chunk_ranges(0, 3).is_empty());
}

#[test]
fn test_builder_default_seed() {
    let mut builder: ChunkedDecoderBuilder<RemoveLinebreaks> = ChunkedDecoderBuilder::new();
    builder.feed(b"a\nb", true);
    let decoder = builder.build();
    assert_eq!(decoder.output_size(), 2);
    assert_eq!(decoder.decode_range(b"a\nb", 0, 0..2), b"ab");
}

#[test]
fn test_decoder_strip_linebreaks_full_range() {
    let source = b"hello\nworld\r\n";
    let decoder = build_decoder(RemoveLinebreaks, source, 4);
    assert_eq!(decoder.output_size(), 10);
    let out = decoder.decode_range(source, 0, 0..10);
    assert_eq!(out, b"helloworld");
}

#[test]
fn test_decoder_wrap_file_middle_range() {
    // Affixes lie outside the requested range and are clipped away.
    let source = b"abcdefghij";
    let decoder = build_decoder(WrapFile::new(b"<", b">"), source, 3);
    assert_eq!(decoder.output_size(), 12);
    let range = decoder.calc_input_range(4..9);
    let out = decoder.decode_range(&source[range.start as usize..range.end as usize], range.start, 4..9);
    assert_eq!(out, b"defgh");
}

#[test]
fn test_decoder_range_straddling_end_includes_suffix() {
    // A range covering the end of the output picks up the suffix the
    // transform emits on the final chunk.
    let source = b"abcdefghij";
    let decoder = build_decoder(WrapFile::new(b"<", b">"), source, 3);
    let out = decoder.decode_range(source, 0, 9..12);
    assert_eq!(out, b"ij>");
}

#[test]
fn test_decoder_empty_source() {
    let decoder = build_decoder(WrapFile::new(b"<", b">"), b"", 3);
    assert_eq!(decoder.output_size(), 0);
    let out = decoder.decode_range(b"", 0, 0..10);
    assert_eq!(out, b"");
    let range = decoder.calc_input_range(0..10);
    assert_eq!((range.start, range.end), (0, 0));
}

#[test]
fn test_decoder_start_past_output_size() {
    let source = b"hello";
    let decoder = build_decoder(RemoveLinebreaks, source, 2);
    let out = decoder.decode_range(source, 0, 7..9);
    assert_eq!(out, b"");
    let range = decoder.calc_input_range(7..9);
    assert_eq!((range.start, range.end), (0, 0));
}

#[test]
fn test_decoder_end_clamped_to_output_size() {
    let source = b"hello";
    let decoder = build_decoder(RemoveLinebreaks, source, 2);
    let out = decoder.decode_range(source, 0, 3..100);
    assert_eq!(out, b"lo");
}

#[test]
fn test_decoder_wrap_lines_replay() {
    let source = b"line1\n\nline2\n";
    let decoder = build_decoder(WrapLines::new(b"[", b"]"), source, 4);
    let full = decoder.decode_range(source, 0, 0..decoder.output_size());
    assert_eq!(full, b"[line1]\n\n[line2]\n");
    // Replay from the middle only.
    let range = decoder.calc_input_range(3..9);
    let out = decoder.decode_range(&source[range.start as usize..range.end as usize], range.start, 3..9);
    assert_eq!(&full[3..9], &out[..]);
}

#[test]
fn test_decoder_utf8_sequence_split_across_chunks() {
    // An incomplete two-byte sequence split across build slices decodes
    // identically to the un-split input.
    let mut source = Vec::new();
    source.extend_from_slice(b"abc");
    source.extend_from_slice("é".as_bytes());
    source.extend_from_slice(b"def");
    // Chunk size 4 splits the two-byte sequence at offset 3..5.
    let decoder = build_decoder(Utf8Encoder::new(b"utf-8").unwrap(), &source, 4);
    let out = decoder.decode_range(&source, 0, 0..decoder.output_size());
    assert_eq!(out, source);

    let mut one_pass = Utf8Encoder::new(b"utf-8").unwrap();
    let expected = engine::byte_transform::ByteTransform::transform(&mut one_pass, &source, true);
    assert_eq!(out, expected);
}

#[test]
fn test_transformed_file_source_read() {
    let file: Vec<u8> = b"hello\nworld\r\n".to_vec();
    let source = TransformedFileSource::new(file, RemoveLinebreaks);
    assert_eq!(source.size(), 10);
    assert_eq!(source.read(0..10), b"helloworld");
    assert_eq!(source.read(2..7), b"llowo");
}

#[test]
fn test_transformed_file_source_reencodes() {
    // A windows-1252 source byte comes out as its two-byte UTF-8 form.
    let file: Vec<u8> = vec![0x61, 0xE9, 0x62];
    let source = TransformedFileSource::new(file, Utf8Encoder::new(b"windows-1252").unwrap());
    assert_eq!(source.size(), 4);
    assert_eq!(source.read(0..4), "a\u{e9}b".as_bytes());
    assert_eq!(source.read(1..3), "\u{e9}".as_bytes());
}

#[test]
fn test_transformed_file_source_stacked() {
    // Stacking decoded views: strip line breaks, then wrap the whole file.
    let file: Vec<u8> = b"ab\ncd\n".to_vec();
    let stripped = TransformedFileSource::new(file, RemoveLinebreaks);
    let wrapped = TransformedFileSource::new(stripped, WrapFile::new(b"<", b">"));
    assert_eq!(wrapped.size(), 6);
    assert_eq!(wrapped.read(0..6), b"<abcd>");
    assert_eq!(wrapped.read(1..5), b"abcd");
}
