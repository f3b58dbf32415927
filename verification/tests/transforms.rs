use engine::byte_transform::remove_line_breaks::RemoveLinebreaks;
use engine::byte_transform::wrap_file::WrapFile;
use engine::byte_transform::wrap_lines::WrapLines;
use engine::byte_transform::ByteTransform;

#[test]
fn test_remove_linebreaks_basic() {
    let mut transform = RemoveLinebreaks;
    let input = b"hello\nworld\r\n";
    let output = transform.transform(input, false);
    assert_eq!(output, b"helloworld");
}

#[test]
fn test_remove_linebreaks_empty() {
    let mut transform = RemoveLinebreaks;
    let output = transform.transform(b"", false);
    assert_eq!(output, b"");
}

#[test]
fn test_remove_linebreaks_only_linebreaks() {
    let mut transform = RemoveLinebreaks;
    let output = transform.transform(b"\n\r\n\r", false);
    assert_eq!(output, b"");
}

#[test]
fn test_remove_linebreaks_transform_len() {
    let mut transform = RemoveLinebreaks;
    let input = b"hello\nworld\r\n";
    let len = transform.transform_len(input, false);
    assert_eq!(len, 10); // "helloworld"
}

#[test]
fn test_remove_linebreaks_state() {
    let transform = RemoveLinebreaks;
    let state = transform.state();
    let new_transform = transform.with_state(&state);
    assert_eq!(format!("{:?}", transform), format!("{:?}", new_transform));
}

#[test]
fn test_wrap_file_basic() {
    let mut transform = WrapFile::new(b"<start>", b"<end>");
    let output = transform.transform(b"content", true);
    assert_eq!(output, b"<start>content<end>");
}

#[test]
fn test_wrap_file_chunked() {
    let mut transform = WrapFile::new(b"<start>", b"<end>");
    let output1 = transform.transform(b"hello", false);
    let output2 = transform.transform(b" world", true);

    let mut combined = Vec::new();
    combined.extend_from_slice(&output1);
    combined.extend_from_slice(&output2);

    assert_eq!(combined, b"<start>hello world<end>");
}

#[test]
fn test_wrap_file_empty() {
    let mut transform = WrapFile::new(b"<start>", b"<end>");
    let output = transform.transform(b"", true);
    assert_eq!(output, b"<start><end>");
}

#[test]
fn test_wrap_file_state() {
    let mut transform = WrapFile::new(b"<start>", b"<end>");
    transform.transform(b"hello", false);

    let state = transform.state();
    assert!(state); // Should be true (started)

    let mut new_transform = transform.with_state(&state);
    let output = new_transform.transform(b" world", true);
    assert_eq!(output, b" world<end>");
}

#[test]
fn test_wrap_file_transform_len() {
    let mut transform = WrapFile::new(b"<start>", b"<end>");
    let len = transform.transform_len(b"content", true);
    let output = transform.with_state(&false).transform(b"content", true);
    assert_eq!(len, output.len());
}

#[test]
fn test_wrap_file_multiple_chunks_no_prefix_repeat() {
    let mut transform = WrapFile::new(b"<", b">");
    let output1 = transform.transform(b"a", false);
    let output2 = transform.transform(b"b", false);
    let output3 = transform.transform(b"c", true);

    let mut combined = Vec::new();
    combined.extend_from_slice(&output1);
    combined.extend_from_slice(&output2);
    combined.extend_from_slice(&output3);

    assert_eq!(combined, b"<abc>");
}

#[test]
fn test_wrap_lines_single_line() {
    let mut transform = WrapLines::new(b"[", b"]");
    let output = transform.transform(b"hello\n", false);
    assert_eq!(output, b"[hello]\n");
}

#[test]
fn test_wrap_lines_multiple_lines() {
    let mut transform = WrapLines::new(b"[", b"]");
    let output = transform.transform(b"line1\nline2\n", false);
    assert_eq!(output, b"[line1]\n[line2]\n");
}

#[test]
fn test_wrap_lines_empty_line() {
    let mut transform = WrapLines::new(b"[", b"]");
    let output = transform.transform(b"line1\n\nline2\n", false);
    assert_eq!(output, b"[line1]\n\n[line2]\n");
}

#[test]
fn test_wrap_lines_no_trailing_newline() {
    let mut transform = WrapLines::new(b"[", b"]");
    let output = transform.transform(b"hello", false);
    assert_eq!(output, b"[hello");
}

#[test]
fn test_wrap_lines_no_trailing_newline_last() {
    let mut transform = WrapLines::new(b"[", b"]");
    let output = transform.transform(b"hello", true);
    assert_eq!(output, b"[hello]");
}

#[test]
fn test_wrap_lines_chunked() {
    let mut transform = WrapLines::new(b"[", b"]");
    let output1 = transform.transform(b"hel", false);
    let output2 = transform.transform(b"lo\nwor", false);
    let output3 = transform.transform(b"ld\n", true);

    let mut combined = Vec::new();
    combined.extend_from_slice(&output1);
    combined.extend_from_slice(&output2);
    combined.extend_from_slice(&output3);

    assert_eq!(combined, b"[hello]\n[world]\n");
}

#[test]
fn test_wrap_lines_state_management() {
    let mut transform = WrapLines::new(b"[", b"]");
    transform.transform(b"hello", false);

    let state = transform.state();
    assert!(!state); // Should be false (not at line start)

    let mut new_transform = transform.with_state(&state);
    let output = new_transform.transform(b"\n", false);
    assert_eq!(output, b"]\n");
}

#[test]
fn test_wrap_lines_transform_len() {
    let mut transform = WrapLines::new(b"[", b"]");
    let input = b"hello\nworld\n";
    let len = transform.clone().transform_len(input, false);
    let output = transform.transform(input, false);
    println!("{}", String::from_utf8(output.clone()).unwrap());
    assert_eq!(len, output.len());
}

#[test]
fn test_wrap_lines_consecutive_newlines() {
    let mut transform = WrapLines::new(b"[", b"]");
    let output = transform.transform(b"\n\n\n", false);
    assert_eq!(output, b"\n\n\n");
}

#[test]
fn test_wrap_lines_starts_mid_line() {
    // Start mid-line by restoring a saved not-at-line-start state.
    let mut transform = WrapLines::new(b"[", b"]").with_state(&false);
    let output = transform.transform(b"world\n", false);
    assert_eq!(output, b"world]\n");
}

#[test]
fn test_compose_strip_then_wrap() {
    let mut transform = (RemoveLinebreaks, WrapFile::new(b"<", b">"));
    let output1 = transform.transform(b"ab\n", false);
    let output2 = transform.transform(b"\rcd", true);

    let mut combined = Vec::new();
    combined.extend_from_slice(&output1);
    combined.extend_from_slice(&output2);

    assert_eq!(combined, b"<abcd>");
}
