use bytes::BytesMut;
use line_codec::codec::LinesCodec;

fn feed_str(codec: &mut LinesCodec, buf: &mut BytesMut, chunk: &str) -> Vec<String> {
    let (lines, fault) = codec.feed(buf, chunk.as_bytes());
    assert!(fault.is_none(), "unexpected decode fault");
    lines
}

#[test]
fn new_codec_starts_at_zero() {
    let codec = LinesCodec::new();
    assert_eq!(codec.scan_cursor(), 0);
}

#[test]
fn single_line_decodes() {
    let mut codec = LinesCodec::new();
    let mut buf = BytesMut::new();
    let lines = feed_str(&mut codec, &mut buf, "abc\n");
    assert_eq!(lines, vec!["abc".to_string()]);
    assert!(buf.is_empty());
    assert_eq!(codec.scan_cursor(), 0);
}

#[test]
fn lone_delimiter_is_one_empty_frame() {
    let mut codec = LinesCodec::new();
    let mut buf = BytesMut::new();
    let lines = feed_str(&mut codec, &mut buf, "\n");
    assert_eq!(lines, vec![String::new()]);
    assert!(buf.is_empty());
}

#[test]
fn consecutive_delimiters_give_empty_frames() {
    let mut codec = LinesCodec::new();
    let mut buf = BytesMut::new();
    let lines = feed_str(&mut codec, &mut buf, "a\n\nb\n");
    assert_eq!(lines, vec!["a".to_string(), String::new(), "b".to_string()]);
}

#[test]
fn no_delimiter_stays_buffered() {
    let mut codec = LinesCodec::new();
    let mut buf = BytesMut::new();
    let lines = feed_str(&mut codec, &mut buf, "abc");
    assert!(lines.is_empty());
    assert_eq!(&buf[..], b"abc");
    assert_eq!(codec.scan_cursor(), 3);
    let lines = feed_str(&mut codec, &mut buf, "\n");
    assert_eq!(lines, vec!["abc".to_string()]);
    assert!(buf.is_empty());
}

#[test]
fn cursor_never_rescans_passed_bytes() {
    let mut codec = LinesCodec::new();
    let mut buf = BytesMut::new();
    assert!(feed_str(&mut codec, &mut buf, "ab").is_empty());
    assert_eq!(codec.scan_cursor(), 2);
    assert!(feed_str(&mut codec, &mut buf, "cd").is_empty());
    assert_eq!(codec.scan_cursor(), 4);
    let lines = feed_str(&mut codec, &mut buf, "\n");
    assert_eq!(lines, vec!["abcd".to_string()]);
    assert_eq!(codec.scan_cursor(), 0);
}

#[test]
fn any_split_yields_the_same_frames() {
    let input = "L1\nL2\nL3\n";
    let expected = vec!["L1".to_string(), "L2".to_string(), "L3".to_string()];

    let mut codec = LinesCodec::new();
    let mut buf = BytesMut::new();
    assert_eq!(feed_str(&mut codec, &mut buf, input), expected);
    assert!(buf.is_empty());

    let mut codec = LinesCodec::new();
    let mut buf = BytesMut::new();
    let mut lines: Vec<String> = Vec::new();
    for byte in input.bytes() {
        let (some, fault) = codec.feed(&mut buf, &[byte]);
        assert!(fault.is_none());
        lines.extend(some);
    }
    assert_eq!(lines, expected);
    assert!(buf.is_empty());

    let mut codec = LinesCodec::new();
    let mut buf = BytesMut::new();
    let mut lines = feed_str(&mut codec, &mut buf, "L1\nL2");
    lines.extend(feed_str(&mut codec, &mut buf, "\nL3\n"));
    assert_eq!(lines, expected);
    assert!(buf.is_empty());
}

#[test]
fn encode_writes_line_and_delimiter() {
    let mut codec = LinesCodec::new();
    let mut buf = BytesMut::new();
    codec.encode("ab".to_string(), &mut buf);
    assert_eq!(&buf[..], b"ab\n");
    codec.encode(String::new(), &mut buf);
    assert_eq!(&buf[..], b"ab\n\n");
}

#[test]
fn round_trip_preserves_the_line() {
    let line = "h\u{00e9}llo w\u{00f6}rld \u{2192}";
    let mut codec = LinesCodec::new();
    let mut buf = BytesMut::new();
    codec.encode(line.to_string(), &mut buf);
    let (lines, fault) = codec.decode_all(&mut buf);
    assert!(fault.is_none());
    assert_eq!(lines, vec![line.to_string()]);
    assert!(buf.is_empty());
}

#[test]
fn embedded_delimiter_is_lossy() {
    // encoding performs no escaping: a line holding the delimiter byte
    // does not round-trip, it splits at that byte
    let mut codec = LinesCodec::new();
    let mut buf = BytesMut::new();
    codec.encode("a\nb".to_string(), &mut buf);
    let (lines, fault) = codec.decode_all(&mut buf);
    assert!(fault.is_none());
    assert_eq!(lines, vec!["a".to_string(), "b".to_string()]);
    assert!(buf.is_empty());
}

#[test]
fn invalid_text_is_a_fault_and_stops_the_drain() {
    let mut codec = LinesCodec::new();
    let mut buf = BytesMut::new();
    let mut chunk: Vec<u8> = Vec::new();
    chunk.extend_from_slice(b"ok\n");
    chunk.extend_from_slice(&[0xff, 0xfe]);
    chunk.extend_from_slice(b"\nafter\n");
    let (lines, fault) = codec.feed(&mut buf, &chunk);
    assert_eq!(lines, vec!["ok".to_string()]);
    let fault = fault.expect("invalid text must fault");
    assert_eq!(fault.bytes, vec![0xff, 0xfe]);
    assert_eq!(&buf[..], b"after\n");
}

#[test]
fn unpaired_continuation_byte_faults() {
    let mut codec = LinesCodec::new();
    let mut buf = BytesMut::new();
    let (lines, fault) = codec.feed(&mut buf, &[0x80, b'\n']);
    assert!(lines.is_empty());
    let fault = fault.expect("an unpaired continuation byte must fault");
    assert_eq!(fault.bytes, vec![0x80]);
}

#[test]
fn truncated_multibyte_sequence_faults() {
    // the two-byte encoding of U+00E9 cut after its leading byte
    let mut codec = LinesCodec::new();
    let mut buf = BytesMut::new();
    let (lines, fault) = codec.feed(&mut buf, &[b'a', 0xc3, b'\n']);
    assert!(lines.is_empty());
    let fault = fault.expect("a truncated multi-byte sequence must fault");
    assert_eq!(fault.bytes, vec![b'a', 0xc3]);
}

#[test]
fn connections_do_not_share_state() {
    let mut slow = LinesCodec::new();
    let mut slow_buf = BytesMut::new();
    let mut fast = LinesCodec::new();
    let mut fast_buf = BytesMut::new();

    assert!(feed_str(&mut slow, &mut slow_buf, "a").is_empty());
    let fast_lines = feed_str(&mut fast, &mut fast_buf, "b\n");
    assert_eq!(fast_lines, vec!["b".to_string()]);

    let slow_lines = feed_str(&mut slow, &mut slow_buf, "\n");
    assert_eq!(slow_lines, vec!["a".to_string()]);
}

#[test]
fn partial_reads_dispatch_in_order() {
    let mut codec = LinesCodec::new();
    let mut buf = BytesMut::new();
    assert_eq!(
        feed_str(&mut codec, &mut buf, "hello\n"),
        vec!["hello".to_string()]
    );
    assert!(feed_str(&mut codec, &mut buf, "wor").is_empty());
    assert_eq!(
        feed_str(&mut codec, &mut buf, "ld\n"),
        vec!["world".to_string()]
    );
    assert!(buf.is_empty());
}

#[test]
fn decode_steps_one_frame_at_a_time() {
    let mut codec = LinesCodec::new();
    let mut buf = BytesMut::new();
    buf.extend_from_slice(b"x\ny");
    let first = codec.decode(&mut buf).expect("valid text");
    assert_eq!(first, Some("x".to_string()));
    assert_eq!(&buf[..], b"y");
    let second = codec.decode(&mut buf).expect("valid text");
    assert_eq!(second, None);
    assert_eq!(codec.scan_cursor(), 1);
}
