use bytes::BytesMut;
use gpsdxo::cartain_codec::{remove_carriage_return, to_str, CartainCodec, FramingError};
use gpsdxo::decimal::Decimal;
use gpsdxo::framer::LineFramer;
use gpsdxo::message::CartainMessage;

fn ok(text: &str) -> Result<String, FramingError> {
    Ok(text.to_string())
}

fn reading(text: &str) -> Decimal {
    Decimal::parse(text.as_bytes()).unwrap()
}

#[test]
fn feed_one_line() {
    let mut framer = LineFramer::new();
    assert_eq!(framer.feed(b"# Curr: 80000000\n"), vec![ok("# Curr: 80000000")]);
    assert_eq!(framer.pending_len(), 0);
}

#[test]
fn feed_empty_input() {
    let mut framer = LineFramer::new();
    assert_eq!(framer.feed(b""), vec![]);
    assert_eq!(framer.pending_len(), 0);
    assert_eq!(framer.feed(b"abc"), vec![]);
    assert_eq!(framer.feed(b""), vec![]);
    assert_eq!(framer.pending_len(), 3);
    assert_eq!(framer.feed(b"\n"), vec![ok("abc")]);
}

#[test]
fn feed_newline_first() {
    let mut framer = LineFramer::new();
    assert_eq!(framer.feed(b"\n"), vec![ok("")]);
    assert_eq!(CartainMessage::from_str(""), None);
    assert_eq!(framer.feed(b"\n\nx\n"), vec![ok(""), ok(""), ok("x")]);
    assert_eq!(framer.messages(b"\n"), vec![]);
}

#[test]
fn feed_keeps_the_unfinished_tail() {
    let mut framer = LineFramer::new();
    assert_eq!(framer.feed(b"one\ntwo\nthr"), vec![ok("one"), ok("two")]);
    assert_eq!(framer.pending_len(), 3);
    assert_eq!(framer.feed(b"ee"), vec![]);
    assert_eq!(framer.pending_len(), 5);
    assert_eq!(framer.feed(b"\nfour"), vec![ok("three")]);
    assert_eq!(framer.pending_len(), 4);
    assert_eq!(framer.pending_bytes(), b"four");
}

#[test]
fn feed_many_lines_at_once() {
    let mut framer = LineFramer::new();
    let lines = framer.feed(b"a\nb\r\nc\n\nd\n");
    assert_eq!(lines, vec![ok("a"), ok("b"), ok("c"), ok(""), ok("d")]);
}

#[test]
fn chunking_does_not_change_the_lines() {
    let input: &[u8] = b"# Curr: 80000000\r\n* 0.5 ppb\nnoise\n\n# New DAC1 value 7\npartial";
    let mut whole = LineFramer::new();
    let expected = whole.feed(input);
    assert_eq!(expected.len(), 5);
    for size in 1..input.len() {
        let mut framer = LineFramer::new();
        let mut lines = Vec::new();
        for chunk in input.chunks(size) {
            lines.extend(framer.feed(chunk));
        }
        assert_eq!(lines, expected, "chunk size {}", size);
        assert_eq!(framer.pending_bytes(), b"partial");
        assert_eq!(framer.pending_bytes(), whole.pending_bytes());
    }
}

#[test]
fn chunking_does_not_change_the_messages() {
    let input: &[u8] = b"# Curr: 80000000\r\n* 0.5 ppb\nnoise\n\xff\n# New DAC1 value 7\npartial";
    let mut whole = LineFramer::new();
    let expected = whole.messages(input);
    assert_eq!(
        expected,
        vec![
            CartainMessage::Curr(80000000),
            CartainMessage::Deviation(reading("0.5")),
            CartainMessage::DAC1(7),
        ]
    );
    for size in 1..input.len() {
        let mut framer = LineFramer::new();
        let mut messages = Vec::new();
        for chunk in input.chunks(size) {
            messages.extend(framer.messages(chunk));
        }
        assert_eq!(messages, expected, "chunk size {}", size);
        assert_eq!(framer.pending_len(), 7);
    }
}

#[test]
fn carriage_return_is_dropped() {
    let mut with_cr = LineFramer::new();
    let mut without = LineFramer::new();
    assert_eq!(with_cr.feed(b"# Curr: 5\r\n"), without.feed(b"# Curr: 5\n"));
    assert_eq!(with_cr.feed(b"\r\n"), without.feed(b"\n"));
    assert_eq!(with_cr.pending_len(), without.pending_len());
}

#[test]
fn only_one_carriage_return_is_dropped() {
    let mut framer = LineFramer::new();
    assert_eq!(framer.feed(b"a\r\r\n"), vec![ok("a\r")]);
    assert_eq!(framer.feed(b"a\rb\n"), vec![ok("a\rb")]);
    assert_eq!(framer.feed(b"\r"), vec![]);
    assert_eq!(framer.feed(b"\n"), vec![ok("")]);
}

#[test]
fn invalid_utf8_is_reported_for_its_line_only() {
    let mut framer = LineFramer::new();
    let lines = framer.feed(b"good\n\xff\xfe\nalso good\n");
    assert_eq!(lines, vec![ok("good"), Err(FramingError::InvalidEncoding), ok("also good")]);
    assert_eq!(framer.feed(b"\xc3"), vec![]);
    assert_eq!(framer.feed(b"\xa9\n"), vec![ok("\u{e9}")]);
    assert_eq!(framer.feed(b"\xc3\n\xa9\n"), vec![
        Err(FramingError::InvalidEncoding),
        Err(FramingError::InvalidEncoding),
    ]);
    assert_eq!(framer.feed(b"# Curr: 1\n"), vec![ok("# Curr: 1")]);
}

#[test]
fn two_chunks_split_mid_line() {
    let mut framer = LineFramer::new();
    let mut messages = framer.messages(b"# Curr: 8000");
    assert_eq!(messages, vec![]);
    messages.extend(framer.messages(b"0000\n* 0.5 ppb\n"));
    assert_eq!(
        messages,
        vec![CartainMessage::Curr(80000000), CartainMessage::Deviation(reading("0.5"))]
    );
    assert_eq!(framer.pending_len(), 0);
}

#[test]
fn crlf_line_end_to_end() {
    let mut framer = LineFramer::new();
    let lines = framer.feed(b"# Deviation current: 1.0Hz\r\n");
    assert_eq!(lines, vec![ok("# Deviation current: 1.0Hz")]);
    for line in &lines {
        assert!(!line.as_ref().unwrap().contains('\r'));
    }
    let mut framer = LineFramer::new();
    let messages = framer.messages(b"# Deviation current: 1.0Hz\r\n");
    assert_eq!(messages, vec![CartainMessage::DevCurr(reading("1.0"))]);
    let value: f64 = match &messages[0] {
        CartainMessage::DevCurr(d) => std::str::from_utf8(d.as_bytes()).unwrap().parse().unwrap(),
        other => panic!("unexpected {:?}", other),
    };
    assert_eq!(value, 1.0);
}

#[test]
fn malformed_payload_leaves_the_framer_usable() {
    let mut framer = LineFramer::new();
    assert_eq!(framer.messages(b"# Curr: notanumber\n"), vec![]);
    assert_eq!(framer.pending_len(), 0);
    assert_eq!(framer.messages(b"# Curr: 5\n"), vec![CartainMessage::Curr(5)]);
    let mut framer = LineFramer::new();
    let lines = framer.feed(b"# Curr: notanumber\n");
    assert_eq!(lines, vec![ok("# Curr: notanumber")]);
    assert_eq!(CartainMessage::from_str(lines[0].as_ref().unwrap()), None);
}

#[test]
fn unrecognised_line_gives_no_message() {
    let mut framer = LineFramer::new();
    assert_eq!(framer.messages(b"hello world\n"), vec![]);
    assert_eq!(framer.feed(b"hello world\n"), vec![ok("hello world")]);
}

#[test]
fn long_line_is_framed() {
    let mut framer = LineFramer::new();
    let body = vec![b'x'; 100_000];
    assert_eq!(framer.feed(&body), vec![]);
    assert_eq!(framer.pending_len(), 100_000);
    let lines = framer.feed(b"\n");
    assert_eq!(lines.len(), 1);
    assert_eq!(lines[0].as_ref().unwrap().len(), 100_000);
}

#[test]
fn next_line_steps_through_a_buffer() {
    let mut codec = CartainCodec::new();
    assert_eq!(codec.start_index(), 0);
    let mut buffer = BytesMut::from(&b"ab\r\ncd"[..]);
    assert_eq!(codec.next_line(&mut buffer), Some(ok("ab")));
    assert_eq!(&buffer[..], b"cd");
    assert_eq!(codec.start_index(), 0);
    assert_eq!(codec.next_line(&mut buffer), None);
    assert_eq!(&buffer[..], b"cd");
    assert_eq!(codec.start_index(), 2);
    buffer.extend_from_slice(b"e\n");
    assert_eq!(codec.next_line(&mut buffer), Some(ok("cde")));
    assert_eq!(buffer.len(), 0);
    assert_eq!(codec.start_index(), 0);
    assert_eq!(codec.next_line(&mut buffer), None);
}

#[test]
fn next_line_searches_from_the_resume_index() {
    let mut codec = CartainCodec::new();
    let mut buffer = BytesMut::from(&b"abc"[..]);
    assert_eq!(codec.next_line(&mut buffer), None);
    assert_eq!(codec.start_index(), 3);
    let mut other = BytesMut::from(&b"a\nbcd\nrest"[..]);
    assert_eq!(codec.next_line(&mut other), Some(ok("a\nbcd")));
    assert_eq!(&other[..], b"rest");
}

#[test]
fn decode_one_line_at_a_time() {
    let mut codec = CartainCodec::new();
    let mut buffer = BytesMut::from(&b"# Curr: 80000000\nnoise\n\xff\n# New DAC2 value 9\r\n# Cu"[..]);
    assert_eq!(codec.decode(&mut buffer), Ok(Some(CartainMessage::Curr(80000000))));
    assert_eq!(codec.decode(&mut buffer), Ok(None));
    assert_eq!(codec.start_index(), 0);
    assert_eq!(codec.decode(&mut buffer), Err(FramingError::InvalidEncoding));
    assert_eq!(codec.decode(&mut buffer), Ok(Some(CartainMessage::DAC2(9))));
    assert_eq!(codec.decode(&mut buffer), Ok(None));
    assert_eq!(codec.start_index(), 4);
    assert_eq!(&buffer[..], b"# Cu");
}

#[test]
fn next_message_passes_over_noise() {
    let mut codec = CartainCodec::new();
    let mut buffer = BytesMut::from(&b"noise\n\xff\n\n# Curr: 1\nmore noise\n* 2 ppb\ntail"[..]);
    assert_eq!(codec.next_message(&mut buffer), Some(CartainMessage::Curr(1)));
    assert_eq!(&buffer[..], b"more noise\n* 2 ppb\ntail");
    assert_eq!(codec.next_message(&mut buffer), Some(CartainMessage::Deviation(reading("2"))));
    assert_eq!(codec.next_message(&mut buffer), None);
    assert_eq!(&buffer[..], b"tail");
    assert_eq!(codec.start_index(), 4);
    buffer.extend_from_slice(b"\nnoise\n");
    assert_eq!(codec.next_message(&mut buffer), None);
    assert_eq!(buffer.len(), 0);
    assert_eq!(codec.start_index(), 0);
}

#[test]
fn fits_compares_the_resume_index_with_the_buffer() {
    let mut codec = CartainCodec::new();
    let mut buffer = BytesMut::from(&b"abc"[..]);
    assert!(codec.fits(&buffer));
    assert!(codec.fits(&BytesMut::new()));
    assert_eq!(codec.next_line(&mut buffer), None);
    assert!(codec.fits(&buffer));
    assert!(!codec.fits(&BytesMut::from(&b"ab"[..])));
    assert!(codec.fits(&BytesMut::from(&b"abcd"[..])));
}

#[test]
fn framing_error_describes_itself() {
    assert_eq!(FramingError::InvalidEncoding.description(), "Failed to decode input as UTF8");
}

#[test]
fn remove_carriage_return_examples() {
    assert_eq!(remove_carriage_return(b"abc\r"), b"abc");
    assert_eq!(remove_carriage_return(b"abc"), b"abc");
    assert_eq!(remove_carriage_return(b"\r"), b"");
    assert_eq!(remove_carriage_return(b""), b"");
    assert_eq!(remove_carriage_return(b"a\r\r"), b"a\r");
    assert_eq!(remove_carriage_return(b"\rabc"), b"\rabc");
}

#[test]
fn to_str_examples() {
    assert_eq!(to_str(b"hello"), Ok("hello"));
    assert_eq!(to_str(b""), Ok(""));
    assert_eq!(to_str("gr\u{fc}n".as_bytes()), Ok("gr\u{fc}n"));
    assert_eq!(to_str(b"\xff"), Err(FramingError::InvalidEncoding));
    assert_eq!(to_str(b"ab\xc3"), Err(FramingError::InvalidEncoding));
    assert_eq!(to_str(b"\xed\xa0\x80"), Err(FramingError::InvalidEncoding));
    assert_eq!(to_str(b"\xc0\x80"), Err(FramingError::InvalidEncoding));
}

fn drain_in_chunks(
    input: &[u8],
    size: usize,
) -> (Vec<Result<Option<CartainMessage>, FramingError>>, BytesMut) {
    let mut codec = CartainCodec::new();
    let mut buffer = BytesMut::new();
    let mut results = Vec::new();
    for chunk in input.chunks(size) {
        buffer.extend_from_slice(chunk);
        results.extend(codec.decode_all(&mut buffer));
        assert!(!codec.has_line(&buffer));
        assert_eq!(codec.start_index(), buffer.len());
        buffer.extend_from_slice(b"");
        assert_eq!(codec.decode_all(&mut buffer), vec![]);
    }
    (results, buffer)
}

#[test]
fn has_line_looks_from_the_resume_index() {
    let mut codec = CartainCodec::new();
    assert!(!codec.has_line(&BytesMut::new()));
    assert!(!codec.has_line(&BytesMut::from(&b"abc"[..])));
    assert!(codec.has_line(&BytesMut::from(&b"abc\n"[..])));
    assert!(codec.has_line(&BytesMut::from(&b"\n"[..])));
    let mut buffer = BytesMut::from(&b"ab"[..]);
    assert_eq!(codec.decode(&mut buffer), Ok(None));
    assert!(!codec.has_line(&buffer));
    assert!(!codec.has_line(&BytesMut::from(&b"a\nb"[..])));
    buffer.extend_from_slice(b"c\n");
    assert!(codec.has_line(&buffer));
}

#[test]
fn decode_all_returns_one_result_for_each_line() {
    let mut codec = CartainCodec::new();
    let mut buffer = BytesMut::from(&b"# Curr: 80000000\r\nnoise\n\xff\n* 0.5 ppb\n# Cu"[..]);
    assert_eq!(
        codec.decode_all(&mut buffer),
        vec![
            Ok(Some(CartainMessage::Curr(80000000))),
            Ok(None),
            Err(FramingError::InvalidEncoding),
            Ok(Some(CartainMessage::Deviation(reading("0.5")))),
        ]
    );
    assert_eq!(&buffer[..], b"# Cu");
    assert_eq!(codec.start_index(), 4);
    assert_eq!(codec.decode(&mut buffer), Ok(None));
    assert_eq!(codec.decode_all(&mut buffer), vec![]);
    buffer.extend_from_slice(b"rr: 7\n");
    assert_eq!(codec.decode_all(&mut buffer), vec![Ok(Some(CartainMessage::Curr(7)))]);
    assert_eq!(buffer.len(), 0);
    assert_eq!(codec.start_index(), 0);
}

#[test]
fn chunking_does_not_change_what_decode_returns() {
    let input: &[u8] =
        b"# Curr: 80000000\r\n* 0.5 ppb\nnoise\n\xff\n\n# New DAC1 value 7\npartial";
    let (expected, rest) = drain_in_chunks(input, input.len());
    assert_eq!(
        expected,
        vec![
            Ok(Some(CartainMessage::Curr(80000000))),
            Ok(Some(CartainMessage::Deviation(reading("0.5")))),
            Ok(None),
            Err(FramingError::InvalidEncoding),
            Ok(None),
            Ok(Some(CartainMessage::DAC1(7))),
        ]
    );
    assert_eq!(&rest[..], b"partial");
    for size in 1..input.len() {
        let (results, buffer) = drain_in_chunks(input, size);
        assert_eq!(results, expected, "chunk size {}", size);
        assert_eq!(&buffer[..], b"partial");
    }
}
