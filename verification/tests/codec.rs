use shutdown::codec::{FrameBuffer, LineCodec};

fn buffer_from(bytes: &[u8]) -> FrameBuffer {
    let mut buf = FrameBuffer::new();
    buf.push_chunk(bytes);
    buf
}

#[test]
fn test_linecodec_decode() {
    let mut l = LineCodec;
    let mut buf = buffer_from("hello\nworld\n".as_bytes());
    assert_eq!(l.decode(&mut buf), Some("hello".to_owned()));
    assert_eq!(l.decode(&mut buf), Some("world".to_owned()));
    assert_eq!(l.decode(&mut buf), None);

    assert_eq!(l.decode(&mut buffer_from("hell".as_bytes())), None);
    assert_eq!(l.decode(&mut buffer_from("".as_bytes())), None);
}

#[test]
fn test_linecodec_encode() {
    let mut l = LineCodec;
    let mut buf = vec![];
    l.encode("hello".to_owned(), &mut buf);
    assert_eq!(&buf, b"hello\n");
    l.encode("world".to_owned(), &mut buf);
    assert_eq!(&buf, b"hello\nworld\n");
}

#[test]
fn decode_all_drains_oldest_first() {
    let mut l = LineCodec;
    let mut buf = buffer_from(b"hello\nworld\n");
    let msgs = l.decode_all(&mut buf);
    assert_eq!(msgs, vec!["hello".to_owned(), "world".to_owned()]);
    assert_eq!(buf.len(), 0);
    assert_eq!(l.decode(&mut buf), None);
}

#[test]
fn partial_input_yields_nothing_and_only_appends() {
    let mut l = LineCodec;
    let mut buf = buffer_from(b"no delimiter yet");
    assert_eq!(l.decode(&mut buf), None);
    assert_eq!(buf.len(), 16);
    buf.push_chunk(b" more");
    assert_eq!(l.decode(&mut buf), None);
    assert_eq!(buf.len(), 21);
}

#[test]
fn chunked_input_decodes_like_one_shot() {
    let mut l = LineCodec;
    let mut one_shot = buffer_from(b"alpha\nbeta\ngamma");
    let whole = l.decode_all(&mut one_shot);

    let mut incremental = FrameBuffer::new();
    let mut collected: Vec<String> = Vec::new();
    for chunk in [&b"al"[..], b"pha\nbe", b"ta\ngam", b"ma"] {
        incremental.push_chunk(chunk);
        collected.extend(l.decode_all(&mut incremental));
    }
    assert_eq!(collected, whole);
    assert_eq!(incremental.len(), one_shot.len());
}

#[test]
fn malformed_line_is_dropped_and_later_lines_decode() {
    let mut l = LineCodec;
    let mut buf = buffer_from(b"first\n");
    // "sh\xFFutdown\n": well framed, but not decodable text
    buf.push_chunk(&[0x73, 0x68, 0xff, 0x75, 0x74, 0x64, 0x6f, 0x77, 0x6e, 0x0a]);
    buf.push_chunk(b"second\n");
    assert_eq!(l.decode(&mut buf), Some("first".to_owned()));
    // the malformed line is consumed but yields no message
    assert_eq!(l.decode(&mut buf), None);
    assert_eq!(l.decode(&mut buf), Some("second".to_owned()));
    assert_eq!(l.decode(&mut buf), None);
    assert_eq!(buf.len(), 0);
}

#[test]
fn delimiter_as_first_byte_yields_empty_message() {
    let mut l = LineCodec;
    let mut buf = buffer_from(b"\nrest");
    assert_eq!(l.decode(&mut buf), Some(String::new()));
    assert_eq!(l.decode(&mut buf), None);
    assert_eq!(buf.len(), 4);
}

#[test]
fn encode_then_decode_round_trips() {
    let mut l = LineCodec;
    let mut wire: Vec<u8> = Vec::new();
    l.encode("gr\u{00fc}\u{00df}e".to_owned(), &mut wire);
    let mut buf = FrameBuffer::new();
    buf.push_chunk(&wire);
    assert_eq!(l.decode(&mut buf), Some("gr\u{00fc}\u{00df}e".to_owned()));
    assert_eq!(buf.len(), 0);
}
