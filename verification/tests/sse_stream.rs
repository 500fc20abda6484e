use ghosty_tui::search::find_subslice;
use ghosty_tui::sse::{frame_of_members, Frame, SseDecoder};

fn token(s: &str) -> Frame {
    Frame::Token(s.to_string())
}

#[test]
fn finds_first_blank_line() {
    assert_eq!(find_subslice(b"ab\n\ncd\n\n", b"\n\n"), Some(2));
    assert_eq!(find_subslice(b"\n\n", b"\n\n"), Some(0));
    assert_eq!(find_subslice(b"a\nb\n", b"\n\n"), None);
    assert_eq!(find_subslice(b"", b"\n\n"), None);
    assert_eq!(find_subslice(b"\n", b"\n\n"), None);
    assert_eq!(find_subslice(b"xxabcabc", b"abc"), Some(2));
}

#[test]
fn tokens_then_done() {
    let mut d = SseDecoder::new();
    let frames = d.feed(
        b"data: {\"type\":\"token\",\"value\":\"Hola\"}\n\ndata: {\"type\":\"chunk\",\"value\":\" mundo\"}\n\ndata: {\"type\":\"done\"}\n\n",
    );
    assert_eq!(frames, vec![token("Hola"), token(" mundo"), Frame::Done]);
    assert!(d.is_finished());
    assert_eq!(d.feed(b"data: {\"type\":\"token\",\"value\":\"late\"}\n\n"), vec![]);
    assert_eq!(d.end_of_stream(), None);
}

#[test]
fn byte_by_byte_gives_the_same_frames() {
    let stream: &[u8] = "data: {\"type\":\"token\",\"value\":\"ñandú\"}\n\nevent: ping\n\ndata: {\"type\":\"token\",\"value\":\"!\"}\n\ndata: {\"type\":\"done\"}\n\n".as_bytes();
    let mut whole = SseDecoder::new();
    let expected = whole.feed(stream);
    assert_eq!(expected, vec![token("ñandú"), token("!"), Frame::Done]);
    let mut pieces = SseDecoder::new();
    let mut got = Vec::new();
    for b in stream {
        got.extend(pieces.feed(&[*b]));
    }
    assert_eq!(got, expected);
    assert!(pieces.is_finished());
}

#[test]
fn incomplete_block_waits() {
    let mut d = SseDecoder::new();
    assert_eq!(d.feed(b"data: {\"type\":\"token\",\"value\":\"a\"}\n"), vec![]);
    assert_eq!(d.feed(b"\n"), vec![token("a")]);
    assert!(!d.is_finished());
    assert_eq!(d.end_of_stream(), Some(Frame::Done));
    assert!(d.is_finished());
}

#[test]
fn error_without_message_says_stream_error() {
    let mut d = SseDecoder::new();
    let frames = d.feed(b"data: {\"type\":\"error\"}\n\n");
    assert_eq!(frames, vec![Frame::Error("stream error".to_string())]);
    assert!(d.is_finished());
}

#[test]
fn error_with_message() {
    let mut d = SseDecoder::new();
    let frames = d.feed(b"data: {\"type\":\"error\",\"message\":\"cuota agotada\"}\n\ndata: {\"type\":\"done\"}\n\n");
    assert_eq!(frames, vec![Frame::Error("cuota agotada".to_string())]);
}

#[test]
fn lines_that_announce_nothing_are_skipped() {
    let mut d = SseDecoder::new();
    let frames = d.feed(
        b"id: 7\nevent: message\ndata:\ndata:    \ndata: not json\ndata: {\"type\":\"mystery\"}\ndata: {\"type\":\"token\"}\ndata: {\"type\":\"token\",\"value\":3}\ndata: [1,2]\n: comment\ndata: {\"type\":\"token\",\"value\":\"ok\"}\n\n",
    );
    assert_eq!(frames, vec![token("ok")]);
    assert!(!d.is_finished());
}

#[test]
fn several_data_lines_in_one_block_stop_at_done() {
    let mut d = SseDecoder::new();
    let frames = d.feed(
        b"data: {\"type\":\"token\",\"value\":\"a\"}\ndata: {\"type\":\"done\"}\ndata: {\"type\":\"token\",\"value\":\"b\"}\n\n",
    );
    assert_eq!(frames, vec![token("a"), Frame::Done]);
}

#[test]
fn whitespace_and_carriage_returns_around_data() {
    let mut d = SseDecoder::new();
    let frames = d.feed(b"  \tdata:\t {\"type\":\"token\",\"value\":\"x\"} \r\n\r\ndata:{\"type\":\"token\",\"value\":\"y\"}\r\n\n");
    assert_eq!(frames, vec![token("x"), token("y")]);
}

#[test]
fn invalid_utf8_is_replaced() {
    let mut d = SseDecoder::new();
    let frames = d.feed(b"data: {\"type\":\"token\",\"value\":\"a\xffb\"}\n\n");
    assert_eq!(frames, vec![token("a\u{FFFD}b")]);
}

#[test]
fn multibyte_character_split_across_chunks() {
    let bytes = "data: {\"type\":\"token\",\"value\":\"€\"}\n\n".as_bytes();
    let cut = bytes.iter().position(|b| *b == 0xE2).unwrap() + 1;
    let mut d = SseDecoder::new();
    assert_eq!(d.feed(&bytes[..cut]), vec![]);
    assert_eq!(d.feed(&bytes[cut..]), vec![token("€")]);
}

#[test]
fn frame_is_terminal() {
    assert!(!token("a").is_terminal());
    assert!(Frame::Done.is_terminal());
    assert!(Frame::Error("e".to_string()).is_terminal());
}

#[test]
fn any_cutting_of_the_stream_gives_the_same_frames() {
    let stream: &[u8] = "data: {\"type\":\"token\",\"value\":\"ñandú\"}\n\ndata: {\"type\":\"token\",\"value\":\"!\"}\n\ndata: {\"type\":\"done\"}\n\n".as_bytes();
    let mut whole = SseDecoder::new();
    let expected = whole.feed(stream);
    assert_eq!(expected, vec![token("ñandú"), token("!"), Frame::Done]);
    let blank = stream.windows(2).position(|w| w == b"\n\n").unwrap();
    let accent = stream.iter().position(|b| *b >= 0x80).unwrap();
    let cuttings: Vec<Vec<usize>> = vec![
        vec![accent + 1],
        vec![blank + 1],
        vec![3, accent + 1, blank + 1, blank + 5],
        vec![1, 2, 3, 4, 5, stream.len() - 1],
        (1..stream.len()).step_by(7).collect(),
    ];
    for cuts in cuttings {
        let mut d = SseDecoder::new();
        let mut got = Vec::new();
        let mut from = 0;
        for c in cuts.iter().copied().chain(std::iter::once(stream.len())) {
            got.extend(d.feed(&stream[from..c]));
            from = c;
        }
        assert_eq!(got, expected);
        assert!(d.is_finished());
    }
}

fn some(s: &str) -> Option<String> {
    Some(s.to_string())
}

#[test]
fn members_decide_the_frame() {
    assert_eq!(frame_of_members(some("token"), some("Hola"), None), Some(token("Hola")));
    assert_eq!(frame_of_members(some("chunk"), some(" mundo"), some("x")), Some(token(" mundo")));
    assert_eq!(frame_of_members(some("token"), None, some("x")), None);
    assert_eq!(
        frame_of_members(some("error"), some("v"), some("sin cupo")),
        Some(Frame::Error("sin cupo".to_string()))
    );
    assert_eq!(
        frame_of_members(some("error"), None, None),
        Some(Frame::Error("stream error".to_string()))
    );
    assert_eq!(frame_of_members(some("done"), None, None), Some(Frame::Done));
    assert_eq!(frame_of_members(some("ping"), some("v"), some("m")), None);
    assert_eq!(frame_of_members(some("Token"), some("v"), None), None);
    assert_eq!(frame_of_members(None, some("v"), some("m")), None);
}
