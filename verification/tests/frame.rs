use lib::frame::{FrameError, Framer};
use lib::runtime::{Output, Provider, Runtime, Tool};

/// Echoes `<len>\n` per message so tests can tell responses apart.
fn echo_len(msg: &[u8], out: &mut [u8]) -> usize {
    out[0] = b'0' + msg.len().min(9) as u8;
    out[1] = b'\n';
    2
}

/// Fixed-capacity sink, exercising the same no-alloc path a device runs.
struct Sink {
    buf: [u8; 128],
    len: usize,
}

impl Sink {
    fn new() -> Self {
        Self { buf: [0u8; 128], len: 0 }
    }
    fn push(&mut self, b: &[u8]) {
        self.buf[self.len..self.len + b.len()].copy_from_slice(b);
        self.len += b.len();
    }
    fn as_slice(&self) -> &[u8] {
        &self.buf[..self.len]
    }
}

fn collect<const RX: usize, const TX: usize>(
    f: &mut Framer<RX, TX>,
    chunk: &[u8],
) -> (Result<(), FrameError>, Sink) {
    let mut got = Sink::new();
    let r = f.feed(chunk, echo_len, |resp| got.push(resp));
    (r, got)
}

#[test]
fn dispatches_one_complete_message() {
    let mut f: Framer<64, 16> = Framer::new();
    let (r, got) = collect(&mut f, b"abc\n");
    assert_eq!(r, Ok(()));
    assert_eq!(got.as_slice(), b"3\n");
    assert_eq!(f.buffered(), 0);
}

#[test]
fn holds_partial_message_until_terminated() {
    let mut f: Framer<64, 16> = Framer::new();
    let (r, got) = collect(&mut f, b"abc");
    assert_eq!(r, Ok(()));
    assert!(got.as_slice().is_empty(), "no newline yet, nothing to dispatch");
    assert_eq!(f.buffered(), 3);
    let (r, got) = collect(&mut f, b"de\n");
    assert_eq!(r, Ok(()));
    assert_eq!(got.as_slice(), b"5\n", "reassembled across two feeds");
}

#[test]
fn byte_at_a_time_matches_bulk() {
    let mut f: Framer<64, 16> = Framer::new();
    let mut got = Sink::new();
    for b in b"abcd\nef\n" {
        f.feed(&[*b], echo_len, |r| got.push(r)).unwrap();
    }
    assert_eq!(got.as_slice(), b"4\n2\n");
}

#[test]
fn multiple_messages_in_one_chunk() {
    let mut f: Framer<64, 16> = Framer::new();
    let (r, got) = collect(&mut f, b"a\nbb\nccc\n");
    assert_eq!(r, Ok(()));
    assert_eq!(got.as_slice(), b"1\n2\n3\n");
}

#[test]
fn blank_lines_are_skipped() {
    let mut f: Framer<64, 16> = Framer::new();
    let (r, got) = collect(&mut f, b"\n\nab\n\n");
    assert_eq!(r, Ok(()));
    assert_eq!(got.as_slice(), b"2\n", "empty lines must not reach the handler");
}

#[test]
fn oversized_frame_reports_overflow_then_resyncs() {
    let mut f: Framer<8, 16> = Framer::new();
    let (r, got) = collect(&mut f, b"xxxxxxxxxxxx");
    assert_eq!(r, Err(FrameError::Overflow));
    assert!(got.as_slice().is_empty());
    let (r, got) = collect(&mut f, b"yyy\nok\n");
    assert_eq!(r, Ok(()), "overflow is reported once, not repeatedly");
    assert_eq!(got.as_slice(), b"2\n", "resynced on the newline; only `ok` dispatched");
}

#[test]
fn chunk_larger_than_rx_is_processed_in_passes() {
    let mut f: Framer<8, 16> = Framer::new();
    let (r, got) = collect(&mut f, b"aa\nbb\ncc\ndd\nee\n");
    assert_eq!(r, Ok(()), "each message fits RX even though the chunk does not");
    assert_eq!(got.as_slice(), b"2\n2\n2\n2\n2\n");
}

#[test]
fn exactly_full_buffer_with_terminator_is_fine() {
    let mut f: Framer<4, 16> = Framer::new();
    let (r, got) = collect(&mut f, b"abc\n");
    assert_eq!(r, Ok(()), "a message filling RX exactly is not an overflow");
    assert_eq!(got.as_slice(), b"3\n");
}

#[test]
fn rx_space_and_commit_round_trip() {
    let mut f: Framer<32, 16> = Framer::new();
    let src = b"hello\n";
    f.rx_space()[..src.len()].copy_from_slice(src);
    let mut got = Sink::new();
    f.commit(src.len(), echo_len, |r| got.push(r)).unwrap();
    assert_eq!(got.as_slice(), b"5\n");
}

#[test]
fn rx_space_is_never_empty_after_overflow() {
    let mut f: Framer<4, 16> = Framer::new();
    let _ = collect(&mut f, b"xxxxxx");
    assert!(!f.rx_space().is_empty(), "overflow must leave room to keep reading");
}

#[test]
fn reset_clears_partial_state() {
    let mut f: Framer<16, 16> = Framer::new();
    let _ = collect(&mut f, b"partial");
    assert_eq!(f.buffered(), 7);
    f.reset();
    assert_eq!(f.buffered(), 0);
    let (_, got) = collect(&mut f, b"ab\n");
    assert_eq!(got.as_slice(), b"2\n", "no leftover bytes prepended");
}

#[test]
fn handler_returning_zero_emits_nothing() {
    let mut f: Framer<32, 16> = Framer::new();
    let mut calls = 0;
    f.feed(b"abc\n", |_, _| 0, |_| calls += 1).unwrap();
    assert_eq!(calls, 0, "notifications produce no outbound bytes");
}

#[test]
fn end_to_end_with_runtime() {
    struct Temp;
    impl Provider for Temp {
        fn tools(&self) -> &[Tool] {
            &[Tool { name: "temp_read", description: "Read temperature" }]
        }
        fn call(&self, _: &str, _: &[u8], out: &mut Output) -> Result<(), &'static str> {
            out.write_str("22.5").unwrap();
            Ok(())
        }
    }
    static T: Temp = Temp;
    let mut rt: Runtime<'_, 1, 64> = Runtime::new();
    rt.register(&T).unwrap();

    let mut f: Framer<128, 128> = Framer::new();
    let mut got = Sink::new();
    let msg = br#"{"jsonrpc":"2.0","id":1,"method":"tools/call","params":{"name":"temp_read","arguments":{}}}"#;
    let (a, b) = msg.split_at(40);
    f.feed(a, |m, o| rt.handle(m, o), |r| got.push(r)).unwrap();
    assert!(got.as_slice().is_empty(), "incomplete message must not dispatch");
    f.feed(b, |m, o| rt.handle(m, o), |r| got.push(r)).unwrap();
    f.feed(b"\n", |m, o| rt.handle(m, o), |r| got.push(r)).unwrap();
    let s = core::str::from_utf8(got.as_slice()).unwrap();
    assert!(s.contains("22.5"), "{s}");
}

#[test]
fn default_framer_is_empty() {
    let f: Framer<8, 8> = Framer::default();
    assert_eq!(f.buffered(), 0);
}

#[test]
fn feeding_in_two_parts_matches_one_feed() {
    // The chunking law on concrete bytes: split anywhere, same messages.
    let stream = b"one\n\ntwo two\nxxxxxxxxxxxx\nend\npartial";
    let mut whole: Framer<8, 16> = Framer::new();
    let (r_whole, got_whole) = collect(&mut whole, stream);
    for cut in 0..stream.len() {
        let mut f: Framer<8, 16> = Framer::new();
        let (a, b) = stream.split_at(cut);
        let (ra, got_a) = collect(&mut f, a);
        let (rb, got_b) = collect(&mut f, b);
        let mut joined = got_a.as_slice().to_vec();
        joined.extend_from_slice(got_b.as_slice());
        assert_eq!(joined.as_slice(), got_whole.as_slice(), "cut at {cut}");
        assert_eq!(ra.is_err() || rb.is_err(), r_whole.is_err(), "cut at {cut}");
        assert_eq!(f.buffered(), whole.buffered(), "cut at {cut}");
    }
}
