use bnklaunch::clipboard::{
    read_text, write_all, PipeRead, TextMime, CLIPBOARD_TIMEOUT_MS, CLIP_CAP,
};
use bnklaunch::platform::arena::ArrayString;

/// Drain a pipe whose writer hands over its data and closes, the way the caller
/// of the pipe reader does.
fn drain(data: &[u8]) -> ArrayString<CLIP_CAP> {
    let mut pipe = PipeRead::new();
    let mut off = 0;
    while pipe.wait(0).expect("in time").is_some() {
        assert!(PipeRead::polled(1).expect("ready"));
        let n = pipe.want().min(data.len() - off);
        if pipe.read(n as isize, &data[off..off + n]).expect("read") {
            break;
        }
        off += n;
    }
    read_text(&pipe.buf)
}

#[test]
fn reads_until_the_writer_closes() {
    let text = drain(b"hello clipboard");
    assert_eq!(text.as_str(), "hello clipboard");
}

#[test]
fn empty_pipe_yields_empty_text() {
    let text = drain(b"");
    assert!(text.is_empty());
}

#[test]
fn stops_at_the_cap() {
    let data = vec![b'x'; CLIP_CAP + 100];
    let text = drain(&data);
    assert_eq!(text.len(), CLIP_CAP);
}

#[test]
fn a_codepoint_split_by_the_cap_is_dropped_not_mangled() {
    // Fill to one byte short of the cap, then push a 2-byte char across it. The
    // cap keeps the leading byte only, and decoding stops before it.
    let mut data = vec![b'a'; CLIP_CAP - 1];
    data.extend_from_slice("é".as_bytes());
    let text = drain(&data);
    assert_eq!(text.len(), CLIP_CAP - 1);
    assert!(text.as_str().chars().all(|c| c == 'a'));
}

#[test]
fn a_writer_that_never_writes_times_out() {
    // The write end stays open and idle, so no data and no EOF ever arrive.
    let pipe = PipeRead::new();
    let wait = pipe.wait(0).expect("a wait").expect("a budget");
    assert_eq!(wait as u64, CLIPBOARD_TIMEOUT_MS);
    assert_eq!(
        PipeRead::polled(0).err().unwrap().msg,
        "clipboard read timed out"
    );
    // The whole read is bounded by the one deadline.
    assert_eq!(pipe.wait(CLIPBOARD_TIMEOUT_MS - 1), Ok(Some(1)));
    assert_eq!(
        pipe.wait(CLIPBOARD_TIMEOUT_MS).err().unwrap().msg,
        "clipboard read timed out"
    );
}

#[test]
fn an_interrupted_read_goes_on_and_a_failed_one_does_not() {
    let mut pipe = PipeRead::new();
    assert_eq!(PipeRead::polled(-4), Ok(false));
    assert_eq!(PipeRead::polled(-9).err().unwrap().errno, 9);
    assert_eq!(pipe.read(-4, &[]), Ok(false));
    assert_eq!(pipe.read(-11, &[]), Ok(false));
    assert_eq!(pipe.read(-5, &[]).err().unwrap().errno, 5);
    assert!(pipe.buf.is_empty());
}

#[test]
fn text_that_is_cut_by_a_bad_byte_keeps_what_is_before_it() {
    let text = drain(b"abc\xFFdef");
    assert_eq!(text.as_str(), "abc");
}

#[test]
fn mime_names_round_trip() {
    for mime in ["text/plain;charset=utf-8", "UTF8_STRING", "text/plain"] {
        if let Some(m) = TextMime::from_mime(mime) {
            assert_eq!(m.as_str(), mime);
        }
    }
    assert!(TextMime::from_mime("text/plain;charset=utf-8").is_some());
    assert!(TextMime::from_mime("image/png").is_none());
}

#[test]
fn serving_the_clipboard_rides_out_short_writes() {
    assert_eq!(write_all(10, 0, 4), Some(4));
    assert_eq!(write_all(10, 4, 5), Some(9));
    assert_eq!(write_all(10, 9, 1), None);
    // A reader that hung up gets no more.
    assert_eq!(write_all(10, 4, -32), None);
    assert_eq!(write_all(10, 4, 0), None);
}
