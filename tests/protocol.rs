use televery::codec::{parse_line, FramePoll, Frames, ProtocolError, VerifyRequest};
use televery::tag::{callback_tag, parse_tag, Decision};

fn request(method: &str, appname: &str) -> VerifyRequest {
    VerifyRequest { method: method.to_string(), appname: appname.to_string() }
}

#[test]
fn line_yields_request() {
    let mut f = Frames::new();
    f.read_off(b"REQ testapp\n");
    assert_eq!(f.poll(false), Ok(FramePoll::Ready(request("REQ", "testapp"))));
    assert_eq!(f.poll(false), Ok(FramePoll::NotReady));
    assert_eq!(f.poll(true), Ok(FramePoll::Done));
}

#[test]
fn line_split_into_single_bytes_yields_once() {
    let mut f = Frames::new();
    let line = b"REQ testapp\n";
    for (k, b) in line.iter().enumerate() {
        if k + 1 < line.len() {
            f.read_off(&[*b]);
            assert_eq!(f.poll(false), Ok(FramePoll::NotReady));
        } else {
            f.read_off(&[*b]);
        }
    }
    assert_eq!(f.poll(false), Ok(FramePoll::Ready(request("REQ", "testapp"))));
    assert_eq!(f.poll(true), Ok(FramePoll::Done));
}

#[test]
fn newline_split_from_line_across_reads() {
    let mut f = Frames::new();
    f.read_off(b"REQ te");
    assert_eq!(f.poll(false), Ok(FramePoll::NotReady));
    f.read_off(b"stapp");
    assert_eq!(f.poll(false), Ok(FramePoll::NotReady));
    assert_eq!(f.len(), 11);
    f.read_off(b"\nREQ ot");
    assert_eq!(f.poll(false), Ok(FramePoll::Ready(request("REQ", "testapp"))));
    assert_eq!(f.len(), 6);
    f.read_off(b"her\n");
    assert_eq!(f.poll(false), Ok(FramePoll::Ready(request("REQ", "other"))));
    assert_eq!(f.len(), 0);
}

#[test]
fn two_lines_in_one_read_come_in_order() {
    let mut f = Frames::new();
    f.read_off(b"REQ a\nDEL b\n");
    assert_eq!(f.poll(false), Ok(FramePoll::Ready(request("REQ", "a"))));
    assert_eq!(f.poll(false), Ok(FramePoll::Ready(request("DEL", "b"))));
    assert_eq!(f.poll(false), Ok(FramePoll::NotReady));
}

#[test]
fn partial_line_at_end_of_stream_is_dropped() {
    let mut f = Frames::new();
    f.read_off(b"REQ testapp");
    assert_eq!(f.poll(true), Ok(FramePoll::Done));
}

#[test]
fn empty_stream_is_done() {
    let mut f = Frames::new();
    assert_eq!(f.len(), 0);
    assert_eq!(f.poll(false), Ok(FramePoll::NotReady));
    assert_eq!(f.poll(true), Ok(FramePoll::Done));
}

#[test]
fn non_utf8_line_fails() {
    let mut f = Frames::new();
    f.read_off(&[b'R', 0xff, b' ', b'a', b'\n']);
    assert_eq!(f.poll(false), Err(ProtocolError::InvalidUtf8));
}

#[test]
fn truncated_utf8_character_fails() {
    assert_eq!(parse_line(&[b'a', b' ', 0xe2, 0x82]), Err(ProtocolError::InvalidUtf8));
}

#[test]
fn one_token_line_fails() {
    let mut f = Frames::new();
    f.read_off(b"justonetoken\n");
    assert_eq!(f.poll(false), Err(ProtocolError::FieldCount));
}

#[test]
fn three_token_line_fails() {
    assert_eq!(parse_line(b"REQ test app"), Err(ProtocolError::FieldCount));
    assert_eq!(parse_line(b"REQ  testapp"), Err(ProtocolError::FieldCount));
}

#[test]
fn empty_line_fails() {
    assert_eq!(parse_line(b""), Err(ProtocolError::FieldCount));
}

#[test]
fn fields_may_be_empty_or_unicode() {
    assert_eq!(parse_line(b" testapp"), Ok(request("", "testapp")));
    assert_eq!(parse_line("REQ caf\u{e9}".as_bytes()), Ok(request("REQ", "caf\u{e9}")));
}

#[test]
fn tag_is_token_comma_code() {
    assert_eq!(callback_tag(0, Decision::Allow), b"0,0".to_vec());
    assert_eq!(callback_tag(42, Decision::Deny), b"42,1".to_vec());
    assert_eq!(callback_tag(u64::MAX, Decision::Allow), b"18446744073709551615,0".to_vec());
}

#[test]
fn tag_parses_back() {
    assert_eq!(parse_tag(b"42,0"), Some((42, Decision::Allow)));
    assert_eq!(parse_tag(b"7,1"), Some((7, Decision::Deny)));
    assert_eq!(parse_tag(b"18446744073709551615,1"), Some((u64::MAX, Decision::Deny)));
    for t in [0u64, 9, 10, 123456789, u64::MAX] {
        for d in [Decision::Allow, Decision::Deny] {
            assert_eq!(parse_tag(&callback_tag(t, d)), Some((t, d)));
        }
    }
}

#[test]
fn malformed_tags_are_refused() {
    assert_eq!(parse_tag(b""), None);
    assert_eq!(parse_tag(b",0"), None);
    assert_eq!(parse_tag(b"1,2"), None);
    assert_eq!(parse_tag(b"1;0"), None);
    assert_eq!(parse_tag(b"x1,0"), None);
    assert_eq!(parse_tag(b"18446744073709551616,0"), None);
}

#[test]
fn response_lines() {
    assert_eq!(Decision::Allow.response_line(), "ALLOW\n");
    assert_eq!(Decision::Deny.response_line(), "DENY\n");
}
