use std::collections::VecDeque;

use iiod_rs::protocol::{
    decode_print_payload, errno_to_msg, parse_print_length, parse_return_code,
    parse_version_reply, print, version,
};
use iiod_rs::transport::Logged;
use iiod_rs::{Error, Transport};

/// A mock transport that replays canned responses.
struct MockTransport {
    lines: VecDeque<String>,
    data: Vec<u8>,
    sent: Vec<Vec<u8>>,
}

impl MockTransport {
    fn new(lines: Vec<&str>, data: Vec<u8>) -> Self {
        Self {
            lines: lines.into_iter().map(String::from).collect(),
            data,
            sent: Vec::new(),
        }
    }
}

impl Transport for MockTransport {
    fn send(&mut self, cmd: &[u8]) -> Result<(), Error> {
        self.sent.push(cmd.to_vec());
        Ok(())
    }

    fn recv_line(&mut self) -> Result<String, Error> {
        self.lines
            .pop_front()
            .ok_or_else(|| Error::Protocol("no more lines".into()))
    }

    fn recv_exact(&mut self, buf: &mut [u8]) -> Result<(), Error> {
        let n = buf.len();
        if self.data.len() < n {
            return Err(Error::Protocol("not enough data".into()));
        }
        buf.copy_from_slice(&self.data[..n]);
        self.data.drain(..n);
        Ok(())
    }
}

#[test]
fn test_version_parse() {
    let mut t = Logged::new(MockTransport::new(vec!["0.24.gc4498aa"], vec![]));
    let (major, minor, tag) = version(&mut t).unwrap();
    assert_eq!(major, 0);
    assert_eq!(minor, 24);
    assert_eq!(tag, "gc4498aa");
    assert_eq!(t.inner().sent[0], b"VERSION\n");
}

#[test]
fn test_print_success() {
    let xml = "<context><device id=\"iio:device0\" name=\"ad9361-phy\"></device></context>";
    let len_line = format!("{}", xml.len());
    let mut t = Logged::new(MockTransport::new(vec![&len_line], xml.as_bytes().to_vec()));
    let result = print(&mut t).unwrap();
    assert_eq!(result, xml);
}

#[test]
fn test_print_error() {
    let mut t = Logged::new(MockTransport::new(vec!["-19"], vec![]));
    let err = print(&mut t).unwrap_err();
    let msg = err.message();
    assert!(msg.contains("no such device"), "got: {msg}");
}

#[test]
fn test_return_code_positive() {
    assert_eq!(parse_return_code("42").unwrap(), 42);
}

#[test]
fn test_return_code_negative() {
    let err = parse_return_code("-22").unwrap_err();
    let msg = err.message();
    assert!(msg.contains("invalid argument"), "got: {msg}");
}

#[test]
fn print_sends_print_command() {
    let mut t = Logged::new(MockTransport::new(vec!["5"], b"<a/>x".to_vec()));
    let result = print(&mut t).unwrap();
    assert_eq!(result, "<a/>x");
    assert_eq!(t.inner().sent[0], b"PRINT\n");
}

#[test]
fn print_rejects_invalid_utf8() {
    let mut t = Logged::new(MockTransport::new(vec!["2"], vec![0xff, 0xfe]));
    match print(&mut t) {
        Err(Error::Protocol(m)) => assert!(m.starts_with("PRINT response not UTF-8: "), "got: {m}"),
        other => panic!("unexpected: {other:?}"),
    }
}

#[test]
fn print_bad_length() {
    let mut t = Logged::new(MockTransport::new(vec!["abc"], b"xyz".to_vec()));
    match print(&mut t) {
        Err(Error::Protocol(m)) => assert_eq!(m, "bad PRINT length: invalid digit found in string"),
        other => panic!("unexpected: {other:?}"),
    }
    assert_eq!(t.inner().data, b"xyz");
}

#[test]
fn print_passes_transport_error_through() {
    let mut t = Logged::new(MockTransport::new(vec![], vec![]));
    match print(&mut t) {
        Err(Error::Protocol(m)) => assert_eq!(m, "no more lines"),
        other => panic!("unexpected: {other:?}"),
    }
}

#[test]
fn return_code_zero_and_padding() {
    assert_eq!(parse_return_code("0").unwrap(), 0);
    assert_eq!(parse_return_code("  17\t\r").unwrap(), 17);
    assert_eq!(parse_return_code("+5").unwrap(), 5);
}

#[test]
fn return_code_errors() {
    match parse_return_code("") {
        Err(Error::Protocol(m)) => {
            assert_eq!(m, "expected numeric return code: cannot parse integer from empty string")
        }
        other => panic!("unexpected: {other:?}"),
    }
    match parse_return_code("12x") {
        Err(Error::Protocol(m)) => {
            assert_eq!(m, "expected numeric return code: invalid digit found in string")
        }
        other => panic!("unexpected: {other:?}"),
    }
    match parse_return_code("2147483648") {
        Err(Error::Protocol(m)) => {
            assert_eq!(m, "expected numeric return code: number too large to fit in target type")
        }
        other => panic!("unexpected: {other:?}"),
    }
    match parse_return_code("-2147483649") {
        Err(Error::Protocol(m)) => {
            assert_eq!(m, "expected numeric return code: number too small to fit in target type")
        }
        other => panic!("unexpected: {other:?}"),
    }
    match parse_return_code("-") {
        Err(Error::Protocol(m)) => {
            assert_eq!(m, "expected numeric return code: invalid digit found in string")
        }
        other => panic!("unexpected: {other:?}"),
    }
}

#[test]
fn return_code_matches_std_parse() {
    for s in ["7", "-7", "+0", "0012", "99999999999", "1 2", "-", "+", "", "٣", "2147483647"] {
        let ours = parse_return_code(s);
        match s.trim().parse::<i32>() {
            Ok(v) if v >= 0 => assert_eq!(ours.unwrap(), v),
            Ok(v) => match ours {
                Err(Error::IiodError { code, .. }) => assert_eq!(code, v),
                other => panic!("unexpected: {other:?}"),
            },
            Err(e) => match ours {
                Err(Error::Protocol(m)) => {
                    assert_eq!(m, format!("expected numeric return code: {e}"))
                }
                other => panic!("unexpected: {other:?}"),
            },
        }
    }
}

#[test]
fn iiod_error_message_format() {
    let err = parse_return_code("-19").unwrap_err();
    assert_eq!(err.message(), "iiod error -19: no such device");
    match err {
        Error::IiodError { code, msg } => {
            assert_eq!(code, -19);
            assert_eq!(msg, "no such device");
        }
        other => panic!("unexpected: {other:?}"),
    }
}

#[test]
fn errno_messages() {
    assert_eq!(errno_to_msg(-1), "operation not permitted");
    assert_eq!(errno_to_msg(-2), "no such file or directory");
    assert_eq!(errno_to_msg(-5), "I/O error");
    assert_eq!(errno_to_msg(-6), "no such device or address");
    assert_eq!(errno_to_msg(-12), "out of memory");
    assert_eq!(errno_to_msg(-13), "permission denied");
    assert_eq!(errno_to_msg(-16), "device busy");
    assert_eq!(errno_to_msg(-19), "no such device");
    assert_eq!(errno_to_msg(-22), "invalid argument");
    assert_eq!(errno_to_msg(-32), "broken pipe");
    assert_eq!(errno_to_msg(-110), "connection timed out");
    assert_eq!(errno_to_msg(-111), "connection refused");
    assert_eq!(errno_to_msg(-77), "errno 77");
    assert_eq!(errno_to_msg(i32::MIN), "errno -2147483648");
}

#[test]
fn version_formats() {
    let (a, b, t) = parse_version_reply("1.2").unwrap();
    assert_eq!((a, b, t.as_str()), (1, 2, ""));
    let (a, b, t) = parse_version_reply("0.26.v0.26-1-g.abc").unwrap();
    assert_eq!((a, b, t.as_str()), (0, 26, "v0.26-1-g.abc"));
    let (a, b, t) = parse_version_reply("3.4.").unwrap();
    assert_eq!((a, b, t.as_str()), (3, 4, ""));
}

#[test]
fn version_errors() {
    match parse_version_reply("nodots") {
        Err(Error::Protocol(m)) => assert_eq!(m, "unexpected VERSION response: nodots"),
        other => panic!("unexpected: {other:?}"),
    }
    match parse_version_reply("x.1.t") {
        Err(Error::Protocol(m)) => assert_eq!(m, "bad major version: invalid digit found in string"),
        other => panic!("unexpected: {other:?}"),
    }
    match parse_version_reply("1..t") {
        Err(Error::Protocol(m)) => {
            assert_eq!(m, "bad minor version: cannot parse integer from empty string")
        }
        other => panic!("unexpected: {other:?}"),
    }
    match parse_version_reply("-1.2.t") {
        Err(Error::Protocol(m)) => assert_eq!(m, "bad major version: invalid digit found in string"),
        other => panic!("unexpected: {other:?}"),
    }
    match parse_version_reply("1.4294967296.t") {
        Err(Error::Protocol(m)) => {
            assert_eq!(m, "bad minor version: number too large to fit in target type")
        }
        other => panic!("unexpected: {other:?}"),
    }
}

#[test]
fn version_roundtrip_law() {
    for (a, b, tag) in [(0u32, 24u32, "gc4498aa"), (4294967295, 7, "x.y"), (10, 0, "")] {
        let line = format!("{a}.{b}.{tag}");
        let (x, y, t) = parse_version_reply(&line).unwrap();
        assert_eq!((x, y, t.as_str()), (a, b, tag));
    }
}

#[test]
fn print_length_law() {
    assert_eq!(parse_print_length(" 123 ").unwrap(), 123);
    match parse_print_length("-12") {
        Err(Error::IiodError { code, msg }) => {
            assert_eq!(code, -12);
            assert_eq!(msg, "out of memory");
        }
        other => panic!("unexpected: {other:?}"),
    }
}

#[test]
fn payload_decoding() {
    assert_eq!(decode_print_payload("héllo".as_bytes().to_vec()).unwrap(), "héllo");
    assert!(decode_print_payload(vec![0xc3]).is_err());
}

#[test]
fn io_error_message() {
    let e: Error = std::io::Error::new(std::io::ErrorKind::Other, "boom").into();
    let m = e.message();
    assert_eq!(m, "I/O error: boom");
    assert!(matches!(e, Error::Io(_)));
}

#[test]
fn other_error_messages() {
    assert_eq!(Error::Protocol("p".into()).message(), "protocol error: p");
    assert_eq!(Error::Xml("x".into()).message(), "XML parse error: x");
}

#[test]
fn version_through_dyn_transport() {
    let boxed: Box<dyn Transport> = Box::new(MockTransport::new(vec!["2.1.abc"], vec![]));
    let mut t = Logged::new(boxed);
    let (a, b, tag) = version(&mut t).unwrap();
    assert_eq!((a, b, tag.as_str()), (2, 1, "abc"));
}

#[test]
fn print_reads_exactly_announced_bytes() {
    let mut t = Logged::new(MockTransport::new(vec!["3"], b"abcdef".to_vec()));
    assert_eq!(print(&mut t).unwrap(), "abc");
    assert_eq!(t.inner().data, b"def");
    assert_eq!(t.inner().sent, vec![b"PRINT\n".to_vec()]);
}

#[test]
fn print_negative_length_skips_read() {
    let mut t = Logged::new(MockTransport::new(vec!["-2147483648"], b"q".to_vec()));
    match print(&mut t) {
        Err(Error::IiodError { code, .. }) => assert_eq!(code, i32::MIN),
        other => panic!("unexpected: {other:?}"),
    }
    assert_eq!(t.inner().data, b"q");
}

#[test]
fn print_passes_recv_exact_error() {
    let mut t = Logged::new(MockTransport::new(vec!["10"], b"abc".to_vec()));
    match print(&mut t) {
        Err(Error::Protocol(m)) => assert_eq!(m, "not enough data"),
        other => panic!("unexpected: {other:?}"),
    }
}

#[test]
fn version_sends_one_command() {
    let mut t = Logged::new(MockTransport::new(vec!["1.2.x", "extra"], vec![]));
    version(&mut t).unwrap();
    assert_eq!(t.inner().sent, vec![b"VERSION\n".to_vec()]);
    assert_eq!(t.inner().lines.len(), 1);
    let inner = t.into_inner();
    assert_eq!(inner.lines[0], "extra");
}
