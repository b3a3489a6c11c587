//! Commands of the iiod text protocol and the parsing of their replies.
use vstd::prelude::*;
use vstd::string::*;
use vstd::utf8::*;

use crate::error::{Error, ErrorView};
use crate::text::{
    ascii_bytes, chars_of, concat_str, decimal, decimal_digits, decimal_i64, int_error_message,
    int_error_text, lemma_decimal_digits_shape, lemma_parse_decimal_i32, lemma_parse_decimal_u32,
    parse_i32, parse_i32_spec, parse_u32, parse_u32_spec, string_from_chars, trim, trim_chars,
};
use crate::transport::{line_result_view, Logged, Transport, TransportCall};

verus! {

/// `std::string::FromUtf8Error`, the error of a failed UTF-8 decoding.
#[verifier::external_type_specification]
#[verifier::external_body]
pub struct ExFromUtf8Error(std::string::FromUtf8Error);

/// Decodes bytes as UTF-8.
///
/// Trusted: `String::from_utf8`, which succeeds exactly on valid UTF-8 and
/// then holds the decoded characters.
#[verifier::external_body]
fn string_from_utf8(bytes: Vec<u8>) -> (r: Result<String, std::string::FromUtf8Error>)
    ensures
        r is Ok <==> valid_utf8(bytes@),
        r matches Ok(s) ==> s@ == decode_utf8(bytes@),
{
    String::from_utf8(bytes)
}

/// Text of a UTF-8 decoding error.
///
/// Trusted: `<FromUtf8Error as Display>::fmt`. Its wording (the offending
/// position and length) is not stated.
#[verifier::external_body]
fn utf8_error_text(e: &std::string::FromUtf8Error) -> String {
    format!("{}", e)
}

/// The errno that a negative return code `code` stands for. The negation
/// wraps as in a release build, so `i32::MIN` stands for itself.
pub open spec fn errno_number(code: i32) -> int {
    if code == i32::MIN {
        code as int
    } else {
        -(code as int)
    }
}

/// Description of an errno number.
pub open spec fn errno_text(n: int) -> Seq<char> {
    if n == 1 {
        "operation not permitted"@
    } else if n == 2 {
        "no such file or directory"@
    } else if n == 5 {
        "I/O error"@
    } else if n == 6 {
        "no such device or address"@
    } else if n == 12 {
        "out of memory"@
    } else if n == 13 {
        "permission denied"@
    } else if n == 16 {
        "device busy"@
    } else if n == 19 {
        "no such device"@
    } else if n == 22 {
        "invalid argument"@
    } else if n == 32 {
        "broken pipe"@
    } else if n == 110 {
        "connection timed out"@
    } else if n == 111 {
        "connection refused"@
    } else {
        "errno "@ + decimal(n)
    }
}

/// Best-effort mapping of negative errno codes to human-readable strings.
pub fn errno_to_msg(code: i32) -> (r: String)
    ensures
        r@ == errno_text(errno_number(code)),
{
    let n: i32 = if code == i32::MIN {
        code
    } else {
        -code
    };
    if n == 1 {
        <String as StringExecFns>::from_str("operation not permitted")
    } else if n == 2 {
        <String as StringExecFns>::from_str("no such file or directory")
    } else if n == 5 {
        <String as StringExecFns>::from_str("I/O error")
    } else if n == 6 {
        <String as StringExecFns>::from_str("no such device or address")
    } else if n == 12 {
        <String as StringExecFns>::from_str("out of memory")
    } else if n == 13 {
        <String as StringExecFns>::from_str("permission denied")
    } else if n == 16 {
        <String as StringExecFns>::from_str("device busy")
    } else if n == 19 {
        <String as StringExecFns>::from_str("no such device")
    } else if n == 22 {
        <String as StringExecFns>::from_str("invalid argument")
    } else if n == 32 {
        <String as StringExecFns>::from_str("broken pipe")
    } else if n == 110 {
        <String as StringExecFns>::from_str("connection timed out")
    } else if n == 111 {
        <String as StringExecFns>::from_str("connection refused")
    } else {
        let num = decimal_i64(n as i64);
        concat_str("errno ", num.as_str())
    }
}

/// The error that a negative return code reports.
pub open spec fn iiod_error(code: i32) -> ErrorView {
    ErrorView::IiodError { code, msg: errno_text(errno_number(code)) }
}

/// Reply to a command that answers with a return code: the decimal code,
/// possibly surrounded by whitespace; negative codes are `-errno`.
pub open spec fn return_code_spec(line: Seq<char>) -> Result<i32, ErrorView> {
    match parse_i32_spec(trim(line)) {
        Err(k) => Err(ErrorView::Protocol("expected numeric return code: "@ + int_error_text(k))),
        Ok(v) => if v < 0 {
            Err(iiod_error(v as i32))
        } else {
            Ok(v as i32)
        },
    }
}

pub open spec fn i32_result_view(r: Result<i32, Error>) -> Result<i32, ErrorView> {
    match r {
        Ok(v) => Ok(v),
        Err(e) => Err(e@),
    }
}

/// Parse a response line as a return code. Positive = success/length,
/// negative = `-errno`.
pub fn parse_return_code(line: &str) -> (r: Result<i32, Error>)
    ensures
        i32_result_view(r) == return_code_spec(line@),
{
    let cs = chars_of(line);
    let t = trim_chars(cs.as_slice());
    match parse_i32(t.as_slice()) {
        Err(k) => {
            let m = int_error_message(k);
            Err(Error::Protocol(concat_str("expected numeric return code: ", m.as_str())))
        },
        Ok(code) => {
            if code < 0 {
                Err(Error::IiodError { code, msg: errno_to_msg(code) })
            } else {
                Ok(code)
            }
        },
    }
}

/// Index of the first occurrence of `c` in `s`.
pub open spec fn first_index_of(s: Seq<char>, c: char) -> Option<int>
    decreases s.len(),
{
    if s.len() == 0 {
        None
    } else if s[0] == c {
        Some(0)
    } else {
        match first_index_of(s.drop_first(), c) {
            Some(i) => Some(i + 1),
            None => None,
        }
    }
}

fn find_char(s: &[char], start: usize, c: char) -> (r: Option<usize>)
    requires
        start <= s@.len(),
    ensures
        match r {
            Some(i) => first_index_of(s@.skip(start as int), c) == Some(i - start) && start <= i
                < s@.len(),
            None => first_index_of(s@.skip(start as int), c) is None,
        },
{
    let mut i = start;
    while i < s.len()
        invariant
            start <= i <= s@.len(),
            first_index_of(s@.skip(start as int), c) == match first_index_of(
                s@.skip(i as int),
                c,
            ) {
                Some(j) => Some(j + (i - start)),
                None => None::<int>,
            },
        decreases s@.len() - i,
    {
        assert(s@.skip(i as int).drop_first() =~= s@.skip(i + 1));
        if s[i] == c {
            return Some(i);
        }
        i = i + 1;
    }
    None
}

/// The three `.`-separated parts of a VERSION reply, as `splitn(3, '.')`
/// cuts it: major, minor, and the rest (empty when there is no second `.`).
pub open spec fn split_version(line: Seq<char>) -> Option<(Seq<char>, Seq<char>, Seq<char>)> {
    match first_index_of(line, '.') {
        None => None,
        Some(i) => {
            let rest = line.skip(i + 1);
            match first_index_of(rest, '.') {
                None => Some((line.take(i), rest, Seq::<char>::empty())),
                Some(j) => Some((line.take(i), rest.take(j), rest.skip(j + 1))),
            }
        },
    }
}

/// Reply to VERSION: `<major>.<minor>.<git_tag>`, e.g. `0.24.gc4498aa`.
pub open spec fn version_reply_spec(line: Seq<char>) -> Result<(u32, u32, Seq<char>), ErrorView> {
    match split_version(line) {
        None => Err(ErrorView::Protocol("unexpected VERSION response: "@ + line)),
        Some((a, b, tag)) => match parse_u32_spec(a) {
            Err(k) => Err(ErrorView::Protocol("bad major version: "@ + int_error_text(k))),
            Ok(major) => match parse_u32_spec(b) {
                Err(k) => Err(ErrorView::Protocol("bad minor version: "@ + int_error_text(k))),
                Ok(minor) => Ok((major as u32, minor as u32, tag)),
            },
        },
    }
}

pub open spec fn version_result_view(r: Result<(u32, u32, String), Error>) -> Result<
    (u32, u32, Seq<char>),
    ErrorView,
> {
    match r {
        Ok((a, b, t)) => Ok((a, b, t@)),
        Err(e) => Err(e@),
    }
}

/// Parses the reply to VERSION into (major, minor, git_tag).
pub fn parse_version_reply(line: &str) -> (r: Result<(u32, u32, String), Error>)
    ensures
        version_result_view(r) == version_reply_spec(line@),
{
    let cs = chars_of(line);
    let n = cs.len();
    let first = match find_char(cs.as_slice(), 0, '.') {
        Some(i) => i,
        None => {
            assert(cs@.skip(0) =~= cs@);
            return Err(
                Error::Protocol(concat_str("unexpected VERSION response: ", line)),
            );
        },
    };
    assert(cs@.skip(0) =~= cs@);
    let ghost rest = cs@.skip(first + 1);
    let (minor_end, tag_start) = match find_char(cs.as_slice(), first + 1, '.') {
        Some(j) => (j, j + 1),
        None => (n, n),
    };
    let major_chars = slice_range(cs.as_slice(), 0, first);
    let minor_chars = slice_range(cs.as_slice(), first + 1, minor_end);
    let tag_chars = slice_range(cs.as_slice(), tag_start, n);
    proof {
        assert(major_chars@ =~= cs@.take(first as int));
        if minor_end < n {
            assert(minor_chars@ =~= rest.take(minor_end - (first + 1)));
            assert(tag_chars@ =~= rest.skip(minor_end - (first + 1) + 1));
        } else {
            assert(minor_chars@ =~= rest);
            assert(tag_chars@ =~= Seq::<char>::empty());
        }
    }
    let major = match parse_u32(major_chars.as_slice()) {
        Ok(v) => v,
        Err(k) => {
            let m = int_error_message(k);
            return Err(Error::Protocol(concat_str("bad major version: ", m.as_str())));
        },
    };
    let minor = match parse_u32(minor_chars.as_slice()) {
        Ok(v) => v,
        Err(k) => {
            let m = int_error_message(k);
            return Err(Error::Protocol(concat_str("bad minor version: ", m.as_str())));
        },
    };
    let tag = string_from_chars(tag_chars.as_slice());
    Ok((major, minor, tag))
}

/// The characters `s[from..to]`.
fn slice_range(s: &[char], from: usize, to: usize) -> (r: Vec<char>)
    requires
        from <= to <= s@.len(),
    ensures
        r@ == s@.subrange(from as int, to as int),
{
    let mut r: Vec<char> = Vec::new();
    let mut i = from;
    while i < to
        invariant
            from <= i <= to <= s@.len(),
            r@ == s@.subrange(from as int, i as int),
        decreases to - i,
    {
        r.push(s[i]);
        i = i + 1;
        assert(r@ =~= s@.subrange(from as int, i as int));
    }
    r
}

/// The VERSION command line.
pub open spec fn version_command_spec() -> Seq<u8> {
    ascii_bytes("VERSION\n"@)
}

/// The PRINT command line.
pub open spec fn print_command_spec() -> Seq<u8> {
    ascii_bytes("PRINT\n"@)
}

/// Bytes of the VERSION command.
pub fn version_command() -> (r: Vec<u8>)
    ensures
        r@ == version_command_spec(),
{
    // V E R S I O N \n
    let r: Vec<u8> = vec![86, 69, 82, 83, 73, 79, 78, 10];
    proof {
        reveal_strlit("VERSION\n");
        assert(r@ =~= version_command_spec());
    }
    r
}

/// Bytes of the PRINT command.
pub fn print_command() -> (r: Vec<u8>)
    ensures
        r@ == print_command_spec(),
{
    // P R I N T \n
    let r: Vec<u8> = vec![80, 82, 73, 78, 84, 10];
    proof {
        reveal_strlit("PRINT\n");
        assert(r@ =~= print_command_spec());
    }
    r
}

/// `after` is `before` with more calls at the end.
pub open spec fn extends(before: Seq<TransportCall>, after: Seq<TransportCall>) -> bool {
    after.len() >= before.len() && after.take(before.len() as int) == before
}

/// The calls made after `before`.
pub open spec fn new_calls(before: Seq<TransportCall>, after: Seq<TransportCall>) -> Seq<
    TransportCall,
> {
    after.skip(before.len() as int)
}

/// A VERSION exchange: `calls` are the calls it made and `r` its result.
///
/// It sends the VERSION command; if that fails, the error is the result.
/// Else it reads one line; if that fails, the error is the result, else the
/// result is the parse of the line. Nothing else is called.
pub open spec fn version_exchange(
    calls: Seq<TransportCall>,
    r: Result<(u32, u32, Seq<char>), ErrorView>,
) -> bool {
    calls.len() >= 1 && match calls[0] {
        TransportCall::Send { cmd, result } => cmd == version_command_spec() && match result {
            Err(e) => calls.len() == 1 && r == Err::<(u32, u32, Seq<char>), ErrorView>(e),
            Ok(_) => calls.len() == 2 && match calls[1] {
                TransportCall::RecvLine { result: Err(e) } => r == Err::<
                    (u32, u32, Seq<char>),
                    ErrorView,
                >(e),
                TransportCall::RecvLine { result: Ok(line) } => r == version_reply_spec(line),
                _ => false,
            },
        },
        _ => false,
    }
}

/// Send the `VERSION` command and return the (major, minor, git_tag) tuple.
///
/// The transport's answers decide the result; the calls made and the
/// result are the VERSION exchange on them.
pub fn version<T: Transport>(transport: &mut Logged<T>) -> (r: Result<(u32, u32, String), Error>)
    ensures
        extends(old(transport).calls(), final(transport).calls()),
        version_exchange(
            new_calls(old(transport).calls(), final(transport).calls()),
            version_result_view(r),
        ),
{
    let ghost before = transport.calls();
    let cmd = version_command();
    let sent = transport.send(cmd.as_slice());
    if let Err(e) = sent {
        assert(new_calls(before, transport.calls()) =~= seq![transport.calls().last()]);
        assert(transport.calls().take(before.len() as int) =~= before);
        return Err(e);
    }
    let got = transport.recv_line();
    let ghost after = transport.calls();
    assert(new_calls(before, after) =~= seq![after[after.len() - 2], after.last()]);
    assert(after.take(before.len() as int) =~= before);
    let line = match got {
        Ok(l) => l,
        Err(e) => return Err(e),
    };
    parse_version_reply(line.as_str())
}

/// Reply to PRINT: the decimal length of the XML that follows, or a
/// negative `-errno`.
pub open spec fn print_length_spec(line: Seq<char>) -> Result<int, ErrorView> {
    match parse_i32_spec(trim(line)) {
        Err(k) => Err(ErrorView::Protocol("bad PRINT length: "@ + int_error_text(k))),
        Ok(v) => if v < 0 {
            Err(iiod_error(v as i32))
        } else {
            Ok(v)
        },
    }
}

pub open spec fn usize_result_view(r: Result<usize, Error>) -> Result<int, ErrorView> {
    match r {
        Ok(v) => Ok(v as int),
        Err(e) => Err(e@),
    }
}

/// Parses the length line that answers PRINT.
pub fn parse_print_length(line: &str) -> (r: Result<usize, Error>)
    ensures
        usize_result_view(r) == print_length_spec(line@),
{
    let cs = chars_of(line);
    let t = trim_chars(cs.as_slice());
    match parse_i32(t.as_slice()) {
        Err(k) => {
            let m = int_error_message(k);
            Err(Error::Protocol(concat_str("bad PRINT length: ", m.as_str())))
        },
        Ok(len) => {
            if len < 0 {
                Err(Error::IiodError { code: len, msg: errno_to_msg(len) })
            } else {
                Ok(len as usize)
            }
        },
    }
}

/// Decodes the XML payload that follows the PRINT length line.
pub fn decode_print_payload(bytes: Vec<u8>) -> (r: Result<String, Error>)
    ensures
        r is Ok <==> valid_utf8(bytes@),
        r matches Ok(s) ==> s@ == decode_utf8(bytes@),
        r matches Err(e) ==> e@ matches ErrorView::Protocol(m) && m.len() >= 26 && m.take(26)
            == "PRINT response not UTF-8: "@,
{
    match string_from_utf8(bytes) {
        Ok(s) => Ok(s),
        Err(e) => {
            let t = utf8_error_text(&e);
            let m = concat_str("PRINT response not UTF-8: ", t.as_str());
            proof {
                reveal_strlit("PRINT response not UTF-8: ");
                assert(m@.take(26) =~= "PRINT response not UTF-8: "@);
            }
            Err(Error::Protocol(m))
        },
    }
}

/// What the PRINT payload gives: its UTF-8 text, or a protocol error
/// that says it is not UTF-8.
pub open spec fn payload_result(bytes: Seq<u8>, r: Result<Seq<char>, ErrorView>) -> bool {
    if valid_utf8(bytes) {
        r == Ok::<Seq<char>, ErrorView>(decode_utf8(bytes))
    } else {
        r matches Err(ErrorView::Protocol(m)) && m.len() >= 26 && m.take(26)
            == "PRINT response not UTF-8: "@
    }
}

/// A PRINT exchange: `calls` are the calls it made and `r` its result.
///
/// It sends the PRINT command, reads the length line, and, when the line
/// gives a length `n >= 0`, reads exactly `n` bytes, whose UTF-8 text is
/// the result. The first error (of the transport, of the length line, of
/// the decoding) is the result, and no call follows it.
pub open spec fn print_exchange(calls: Seq<TransportCall>, r: Result<Seq<char>, ErrorView>) -> bool {
    calls.len() >= 1 && match calls[0] {
        TransportCall::Send { cmd, result } => cmd == print_command_spec() && match result {
            Err(e) => calls.len() == 1 && r == Err::<Seq<char>, ErrorView>(e),
            Ok(_) => calls.len() >= 2 && match calls[1] {
                TransportCall::RecvLine { result: Err(e) } => calls.len() == 2 && r == Err::<
                    Seq<char>,
                    ErrorView,
                >(e),
                TransportCall::RecvLine { result: Ok(line) } => match print_length_spec(line) {
                    Err(e) => calls.len() == 2 && r == Err::<Seq<char>, ErrorView>(e),
                    Ok(n) => calls.len() == 3 && match calls[2] {
                        TransportCall::RecvExact { len, result: Err(e) } => len == n && r
                            == Err::<Seq<char>, ErrorView>(e),
                        TransportCall::RecvExact { len, result: Ok(bytes) } => len == n
                            && bytes.len() == n && payload_result(bytes, r),
                        _ => false,
                    },
                },
                _ => false,
            },
        },
        _ => false,
    }
}

/// Send the `PRINT` command and return the raw XML string describing all
/// devices, channels, and attributes on the remote IIO context.
///
/// The transport's answers decide the result; the calls made and the
/// result are the PRINT exchange on them.
pub fn print<T: Transport>(transport: &mut Logged<T>) -> (r: Result<String, Error>)
    ensures
        extends(old(transport).calls(), final(transport).calls()),
        print_exchange(
            new_calls(old(transport).calls(), final(transport).calls()),
            line_result_view(r),
        ),
{
    let ghost before = transport.calls();
    let cmd = print_command();
    let sent = transport.send(cmd.as_slice());
    if let Err(e) = sent {
        assert(new_calls(before, transport.calls()) =~= seq![transport.calls().last()]);
        assert(transport.calls().take(before.len() as int) =~= before);
        return Err(e);
    }
    let got = transport.recv_line();
    let ghost after = transport.calls();
    assert(new_calls(before, after) =~= seq![after[after.len() - 2], after.last()]);
    assert(after.take(before.len() as int) =~= before);
    let line = match got {
        Ok(l) => l,
        Err(e) => return Err(e),
    };
    let len = match parse_print_length(line.as_str()) {
        Ok(n) => n,
        Err(e) => return Err(e),
    };
    let mut buf: Vec<u8> = vec![0u8; len];
    let read = transport.recv_exact(buf.as_mut_slice());
    let ghost last = transport.calls();
    assert(new_calls(before, last) =~= seq![
        last[last.len() - 3],
        last[last.len() - 2],
        last.last(),
    ]);
    assert(last.take(before.len() as int) =~= before);
    if let Err(e) = read {
        return Err(e);
    }
    decode_print_payload(buf)
}

/// A reply line whose text is a decimal code, possibly padded with
/// whitespace, gives that code back when it is not negative and the error
/// that the errno stands for when it is.
pub proof fn lemma_return_code_reply(line: Seq<char>, code: i32)
    requires
        trim(line) == decimal(code as int),
    ensures
        return_code_spec(line) == if code >= 0 {
            Ok::<i32, ErrorView>(code)
        } else {
            Err::<i32, ErrorView>(iiod_error(code))
        },
{
    lemma_parse_decimal_i32(code);
}

/// A return code is never negative; a negative code on the wire is always
/// reported as the iiod error of its errno.
pub proof fn lemma_return_code_sign(line: Seq<char>)
    ensures
        return_code_spec(line) matches Ok(v) ==> v >= 0,
        return_code_spec(line) matches Err(ErrorView::IiodError { code, msg }) ==> code < 0
            && msg == errno_text(errno_number(code)),
{
}

/// The PRINT length line: a decimal length (possibly padded) announces that
/// many bytes, a negative one is the error of its errno.
pub proof fn lemma_print_length_reply(line: Seq<char>, len: i32)
    requires
        trim(line) == decimal(len as int),
    ensures
        print_length_spec(line) == if len >= 0 {
            Ok::<int, ErrorView>(len as int)
        } else {
            Err::<int, ErrorView>(iiod_error(len))
        },
{
    lemma_parse_decimal_i32(len);
}

proof fn lemma_first_dot(a: Seq<char>, b: Seq<char>)
    requires
        forall|i: int| 0 <= i < a.len() ==> a[i] != '.',
    ensures
        first_index_of(a + seq!['.'] + b, '.') == Some(a.len() as int),
    decreases a.len(),
{
    if a.len() > 0 {
        lemma_first_dot(a.drop_first(), b);
        assert((a + seq!['.'] + b).drop_first() =~= a.drop_first() + seq!['.'] + b);
    }
}

proof fn lemma_no_dot(a: Seq<char>)
    requires
        forall|i: int| 0 <= i < a.len() ==> a[i] != '.',
    ensures
        first_index_of(a, '.') is None,
    decreases a.len(),
{
    if a.len() > 0 {
        lemma_no_dot(a.drop_first());
    }
}

/// A VERSION reply in the documented format `<major>.<minor>.<git_tag>`
/// gives back major, minor and the tag, whatever the tag holds.
pub proof fn lemma_version_reply(major: u32, minor: u32, tag: Seq<char>)
    ensures
        version_reply_spec(
            decimal(major as int) + seq!['.'] + decimal(minor as int) + seq!['.'] + tag,
        ) == Ok::<(u32, u32, Seq<char>), ErrorView>((major, minor, tag)),
{
    let a = decimal(major as int);
    let b = decimal(minor as int);
    let line = a + seq!['.'] + b + seq!['.'] + tag;
    lemma_decimal_digits_shape(major as nat);
    lemma_decimal_digits_shape(minor as nat);
    assert(forall|i: int| 0 <= i < a.len() ==> a[i] == decimal_digits(major as nat)[i]);
    assert(forall|i: int| 0 <= i < b.len() ==> b[i] == decimal_digits(minor as nat)[i]);
    assert(line =~= a + seq!['.'] + (b + seq!['.'] + tag));
    lemma_first_dot(a, b + seq!['.'] + tag);
    let rest = line.skip(a.len() as int + 1);
    assert(rest =~= b + seq!['.'] + tag);
    lemma_first_dot(b, tag);
    assert(line.take(a.len() as int) =~= a);
    assert(rest.take(b.len() as int) =~= b);
    assert(rest.skip(b.len() as int + 1) =~= tag);
    lemma_parse_decimal_u32(major);
    lemma_parse_decimal_u32(minor);
}

/// A VERSION reply without a tag, `<major>.<minor>`, gives an empty tag.
pub proof fn lemma_version_reply_untagged(major: u32, minor: u32)
    ensures
        version_reply_spec(decimal(major as int) + seq!['.'] + decimal(minor as int)) == Ok::<
            (u32, u32, Seq<char>),
            ErrorView,
        >((major, minor, Seq::empty())),
{
    let a = decimal(major as int);
    let b = decimal(minor as int);
    let line = a + seq!['.'] + b;
    lemma_decimal_digits_shape(major as nat);
    lemma_decimal_digits_shape(minor as nat);
    assert(forall|i: int| 0 <= i < a.len() ==> a[i] == decimal_digits(major as nat)[i]);
    assert(forall|i: int| 0 <= i < b.len() ==> b[i] == decimal_digits(minor as nat)[i]);
    lemma_first_dot(a, b);
    let rest = line.skip(a.len() as int + 1);
    assert(rest =~= b);
    lemma_no_dot(b);
    assert(line.take(a.len() as int) =~= a);
    lemma_parse_decimal_u32(major);
    lemma_parse_decimal_u32(minor);
}

} // verus!
