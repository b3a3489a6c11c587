//! The byte transport to an `iiod` daemon, and the text handling that a
//! TCP transport needs around it.
use vstd::prelude::*;

use crate::error::{Error, ErrorView};
use crate::text::{chars_of, concat_str, decimal, decimal_digits, decimal_i64, string_from_chars};

verus! {

/// Default iiod TCP port.
pub const IIOD_PORT: u16 = 30431;

/// Abstraction over the byte transport to an `iiod` daemon.
pub trait Transport: Send {
    /// Send a raw command (caller is responsible for the trailing newline).
    fn send(&mut self, cmd: &[u8]) -> Result<(), Error>;

    /// Read a single `\n`-terminated line (newline stripped).
    fn recv_line(&mut self) -> Result<String, Error>;

    /// Read exactly `buf.len()` bytes into `buf`.
    ///
    /// The one clause states what every Rust slice keeps: its length.
    fn recv_exact(&mut self, buf: &mut [u8]) -> (r: Result<(), Error>)
        ensures
            final(buf)@.len() == old(buf)@.len(),
    ;
}

/// A boxed transport, such as `Box<dyn Transport>`, is a transport.
impl<T: Transport + ?Sized> Transport for Box<T> {
    fn send(&mut self, cmd: &[u8]) -> Result<(), Error> {
        (**self).send(cmd)
    }

    fn recv_line(&mut self) -> Result<String, Error> {
        (**self).recv_line()
    }

    fn recv_exact(&mut self, buf: &mut [u8]) -> (r: Result<(), Error>) {
        (**self).recv_exact(buf)
    }
}

/// One call made on a transport, with what it gave back.
pub enum TransportCall {
    /// `send(cmd)`.
    Send { cmd: Seq<u8>, result: Result<(), ErrorView> },
    /// `recv_line()`, with the line it returned.
    RecvLine { result: Result<Seq<char>, ErrorView> },
    /// `recv_exact(buf)` on a buffer of `len` bytes, with the bytes it read.
    RecvExact { len: nat, result: Result<Seq<u8>, ErrorView> },
}

pub open spec fn unit_result_view(r: Result<(), Error>) -> Result<(), ErrorView> {
    match r {
        Ok(()) => Ok(()),
        Err(e) => Err(e@),
    }
}

pub open spec fn line_result_view(r: Result<String, Error>) -> Result<Seq<char>, ErrorView> {
    match r {
        Ok(l) => Ok(l@),
        Err(e) => Err(e@),
    }
}

pub open spec fn bytes_result_view(r: Result<(), Error>, bytes: Seq<u8>) -> Result<
    Seq<u8>,
    ErrorView,
> {
    match r {
        Ok(()) => Ok(bytes),
        Err(e) => Err(e@),
    }
}

/// A transport together with the record of the calls made on it through
/// this value, each with what it gave back.
pub struct Logged<T: Transport> {
    inner: T,
    log: Ghost<Seq<TransportCall>>,
}

impl<T: Transport> Logged<T> {
    /// The calls made through this value so far, in order.
    pub closed spec fn calls(&self) -> Seq<TransportCall> {
        self.log@
    }

    /// The transport itself.
    pub closed spec fn inner_spec(&self) -> T {
        self.inner
    }

    /// Starts a record on `inner`, with no calls yet.
    pub fn new(inner: T) -> (r: Self)
        ensures
            r.calls() == Seq::<TransportCall>::empty(),
            r.inner_spec() == inner,
    {
        Logged { inner, log: Ghost(Seq::empty()) }
    }

    /// The transport itself.
    pub fn inner(&self) -> (r: &T)
        ensures
            *r == self.inner_spec(),
    {
        &self.inner
    }

    /// The transport itself, for calls that are not recorded.
    pub fn inner_mut(&mut self) -> (r: &mut T)
        ensures
            *r == old(self).inner_spec(),
            final(self).inner_spec() == *final(r),
            final(self).calls() == old(self).calls(),
    {
        &mut self.inner
    }

    /// Gives the transport back.
    pub fn into_inner(self) -> (r: T)
        ensures
            r == self.inner_spec(),
    {
        self.inner
    }

    /// Sends `cmd` and records the call.
    pub fn send(&mut self, cmd: &[u8]) -> (r: Result<(), Error>)
        ensures
            final(self).calls() == old(self).calls().push(
                TransportCall::Send { cmd: cmd@, result: unit_result_view(r) },
            ),
    {
        let r = self.inner.send(cmd);
        proof {
            self.log@ = self.log@.push(TransportCall::Send { cmd: cmd@, result: unit_result_view(r) });
        }
        r
    }

    /// Receives a line and records the call.
    pub fn recv_line(&mut self) -> (r: Result<String, Error>)
        ensures
            final(self).calls() == old(self).calls().push(
                TransportCall::RecvLine { result: line_result_view(r) },
            ),
    {
        let r = self.inner.recv_line();
        proof {
            self.log@ = self.log@.push(TransportCall::RecvLine { result: line_result_view(r) });
        }
        r
    }

    /// Fills `buf` and records the call, with the bytes read.
    pub fn recv_exact(&mut self, buf: &mut [u8]) -> (r: Result<(), Error>)
        ensures
            final(buf)@.len() == old(buf)@.len(),
            final(self).calls() == old(self).calls().push(
                TransportCall::RecvExact {
                    len: old(buf)@.len(),
                    result: bytes_result_view(r, final(buf)@),
                },
            ),
    {
        let ghost len = buf@.len();
        let r = self.inner.recv_exact(buf);
        proof {
            self.log@ = self.log@.push(
                TransportCall::RecvExact { len, result: bytes_result_view(r, buf@) },
            );
        }
        r
    }
}

/// The address a TCP transport connects to: `addr` itself when it names a
/// port, else `addr` with the default iiod port.
pub open spec fn socket_address_spec(addr: Seq<char>) -> Seq<char> {
    if addr.contains(':') {
        addr
    } else {
        addr + ":"@ + decimal(IIOD_PORT as int)
    }
}

/// Completes a host name with the default port when it names none.
pub fn socket_address(addr: &str) -> (r: String)
    ensures
        r@ == socket_address_spec(addr@),
        addr@.contains(':') ==> r@ == addr@,
        !addr@.contains(':') ==> r@ == addr@ + seq![':', '3', '0', '4', '3', '1'],
{
    proof {
        lemma_socket_address_parts(addr@);
    }
    let cs = chars_of(addr);
    let mut i: usize = 0;
    while i < cs.len()
        invariant
            cs@ == addr@,
            i <= cs@.len(),
            forall|j: int| 0 <= j < i ==> cs@[j] != ':',
        decreases cs@.len() - i,
    {
        if cs[i] == ':' {
            assert(addr@.contains(':')) by {
                assert(addr@[i as int] == ':');
            }
            return string_from_chars(cs.as_slice());
        }
        i = i + 1;
    }
    let port = decimal_i64(IIOD_PORT as i64);
    let with_colon = concat_str(addr, ":");
    concat_str(with_colon.as_str(), port.as_str())
}

/// A received line without its terminating `\n`, and then without a `\r`
/// before it.
pub open spec fn strip_line_ending_spec(line: Seq<char>) -> Seq<char> {
    let a = if line.len() > 0 && line.last() == '\n' {
        line.drop_last()
    } else {
        line
    };
    if a.len() > 0 && a.last() == '\r' {
        a.drop_last()
    } else {
        a
    }
}

/// Strips a trailing newline and then a trailing carriage return.
pub fn strip_line_ending(line: &str) -> (r: String)
    ensures
        r@ == strip_line_ending_spec(line@),
{
    let cs = chars_of(line);
    let mut end = cs.len();
    if end > 0 && cs[end - 1] == '\n' {
        end = end - 1;
    }
    if end > 0 && cs[end - 1] == '\r' {
        end = end - 1;
    }
    let mut kept: Vec<char> = Vec::new();
    let mut i: usize = 0;
    while i < end
        invariant
            end <= cs@.len(),
            i <= end,
            kept@ == cs@.take(i as int),
        decreases end - i,
    {
        kept.push(cs[i]);
        i = i + 1;
        assert(kept@ =~= cs@.take(i as int));
    }
    proof {
        let a = if line@.len() > 0 && line@.last() == '\n' {
            line@.drop_last()
        } else {
            line@
        };
        assert(a =~= cs@.take(a.len() as int));
        if a.len() > 0 && a.last() == '\r' {
            assert(a.drop_last() =~= cs@.take(end as int));
        } else {
            assert(a =~= cs@.take(end as int));
        }
    }
    string_from_chars(kept.as_slice())
}

/// A line received with a `\n` or a `\r\n` terminator comes back as it
/// was sent, when it does not itself end in `\r`.
pub proof fn lemma_strip_line_ending(line: Seq<char>)
    requires
        line.len() == 0 || line.last() != '\r',
    ensures
        strip_line_ending_spec(line.push('\n')) == line,
        strip_line_ending_spec(line.push('\r').push('\n')) == line,
        strip_line_ending_spec(line.push('\r')) == line,
{
    assert(line.push('\n').drop_last() =~= line);
    assert(line.push('\r').push('\n').drop_last() =~= line.push('\r'));
    assert(line.push('\r').drop_last() =~= line);
}

/// A line without a terminator is left as it is.
pub proof fn lemma_strip_unterminated(line: Seq<char>)
    requires
        line.len() == 0 || (line.last() != '\r' && line.last() != '\n'),
    ensures
        strip_line_ending_spec(line) == line,
{
}

/// An address that names a port is kept as it is; any other is kept as the
/// host and followed by `:30431`.
pub proof fn lemma_socket_address_parts(addr: Seq<char>)
    ensures
        addr.contains(':') ==> socket_address_spec(addr) == addr,
        !addr.contains(':') ==> socket_address_spec(addr) == addr + seq![':', '3', '0', '4', '3', '1'],
        !addr.contains(':') ==> socket_address_spec(addr).take(addr.len() as int) == addr,
{
    if !addr.contains(':') {
        reveal_strlit(":");
        reveal_with_fuel(decimal_digits, 6);
        assert(decimal(IIOD_PORT as int) =~= seq!['3', '0', '4', '3', '1']);
        assert(":"@ + decimal(IIOD_PORT as int) =~= seq![':', '3', '0', '4', '3', '1']);
        assert(addr + ":"@ + decimal(IIOD_PORT as int) =~= addr + seq![':', '3', '0', '4', '3', '1']);
        assert((addr + seq![':', '3', '0', '4', '3', '1']).take(addr.len() as int) =~= addr);
    }
}

/// Completing an address twice changes nothing more: the completed address
/// always names a port.
pub proof fn lemma_socket_address_idempotent(addr: Seq<char>)
    ensures
        socket_address_spec(socket_address_spec(addr)) == socket_address_spec(addr),
        socket_address_spec(addr).contains(':'),
{
    if !addr.contains(':') {
        let r = addr + ":"@ + decimal(IIOD_PORT as int);
        reveal_strlit(":");
        assert(r[addr.len() as int] == ':');
    }
}

} // verus!
