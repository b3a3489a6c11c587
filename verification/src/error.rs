//! The error type of every operation of the library.
use vstd::prelude::*;
use vstd::std_specs::convert::FromSpecImpl;

use crate::text::{concat_str, decimal, decimal_i64};

verus! {

/// `std::io::Error`, carried through from a transport.
#[verifier::external_type_specification]
#[verifier::external_body]
pub struct ExIoError(std::io::Error);

/// Errors returned by the operations of this library.
#[derive(Debug)]
pub enum Error {
    /// An I/O error from the underlying transport.
    Io(std::io::Error),
    /// The remote `iiod` returned a negative errno code.
    IiodError { code: i32, msg: String },
    /// Failed to parse a response from the daemon.
    Protocol(String),
    /// Failed to parse XML from a PRINT response.
    Xml(String),
}

/// What an [`Error`] says, as plain values; an I/O error is opaque.
pub enum ErrorView {
    Io,
    IiodError { code: i32, msg: Seq<char> },
    Protocol(Seq<char>),
    Xml(Seq<char>),
}

impl View for Error {
    type V = ErrorView;

    open spec fn view(&self) -> ErrorView {
        match self {
            Error::Io(_) => ErrorView::Io,
            Error::IiodError { code, msg } => ErrorView::IiodError { code: *code, msg: msg@ },
            Error::Protocol(m) => ErrorView::Protocol(m@),
            Error::Xml(m) => ErrorView::Xml(m@),
        }
    }
}

/// The text with which an error other than an I/O error describes itself.
pub open spec fn error_text(e: ErrorView) -> Seq<char> {
    match e {
        ErrorView::Io => "I/O error: "@,
        ErrorView::IiodError { code, msg } => "iiod error "@ + decimal(code as int) + ": "@ + msg,
        ErrorView::Protocol(m) => "protocol error: "@ + m,
        ErrorView::Xml(m) => "XML parse error: "@ + m,
    }
}

/// Text of an I/O error.
///
/// Trusted: `<std::io::Error as Display>::fmt`. Its text depends on the
/// operating system's error descriptions, so nothing is stated of it.
#[verifier::external_body]
fn io_error_text(e: &std::io::Error) -> String {
    format!("{}", e)
}

impl Error {
    /// Human-readable description of the error.
    pub fn message(&self) -> (r: String)
        ensures
            !(self@ is Io) ==> r@ == error_text(self@),
            self@ is Io ==> r@.len() >= 11 && r@.take(11) == "I/O error: "@,
    {
        match self {
            Error::Io(e) => {
                let t = io_error_text(e);
                let r = concat_str("I/O error: ", t.as_str());
                proof {
                    reveal_strlit("I/O error: ");
                    assert(r@.take(11) =~= "I/O error: "@);
                }
                r
            },
            Error::IiodError { code, msg } => {
                let num = decimal_i64(*code as i64);
                let a = concat_str("iiod error ", num.as_str());
                let b = concat_str(a.as_str(), ": ");
                concat_str(b.as_str(), msg.as_str())
            },
            Error::Protocol(m) => concat_str("protocol error: ", m.as_str()),
            Error::Xml(m) => concat_str("XML parse error: ", m.as_str()),
        }
    }
}

impl From<std::io::Error> for Error {
    fn from(e: std::io::Error) -> (r: Error) {
        Error::Io(e)
    }
}

impl FromSpecImpl<std::io::Error> for Error {
    open spec fn obeys_from_spec() -> bool {
        true
    }

    open spec fn from_spec(e: std::io::Error) -> Error {
        Error::Io(e)
    }
}

} // verus!
