//! Application-level error type. Every fallible operation of the library
//! reports one of these variants.
use vstd::prelude::*;
use std::fmt::Write;
use crate::text::copy_str;

verus! {

#[verifier::external_type_specification]
#[verifier::external_body]
pub struct ExIoError(std::io::Error);

#[derive(Debug)]
pub enum AppError {
    Io(std::io::Error),
    InvalidArgument(String),
    Parse(String),
    Thread(String),
    EmptyInput,
}

pub type AppResult<T> = Result<T, AppError>;

/// What an error is, with its message as characters. An I/O error is
/// opaque here: only its kind is seen.
pub enum ErrorView {
    Io,
    InvalidArgument(Seq<char>),
    Parse(Seq<char>),
    Thread(Seq<char>),
    EmptyInput,
}

impl View for AppError {
    type V = ErrorView;

    open spec fn view(&self) -> ErrorView {
        match self {
            AppError::Io(_) => ErrorView::Io,
            AppError::InvalidArgument(m) => ErrorView::InvalidArgument(m@),
            AppError::Parse(m) => ErrorView::Parse(m@),
            AppError::Thread(m) => ErrorView::Thread(m@),
            AppError::EmptyInput => ErrorView::EmptyInput,
        }
    }
}

/// The text an error displays, for every kind but I/O.
pub open spec fn error_text(e: ErrorView) -> Seq<char> {
    match e {
        ErrorView::Io => "I/O error: "@,
        ErrorView::InvalidArgument(m) => "invalid argument: "@ + m,
        ErrorView::Parse(m) => "parse error: "@ + m,
        ErrorView::Thread(m) => "thread error: "@ + m,
        ErrorView::EmptyInput => "input file is empty"@,
    }
}

/// `Display` of `std::io::Error`, written into a new `String` with `write!`:
/// the operating system's description of the error, or the text of the
/// error's own payload. Nothing is stated of the text, which depends on the
/// platform; where the payload's `Display` fails, what was written before the
/// failure is kept and the failure is dropped, so the call does not panic.
#[verifier::external_body]
fn io_error_text(e: &std::io::Error) -> String {
    let mut text = String::new();
    let _ = write!(text, "{}", e);
    text
}

impl AppError {
    /// The message the error displays. For an I/O error, the text after the
    /// prefix is the operating system's description, of which nothing is stated.
    pub fn message(&self) -> (r: String)
        ensures
            !(self@ is Io) ==> r@ == error_text(self@),
            self@ is Io ==> r@.len() >= 11 && r@.take(11) == error_text(self@),
    {
        match self {
            AppError::Io(err) => {
                let mut out = copy_str("I/O error: ");
                let ghost head = out@;
                let detail = io_error_text(err);
                out.append(detail.as_str());
                proof {
                    reveal_strlit("I/O error: ");
                    assert(out@.take(11) =~= head);
                }
                out
            },
            AppError::InvalidArgument(msg) => {
                let mut out = copy_str("invalid argument: ");
                out.append(msg.as_str());
                out
            },
            AppError::Parse(msg) => {
                let mut out = copy_str("parse error: ");
                out.append(msg.as_str());
                out
            },
            AppError::Thread(msg) => {
                let mut out = copy_str("thread error: ");
                out.append(msg.as_str());
                out
            },
            AppError::EmptyInput => copy_str("input file is empty"),
        }
    }
}

impl From<std::io::Error> for AppError {
    fn from(value: std::io::Error) -> (r: AppError) {
        AppError::Io(value)
    }
}

impl vstd::std_specs::convert::FromSpecImpl<std::io::Error> for AppError {
    open spec fn obeys_from_spec() -> bool {
        true
    }

    open spec fn from_spec(v: std::io::Error) -> AppError {
        AppError::Io(v)
    }
}

} // verus!
