//! Errors raised by the verified core.
//!
//! Failures that only arise while touching the file system or an outside
//! decoder (I/O, JSON, TOML) are raised by the application layer, which wraps
//! this type.
use vstd::prelude::*;

verus! {

/// Every fallible operation of the verified core returns this error type.
#[derive(Debug, Clone, PartialEq, Eq)]
#[allow(inconsistent_fields)]
pub enum Error {
    Parse { format: String, message: String },
    UnknownFormat,
    EmptyInput,
    InvalidLabel { label: String, reason: String },
    BaselineNotFound { label: String, dir: String },
    InsufficientSamples { name: String, need: usize, got: usize },
    InvalidNumber { field: String, value: String },
    InputTooLarge { bytes: u64, limit: u64 },
    LineTooLong { format: String, bytes: usize },
    NonFinite { name: String },
    Config(String),
}

/// The mathematical content of an [`Error`].
pub enum ErrorView {
    Parse { format: Seq<char>, message: Seq<char> },
    UnknownFormat,
    EmptyInput,
    InvalidLabel { label: Seq<char>, reason: Seq<char> },
    BaselineNotFound { label: Seq<char>, dir: Seq<char> },
    InsufficientSamples { name: Seq<char>, need: nat, got: nat },
    InvalidNumber { field: Seq<char>, value: Seq<char> },
    InputTooLarge { bytes: nat, limit: nat },
    LineTooLong { format: Seq<char>, bytes: nat },
    NonFinite { name: Seq<char> },
    Config(Seq<char>),
}

pub open spec fn exit_code_spec(e: ErrorView) -> i32 {
    match e {
        ErrorView::Parse { .. } | ErrorView::UnknownFormat | ErrorView::InvalidNumber { .. } => 3,
        ErrorView::BaselineNotFound { .. } | ErrorView::InputTooLarge { .. }
        | ErrorView::LineTooLong { .. } => 4,
        ErrorView::InsufficientSamples { .. } | ErrorView::EmptyInput | ErrorView::NonFinite {
            ..
        } => 5,
        ErrorView::InvalidLabel { .. } | ErrorView::Config(_) => 2,
    }
}

impl View for Error {
    type V = ErrorView;

    open spec fn view(&self) -> ErrorView {
        match self {
            Error::Parse { format, message } => ErrorView::Parse {
                format: format@,
                message: message@,
            },
            Error::UnknownFormat => ErrorView::UnknownFormat,
            Error::EmptyInput => ErrorView::EmptyInput,
            Error::InvalidLabel { label, reason } => ErrorView::InvalidLabel {
                label: label@,
                reason: reason@,
            },
            Error::BaselineNotFound { label, dir } => ErrorView::BaselineNotFound {
                label: label@,
                dir: dir@,
            },
            Error::InsufficientSamples { name, need, got } => ErrorView::InsufficientSamples {
                name: name@,
                need: *need as nat,
                got: *got as nat,
            },
            Error::InvalidNumber { field, value } => ErrorView::InvalidNumber {
                field: field@,
                value: value@,
            },
            Error::InputTooLarge { bytes, limit } => ErrorView::InputTooLarge {
                bytes: *bytes as nat,
                limit: *limit as nat,
            },
            Error::LineTooLong { format, bytes } => ErrorView::LineTooLong {
                format: format@,
                bytes: *bytes as nat,
            },
            Error::NonFinite { name } => ErrorView::NonFinite { name: name@ },
            Error::Config(m) => ErrorView::Config(m@),
        }
    }
}

/// What `format!("{:?}", s)` renders for a string slice.
pub uninterp spec fn debug_text(s: Seq<char>) -> Seq<char>;

/// What `format!("{:?}", c)` renders for a character.
pub uninterp spec fn debug_char_text(c: char) -> Seq<char>;

/// `format!("{s:?}")`: the quoted, escaped rendering of a string by std's
/// `Debug` for `str`. Taken on trust: the result is `debug_text` of the
/// argument's characters, so equal strings render alike; nothing is claimed
/// of the rendering itself.
#[verifier::external_body]
pub(crate) fn debug_str(s: &str) -> (r: String)
    ensures
        r@ == debug_text(s@),
{
    format!("{s:?}")
}

/// `format!("{c:?}")`: the quoted, escaped rendering of a character by std's
/// `Debug` for `char`. Taken on trust: the result is `debug_char_text` of the
/// argument; nothing is claimed of the rendering itself.
#[verifier::external_body]
pub(crate) fn debug_char(c: char) -> (r: String)
    ensures
        r@ == debug_char_text(c),
{
    format!("{c:?}")
}

impl Error {
    /// A copy with the same content.
    pub fn clone_error(&self) -> (r: Error)
        ensures
            r@ == self@,
    {
        match self {
            Error::Parse { format, message } => Error::Parse {
                format: format.clone(),
                message: message.clone(),
            },
            Error::UnknownFormat => Error::UnknownFormat,
            Error::EmptyInput => Error::EmptyInput,
            Error::InvalidLabel { label, reason } => Error::InvalidLabel {
                label: label.clone(),
                reason: reason.clone(),
            },
            Error::BaselineNotFound { label, dir } => Error::BaselineNotFound {
                label: label.clone(),
                dir: dir.clone(),
            },
            Error::InsufficientSamples { name, need, got } => Error::InsufficientSamples {
                name: name.clone(),
                need: *need,
                got: *got,
            },
            Error::InvalidNumber { field, value } => Error::InvalidNumber {
                field: field.clone(),
                value: value.clone(),
            },
            Error::InputTooLarge { bytes, limit } => Error::InputTooLarge {
                bytes: *bytes,
                limit: *limit,
            },
            Error::LineTooLong { format, bytes } => Error::LineTooLong {
                format: format.clone(),
                bytes: *bytes,
            },
            Error::NonFinite { name } => Error::NonFinite { name: name.clone() },
            Error::Config(m) => Error::Config(m.clone()),
        }
    }

    /// The process exit status for this error: `3` for input that cannot
    /// be parsed, `4` for input that cannot be read or found, `5` for input
    /// without usable statistics, `2` for usage and configuration mistakes.
    pub fn exit_code(&self) -> (r: i32)
        ensures
            r == exit_code_spec(self@),
    {
        match self {
            Error::Parse { .. } | Error::UnknownFormat | Error::InvalidNumber { .. } => 3,
            Error::BaselineNotFound { .. } | Error::InputTooLarge { .. } | Error::LineTooLong {
                ..
            } => 4,
            Error::InsufficientSamples { .. } | Error::EmptyInput | Error::NonFinite { .. } => 5,
            Error::InvalidLabel { .. } | Error::Config(_) => 2,
        }
    }

    /// `Error::Parse` with the given format tag and message.
    pub fn parse(format: &str, message: &str) -> (e: Error)
        ensures
            e@ == (ErrorView::Parse { format: format@, message: message@ }),
    {
        Error::Parse { format: format.to_owned(), message: message.to_owned() }
    }
}

} // verus!
