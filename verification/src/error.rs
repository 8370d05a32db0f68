//! Application error types and the replies they produce.
use vstd::prelude::*;
use vstd::string::*;
use crate::reply::{
    text_response, BodyView, HttpReply, ReplyView, STATUS_INTERNAL_SERVER_ERROR, STATUS_NOT_FOUND,
    STATUS_UNAUTHORIZED,
};

verus! {

/// Declares `std::io::Error` to Verus as an opaque type: storage errors carry
/// it through unread.
#[verifier::external_type_specification]
#[verifier::external_body]
pub struct ExIoError(std::io::Error);

/// Centralized error type for the application.
#[derive(Debug)]
pub enum AppError {
    /// A generic internal error.
    InternalError,
    /// A storage input/output error.
    IoError(std::io::Error),
    /// The requested resource was not found.
    NotFound,
    /// Unauthorized access.
    Unauthorized,
}

/// The text that introduces the message of a storage error.
pub open spec fn io_error_prefix() -> Seq<char> {
    "Storage IO Error: "@
}

impl AppError {
    /// The HTTP status that answers this error.
    pub open spec fn status_spec(&self) -> u16 {
        match self {
            AppError::InternalError => STATUS_INTERNAL_SERVER_ERROR,
            AppError::IoError(_) => STATUS_INTERNAL_SERVER_ERROR,
            AppError::NotFound => STATUS_NOT_FOUND,
            AppError::Unauthorized => STATUS_UNAUTHORIZED,
        }
    }

    /// Whether `text` can be the message of this error: a fixed text for
    /// each variant but the storage error, whose message begins with
    /// `Storage IO Error: ` (the rest is the I/O error's own text, which the
    /// operating system may supply; see `io_error_message`).
    pub open spec fn is_message(&self, text: Seq<char>) -> bool {
        match self {
            AppError::InternalError => text == "Internal Server Error"@,
            AppError::IoError(_) => io_error_prefix().is_prefix_of(text),
            AppError::NotFound => text == "Not Found"@,
            AppError::Unauthorized => text == "Unauthorized"@,
        }
    }

    /// Whether `r` is the reply that answers this error: its status, no
    /// headers, and its message as the body.
    pub open spec fn is_error_reply(&self, r: ReplyView) -> bool {
        &&& r.status == self.status_spec()
        &&& r.headers.len() == 0
        &&& r.body matches BodyView::Text(t) && self.is_message(t)
    }

    /// The HTTP status that answers this error.
    pub fn status_code(&self) -> (status: u16)
        ensures
            status == self.status_spec(),
    {
        match self {
            AppError::InternalError => STATUS_INTERNAL_SERVER_ERROR,
            AppError::IoError(_) => STATUS_INTERNAL_SERVER_ERROR,
            AppError::NotFound => STATUS_NOT_FOUND,
            AppError::Unauthorized => STATUS_UNAUTHORIZED,
        }
    }

    /// The human-readable message of this error.
    pub fn message(&self) -> (text: String)
        ensures
            self.is_message(text@),
    {
        match self {
            AppError::InternalError => String::from_str("Internal Server Error"),
            AppError::IoError(e) => {
                let text = io_error_message(io_error_text(e).as_str());
                assert(text@.subrange(0, io_error_prefix().len() as int) =~= io_error_prefix());
                text
            },
            AppError::NotFound => String::from_str("Not Found"),
            AppError::Unauthorized => String::from_str("Unauthorized"),
        }
    }

    /// The reply that answers this error: its status with its message as
    /// the body.
    pub fn error_response(&self) -> (r: HttpReply)
        ensures
            self.is_error_reply(r@),
    {
        text_response(self.status_code(), self.message())
    }
}

/// The message of a storage error whose underlying I/O error reads
/// `detail`: `Storage IO Error: ` followed by that text.
pub fn io_error_message(detail: &str) -> (text: String)
    ensures
        text@ == io_error_prefix() + detail@,
{
    String::from_str("Storage IO Error: ").concat(detail)
}

/// The text of an I/O error, as `std::io::Error`'s `Display` writes it.
///
/// Nothing is stated of the result: for an error of the operating system
/// it is the system's own description of the error code.
#[verifier::external_body]
fn io_error_text(e: &std::io::Error) -> String {
    e.to_string()
}

impl From<std::io::Error> for AppError {
    fn from(e: std::io::Error) -> (r: Self) {
        AppError::IoError(e)
    }
}

impl vstd::std_specs::convert::FromSpecImpl<std::io::Error> for AppError {
    open spec fn obeys_from_spec() -> bool {
        true
    }

    open spec fn from_spec(v: std::io::Error) -> Self {
        AppError::IoError(v)
    }
}

} // verus!
