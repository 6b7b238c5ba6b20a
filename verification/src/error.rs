//! What can go wrong.

use vstd::prelude::*;

verus! {

/// An error with its cause in words.
#[derive(Debug, PartialEq, Eq)]
pub enum RzError {
    Config(String),
    Io(String),
    Json(String),
}

/// What an error is, with its text as characters.
pub enum ErrorView {
    Config(Seq<char>),
    Io(Seq<char>),
    Json(Seq<char>),
}

impl View for RzError {
    type V = ErrorView;

    open spec fn view(&self) -> ErrorView {
        match self {
            RzError::Config(text) => ErrorView::Config(text@),
            RzError::Io(text) => ErrorView::Io(text@),
            RzError::Json(text) => ErrorView::Json(text@),
        }
    }
}

/// The message that an error is reported with.
pub open spec fn error_message(e: ErrorView) -> Seq<char> {
    match e {
        ErrorView::Config(text) => "configuration error: "@ + text,
        ErrorView::Io(text) => "I/O error: "@ + text,
        ErrorView::Json(text) => "JSON error: "@ + text,
    }
}

/// The HTTP status that an error is answered with: the caller's fault, unless
/// it is an I/O error.
pub open spec fn error_status(e: ErrorView) -> u16 {
    match e {
        ErrorView::Config(_) => 400,
        ErrorView::Io(_) => 500,
        ErrorView::Json(_) => 400,
    }
}

impl RzError {
    /// The error in words.
    pub fn message(&self) -> (r: String)
        ensures
            r@ == error_message(self@),
            match *self {
                RzError::Config(text) => r@ == "configuration error: "@ + text@,
                RzError::Io(text) => r@ == "I/O error: "@ + text@,
                RzError::Json(text) => r@ == "JSON error: "@ + text@,
            },
    {
        match self {
            RzError::Config(text) => "configuration error: ".to_owned().concat(text.as_str()),
            RzError::Io(text) => "I/O error: ".to_owned().concat(text.as_str()),
            RzError::Json(text) => "JSON error: ".to_owned().concat(text.as_str()),
        }
    }

    /// The HTTP status of the answer.
    pub fn status(&self) -> (r: u16)
        ensures
            r == error_status(self@),
            *self is Io ==> r == 500,
            !(*self is Io) ==> r == 400,
    {
        match self {
            RzError::Config(_) => 400,
            RzError::Io(_) => 500,
            RzError::Json(_) => 400,
        }
    }
}

} // verus!
