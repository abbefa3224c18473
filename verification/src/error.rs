//! Structured errors with a stable machine-readable code.

use vstd::prelude::*;
use vstd::string::*;

verus! {

/// A stable, machine-readable Cyrene error code.
#[derive(Clone, Copy, Debug, PartialEq, Eq, Structural)]
#[non_exhaustive]
pub enum ErrorCode {
    /// Durable storage could not be opened or queried.
    Storage,
    /// Stored application data could not be decoded.
    InvalidData,
    /// An application or schema invariant was violated.
    InvalidInput,
}

impl ErrorCode {
    /// The stable textual representation of a code.
    pub open spec fn text(self) -> Seq<char> {
        match self {
            ErrorCode::Storage => "CYR-STO-001"@,
            ErrorCode::InvalidData => "CYR-DAT-001"@,
            ErrorCode::InvalidInput => "CYR-APP-001"@,
        }
    }

    /// Returns the stable textual representation shown in diagnostics.
    pub fn as_str(self) -> (text: &'static str)
        ensures
            text@ == self.text(),
    {
        match self {
            ErrorCode::Storage => "CYR-STO-001",
            ErrorCode::InvalidData => "CYR-DAT-001",
            ErrorCode::InvalidInput => "CYR-APP-001",
        }
    }
}

/// An error returned by a Cyrene operation.
#[derive(Debug, PartialEq, Eq)]
pub struct Error {
    code: ErrorCode,
    message: String,
    source: Option<String>,
}

/// What an [`Error`] says.
pub struct ErrorView {
    /// Stable machine-readable code.
    pub code: ErrorCode,
    /// Human-readable context.
    pub message: Seq<char>,
    /// Text of the underlying error.
    pub source: Option<Seq<char>>,
}

impl View for Error {
    type V = ErrorView;

    closed spec fn view(&self) -> ErrorView {
        ErrorView {
            code: self.code,
            message: self.message@,
            source: match self.source {
                Some(text) => Some(text@),
                None => None,
            },
        }
    }
}

/// An error without an underlying source.
pub open spec fn failure(code: ErrorCode, message: Seq<char>) -> ErrorView {
    ErrorView { code, message, source: None }
}

impl Error {
    /// Creates an error without an underlying source.
    pub fn new(code: ErrorCode, message: &str) -> (error: Self)
        ensures
            error@ == failure(code, message@),
    {
        Error { code, message: message.to_owned(), source: None }
    }

    /// Attaches the text of an underlying error to a contextual Cyrene error.
    pub fn with_source(code: ErrorCode, message: &str, source: String) -> (error: Self)
        ensures
            error@ == (ErrorView { code, message: message@, source: Some(source@) }),
    {
        Error { code, message: message.to_owned(), source: Some(source) }
    }

    /// Returns the stable machine-readable error code.
    pub fn code(&self) -> (code: ErrorCode)
        ensures
            code == self@.code,
    {
        self.code
    }

    /// Returns the human-readable context without the code or source.
    pub fn message(&self) -> (message: &str)
        ensures
            message@ == self@.message,
    {
        self.message.as_str()
    }

    /// Returns the text of the underlying error, where there is one.
    pub fn source(&self) -> (source: Option<&str>)
        ensures
            match source {
                Some(text) => self@.source == Some(text@),
                None => self@.source is None,
            },
    {
        match &self.source {
            Some(text) => Some(text.as_str()),
            None => None,
        }
    }

    /// Renders the message followed by its code in parentheses.
    pub fn to_string(&self) -> (text: String)
        ensures
            text@ == self@.message + " ("@ + self@.code.text() + ")"@,
    {
        let mut text = self.message.as_str().to_owned();
        text.append(" (");
        text.append(self.code.as_str());
        text.append(")");
        text
    }
}

/// A result whose error is a structured Cyrene error.
pub type Result<T> = std::result::Result<T, Error>;

/// What a result says, its error taken by its view.
pub open spec fn seen<T>(result: Result<T>) -> std::result::Result<T, ErrorView> {
    match result {
        Ok(value) => Ok(value),
        Err(error) => Err(error@),
    }
}

/// What a unit result says: the error, where there is one.
pub open spec fn refusal<T>(result: Result<T>) -> Option<ErrorView> {
    match result {
        Ok(_) => None,
        Err(error) => Some(error@),
    }
}

/// Each kind of error has a code of its own, and a failure has its code and its
/// message and nothing else.
pub proof fn law_codes_tell_errors_apart(code: ErrorCode, message: Seq<char>)
    ensures
        ErrorCode::Storage.text() == "CYR-STO-001"@,
        ErrorCode::InvalidData.text() == "CYR-DAT-001"@,
        ErrorCode::InvalidInput.text() == "CYR-APP-001"@,
        failure(code, message).code == code,
        failure(code, message).message == message,
        failure(code, message).source is None,
{
}

} // verus!
