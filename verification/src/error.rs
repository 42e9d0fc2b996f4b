//! The error that every refused request gives: a code for programs and a message for people.

use vstd::prelude::*;
use vstd::string::*;

verus! {

/// What kind of failure an error is.
#[derive(Debug, Clone, Copy, PartialEq, Eq, Structural)]
pub enum ErrorCode {
    NotFound,
    InvalidRequest,
    RuleConflict,
    Unauthorized,
    Integrity,
    State,
    Crypto,
}

impl ErrorCode {
    /// The name of the code.
    pub open spec fn name(self) -> Seq<char> {
        match self {
            ErrorCode::NotFound => "not_found"@,
            ErrorCode::InvalidRequest => "invalid_request"@,
            ErrorCode::RuleConflict => "rule_conflict"@,
            ErrorCode::Unauthorized => "unauthorized"@,
            ErrorCode::Integrity => "integrity_violation"@,
            ErrorCode::State => "state_error"@,
            ErrorCode::Crypto => "crypto_error"@,
        }
    }

    /// The name of the code.
    pub fn as_str(&self) -> (r: &'static str)
        ensures
            r@ == self.name(),
    {
        match self {
            ErrorCode::NotFound => "not_found",
            ErrorCode::InvalidRequest => "invalid_request",
            ErrorCode::RuleConflict => "rule_conflict",
            ErrorCode::Unauthorized => "unauthorized",
            ErrorCode::Integrity => "integrity_violation",
            ErrorCode::State => "state_error",
            ErrorCode::Crypto => "crypto_error",
        }
    }

    /// The HTTP status that the code is answered with.
    pub fn http_status(&self) -> (r: u16)
        ensures
            r == match *self {
                ErrorCode::NotFound => 404u16,
                ErrorCode::InvalidRequest => 400u16,
                ErrorCode::RuleConflict => 409u16,
                ErrorCode::Unauthorized => 403u16,
                ErrorCode::Integrity => 500u16,
                ErrorCode::State => 500u16,
                ErrorCode::Crypto => 500u16,
            },
    {
        match self {
            ErrorCode::NotFound => 404,
            ErrorCode::InvalidRequest => 400,
            ErrorCode::RuleConflict => 409,
            ErrorCode::Unauthorized => 403,
            ErrorCode::Integrity => 500,
            ErrorCode::State => 500,
            ErrorCode::Crypto => 500,
        }
    }
}

/// A failure with its explanation.
#[derive(Debug)]
pub struct Error {
    pub code: ErrorCode,
    pub message: String,
}

/// The mathematical form of an `Error`.
pub struct Fault {
    pub code: ErrorCode,
    pub message: Seq<char>,
}

impl View for Error {
    type V = Fault;

    open spec fn view(&self) -> Fault {
        Fault { code: self.code, message: self.message@ }
    }
}

impl Clone for Error {
    fn clone(&self) -> (r: Self)
        ensures
            r@ == self@,
    {
        Error { code: self.code, message: self.message.clone() }
    }
}

/// An invalid request.
pub open spec fn invalid_fault(message: Seq<char>) -> Fault {
    Fault { code: ErrorCode::InvalidRequest, message }
}

impl Error {
    pub fn new(code: ErrorCode, message: &str) -> (r: Self)
        ensures
            r@ == (Fault { code, message: message@ }),
    {
        Error { code, message: message.to_string() }
    }

    pub fn invalid(message: &str) -> (r: Self)
        ensures
            r@ == invalid_fault(message@),
    {
        Error::new(ErrorCode::InvalidRequest, message)
    }

    pub fn not_found(message: &str) -> (r: Self)
        ensures
            r@ == (Fault { code: ErrorCode::NotFound, message: message@ }),
    {
        Error::new(ErrorCode::NotFound, message)
    }

    pub fn integrity(message: &str) -> (r: Self)
        ensures
            r@ == (Fault { code: ErrorCode::Integrity, message: message@ }),
    {
        Error::new(ErrorCode::Integrity, message)
    }

    pub fn state(message: &str) -> (r: Self)
        ensures
            r@ == (Fault { code: ErrorCode::State, message: message@ }),
    {
        Error::new(ErrorCode::State, message)
    }

    pub fn crypto(message: &str) -> (r: Self)
        ensures
            r@ == (Fault { code: ErrorCode::Crypto, message: message@ }),
    {
        Error::new(ErrorCode::Crypto, message)
    }

    pub fn conflict(message: &str) -> (r: Self)
        ensures
            r@ == (Fault { code: ErrorCode::RuleConflict, message: message@ }),
    {
        Error::new(ErrorCode::RuleConflict, message)
    }

    /// The error in one line: its code, a colon and its message.
    pub fn describe(&self) -> (r: String)
        ensures
            r@ == self.code.name() + ": "@ + self.message@,
    {
        let mut out: String = self.code.as_str().to_string();
        out.append(": ");
        out.append(self.message.as_str());
        out
    }
}

/// The result of an operation that can be refused.
pub type Result<T> = core::result::Result<T, Error>;

/// Different codes have different names.
pub proof fn lemma_names_tell_apart(a: ErrorCode, b: ErrorCode)
    requires
        a.name() == b.name(),
    ensures
        a == b,
{
    reveal_strlit("not_found");
    reveal_strlit("invalid_request");
    reveal_strlit("rule_conflict");
    reveal_strlit("unauthorized");
    reveal_strlit("integrity_violation");
    reveal_strlit("state_error");
    reveal_strlit("crypto_error");
    assert("not_found"@[0] == 'n');
    assert("invalid_request"@[2] == 'v');
    assert("rule_conflict"@[0] == 'r');
    assert("unauthorized"@[0] == 'u');
    assert("integrity_violation"@[2] == 't');
    assert("state_error"@[0] == 's');
    assert("crypto_error"@[0] == 'c');
}

}
