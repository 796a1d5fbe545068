//! The failure taxonomy shared by every component.

use vstd::prelude::*;

verus! {

/// One failure of a store operation or of a domain rule.
///
/// `Io` carries the backend's own description of the fault, so that the
/// full chain of causes can be reported.
#[derive(Debug, PartialEq, Eq)]
pub enum StoreError {
    /// Bad input, e.g. a missing confirmation flag.
    Validation,
    /// The record asked for does not exist.
    NotFound,
    /// No invite with the presented code exists.
    InvalidInviteCode,
    /// The presented pin does not match the stored one.
    InvalidPin,
    /// The issuer already created the allowed number of invites in the
    /// trailing window.
    RateLimitExceeded,
    /// A lost update was detected, or a fresh key collided; the caller may
    /// retry the whole operation once.
    Conflict,
    /// The underlying medium is unavailable; the detail string is the
    /// backend's own message.
    Io(String),
    /// A stored payload failed to parse.
    Corrupt,
}

impl StoreError {
    /// What the error means, as the text a client sees.
    pub open spec fn text(&self) -> Seq<char> {
        match self {
            StoreError::Validation => "invalid request"@,
            StoreError::NotFound => "record not found"@,
            StoreError::InvalidInviteCode => "invalid invite code"@,
            StoreError::InvalidPin => "invalid pin"@,
            StoreError::RateLimitExceeded => "invite limit exceeded for the last 168 hours"@,
            StoreError::Conflict => "conflicting update, retry"@,
            StoreError::Io(_) => "storage unavailable"@,
            StoreError::Corrupt => "stored record is corrupt"@,
        }
    }

    /// The text of this error alone, without its cause.
    pub fn message(&self) -> (s: String)
        ensures
            s@ == self.text(),
    {
        match self {
            StoreError::Validation => "invalid request".to_owned(),
            StoreError::NotFound => "record not found".to_owned(),
            StoreError::InvalidInviteCode => "invalid invite code".to_owned(),
            StoreError::InvalidPin => "invalid pin".to_owned(),
            StoreError::RateLimitExceeded => "invite limit exceeded for the last 168 hours".to_owned(),
            StoreError::Conflict => "conflicting update, retry".to_owned(),
            StoreError::Io(_) => "storage unavailable".to_owned(),
            StoreError::Corrupt => "stored record is corrupt".to_owned(),
        }
    }

    /// The messages of this error and of its causes, outermost first.
    pub open spec fn chain(&self) -> Seq<Seq<char>> {
        match self {
            StoreError::Io(detail) => seq![self.text(), detail@],
            _ => seq![self.text()],
        }
    }
}

/// Every message on the error's chain of causes, outermost first, ready
/// to be reported one line at a time.
pub fn log_error_chain(error: &StoreError) -> (lines: Vec<String>)
    ensures
        lines.deep_view() == error.chain(),
{
    let mut lines: Vec<String> = Vec::new();
    lines.push(error.message());
    match error {
        StoreError::Io(detail) => {
            lines.push(detail.clone());
        },
        _ => {},
    }
    proof {
        assert(lines.deep_view() =~= error.chain());
    }
    lines
}

} // verus!
