//! The outcome of a transfer.

use vstd::prelude::*;

verus! {

/// Why a transfer was refused.
#[derive(Clone, Copy, Debug, PartialEq, Eq, Structural)]
pub enum ErrorKind {
    /// The sender has no account in the ledger.
    SenderNotFound,
    /// The sender's balance is smaller than the amount asked for.
    InsufficientBalance,
}

/// What a transfer returns: success, or the reason for which nothing was
/// moved.
#[derive(Clone, Copy, Debug, PartialEq, Eq, Structural)]
pub enum MyResult {
    /// The amount was moved.
    Success,
    /// Nothing was moved, for the reason given.
    Failure(ErrorKind),
}

impl ErrorKind {
    /// The text of this error, as a caller is told it.
    pub open spec fn spec_message(self) -> Seq<char> {
        match self {
            ErrorKind::SenderNotFound => "Sender not found"@,
            ErrorKind::InsufficientBalance => "Insufficient balance"@,
        }
    }

    /// The text of this error, as a caller is told it.
    pub fn message(&self) -> (text: String)
        ensures
            text@ == self.spec_message(),
    {
        match self {
            ErrorKind::SenderNotFound => "Sender not found".to_string(),
            ErrorKind::InsufficientBalance => "Insufficient balance".to_string(),
        }
    }
}

impl MyResult {
    /// Whether the transfer went through.
    pub fn is_ok(&self) -> (ok: bool)
        ensures
            ok == (*self == MyResult::Success),
    {
        match self {
            MyResult::Success => true,
            MyResult::Failure(_) => false,
        }
    }

    /// The reason for the refusal, if the transfer was refused.
    pub fn err(&self) -> (kind: Option<ErrorKind>)
        ensures
            kind == match *self {
                MyResult::Success => None,
                MyResult::Failure(e) => Some(e),
            },
    {
        match self {
            MyResult::Success => None,
            MyResult::Failure(e) => Some(*e),
        }
    }
}

} // verus!
