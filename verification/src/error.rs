use vstd::prelude::*;

use crate::common::{EntryState, TransactionType};

verus! {

/// Why a transaction was rejected. Every rejection is recoverable:
/// the offending record is dropped and processing continues.
#[derive(Clone, Copy, Debug, PartialEq, Eq, Structural)]
pub enum ErrorKind {
    /// A Deposit or Withdrawal arrived without an amount.
    AmountMissing,
    /// The transaction id was already accepted earlier.
    DuplicateTransactionId,
    /// A Withdrawal was attempted against a locked account.
    AccountLocked,
    /// The available balance cannot cover the requested amount.
    InsufficientAvailable,
    /// The held balance cannot cover the referenced amount.
    InsufficientHeld,
    /// A Dispute, Resolve or Chargeback referenced an unknown id.
    TransactionNotFound,
    /// The referenced entry is not in a state the operation accepts.
    InvalidLifecycleTransition { attempted: TransactionType, actual: EntryState },
    /// Accepting the amount would push the account total past what a
    /// fixed-point balance can carry.
    NumericOverflow,
}

/// A recoverable processing error: a kind plus operator-facing messages.
#[derive(Clone, Debug, PartialEq, Eq)]
pub struct Error {
    pub kind: ErrorKind,
    pub messages: Vec<String>,
}

impl Error {
    /// Builds an error of the given kind; an empty message is not retained.
    pub fn new(kind: ErrorKind, msg: &str) -> (r: Error)
        ensures
            r.kind == kind,
            msg@.len() == 0 ==> r.messages@.len() == 0,
            msg@.len() > 0 ==> r.messages@.len() == 1 && r.messages@[0]@ == msg@,
    {
        let mut messages: Vec<String> = Vec::new();
        if !msg.is_empty() {
            messages.push(msg.to_owned());
        }
        Error { kind, messages }
    }
}

} // verus!
