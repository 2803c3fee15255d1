use vstd::prelude::*;

verus! {

/// Identifier of a client account; doubles as the sharding key.
pub type ClientId = u16;

/// Identifier of a transaction, unique across the whole input.
pub type TxId = u32;

/// Amounts are fixed-point decimals held as integer multiples of
/// 1/10000 of a currency unit; this is the number of units per whole.
pub const AMOUNT_SCALE: u64 = 10000;

/// The byte value of the digit `0`.
pub const ZERO_BYTE: u8 = 48;

/// The byte value of the digit `9`.
pub const NINE_BYTE: u8 = 57;

/// The byte value of the decimal point.
pub const DOT_BYTE: u8 = 46;

/// The byte value of the field separator.
pub const COMMA_BYTE: u8 = 44;

/// The byte value of the row separator.
pub const NEWLINE_BYTE: u8 = 10;

/// The kind of an input transaction record.
#[derive(Clone, Copy, Debug, PartialEq, Eq, Structural)]
pub enum TransactionType {
    Deposit,
    Withdrawal,
    Dispute,
    Resolve,
    Chargeback,
}

/// One input record. `amount` is in 1/10000 currency units and is
/// present only for Deposit and Withdrawal; the other kinds reference
/// an earlier transaction through `tx` alone.
#[derive(Clone, Copy, Debug)]
pub struct Transaction {
    pub transaction_type: TransactionType,
    pub client: ClientId,
    pub tx: TxId,
    pub amount: Option<u64>,
}

/// Lifecycle state of a ledger entry.
#[derive(Clone, Copy, Debug, PartialEq, Eq, Structural)]
pub enum EntryState {
    /// An accepted deposit that is not currently disputed.
    Posted,
    /// A deposit whose funds are held pending resolution.
    Disputed,
    /// A deposit that was reversed; terminal.
    Chargebacked,
    /// An accepted withdrawal; never disputable.
    Withdrawn,
}

/// What the ledger retains for every accepted Deposit or Withdrawal,
/// keyed by transaction id for the lifetime of the account.
#[derive(Clone, Copy, Debug, PartialEq, Eq, Structural)]
pub struct LedgerEntry {
    pub state: EntryState,
    pub amount: u64,
}

} // verus!
