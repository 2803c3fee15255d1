use vstd::prelude::*;

use crate::amount::{
    all_digits, amount_of, digits_val, first_byte, lemma_first_byte, parse_amount, parse_digits,
    push_amount, push_u64, render_amount, u64_digits,
};
use crate::common::{ClientId, Transaction, TransactionType, COMMA_BYTE};
use vstd::string::StringSliceAdditionalSpecFns;

verus! {

/// Finds the first occurrence of `b`, as `first_byte` gives.
pub fn find_byte(s: &[u8], b: u8) -> (r: usize)
    ensures
        r as nat == first_byte(s@, b),
{
    let n = s.len();
    let mut d: usize = 0;
    while d < n && s[d] != b
        invariant
            n == s@.len(),
            d <= n,
            forall|j: int| 0 <= j < d ==> s@[j] != b,
        decreases n - d,
    {
        d = d + 1;
    }
    proof {
        lemma_first_byte(s@, b);
        let fb = first_byte(s@, b) as int;
        if fb < d {
            assert(s@[fb] == b);
            assert(false);
        }
        if d < fb {
            assert(d < n);
            assert(s@[d as int] == b);
            assert(false);
        }
    }
    d
}

/// True exactly when the two byte sequences are equal.
pub fn bytes_eq(a: &[u8], b: &[u8]) -> (r: bool)
    ensures
        r == (a@ == b@),
{
    if a.len() != b.len() {
        proof {
            assert(a@.len() != b@.len());
        }
        return false;
    }
    let mut i: usize = 0;
    while i < a.len()
        invariant
            a@.len() == b@.len(),
            i <= a@.len(),
            forall|j: int| 0 <= j < i ==> a@[j] == b@[j],
        decreases a@.len() - i,
    {
        if a[i] != b[i] {
            proof {
                assert(a@[i as int] != b@[i as int]);
            }
            return false;
        }
        i = i + 1;
    }
    proof {
        assert(a@ =~= b@);
    }
    true
}

/// The transaction kind a type field names.
pub open spec fn tx_type_of(s: Seq<u8>) -> Option<TransactionType> {
    if s == "deposit".spec_bytes() {
        Some(TransactionType::Deposit)
    } else if s == "withdrawal".spec_bytes() {
        Some(TransactionType::Withdrawal)
    } else if s == "dispute".spec_bytes() {
        Some(TransactionType::Dispute)
    } else if s == "resolve".spec_bytes() {
        Some(TransactionType::Resolve)
    } else if s == "chargeback".spec_bytes() {
        Some(TransactionType::Chargeback)
    } else {
        None
    }
}

/// Parses the type field exactly as `tx_type_of` gives.
pub fn parse_tx_type(s: &[u8]) -> (r: Option<TransactionType>)
    ensures
        r == tx_type_of(s@),
{
    if bytes_eq(s, "deposit".as_bytes()) {
        Some(TransactionType::Deposit)
    } else if bytes_eq(s, "withdrawal".as_bytes()) {
        Some(TransactionType::Withdrawal)
    } else if bytes_eq(s, "dispute".as_bytes()) {
        Some(TransactionType::Dispute)
    } else if bytes_eq(s, "resolve".as_bytes()) {
        Some(TransactionType::Resolve)
    } else if bytes_eq(s, "chargeback".as_bytes()) {
        Some(TransactionType::Chargeback)
    } else {
        None
    }
}

/// Builds a transaction from the four fields of a row. The client and
/// transaction ids must be plain decimal numbers in range; the amount
/// field may be absent or empty, but when present it must be a valid
/// fixed-point decimal with no further field after it.
pub open spec fn row_from_fields(
    f0: Seq<u8>,
    f1: Seq<u8>,
    f2: Seq<u8>,
    af: Option<Seq<u8>>,
) -> Option<Transaction> {
    match tx_type_of(f0) {
        None => None,
        Some(tt) => if !(f1.len() >= 1 && all_digits(f1) && digits_val(f1) <= u16::MAX) {
            None
        } else if !(f2.len() >= 1 && all_digits(f2) && digits_val(f2) <= u32::MAX) {
            None
        } else {
            let client = digits_val(f1) as u16;
            let tx = digits_val(f2) as u32;
            match af {
                None => Some(Transaction { transaction_type: tt, client, tx, amount: None }),
                Some(afs) => if afs.len() == 0 {
                    Some(Transaction { transaction_type: tt, client, tx, amount: None })
                } else if first_byte(afs, COMMA_BYTE) != afs.len() {
                    None
                } else {
                    match amount_of(afs) {
                        None => None,
                        Some(v) => Some(
                            Transaction { transaction_type: tt, client, tx, amount: Some(v) },
                        ),
                    }
                },
            }
        },
    }
}

/// Parses the fields exactly as `row_from_fields` gives.
fn parse_fields(f0: &[u8], f1: &[u8], f2: &[u8], af: Option<&[u8]>) -> (r: Option<Transaction>)
    ensures
        r == row_from_fields(
            f0@,
            f1@,
            f2@,
            match af {
                Some(x) => Some(x@),
                None => None,
            },
        ),
{
    let tt = match parse_tx_type(f0) {
        Some(tt) => tt,
        None => {
            return None;
        },
    };
    let client_val = match parse_digits(f1) {
        Some(v) => v,
        None => {
            return None;
        },
    };
    proof {
        crate::amount::lemma_digits_val_nonneg(f1@);
    }
    if client_val > 65535 {
        return None;
    }
    let client = client_val as u16;
    let tx_val = match parse_digits(f2) {
        Some(v) => v,
        None => {
            return None;
        },
    };
    proof {
        crate::amount::lemma_digits_val_nonneg(f2@);
    }
    if tx_val > 4294967295 {
        return None;
    }
    let tx = tx_val as u32;
    match af {
        None => Some(Transaction { transaction_type: tt, client, tx, amount: None }),
        Some(afs) => {
            if afs.len() == 0 {
                return Some(Transaction { transaction_type: tt, client, tx, amount: None });
            }
            if find_byte(afs, COMMA_BYTE) != afs.len() {
                return None;
            }
            match parse_amount(afs) {
                None => None,
                Some(v) => Some(Transaction { transaction_type: tt, client, tx, amount: Some(v) }),
            }
        },
    }
}

/// The transaction one row spells: `type,client,tx[,amount]`. A row
/// of any other shape spells none and is skipped.
pub open spec fn row_of(line: Seq<u8>) -> Option<Transaction> {
    let c1 = first_byte(line, COMMA_BYTE) as int;
    if c1 == line.len() {
        None
    } else {
        let f0 = line.subrange(0, c1);
        let rest1 = line.subrange(c1 + 1, line.len() as int);
        let c2 = first_byte(rest1, COMMA_BYTE) as int;
        if c2 == rest1.len() {
            None
        } else {
            let f1 = rest1.subrange(0, c2);
            let rest2 = rest1.subrange(c2 + 1, rest1.len() as int);
            let c3 = first_byte(rest2, COMMA_BYTE) as int;
            let f2 = rest2.subrange(0, c3);
            let af = if c3 == rest2.len() {
                None
            } else {
                Some(rest2.subrange(c3 + 1, rest2.len() as int))
            };
            row_from_fields(f0, f1, f2, af)
        }
    }
}

/// Parses one row exactly as `row_of` gives.
pub fn parse_row(line: &[u8]) -> (r: Option<Transaction>)
    ensures
        r == row_of(line@),
{
    let n = line.len();
    let c1 = find_byte(line, COMMA_BYTE);
    proof {
        lemma_first_byte(line@, COMMA_BYTE);
    }
    if c1 == n {
        return None;
    }
    let f0 = &line[0..c1];
    let rest1 = &line[c1 + 1..n];
    let c2 = find_byte(rest1, COMMA_BYTE);
    proof {
        lemma_first_byte(rest1@, COMMA_BYTE);
    }
    if c2 == rest1.len() {
        return None;
    }
    let f1 = &rest1[0..c2];
    let rest2 = &rest1[c2 + 1..rest1.len()];
    let c3 = find_byte(rest2, COMMA_BYTE);
    proof {
        lemma_first_byte(rest2@, COMMA_BYTE);
    }
    let f2 = &rest2[0..c3];
    if c3 == rest2.len() {
        parse_fields(f0, f1, f2, None)
    } else {
        let afs = &rest2[c3 + 1..rest2.len()];
        parse_fields(f0, f1, f2, Some(afs))
    }
}

/// Appends the bytes of a literal.
fn push_literal(out: &mut Vec<u8>, s: &str)
    ensures
        final(out)@ == old(out)@ + s.spec_bytes(),
{
    let mut b = vstd::slice::slice_to_vec(s.as_bytes());
    out.append(&mut b);
}

/// The header row of the output.
pub open spec fn header_bytes() -> Seq<u8> {
    "client,available,held,total,locked\n".spec_bytes()
}

/// Appends the output header row.
pub fn push_header(out: &mut Vec<u8>)
    ensures
        final(out)@ == old(out)@ + header_bytes(),
{
    push_literal(out, "client,available,held,total,locked\n");
}

/// One output row: client, available, held, total and the lock flag,
/// comma separated, the total being the sum of the two balances.
pub open spec fn render_row(client: ClientId, available: u64, held: u64, locked: bool) -> Seq<u8> {
    u64_digits(client as nat) + ",".spec_bytes() + render_amount(available) + ",".spec_bytes()
        + render_amount(held) + ",".spec_bytes() + render_amount((available + held) as u64)
        + ",".spec_bytes() + (if locked {
        "true".spec_bytes()
    } else {
        "false".spec_bytes()
    }) + "\n".spec_bytes()
}

/// Appends one output row.
pub fn push_row(out: &mut Vec<u8>, client: ClientId, available: u64, held: u64, locked: bool)
    requires
        available + held <= u64::MAX,
    ensures
        final(out)@ == old(out)@ + render_row(client, available, held, locked),
{
    push_u64(out, client as u64);
    push_literal(out, ",");
    push_amount(out, available);
    push_literal(out, ",");
    push_amount(out, held);
    push_literal(out, ",");
    push_amount(out, available + held);
    push_literal(out, ",");
    if locked {
        push_literal(out, "true");
    } else {
        push_literal(out, "false");
    }
    push_literal(out, "\n");
    proof {
        assert(out@ =~= old(out)@ + render_row(client, available, held, locked));
    }
}

} // verus!
