use vstd::prelude::*;
use vstd::string::StringSliceAdditionalSpecFns;

use crate::amount::{denotes, is_split, parse_amount, units_at};
use crate::error::AppError;

verus! {

/// The five operations a ledger record can carry.
#[allow(non_camel_case_types)]
#[derive(Clone, Copy, Debug, PartialEq, Eq, Structural)]
pub enum TransactionOp {
    DEPOSIT,
    WITHDRAWAL,
    DISPUTE,
    RESOLVE,
    CHARGEBACK,
}

/// The byte with ASCII upper case folded to lower case.
pub open spec fn to_lower(c: u8) -> u8 {
    if 65 <= c <= 90 {
        (c + 32) as u8
    } else {
        c
    }
}

/// The lower-case ASCII name of each operation.
pub open spec fn op_name(op: TransactionOp) -> Seq<u8> {
    match op {
        // "deposit"
        TransactionOp::DEPOSIT => seq![100u8, 101, 112, 111, 115, 105, 116],
        // "withdrawal"
        TransactionOp::WITHDRAWAL => seq![119u8, 105, 116, 104, 100, 114, 97, 119, 97, 108],
        // "dispute"
        TransactionOp::DISPUTE => seq![100u8, 105, 115, 112, 117, 116, 101],
        // "resolve"
        TransactionOp::RESOLVE => seq![114u8, 101, 115, 111, 108, 118, 101],
        // "chargeback"
        TransactionOp::CHARGEBACK => seq![99u8, 104, 97, 114, 103, 101, 98, 97, 99, 107],
    }
}

/// `s` spells `name`, ignoring ASCII case.
pub open spec fn matches_name(s: Seq<u8>, name: Seq<u8>) -> bool {
    s.len() == name.len() && forall|i: int| 0 <= i < s.len() ==> to_lower(#[trigger] s[i]) == name[i]
}

/// The operation that `s` names, ignoring ASCII case.
pub open spec fn op_named(s: Seq<u8>) -> Option<TransactionOp> {
    if matches_name(s, op_name(TransactionOp::DEPOSIT)) {
        Some(TransactionOp::DEPOSIT)
    } else if matches_name(s, op_name(TransactionOp::WITHDRAWAL)) {
        Some(TransactionOp::WITHDRAWAL)
    } else if matches_name(s, op_name(TransactionOp::DISPUTE)) {
        Some(TransactionOp::DISPUTE)
    } else if matches_name(s, op_name(TransactionOp::RESOLVE)) {
        Some(TransactionOp::RESOLVE)
    } else if matches_name(s, op_name(TransactionOp::CHARGEBACK)) {
        Some(TransactionOp::CHARGEBACK)
    } else {
        None
    }
}

/// No reading of the amount text `s` fits an `i64`, or it is no amount.
pub open spec fn amount_rejected(s: Seq<u8>) -> bool {
    forall|k: int| #[trigger] is_split(s, k) ==> units_at(s, k) > i64::MAX
}

fn name_bytes(op: TransactionOp) -> (r: Vec<u8>)
    ensures
        r@ == op_name(op),
{
    match op {
        TransactionOp::DEPOSIT => vec![100u8, 101, 112, 111, 115, 105, 116],
        TransactionOp::WITHDRAWAL => vec![119u8, 105, 116, 104, 100, 114, 97, 119, 97, 108],
        TransactionOp::DISPUTE => vec![100u8, 105, 115, 112, 117, 116, 101],
        TransactionOp::RESOLVE => vec![114u8, 101, 115, 111, 108, 118, 101],
        TransactionOp::CHARGEBACK => vec![99u8, 104, 97, 114, 103, 101, 98, 97, 99, 107],
    }
}

fn lower(c: u8) -> (r: u8)
    ensures
        r == to_lower(c),
{
    if 65 <= c && c <= 90 {
        c + 32
    } else {
        c
    }
}

fn spells(s: &[u8], name: &Vec<u8>) -> (r: bool)
    ensures
        r == matches_name(s@, name@),
{
    if s.len() != name.len() {
        return false;
    }
    let mut i: usize = 0;
    while i < s.len()
        invariant
            i <= s@.len(),
            s@.len() == name@.len(),
            forall|j: int| 0 <= j < i ==> to_lower(#[trigger] s@[j]) == name@[j],
        decreases s.len() - i,
    {
        if lower(s[i]) != name[i] {
            return false;
        }
        i = i + 1;
    }
    true
}

impl TransactionOp {
    /// The operation named by `s`, in any ASCII case.
    pub fn from_name(s: &str) -> (r: Result<TransactionOp, AppError>)
        ensures
            match r {
                Ok(op) => op_named(s.spec_bytes()) == Some(op),
                Err(AppError::ParseError(d)) => op_named(s.spec_bytes()) is None && d@ == s@,
                Err(_) => false,
            },
    {
        let b = s.as_bytes();
        if spells(b, &name_bytes(TransactionOp::DEPOSIT)) {
            Ok(TransactionOp::DEPOSIT)
        } else if spells(b, &name_bytes(TransactionOp::WITHDRAWAL)) {
            Ok(TransactionOp::WITHDRAWAL)
        } else if spells(b, &name_bytes(TransactionOp::DISPUTE)) {
            Ok(TransactionOp::DISPUTE)
        } else if spells(b, &name_bytes(TransactionOp::RESOLVE)) {
            Ok(TransactionOp::RESOLVE)
        } else if spells(b, &name_bytes(TransactionOp::CHARGEBACK)) {
            Ok(TransactionOp::CHARGEBACK)
        } else {
            Err(AppError::ParseError(s.to_owned()))
        }
    }
}

/// One input record. Amounts are fixed-point values counted in
/// ten-thousandths of a currency unit (four fractional digits).
#[derive(Clone, Copy, Debug, PartialEq, Eq, Structural)]
pub struct Transaction {
    pub op: TransactionOp,
    pub client: u16,
    pub tx: u32,
    pub amount: Option<i64>,
}

impl Transaction {
    pub fn new(op: TransactionOp, client: u16, tx: u32, amount: Option<i64>) -> (r: Transaction)
        ensures
            r == (Transaction { op, client, tx, amount }),
    {
        Transaction { op, client, tx, amount }
    }

    /// Builds a record from its fields as text: the operation name in any
    /// ASCII case, and the amount, if present, as a decimal cut to four
    /// fractional digits. A malformed amount is a table error and is
    /// reported before an unknown operation name.
    pub fn parse(type_: &str, client: u16, tx: u32, amount: Option<&str>) -> (r: Result<
        Transaction,
        AppError,
    >)
        ensures
            match r {
                Ok(t) => {
                    &&& t.client == client
                    &&& t.tx == tx
                    &&& op_named(type_.spec_bytes()) == Some(t.op)
                    &&& match amount {
                        None => t.amount is None,
                        Some(x) => t.amount matches Some(v) && denotes(x.spec_bytes(), v as int),
                    }
                },
                Err(AppError::CsvError(d)) => amount matches Some(x) && amount_rejected(
                    x.spec_bytes(),
                ) && d@ == x@,
                Err(AppError::ParseError(d)) => {
                    &&& !(amount matches Some(x) && amount_rejected(x.spec_bytes()))
                    &&& op_named(type_.spec_bytes()) is None
                    &&& d@ == type_@
                },
                Err(AppError::FileError(_)) => false,
            },
    {
        let value = match amount {
            None => None,
            Some(x) => match parse_amount(x.as_bytes()) {
                Some(v) => Some(v),
                None => {
                    return Err(AppError::CsvError(x.to_owned()));
                },
            },
        };
        match TransactionOp::from_name(type_) {
            Ok(op) => Ok(Transaction { op, client, tx, amount: value }),
            Err(e) => Err(e),
        }
    }
}

} // verus!
