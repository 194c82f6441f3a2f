use vstd::prelude::*;

use crate::errors::{ErrorKind, ParseError};
use crate::format::common;

verus! {

/// The outcome state a transaction record carries.
#[derive(Clone, Copy, PartialEq, Eq, Structural, Debug)]
pub enum TransactionStatus {
    /// Successful transaction.
    Success,
    /// Failed transaction.
    Failure,
    /// Pending transaction.
    Pending,
}

/// The single-byte wire code of a transaction status.
pub open spec fn status_code(s: TransactionStatus) -> u8 {
    match s {
        TransactionStatus::Success => 0,
        TransactionStatus::Failure => 1,
        TransactionStatus::Pending => 2,
    }
}

/// The transaction status a single-byte wire code stands for, if any.
pub open spec fn code_to_status(value: u8) -> Option<TransactionStatus> {
    if value == 0 {
        Some(TransactionStatus::Success)
    } else if value == 1 {
        Some(TransactionStatus::Failure)
    } else if value == 2 {
        Some(TransactionStatus::Pending)
    } else {
        None
    }
}

/// The fixed uppercase token of a transaction status, as bytes.
pub open spec fn status_token(s: TransactionStatus) -> Seq<u8> {
    match s {
        TransactionStatus::Success => seq![83u8, 85u8, 67u8, 67u8, 69u8, 83u8, 83u8],
        TransactionStatus::Failure => seq![70u8, 65u8, 73u8, 76u8, 85u8, 82u8, 69u8],
        TransactionStatus::Pending => seq![80u8, 69u8, 78u8, 68u8, 73u8, 78u8, 71u8],
    }
}

/// The transaction status whose token matches `s` case-insensitively, if any.
pub open spec fn token_to_status(s: Seq<u8>) -> Option<TransactionStatus> {
    if common::eq_ignore_case(s, status_token(TransactionStatus::Success)) {
        Some(TransactionStatus::Success)
    } else if common::eq_ignore_case(s, status_token(TransactionStatus::Failure)) {
        Some(TransactionStatus::Failure)
    } else if common::eq_ignore_case(s, status_token(TransactionStatus::Pending)) {
        Some(TransactionStatus::Pending)
    } else {
        None
    }
}

/// The numeric code and the uppercase token are exact inverses over the
/// closed variant set.
pub proof fn lemma_status_mappings_invert(s: TransactionStatus)
    ensures
        code_to_status(status_code(s)) == Some(s),
        token_to_status(status_token(s)) == Some(s),
{
    common::lemma_eq_ignore_case_refl(status_token(s));
    match s {
        TransactionStatus::Success => {
        },
        TransactionStatus::Failure => {
            assert(!common::eq_ignore_case(
                status_token(s),
                status_token(TransactionStatus::Success),
            ));
        },
        TransactionStatus::Pending => {
            assert(!common::eq_ignore_case(
                status_token(s),
                status_token(TransactionStatus::Success),
            ));
            assert(!common::eq_ignore_case(
                status_token(s),
                status_token(TransactionStatus::Failure),
            ));
        },
    }
}

/// Every transaction-status token is made of plain uppercase letters.
pub proof fn lemma_status_token_plain(st: TransactionStatus)
    ensures
        status_token(st).len() > 0,
        forall|i: int|
            0 <= i < status_token(st).len() ==> 65 <= #[trigger] status_token(st)[i] <= 90,
{
    match st {
        TransactionStatus::Success => {
            assert forall|i: int|
                0 <= i < status_token(st).len() implies 65 <= #[trigger] status_token(st)[i]
                <= 90 by {
                assert(status_token(st).len() == 7);
            }
        },
        TransactionStatus::Failure => {
            assert forall|i: int|
                0 <= i < status_token(st).len() implies 65 <= #[trigger] status_token(st)[i]
                <= 90 by {
                assert(status_token(st).len() == 7);
            }
        },
        TransactionStatus::Pending => {
            assert forall|i: int|
                0 <= i < status_token(st).len() implies 65 <= #[trigger] status_token(st)[i]
                <= 90 by {
                assert(status_token(st).len() == 7);
            }
        },
    }
}

impl TransactionStatus {
    /// The single-byte wire representation of this transaction status.
    pub fn to_u8(&self) -> (r: u8)
        ensures
            r == status_code(*self),
    {
        match self {
            Self::Success => 0,
            Self::Failure => 1,
            Self::Pending => 2,
        }
    }

    /// The transaction status a wire byte stands for; rejects every byte
    /// outside the closed code set with an error naming that byte.
    pub fn from_u8(value: u8) -> (r: Result<Self, ParseError>)
        ensures
            r is Ok <==> code_to_status(value) is Some,
            r is Ok ==> Some(r->Ok_0) == code_to_status(value),
            r is Err ==> crate::errors::matches_kind(r->Err_0, ErrorKind::StatusCode(value)),
    {
        match value {
            0u8 => Ok(Self::Success),
            1u8 => Ok(Self::Failure),
            2u8 => Ok(Self::Pending),
            _ => {
                let mut m = common::new_string("Invalid transaction status: ");
                common::append_u64(&mut m, value as u64);
                Err(ParseError::InvalidTransactionStatus(m))
            },
        }
    }

    /// The uppercase token of this transaction status, as bytes.
    pub fn token_bytes(&self) -> (r: Vec<u8>)
        ensures
            r@ == status_token(*self),
    {
        match self {
            Self::Success => {
                let mut v: Vec<u8> = Vec::new();
                v.push(83u8);
                v.push(85u8);
                v.push(67u8);
                v.push(67u8);
                v.push(69u8);
                v.push(83u8);
                v.push(83u8);
                assert(v@ =~= status_token(*self));
                v
            },
            Self::Failure => {
                let mut v: Vec<u8> = Vec::new();
                v.push(70u8);
                v.push(65u8);
                v.push(73u8);
                v.push(76u8);
                v.push(85u8);
                v.push(82u8);
                v.push(69u8);
                assert(v@ =~= status_token(*self));
                v
            },
            Self::Pending => {
                let mut v: Vec<u8> = Vec::new();
                v.push(80u8);
                v.push(69u8);
                v.push(78u8);
                v.push(68u8);
                v.push(73u8);
                v.push(78u8);
                v.push(71u8);
                assert(v@ =~= status_token(*self));
                v
            },
        }
    }
}

} // verus!
