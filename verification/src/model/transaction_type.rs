use vstd::prelude::*;

use crate::errors::{ErrorKind, ParseError};
use crate::format::common;

verus! {

/// The semantic kind of a transaction.
#[derive(Clone, Copy, PartialEq, Eq, Structural, Debug)]
pub enum TransactionType {
    /// Account replenishment.
    Deposit,
    /// Transfer between accounts.
    Transfer,
    /// Account withdrawal.
    Withdrawal,
}

/// The single-byte wire code of a transaction type.
pub open spec fn type_code(t: TransactionType) -> u8 {
    match t {
        TransactionType::Deposit => 0,
        TransactionType::Transfer => 1,
        TransactionType::Withdrawal => 2,
    }
}

/// The transaction type a single-byte wire code stands for, if any.
pub open spec fn code_to_type(value: u8) -> Option<TransactionType> {
    if value == 0 {
        Some(TransactionType::Deposit)
    } else if value == 1 {
        Some(TransactionType::Transfer)
    } else if value == 2 {
        Some(TransactionType::Withdrawal)
    } else {
        None
    }
}

/// The fixed uppercase token of a transaction type, as bytes.
pub open spec fn type_token(t: TransactionType) -> Seq<u8> {
    match t {
        TransactionType::Deposit => seq![68u8, 69u8, 80u8, 79u8, 83u8, 73u8, 84u8],
        TransactionType::Transfer => seq![84u8, 82u8, 65u8, 78u8, 83u8, 70u8, 69u8, 82u8],
        TransactionType::Withdrawal => seq![
            87u8,
            73u8,
            84u8,
            72u8,
            68u8,
            82u8,
            65u8,
            87u8,
            65u8,
            76u8,
        ],
    }
}

/// The capitalised display name of a transaction type, as bytes.
pub open spec fn type_display(t: TransactionType) -> Seq<u8> {
    match t {
        TransactionType::Deposit => seq![68u8, 101u8, 112u8, 111u8, 115u8, 105u8, 116u8],
        TransactionType::Transfer => seq![84u8, 114u8, 97u8, 110u8, 115u8, 102u8, 101u8, 114u8],
        TransactionType::Withdrawal => seq![
            87u8,
            105u8,
            116u8,
            104u8,
            100u8,
            114u8,
            97u8,
            119u8,
            97u8,
            108u8,
        ],
    }
}

/// The transaction type whose token matches `s` case-insensitively, if any.
pub open spec fn token_to_type(s: Seq<u8>) -> Option<TransactionType> {
    if common::eq_ignore_case(s, type_token(TransactionType::Deposit)) {
        Some(TransactionType::Deposit)
    } else if common::eq_ignore_case(s, type_token(TransactionType::Transfer)) {
        Some(TransactionType::Transfer)
    } else if common::eq_ignore_case(s, type_token(TransactionType::Withdrawal)) {
        Some(TransactionType::Withdrawal)
    } else {
        None
    }
}

/// The numeric code and the uppercase token are exact inverses over the
/// closed variant set.
pub proof fn lemma_type_mappings_invert(t: TransactionType)
    ensures
        code_to_type(type_code(t)) == Some(t),
        token_to_type(type_token(t)) == Some(t),
{
    common::lemma_eq_ignore_case_refl(type_token(t));
    match t {
        TransactionType::Deposit => {
        },
        TransactionType::Transfer => {
            assert(!common::eq_ignore_case(type_token(t), type_token(TransactionType::Deposit)));
        },
        TransactionType::Withdrawal => {
            assert(!common::eq_ignore_case(type_token(t), type_token(TransactionType::Deposit)));
            assert(!common::eq_ignore_case(type_token(t), type_token(TransactionType::Transfer)));
        },
    }
}

/// Every transaction-type token and display name is made of plain letters.
pub proof fn lemma_type_token_plain(ty: TransactionType)
    ensures
        type_token(ty).len() > 0,
        forall|i: int| 0 <= i < type_token(ty).len() ==> 65 <= #[trigger] type_token(ty)[i] <= 90,
        type_display(ty).len() > 0,
        forall|i: int|
            0 <= i < type_display(ty).len() ==> 65 <= #[trigger] type_display(ty)[i] <= 122,
{
    match ty {
        TransactionType::Deposit => {
            assert forall|i: int|
                0 <= i < type_token(ty).len() implies 65 <= #[trigger] type_token(ty)[i] <= 90 by {
                assert(type_token(ty).len() == 7);
            }
            assert forall|i: int|
                0 <= i < type_display(ty).len() implies 65 <= #[trigger] type_display(ty)[i]
                <= 122 by {
                assert(type_display(ty).len() == 7);
            }
        },
        TransactionType::Transfer => {
            assert forall|i: int|
                0 <= i < type_token(ty).len() implies 65 <= #[trigger] type_token(ty)[i] <= 90 by {
                assert(type_token(ty).len() == 8);
            }
            assert forall|i: int|
                0 <= i < type_display(ty).len() implies 65 <= #[trigger] type_display(ty)[i]
                <= 122 by {
                assert(type_display(ty).len() == 8);
            }
        },
        TransactionType::Withdrawal => {
            assert forall|i: int|
                0 <= i < type_token(ty).len() implies 65 <= #[trigger] type_token(ty)[i] <= 90 by {
                assert(type_token(ty).len() == 10);
            }
            assert forall|i: int|
                0 <= i < type_display(ty).len() implies 65 <= #[trigger] type_display(ty)[i]
                <= 122 by {
                assert(type_display(ty).len() == 10);
            }
        },
    }
}

impl TransactionType {
    /// The single-byte wire representation of this transaction type.
    pub fn to_u8(&self) -> (r: u8)
        ensures
            r == type_code(*self),
    {
        match self {
            Self::Deposit => 0,
            Self::Transfer => 1,
            Self::Withdrawal => 2,
        }
    }

    /// The transaction type a wire byte stands for; rejects every byte
    /// outside the closed code set with an error naming that byte.
    pub fn from_u8(value: u8) -> (r: Result<Self, ParseError>)
        ensures
            r is Ok <==> code_to_type(value) is Some,
            r is Ok ==> Some(r->Ok_0) == code_to_type(value),
            r is Err ==> crate::errors::matches_kind(r->Err_0, ErrorKind::TypeCode(value)),
    {
        match value {
            0u8 => Ok(Self::Deposit),
            1u8 => Ok(Self::Transfer),
            2u8 => Ok(Self::Withdrawal),
            _ => {
                let mut m = common::new_string("Invalid transaction type: ");
                common::append_u64(&mut m, value as u64);
                Err(ParseError::InvalidTransactionType(m))
            },
        }
    }

    /// The uppercase token of this transaction type, as bytes.
    pub fn token_bytes(&self) -> (r: Vec<u8>)
        ensures
            r@ == type_token(*self),
    {
        match self {
            Self::Deposit => {
                let mut v: Vec<u8> = Vec::new();
                v.push(68u8);
                v.push(69u8);
                v.push(80u8);
                v.push(79u8);
                v.push(83u8);
                v.push(73u8);
                v.push(84u8);
                assert(v@ =~= type_token(*self));
                v
            },
            Self::Transfer => {
                let mut v: Vec<u8> = Vec::new();
                v.push(84u8);
                v.push(82u8);
                v.push(65u8);
                v.push(78u8);
                v.push(83u8);
                v.push(70u8);
                v.push(69u8);
                v.push(82u8);
                assert(v@ =~= type_token(*self));
                v
            },
            Self::Withdrawal => {
                let mut v: Vec<u8> = Vec::new();
                v.push(87u8);
                v.push(73u8);
                v.push(84u8);
                v.push(72u8);
                v.push(68u8);
                v.push(82u8);
                v.push(65u8);
                v.push(87u8);
                v.push(65u8);
                v.push(76u8);
                assert(v@ =~= type_token(*self));
                v
            },
        }
    }

    /// The capitalised display name of this transaction type, as bytes.
    pub fn display_bytes(&self) -> (r: Vec<u8>)
        ensures
            r@ == type_display(*self),
    {
        match self {
            Self::Deposit => {
                let mut v: Vec<u8> = Vec::new();
                v.push(68u8);
                v.push(101u8);
                v.push(112u8);
                v.push(111u8);
                v.push(115u8);
                v.push(105u8);
                v.push(116u8);
                assert(v@ =~= type_display(*self));
                v
            },
            Self::Transfer => {
                let mut v: Vec<u8> = Vec::new();
                v.push(84u8);
                v.push(114u8);
                v.push(97u8);
                v.push(110u8);
                v.push(115u8);
                v.push(102u8);
                v.push(101u8);
                v.push(114u8);
                assert(v@ =~= type_display(*self));
                v
            },
            Self::Withdrawal => {
                let mut v: Vec<u8> = Vec::new();
                v.push(87u8);
                v.push(105u8);
                v.push(116u8);
                v.push(104u8);
                v.push(100u8);
                v.push(114u8);
                v.push(97u8);
                v.push(119u8);
                v.push(97u8);
                v.push(108u8);
                assert(v@ =~= type_display(*self));
                v
            },
        }
    }
}

} // verus!
