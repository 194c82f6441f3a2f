use vstd::prelude::*;

use crate::format::common::{dec_chars, field_names, msg_raw};
use crate::model::transaction_type::TransactionType;

verus! {

/// The reason a decode or encode was rejected, together with the values
/// the concrete error must carry.
///
/// The specification-level decoders in the codec modules report their
/// outcome with one of these kinds; the executable codecs promise to
/// return a [`ParseError`] that [`matches_kind`] the kind the
/// specification gives, payloads and message text included.
pub ghost enum ErrorKind {
    /// The input ended in the middle of a binary record, or a textual
    /// source was not valid UTF-8.
    Io,
    /// A binary record began with these four bytes instead of the
    /// expected magic marker.
    Magic(Seq<u8>, Seq<u8>),
    /// This binary transaction-type code was out of range.
    TypeCode(u8),
    /// This binary transaction-status code was out of range.
    StatusCode(u8),
    /// This binary wire amount contradicted this transaction type's sign
    /// rule.
    SignMismatch(i64, TransactionType),
    /// This non-positive or unrepresentable ledger amount was rejected.
    Amount(i64),
    /// A binary record size field (second value) did not match the
    /// record's actual size (first value).
    Size(int, int),
    /// Description bytes were not valid UTF-8.
    DescriptionUtf8,
    /// The CSV header row held these fields instead of exactly the
    /// required columns in order.
    Header(Seq<Seq<u8>>),
    /// A CSV data row held these fields, not the required eight.
    FieldCount(Seq<Seq<u8>>),
    /// A CSV field was not terminated according to the quoting rules.
    Quote,
    /// This raw value for this field, at this line, was not a numeral.
    Number(Seq<char>, Seq<u8>, int),
    /// This transaction-type token, at this line, was not recognised.
    TypeToken(Seq<u8>, int),
    /// This transaction-status token, at this line, was not recognised.
    StatusToken(Seq<u8>, int),
    /// This description value, at this line, was not wrapped in double
    /// quotes.
    QuoteMissing(Seq<u8>, int),
    /// This non-blank, non-comment text line, at this line number, held
    /// no colon.
    MalformedLine(Seq<u8>, int),
    /// This key occurred twice within one text block, at this line.
    DuplicateKey(Seq<u8>, int),
    /// This mandatory key was missing from the block ending at this line.
    MissingKey(Seq<u8>, int),
    /// A deposit carried this non-zero source account.
    FromUser(u64),
    /// A withdrawal carried this non-zero destination account.
    ToUser(u64),
}

/// Errors raised when parsing or serialising transactions.
///
/// Message payloads carry human-readable context (field names, raw
/// values, line numbers); the codec contracts pin the variant and what it
/// carries through [`matches_kind`].
#[derive(Debug)]
pub enum ParseError {
    /// Input ended unexpectedly or a source was unreadable as text.
    Io(String),
    /// Transaction type code parsing error.
    InvalidTransactionType(String),
    /// Transaction status code parsing error.
    InvalidTransactionStatus(String),
    /// Transaction data validation error.
    Validation(String),
    /// CSV header fields do not match the required fields.
    /// Carries the actual fields, then the required fields.
    InvalidHeader(Vec<String>, Vec<String>),
    /// CSV record field count does not match the required count.
    /// Carries the actual fields, then the required fields.
    InvalidRecord(Vec<String>, Vec<String>),
    /// A binary record marker does not match the required magic value.
    /// Carries the actual bytes, then the required bytes.
    InvalidMagic([u8; 4], [u8; 4]),
    /// The sign of a wire amount is invalid for the transaction type.
    InvalidAmountForTransactionType(i64, TransactionType),
    /// A non-positive or unrepresentable transaction amount.
    InvalidAmount(i64),
    /// An invalid description: bad quoting or invalid UTF-8.
    InvalidDescription(String),
    /// Invalid data, such as a wrong binary record size or bad CSV quoting.
    InvalidData(String),
}

/// The message carried for an out-of-range transaction-type code.
pub open spec fn type_code_msg(value: u8) -> Seq<char> {
    "Invalid transaction type: "@ + dec_chars(value as nat)
}

/// The message carried for an out-of-range transaction-status code.
pub open spec fn status_code_msg(value: u8) -> Seq<char> {
    "Invalid transaction status: "@ + dec_chars(value as nat)
}

/// The message carried for an unparseable numeric field.
pub open spec fn number_msg(field: Seq<char>, raw: Seq<u8>, line: int) -> Seq<char> {
    "Invalid "@ + field + " value '"@ + msg_raw(raw) + "' at line "@ + dec_chars(line as nat)
}

/// The message carried for an unrecognised transaction-type token.
pub open spec fn type_token_msg(raw: Seq<u8>, line: int) -> Seq<char> {
    "Invalid TX_TYPE '"@ + msg_raw(raw) + "' at line "@ + dec_chars(line as nat)
}

/// The message carried for an unrecognised transaction-status token.
pub open spec fn status_token_msg(raw: Seq<u8>, line: int) -> Seq<char> {
    "Invalid STATUS '"@ + msg_raw(raw) + "' at line "@ + dec_chars(line as nat)
}

/// The message carried for an unquoted description value.
pub open spec fn quote_missing_msg(raw: Seq<u8>, line: int) -> Seq<char> {
    "DESCRIPTION must be in double quotes at line "@ + dec_chars(line as nat) + ": "@ + msg_raw(
        raw,
    )
}

/// The message carried for a text line holding no colon.
pub open spec fn malformed_line_msg(l: Seq<u8>, line: int) -> Seq<char> {
    "Invalid line format at line "@ + dec_chars(line as nat) + ": '"@ + msg_raw(l) + "'"@
}

/// The message carried for a key repeated within one text block.
pub open spec fn duplicate_key_msg(key: Seq<u8>, line: int) -> Seq<char> {
    "Duplicate key '"@ + msg_raw(key) + "' in transaction at line "@ + dec_chars(line as nat)
}

/// The message carried for a mandatory key missing from a closed block.
pub open spec fn missing_key_msg(key: Seq<u8>, line: int) -> Seq<char> {
    "Missing required field '"@ + msg_raw(key) + "' in transaction ending at line "@ + dec_chars(
        line as nat,
    )
}

/// The message carried for a deposit with a non-zero source account.
pub open spec fn from_user_msg(from_user_id: u64) -> Seq<char> {
    "FROM_USER_ID must be 0 for DEPOSIT, got "@ + dec_chars(from_user_id as nat)
}

/// The message carried for a withdrawal with a non-zero destination
/// account.
pub open spec fn to_user_msg(to_user_id: u64) -> Seq<char> {
    "TO_USER_ID must be 0 for WITHDRAWAL, got "@ + dec_chars(to_user_id as nat)
}

/// The message carried for a binary record size mismatch.
pub open spec fn size_msg(expected: int, actual: int) -> Seq<char> {
    "Invalid data size: expected "@ + dec_chars(expected as nat) + ", actual "@ + dec_chars(
        actual as nat,
    )
}

/// How a list of raw fields is carried in a structured error payload:
/// each field rendered as [`msg_raw`].
pub open spec fn fields_payload(fs: Seq<Seq<u8>>) -> Seq<Seq<char>> {
    fs.map_values(|f: Seq<u8>| msg_raw(f))
}

/// The required-fields half of a structured CSV error payload: the eight
/// column names.
pub open spec fn required_payload() -> Seq<Seq<char>> {
    fields_payload(field_names())
}

/// True when the concrete error `e` is the variant that the error kind
/// `k` is surfaced as, carrying the payload values and message text the
/// kind demands.
pub open spec fn matches_kind(e: ParseError, k: ErrorKind) -> bool {
    match k {
        ErrorKind::Io => e is Io,
        ErrorKind::Magic(actual, expected) => match e {
            ParseError::InvalidMagic(a, m) => a@ == actual && m@ == expected,
            _ => false,
        },
        ErrorKind::TypeCode(b) => match e {
            ParseError::InvalidTransactionType(m) => m@ == type_code_msg(b),
            _ => false,
        },
        ErrorKind::StatusCode(b) => match e {
            ParseError::InvalidTransactionStatus(m) => m@ == status_code_msg(b),
            _ => false,
        },
        ErrorKind::SignMismatch(wire, t) => match e {
            ParseError::InvalidAmountForTransactionType(a, ty) => a == wire && ty == t,
            _ => false,
        },
        ErrorKind::Amount(a) => match e {
            ParseError::InvalidAmount(x) => x == a,
            _ => false,
        },
        ErrorKind::Size(expected, actual) => match e {
            ParseError::InvalidData(m) => m@ == size_msg(expected, actual),
            _ => false,
        },
        ErrorKind::DescriptionUtf8 => e is InvalidDescription,
        ErrorKind::Header(fs) => match e {
            ParseError::InvalidHeader(a, req) => a.deep_view() == fields_payload(fs)
                && req.deep_view() == required_payload(),
            _ => false,
        },
        ErrorKind::FieldCount(fs) => match e {
            ParseError::InvalidRecord(a, req) => a.deep_view() == fields_payload(fs)
                && req.deep_view() == required_payload(),
            _ => false,
        },
        ErrorKind::Quote => e is InvalidData,
        ErrorKind::Number(field, raw, line) => match e {
            ParseError::Validation(m) => m@ == number_msg(field, raw, line),
            _ => false,
        },
        ErrorKind::TypeToken(raw, line) => match e {
            ParseError::Validation(m) => m@ == type_token_msg(raw, line),
            _ => false,
        },
        ErrorKind::StatusToken(raw, line) => match e {
            ParseError::Validation(m) => m@ == status_token_msg(raw, line),
            _ => false,
        },
        ErrorKind::QuoteMissing(raw, line) => match e {
            ParseError::Validation(m) => m@ == quote_missing_msg(raw, line),
            _ => false,
        },
        ErrorKind::MalformedLine(l, line) => match e {
            ParseError::Validation(m) => m@ == malformed_line_msg(l, line),
            _ => false,
        },
        ErrorKind::DuplicateKey(key, line) => match e {
            ParseError::Validation(m) => m@ == duplicate_key_msg(key, line),
            _ => false,
        },
        ErrorKind::MissingKey(key, line) => match e {
            ParseError::Validation(m) => m@ == missing_key_msg(key, line),
            _ => false,
        },
        ErrorKind::FromUser(u) => match e {
            ParseError::Validation(m) => m@ == from_user_msg(u),
            _ => false,
        },
        ErrorKind::ToUser(u) => match e {
            ParseError::Validation(m) => m@ == to_user_msg(u),
            _ => false,
        },
    }
}

} // verus!
