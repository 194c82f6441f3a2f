use vstd::prelude::*;

use crate::errors::{ErrorKind, ParseError};
use crate::format::common;
use crate::model::transaction_status::TransactionStatus;
use crate::model::transaction_type::TransactionType;

verus! {

/// The mathematical value of a [`Transaction`]: the same fields, with the
/// description as a character sequence.
pub ghost struct TxView {
    /// Transaction identifier.
    pub tx_id: u64,
    /// Transaction type.
    pub tx_type: TransactionType,
    /// Source account; 0 means "no source".
    pub from_user_id: u64,
    /// Destination account; 0 means "no destination".
    pub to_user_id: u64,
    /// Ledger amount.
    pub amount: i64,
    /// Unix epoch milliseconds.
    pub timestamp: u64,
    /// Outcome state.
    pub status: TransactionStatus,
    /// Free-form note.
    pub description: Seq<char>,
}

/// The cross-field domain invariants: a deposit has no source account and a
/// withdrawal has no destination account.
pub open spec fn domain_ok(t: TxView) -> bool {
    &&& t.tx_type is Deposit ==> t.from_user_id == 0
    &&& t.tx_type is Withdrawal ==> t.to_user_id == 0
}

/// A transaction as every codec admits it: the domain invariants hold and
/// the ledger amount is strictly positive.
pub open spec fn wf_tx(t: TxView) -> bool {
    domain_ok(t) && t.amount > 0
}

/// The index of the first transaction with a non-positive amount, or the
/// length when every amount is strictly positive.
pub open spec fn first_nonpositive(ts: Seq<TxView>) -> int
    decreases ts.len(),
{
    if ts.len() == 0 {
        0
    } else if ts[0].amount <= 0 {
        0
    } else {
        1 + first_nonpositive(ts.skip(1))
    }
}

/// An index whose amount is non-positive, with only positive amounts
/// before it, is what [`first_nonpositive`] returns.
pub proof fn lemma_first_nonpositive_is(ts: Seq<TxView>, i: int)
    requires
        0 <= i < ts.len(),
        ts[i].amount <= 0,
        forall|j: int| 0 <= j < i ==> (#[trigger] ts[j]).amount > 0,
    ensures
        first_nonpositive(ts) == i,
    decreases ts.len(),
{
    if i > 0 {
        let r = ts.skip(1);
        assert(forall|j: int| 0 <= j < i - 1 ==> (#[trigger] r[j]) == ts[j + 1]);
        assert(r[i - 1] == ts[i]);
        lemma_first_nonpositive_is(r, i - 1);
    }
}

/// One financial transaction record.
#[derive(Debug, Clone, PartialEq)]
pub struct Transaction {
    /// Transaction identifier.
    pub tx_id: u64,
    /// Transaction type.
    pub tx_type: TransactionType,
    /// Source account for transfer and withdrawal; 0 means "no source".
    pub from_user_id: u64,
    /// Destination account for transfer and deposit; 0 means "no destination".
    pub to_user_id: u64,
    /// Transaction amount; always strictly positive in a decoded record.
    pub amount: i64,
    /// Transaction timestamp in Unix epoch milliseconds.
    pub timestamp: u64,
    /// Transaction status.
    pub status: TransactionStatus,
    /// Transaction description.
    pub description: String,
}

impl View for Transaction {
    type V = TxView;

    open spec fn view(&self) -> TxView {
        TxView {
            tx_id: self.tx_id,
            tx_type: self.tx_type,
            from_user_id: self.from_user_id,
            to_user_id: self.to_user_id,
            amount: self.amount,
            timestamp: self.timestamp,
            status: self.status,
            description: self.description@,
        }
    }
}

impl DeepView for Transaction {
    type V = TxView;

    open spec fn deep_view(&self) -> TxView {
        self@
    }
}

/// The text that chrono renders for a UTC timestamp split into seconds and
/// nanoseconds, or nothing where chrono deems the seconds out of range.
pub uninterp spec fn datetime_text(secs: i64, nanos: u32) -> Option<Seq<char>>;

/// Relies on `chrono::DateTime::from_timestamp` and `DateTime::format` with
/// the pattern `%Y-%m-%d %H:%M:%S%.3f`: the rendered text is a function of
/// the seconds and nanoseconds alone, and is absent exactly when chrono
/// deems the seconds out of range.
#[verifier::external_body]
fn datetime_string(secs: i64, nanos: u32) -> (r: Option<String>)
    ensures
        r is Some <==> datetime_text(secs, nanos) is Some,
        r is Some ==> Some(r->0@) == datetime_text(secs, nanos),
{
    chrono::DateTime::from_timestamp(secs, nanos).map(
        |dt| format!("{}", dt.format("%Y-%m-%d %H:%M:%S%.3f")),
    )
}

/// The text [`Transaction::formatted_timestamp`] returns for a timestamp:
/// what chrono renders for it, or a note naming the raw value where the
/// timestamp lies outside chrono's range.
pub open spec fn spec_formatted_timestamp(ts: u64) -> Seq<char> {
    match datetime_text((ts / 1000) as i64, ((ts % 1000) * 1000000) as u32) {
        Some(t) => t,
        None => "Invalid timestamp: "@ + common::dec_chars(ts as nat),
    }
}

impl Transaction {
    /// The timestamp rendered as `%Y-%m-%d %H:%M:%S%.3f` in UTC, or a note
    /// naming the raw value where it lies outside the renderable range.
    pub fn formatted_timestamp(&self) -> (r: String)
        ensures
            r@ == spec_formatted_timestamp(self@.timestamp),
    {
        let seconds = self.timestamp / 1000;
        let millis = self.timestamp % 1000;
        match datetime_string(seconds as i64, (millis * 1000000) as u32) {
            Some(s) => s,
            None => {
                let mut m = common::new_string("Invalid timestamp: ");
                common::append_u64(&mut m, self.timestamp);
                m
            },
        }
    }

    /// Checks the cross-field domain invariants: `Ok` exactly when a deposit
    /// has `from_user_id == 0` and a withdrawal has `to_user_id == 0`; the
    /// error message names the rule and the offending account.
    pub fn validate(&self) -> (r: Result<(), ParseError>)
        ensures
            r is Ok <==> domain_ok(self@),
            r is Err ==> crate::errors::matches_kind(
                r->Err_0,
                if self@.tx_type is Deposit && self@.from_user_id != 0 {
                    ErrorKind::FromUser(self@.from_user_id)
                } else {
                    ErrorKind::ToUser(self@.to_user_id)
                },
            ),
    {
        if self.tx_type == TransactionType::Deposit && self.from_user_id != 0 {
            let mut m = common::new_string("FROM_USER_ID must be 0 for DEPOSIT, got ");
            common::append_u64(&mut m, self.from_user_id);
            return Err(ParseError::Validation(m));
        }
        if self.tx_type == TransactionType::Withdrawal && self.to_user_id != 0 {
            let mut m = common::new_string("TO_USER_ID must be 0 for WITHDRAWAL, got ");
            common::append_u64(&mut m, self.to_user_id);
            return Err(ParseError::Validation(m));
        }
        Ok(())
    }
}

} // verus!
