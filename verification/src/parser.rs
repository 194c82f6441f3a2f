use vstd::prelude::*;

use vstd::utf8::encode_utf8;

use crate::errors::{matches_kind, ErrorKind, ParseError};
use crate::format::yp_bank_bin_format::{
    bin_encodable, spec_bin_decode, spec_bin_encode, YPBankBinParser,
};
use crate::format::yp_bank_csv_format::{
    csv_encodable, spec_csv_decode, spec_csv_encode, YPBankCsvParser,
};
use crate::format::yp_bank_text_format::{
    spec_text_decode, spec_text_encode, text_encodable, YPBankTextParser,
};
use crate::format::Format;
use crate::model::transaction::{wf_tx, Transaction, TxView};

verus! {

/// What decoding a byte source in the given format yields.
pub open spec fn spec_decode(s: Seq<u8>, f: Format) -> Result<Seq<TxView>, ErrorKind> {
    match f {
        Format::Text => spec_text_decode(s),
        Format::Csv => spec_csv_decode(s),
        Format::Binary => spec_bin_decode(s),
    }
}

/// The encoding of a transaction sequence in the given format; the text
/// format is written with its comment lines.
pub open spec fn spec_encode(ts: Seq<TxView>, f: Format) -> Seq<u8> {
    match f {
        Format::Text => spec_text_encode(ts, true),
        Format::Csv => spec_csv_encode(ts),
        Format::Binary => spec_bin_encode(ts),
    }
}

/// When a write in the given format succeeds: the text and CSV writers
/// demand strictly positive amounts; the binary writer demands
/// descriptions short enough for its 32-bit record size field.
pub open spec fn spec_write_ok(ts: Seq<TxView>, f: Format) -> bool {
    match f {
        Format::Binary => forall|i: int|
            0 <= i < ts.len() ==> encode_utf8((#[trigger] ts[i]).description).len() <= 0xffffffff
                - 42,
        _ => forall|i: int| 0 <= i < ts.len() ==> (#[trigger] ts[i]).amount > 0,
    }
}

/// A transaction the given format writes and reads back unchanged: well
/// formed, and within the format's framing limits — any description for
/// binary records, and no line break in a text or CSV description, since
/// those two formats are line-oriented.
pub open spec fn encodable(t: TxView, f: Format) -> bool {
    match f {
        Format::Text => text_encodable(t),
        Format::Csv => csv_encodable(t),
        Format::Binary => bin_encodable(t),
    }
}

/// Every transaction any format admits on decode is well formed: the
/// domain invariants hold and the amount is strictly positive.
pub proof fn lemma_decode_wf(s: Seq<u8>, f: Format)
    ensures
        spec_decode(s, f) is Ok ==> forall|i: int|
            0 <= i < spec_decode(s, f)->Ok_0.len() ==> wf_tx(#[trigger] spec_decode(s, f)->Ok_0[i]),
{
    match f {
        Format::Text => {
            crate::format::yp_bank_text_format::lemma_text_decode_lines_wf(
                crate::format::common::spec_lines(s),
                Seq::empty(),
                1,
            );
        },
        Format::Csv => {
            crate::format::yp_bank_csv_format::lemma_csv_header_wf(
                crate::format::common::spec_lines(s),
                1,
            );
        },
        Format::Binary => {
            crate::format::yp_bank_bin_format::lemma_bin_decode_wf(s);
        },
    }
}

/// A sequence of encodable transactions is always writable: the write
/// contracts' conditions follow from encodability, so `write` then
/// `parse` returns the sequence unchanged.
pub proof fn lemma_encodable_write_ok(ts: Seq<TxView>, f: Format)
    requires
        forall|i: int| 0 <= i < ts.len() ==> encodable(#[trigger] ts[i], f),
    ensures
        spec_write_ok(ts, f),
{
}

/// Decoding the encoding of any sequence of encodable transactions, in
/// any format, yields exactly that sequence.
pub proof fn lemma_round_trip(ts: Seq<TxView>, f: Format)
    requires
        forall|i: int| 0 <= i < ts.len() ==> encodable(#[trigger] ts[i], f),
    ensures
        spec_decode(spec_encode(ts, f), f) == Ok::<Seq<TxView>, ErrorKind>(ts),
{
    match f {
        Format::Text => {
            crate::format::yp_bank_text_format::lemma_text_round_trip(ts, true);
        },
        Format::Csv => {
            crate::format::yp_bank_csv_format::lemma_csv_round_trip(ts);
        },
        Format::Binary => {
            crate::format::yp_bank_bin_format::lemma_bin_round_trip(ts);
        },
    }
}

/// Encoding in one format, decoding, re-encoding in another format and
/// decoding again yields the original sequence: all formats carry the
/// same fields.
pub proof fn lemma_cross_format_round_trip(ts: Seq<TxView>, a: Format, b: Format)
    requires
        forall|i: int| 0 <= i < ts.len() ==> encodable(#[trigger] ts[i], a),
        forall|i: int| 0 <= i < ts.len() ==> encodable(#[trigger] ts[i], b),
    ensures
        ({
            let mid = spec_decode(spec_encode(ts, a), a);
            mid is Ok && spec_decode(spec_encode(mid->Ok_0, b), b) == Ok::<Seq<TxView>, ErrorKind>(
                ts,
            )
        }),
{
    lemma_round_trip(ts, a);
    lemma_round_trip(ts, b);
}

/// The format dispatcher: one decode/encode entry point over the three
/// codecs.
pub struct Parser;

impl Parser {
    /// Decodes a byte source in the chosen format, exactly as
    /// [`spec_decode`] says; every transaction returned is well formed.
    pub fn parse(input: &Vec<u8>, format: Format) -> (r: Result<Vec<Transaction>, ParseError>)
        ensures
            ({
                match spec_decode(input@, format) {
                    Ok(vs) => r is Ok && r->Ok_0.deep_view() == vs,
                    Err(k) => r is Err && matches_kind(r->Err_0, k),
                }
            }),
            r is Ok ==> forall|i: int|
                0 <= i < r->Ok_0.deep_view().len() ==> wf_tx(#[trigger] r->Ok_0.deep_view()[i]),
    {
        proof {
            lemma_decode_wf(input@, format);
        }
        match format {
            Format::Text => YPBankTextParser::parse(input),
            Format::Csv => YPBankCsvParser::parse(input),
            Format::Binary => YPBankBinParser::parse(input),
        }
    }

    /// Encodes a transaction sequence in the chosen format. Succeeds
    /// exactly when [`spec_write_ok`] holds; the bytes returned are
    /// exactly [`spec_encode`] of the sequence, and a text or CSV failure
    /// carries the first non-positive amount.
    pub fn write(transactions: &Vec<Transaction>, format: Format) -> (r: Result<Vec<u8>, ParseError>)
        ensures
            r is Ok <==> spec_write_ok(transactions.deep_view(), format),
            r is Ok ==> r->Ok_0@ == spec_encode(transactions.deep_view(), format),
            r is Err ==> matches_kind(
                r->Err_0,
                if format is Binary {
                    ErrorKind::DescriptionUtf8
                } else {
                    ErrorKind::Amount(
                        transactions.deep_view()[crate::model::transaction::first_nonpositive(
                            transactions.deep_view(),
                        )].amount,
                    )
                },
            ),
    {
        match format {
            Format::Text => YPBankTextParser::write(transactions, true),
            Format::Csv => YPBankCsvParser::write(transactions),
            Format::Binary => YPBankBinParser::write(transactions),
        }
    }
}

} // verus!
