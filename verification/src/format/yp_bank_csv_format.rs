use vstd::prelude::*;

use vstd::string::StrSliceExecFns;
use vstd::utf8::{decode_utf8, encode_utf8, valid_utf8};

use crate::errors::{matches_kind, ErrorKind, ParseError};
use crate::format::common;
use crate::format::common::{
    dec_of, field_names, find_byte, is_ws, join_lines, key_amount, key_description,
    key_from_user_id, key_status, key_timestamp, key_to_user_id, key_tx_id, key_tx_type,
    no_line_breaks, parse_i64_spec, parse_u64_spec, spec_lines, spec_trim,
};
use crate::model::transaction::{domain_ok, wf_tx, Transaction, TxView};
use crate::model::transaction_status::{status_token, token_to_status, TransactionStatus};
use crate::model::transaction_type::{token_to_type, type_token, TransactionType};

verus! {

// ---------------------------------------------------------------------------
// Splitting one line into fields
// ---------------------------------------------------------------------------
/// A byte string with its leading ASCII whitespace removed.
pub open spec fn drop_ws(l: Seq<u8>) -> Seq<u8>
    decreases l.len(),
{
    if l.len() > 0 && is_ws(l[0]) {
        drop_ws(l.skip(1))
    } else {
        l
    }
}

/// Dropping leading whitespace never lengthens a string.
pub proof fn lemma_drop_ws_len(l: Seq<u8>)
    ensures
        drop_ws(l).len() <= l.len(),
    decreases l.len(),
{
    if l.len() > 0 && is_ws(l[0]) {
        lemma_drop_ws_len(l.skip(1));
    }
}

/// The content of a quoted field, read from just after its opening quote:
/// a doubled quote stands for one literal quote, the first single quote
/// closes the field, and the rest of the line follows. `None` when the
/// quote is never closed.
pub open spec fn quoted_split(l: Seq<u8>) -> Option<(Seq<u8>, Seq<u8>)>
    decreases l.len(),
{
    if l.len() == 0 {
        None
    } else if l[0] == 34 {
        if l.len() >= 2 && l[1] == 34 {
            match quoted_split(l.skip(2)) {
                Some(cr) => Some((seq![34u8] + cr.0, cr.1)),
                None => None,
            }
        } else {
            Some((Seq::empty(), l.skip(1)))
        }
    } else {
        match quoted_split(l.skip(1)) {
            Some(cr) => Some((seq![l[0]] + cr.0, cr.1)),
            None => None,
        }
    }
}

/// What follows a closed quoted field is shorter than what the field was
/// read from.
pub proof fn lemma_quoted_split_len(l: Seq<u8>)
    ensures
        quoted_split(l) is Some ==> (quoted_split(l)->0).1.len() < l.len(),
    decreases l.len(),
{
    if l.len() > 0 {
        if l[0] == 34 {
            if l.len() >= 2 && l[1] == 34 {
                lemma_quoted_split_len(l.skip(2));
            }
        } else {
            lemma_quoted_split_len(l.skip(1));
        }
    }
}

/// The fields of one CSV line: fields are separated by commas; a field
/// whose first non-whitespace byte is a quote is read by the quoting
/// rules, with nothing but whitespace allowed between its closing quote
/// and the next comma; any other field is the bytes up to the next comma,
/// trimmed. `None` when the quoting rules are violated.
pub open spec fn split_fields(l: Seq<u8>) -> Option<Seq<Seq<u8>>>
    decreases l.len(),
    via split_fields_decreases
{
    let d = drop_ws(l);
    if d.len() == 0 {
        Some(seq![Seq::<u8>::empty()])
    } else if d[0] == 34 {
        match quoted_split(d.skip(1)) {
            None => None,
            Some(cr) => {
                let r2 = drop_ws(cr.1);
                if r2.len() == 0 {
                    Some(seq![cr.0])
                } else if r2[0] == 44 {
                    match split_fields(r2.skip(1)) {
                        None => None,
                        Some(fs) => Some(seq![cr.0] + fs),
                    }
                } else {
                    None
                }
            },
        }
    } else {
        let c = find_byte(l, 44u8);
        if c == l.len() {
            Some(seq![spec_trim(l.take(c))])
        } else {
            match split_fields(l.skip(c + 1)) {
                None => None,
                Some(fs) => Some(seq![spec_trim(l.take(c))] + fs),
            }
        }
    }
}

#[via_fn]
proof fn split_fields_decreases(l: Seq<u8>) {
    let d = drop_ws(l);
    lemma_drop_ws_len(l);
    if d.len() > 0 && d[0] == 34 {
        lemma_quoted_split_len(d.skip(1));
        if quoted_split(d.skip(1)) is Some {
            lemma_drop_ws_len((quoted_split(d.skip(1))->0).1);
        }
    } else if d.len() > 0 {
        common::lemma_find_byte_props(l, 44u8);
    }
}

// ---------------------------------------------------------------------------
// Decoding
// ---------------------------------------------------------------------------
/// True when the header fields are exactly the eight required names in
/// their canonical order.
pub open spec fn header_ok(fs: Seq<Seq<u8>>) -> bool {
    fs.len() == 8 && (forall|i: int|
        0 <= i < 8 ==> spec_trim(#[trigger] fs[i]) == field_names()[i])
}

/// True when every field of a row is blank after trimming.
pub open spec fn row_blank(fs: Seq<Seq<u8>>) -> bool {
    forall|i: int| 0 <= i < fs.len() ==> spec_trim(#[trigger] fs[i]).len() == 0
}

/// What one data row at line `ln` yields: exactly eight fields, read in
/// canonical order, with a strictly positive amount, an
/// unquoted-or-quoted description in valid UTF-8, and the domain
/// invariants holding; errors carry the offending values and the line.
pub open spec fn spec_parse_row(fs: Seq<Seq<u8>>, ln: int) -> Result<TxView, ErrorKind> {
    if fs.len() != 8 {
        Err(ErrorKind::FieldCount(fs))
    } else {
        match parse_u64_spec(spec_trim(fs[0])) {
            None => Err(ErrorKind::Number("TxId"@, spec_trim(fs[0]), ln)),
            Some(tx_id) => match token_to_type(spec_trim(fs[1])) {
                None => Err(ErrorKind::TypeToken(spec_trim(fs[1]), ln)),
                Some(tx_type) => match parse_u64_spec(spec_trim(fs[2])) {
                    None => Err(ErrorKind::Number("FromUserId"@, spec_trim(fs[2]), ln)),
                    Some(from_user_id) => match parse_u64_spec(spec_trim(fs[3])) {
                        None => Err(ErrorKind::Number("ToUserId"@, spec_trim(fs[3]), ln)),
                        Some(to_user_id) => match parse_i64_spec(spec_trim(fs[4])) {
                            None => Err(ErrorKind::Number("AMOUNT"@, spec_trim(fs[4]), ln)),
                            Some(amount) => if amount <= 0 {
                                Err(ErrorKind::Amount(amount))
                            } else {
                                match parse_u64_spec(spec_trim(fs[5])) {
                                    None => Err(
                                        ErrorKind::Number("TIMESTAMP"@, spec_trim(fs[5]), ln),
                                    ),
                                    Some(timestamp) => match token_to_status(spec_trim(fs[6])) {
                                        None => Err(ErrorKind::StatusToken(spec_trim(fs[6]), ln)),
                                        Some(status) => if !valid_utf8(fs[7]) {
                                            Err(ErrorKind::DescriptionUtf8)
                                        } else {
                                            let v = TxView {
                                                tx_id,
                                                tx_type,
                                                from_user_id,
                                                to_user_id,
                                                amount,
                                                timestamp,
                                                status,
                                                description: decode_utf8(fs[7]),
                                            };
                                            if !domain_ok(v) {
                                                Err(
                                                    if v.tx_type is Deposit && v.from_user_id
                                                        != 0 {
                                                        ErrorKind::FromUser(v.from_user_id)
                                                    } else {
                                                        ErrorKind::ToUser(v.to_user_id)
                                                    },
                                                )
                                            } else {
                                                Ok(v)
                                            }
                                        },
                                    },
                                }
                            },
                        },
                    },
                },
            },
        }
    }
}

/// What decoding the data rows yields, `ln` being the 1-based number of
/// the first line: blank rows are skipped, every other row must parse.
pub open spec fn spec_csv_rows(lines: Seq<Seq<u8>>, ln: int) -> Result<Seq<TxView>, ErrorKind>
    decreases lines.len(),
{
    if lines.len() == 0 {
        Ok(Seq::empty())
    } else {
        match split_fields(lines[0]) {
            None => Err(ErrorKind::Quote),
            Some(fs) => if row_blank(fs) {
                spec_csv_rows(lines.skip(1), ln + 1)
            } else {
                match spec_parse_row(fs, ln) {
                    Err(k) => Err(k),
                    Ok(v) => match spec_csv_rows(lines.skip(1), ln + 1) {
                        Ok(vs) => Ok(seq![v] + vs),
                        Err(k) => Err(k),
                    },
                }
            },
        }
    }
}

/// What decoding a CSV byte source yields: empty lines may precede the
/// single mandatory header row, which must hold exactly the required
/// columns in order; the data rows follow. The header error carries the
/// actual fields found, or no fields at all where the source holds no
/// header row.
pub open spec fn spec_csv_header(lines: Seq<Seq<u8>>, ln: int) -> Result<Seq<TxView>, ErrorKind>
    decreases lines.len(),
{
    if lines.len() == 0 {
        Err(ErrorKind::Header(Seq::empty()))
    } else if lines[0].len() == 0 {
        spec_csv_header(lines.skip(1), ln + 1)
    } else {
        match split_fields(lines[0]) {
            None => Err(ErrorKind::Quote),
            Some(fs) => if !header_ok(fs) {
                Err(ErrorKind::Header(fs))
            } else {
                spec_csv_rows(lines.skip(1), ln + 1)
            },
        }
    }
}

/// What decoding a CSV byte source yields.
///
/// This reader is deliberately line-oriented: the source is split into
/// lines before the quoting rules are applied, so a quoted field cannot
/// span lines. A description holding a line break is therefore written
/// (quoted) but cannot be read back; [`csv_encodable`] names exactly
/// this limit, and the round-trip law holds up to it.
pub open spec fn spec_csv_decode(s: Seq<u8>) -> Result<Seq<TxView>, ErrorKind> {
    spec_csv_header(spec_lines(s), 1)
}

// ---------------------------------------------------------------------------
// Encoding
// ---------------------------------------------------------------------------
/// True when a field cannot be written bare: it opens or closes with
/// whitespace, or holds a comma, a quote, or a line break.
pub open spec fn needs_quote(f: Seq<u8>) -> bool {
    f.len() > 0 && (is_ws(f[0]) || is_ws(f.last()) || (exists|i: int|
        0 <= i < f.len() && ((#[trigger] f[i]) == 44 || f[i] == 34 || f[i] == 10 || f[i] == 13)))
}

/// A field with each quote doubled, as it stands inside a quoted field.
pub open spec fn escape_quotes(f: Seq<u8>) -> Seq<u8>
    decreases f.len(),
{
    if f.len() == 0 {
        Seq::empty()
    } else if f[0] == 34 {
        seq![34u8, 34u8] + escape_quotes(f.skip(1))
    } else {
        seq![f[0]] + escape_quotes(f.skip(1))
    }
}

/// A field as the writer emits it: bare where possible, quoted with
/// doubled inner quotes where not.
pub open spec fn csv_field(f: Seq<u8>) -> Seq<u8> {
    if needs_quote(f) {
        seq![34u8] + escape_quotes(f) + seq![34u8]
    } else {
        f
    }
}

/// The header line: the eight required column names joined by commas.
pub open spec fn header_line() -> Seq<u8> {
    key_tx_id() + seq![44u8] + key_tx_type() + seq![44u8] + key_from_user_id() + seq![44u8]
        + key_to_user_id() + seq![44u8] + key_amount() + seq![44u8] + key_timestamp() + seq![44u8]
        + key_status() + seq![44u8] + key_description()
}

/// One data row, without its closing line feed.
pub open spec fn csv_row_line(t: TxView) -> Seq<u8> {
    dec_of(t.tx_id as nat) + seq![44u8] + type_token(t.tx_type) + seq![44u8] + dec_of(
        t.from_user_id as nat,
    ) + seq![44u8] + dec_of(t.to_user_id as nat) + seq![44u8] + dec_of(t.amount as nat)
        + seq![44u8] + dec_of(t.timestamp as nat) + seq![44u8] + status_token(t.status)
        + seq![44u8] + csv_field(encode_utf8(t.description))
}

/// The lines of a CSV encoding: the header, then one row per transaction.
pub open spec fn csv_lines(ts: Seq<TxView>) -> Seq<Seq<u8>> {
    seq![header_line()] + Seq::new(ts.len(), |i: int| csv_row_line(ts[i]))
}

/// The CSV encoding of a transaction sequence.
pub open spec fn spec_csv_encode(ts: Seq<TxView>) -> Seq<u8> {
    join_lines(csv_lines(ts))
}

/// A transaction the CSV format writes and reads back unchanged: well
/// formed, with no line break in its description — quoting protects
/// commas, quotes and edge whitespace, but rows are bounded by lines.
pub open spec fn csv_encodable(t: TxView) -> bool {
    wf_tx(t) && no_line_breaks(encode_utf8(t.description))
}

// ---------------------------------------------------------------------------
// Round trip
// ---------------------------------------------------------------------------
/// The given fields joined by commas into one line.
pub open spec fn join_commas(fs: Seq<Seq<u8>>) -> Seq<u8>
    recommends
        fs.len() >= 1,
    decreases fs.len(),
{
    if fs.len() <= 1 {
        if fs.len() == 1 {
            fs[0]
        } else {
            Seq::empty()
        }
    } else {
        fs[0] + seq![44u8] + join_commas(fs.skip(1))
    }
}

/// A field without delimiter bytes needs no quoting and holds no line
/// break.
proof fn lemma_plain_field(f: Seq<u8>)
    requires
        forall|i: int|
            0 <= i < f.len() ==> !is_ws(#[trigger] f[i]) && f[i] != 44 && f[i] != 34 && f[i] != 10
                && f[i] != 13,
    ensures
        !needs_quote(f),
        no_line_breaks(f),
{
}

/// The eight field names are plain: unquoted, break-free, and unchanged
/// by trimming.
proof fn lemma_keys_plain()
    ensures
        !needs_quote(key_tx_id()) && no_line_breaks(key_tx_id()) && spec_trim(key_tx_id())
            == key_tx_id() && key_tx_id().len() > 0,
        !needs_quote(key_tx_type()) && no_line_breaks(key_tx_type()) && spec_trim(key_tx_type())
            == key_tx_type() && key_tx_type().len() > 0,
        !needs_quote(key_from_user_id()) && no_line_breaks(key_from_user_id()) && spec_trim(
            key_from_user_id(),
        ) == key_from_user_id() && key_from_user_id().len() > 0,
        !needs_quote(key_to_user_id()) && no_line_breaks(key_to_user_id()) && spec_trim(
            key_to_user_id(),
        ) == key_to_user_id() && key_to_user_id().len() > 0,
        !needs_quote(key_amount()) && no_line_breaks(key_amount()) && spec_trim(key_amount())
            == key_amount() && key_amount().len() > 0,
        !needs_quote(key_timestamp()) && no_line_breaks(key_timestamp()) && spec_trim(
            key_timestamp(),
        ) == key_timestamp() && key_timestamp().len() > 0,
        !needs_quote(key_status()) && no_line_breaks(key_status()) && spec_trim(key_status())
            == key_status() && key_status().len() > 0,
        !needs_quote(key_description()) && no_line_breaks(key_description()) && spec_trim(
            key_description(),
        ) == key_description() && key_description().len() > 0,
{
    lemma_plain_field(key_tx_id());
    lemma_plain_field(key_tx_type());
    lemma_plain_field(key_from_user_id());
    lemma_plain_field(key_to_user_id());
    lemma_plain_field(key_amount());
    lemma_plain_field(key_timestamp());
    lemma_plain_field(key_status());
    lemma_plain_field(key_description());
    common::lemma_trim_noop(key_tx_id());
    common::lemma_trim_noop(key_tx_type());
    common::lemma_trim_noop(key_from_user_id());
    common::lemma_trim_noop(key_to_user_id());
    common::lemma_trim_noop(key_amount());
    common::lemma_trim_noop(key_timestamp());
    common::lemma_trim_noop(key_status());
    common::lemma_trim_noop(key_description());
}

/// Joining eight fields spelled out.
#[verifier::rlimit(100)]
#[verifier::spinoff_prover]
proof fn lemma_join_commas_8(
    a0: Seq<u8>,
    a1: Seq<u8>,
    a2: Seq<u8>,
    a3: Seq<u8>,
    a4: Seq<u8>,
    a5: Seq<u8>,
    a6: Seq<u8>,
    a7: Seq<u8>,
)
    ensures
        join_commas(seq![a0, a1, a2, a3, a4, a5, a6, a7]) == a0 + seq![44u8] + a1 + seq![44u8] + a2
            + seq![44u8] + a3 + seq![44u8] + a4 + seq![44u8] + a5 + seq![44u8] + a6 + seq![44u8]
            + a7,
{
    let s7 = seq![a7];
    let s6 = seq![a6, a7];
    let s5 = seq![a5, a6, a7];
    let s4 = seq![a4, a5, a6, a7];
    let s3 = seq![a3, a4, a5, a6, a7];
    let s2 = seq![a2, a3, a4, a5, a6, a7];
    let s1 = seq![a1, a2, a3, a4, a5, a6, a7];
    let s0 = seq![a0, a1, a2, a3, a4, a5, a6, a7];
    assert(join_commas(s7) == a7);
    assert(s6.skip(1) =~= s7);
    assert(join_commas(s6) == a6 + seq![44u8] + join_commas(s7));
    assert(s5.skip(1) =~= s6);
    assert(join_commas(s5) == a5 + seq![44u8] + join_commas(s6));
    assert(s4.skip(1) =~= s5);
    assert(join_commas(s4) == a4 + seq![44u8] + join_commas(s5));
    assert(s3.skip(1) =~= s4);
    assert(join_commas(s3) == a3 + seq![44u8] + join_commas(s4));
    assert(s2.skip(1) =~= s3);
    assert(join_commas(s2) == a2 + seq![44u8] + join_commas(s3));
    assert(s1.skip(1) =~= s2);
    assert(join_commas(s1) == a1 + seq![44u8] + join_commas(s2));
    assert(s0.skip(1) =~= s1);
    assert(join_commas(s0) == a0 + seq![44u8] + join_commas(s1));
    assert(join_commas(s0) =~= a0 + seq![44u8] + a1 + seq![44u8] + a2 + seq![44u8] + a3
        + seq![44u8] + a4 + seq![44u8] + a5 + seq![44u8] + a6 + seq![44u8] + a7);
}

/// A comma-joined line of fields that need no quoting splits back into
/// exactly those fields.
#[verifier::rlimit(100)]
#[verifier::spinoff_prover]
proof fn lemma_split_plain(fs: Seq<Seq<u8>>)
    requires
        fs.len() >= 1,
        forall|i: int| 0 <= i < fs.len() ==> !needs_quote(#[trigger] fs[i]),
    ensures
        split_fields(join_commas(fs)) == Some(fs),
    decreases fs.len(),
{
    let l = join_commas(fs);
    let f0 = fs[0];
    assert(!needs_quote(f0));
    if fs.len() == 1 {
        assert(l == f0);
        if f0.len() == 0 {
            assert(drop_ws(l) == l);
            assert(split_fields(l) == Some(seq![Seq::<u8>::empty()]));
            assert(seq![Seq::<u8>::empty()] =~~= fs);
        } else {
            assert(!is_ws(l[0]));
            assert(drop_ws(l) == l);
            assert(l[0] != 34);
            common::lemma_find_byte_is(l, 44u8, l.len() as int);
            assert(l.take(l.len() as int) =~= f0);
            common::lemma_trim_noop(f0);
            assert(split_fields(l) == Some(seq![f0]));
            assert(seq![f0] =~~= fs);
        }
    } else {
        let rest = join_commas(fs.skip(1));
        assert(l == f0 + seq![44u8] + rest);
        assert(l.len() > 0);
        assert(l[0] == if f0.len() > 0 {
            f0[0]
        } else {
            44u8
        });
        assert(!is_ws(l[0]));
        assert(drop_ws(l) == l);
        if f0.len() > 0 {
            assert(l[0] == f0[0]);
            assert(f0[0] != 34);
        }
        assert(l[0] != 34);
        assert forall|j: int| 0 <= j < f0.len() implies l[j] != 44 by {
            assert(l[j] == f0[j]);
        }
        assert(l[f0.len() as int] == 44);
        common::lemma_find_byte_is(l, 44u8, f0.len() as int);
        assert(l.take(f0.len() as int) =~= f0);
        common::lemma_trim_noop(f0);
        assert(l.skip(f0.len() as int + 1) =~= rest);
        assert(forall|i: int| 0 <= i < fs.skip(1).len() ==> !needs_quote(#[trigger] fs.skip(1)[i]))
            by {
            assert(forall|i: int|
                0 <= i < fs.skip(1).len() ==> fs.skip(1)[i] == fs[i + 1] && !needs_quote(
                    #[trigger] fs.skip(1)[i],
                ));
        }
        lemma_split_plain(fs.skip(1));
        assert(seq![f0] + fs.skip(1) =~= fs);
    }
}

/// Escaping quotes preserves freedom from line breaks.
proof fn lemma_escape_no_breaks(f: Seq<u8>)
    requires
        no_line_breaks(f),
    ensures
        no_line_breaks(escape_quotes(f)),
    decreases f.len(),
{
    if f.len() > 0 {
        assert(forall|i: int|
            0 <= i < f.skip(1).len() ==> f.skip(1)[i] == f[i + 1] && no_line_breaks(
                #[trigger] f.skip(1),
            ));
        lemma_escape_no_breaks(f.skip(1));
        if f[0] == 34 {
            assert(no_line_breaks(seq![34u8, 34u8]));
            common::lemma_no_breaks_concat(seq![34u8, 34u8], escape_quotes(f.skip(1)));
        } else {
            assert(no_line_breaks(seq![f[0]]));
            common::lemma_no_breaks_concat(seq![f[0]], escape_quotes(f.skip(1)));
        }
    }
}

/// Reading a quoted field back from its escaped form and closing quote
/// yields the field, with nothing left over.
proof fn lemma_quoted_split_escape(f: Seq<u8>)
    ensures
        quoted_split(escape_quotes(f) + seq![34u8]) == Some(
            (f, Seq::<u8>::empty()),
        ),
    decreases f.len(),
{
    let l = escape_quotes(f) + seq![34u8];
    if f.len() == 0 {
        assert(l =~= seq![34u8]);
        assert(l.skip(1) =~= Seq::<u8>::empty());
    } else {
        lemma_quoted_split_escape(f.skip(1));
        if f[0] == 34 {
            assert(escape_quotes(f) == seq![34u8, 34u8] + escape_quotes(f.skip(1)));
            assert(l[0] == 34 && l[1] == 34);
            assert(l.len() >= 2);
            assert(l.skip(2) =~= escape_quotes(f.skip(1)) + seq![34u8]);
            assert(seq![34u8] + f.skip(1) =~= f);
        } else {
            assert(escape_quotes(f) == seq![f[0]] + escape_quotes(f.skip(1)));
            assert(l[0] == f[0]);
            assert(l[0] != 34);
            assert(l.skip(1) =~= escape_quotes(f.skip(1)) + seq![34u8]);
            assert(seq![f[0]] + f.skip(1) =~= f);
        }
    }
}

/// A comma-joined line whose leading fields need no quoting and whose
/// last field is rendered by the quoting rules splits back into exactly
/// those fields.
#[verifier::rlimit(100)]
#[verifier::spinoff_prover]
proof fn lemma_split_rendered(fs: Seq<Seq<u8>>)
    requires
        fs.len() >= 1,
        forall|i: int| 0 <= i < fs.len() - 1 ==> !needs_quote(#[trigger] fs[i]),
    ensures
        split_fields(join_commas(fs.update(fs.len() - 1, csv_field(fs.last())))) == Some(fs),
    decreases fs.len(),
{
    let last = fs.last();
    let rendered = fs.update(fs.len() - 1, csv_field(last));
    let l = join_commas(rendered);
    if !needs_quote(last) {
        assert(rendered =~= fs);
        lemma_split_plain(fs);
    } else if fs.len() == 1 {
        assert(rendered =~= seq![csv_field(last)]);
        assert(l == csv_field(last));
        assert(l == seq![34u8] + escape_quotes(last) + seq![34u8]);
        assert(l[0] == 34);
        assert(!is_ws(l[0]));
        assert(drop_ws(l) == l);
        lemma_quoted_split_escape(last);
        assert(l.skip(1) =~= escape_quotes(last) + seq![34u8]);
        assert(drop_ws(Seq::<u8>::empty()) == Seq::<u8>::empty());
        assert(split_fields(l) == Some(seq![last]));
        assert(seq![last] =~= fs);
    } else {
        let f0 = fs[0];
        assert(!needs_quote(f0));
        let tail = rendered.skip(1);
        assert(rendered[0] == f0);
        assert(l == f0 + seq![44u8] + join_commas(tail));
        assert(l.len() > 0);
        assert(l[0] == if f0.len() > 0 {
            f0[0]
        } else {
            44u8
        });
        assert(!is_ws(l[0]));
        assert(drop_ws(l) == l);
        if f0.len() > 0 {
            assert(l[0] == f0[0]);
            assert(f0[0] != 34);
        }
        assert(l[0] != 34);
        assert forall|j: int| 0 <= j < f0.len() implies l[j] != 44 by {
            assert(l[j] == f0[j]);
        }
        assert(l[f0.len() as int] == 44);
        common::lemma_find_byte_is(l, 44u8, f0.len() as int);
        assert(l.take(f0.len() as int) =~= f0);
        common::lemma_trim_noop(f0);
        assert(l.skip(f0.len() as int + 1) =~= join_commas(tail));
        assert(forall|i: int|
            0 <= i < fs.skip(1).len() - 1 ==> fs.skip(1)[i] == fs[i + 1] && !needs_quote(
                #[trigger] fs.skip(1)[i],
            ));
        assert(tail =~= fs.skip(1).update(fs.skip(1).len() - 1, csv_field(fs.skip(1).last())));
        lemma_split_rendered(fs.skip(1));
        assert(seq![f0] + fs.skip(1) =~= fs);
    }
}

/// The field values of one row, in canonical order.
pub open spec fn row_fields(t: TxView) -> Seq<Seq<u8>> {
    seq![
        dec_of(t.tx_id as nat),
        type_token(t.tx_type),
        dec_of(t.from_user_id as nat),
        dec_of(t.to_user_id as nat),
        dec_of(t.amount as nat),
        dec_of(t.timestamp as nat),
        status_token(t.status),
        encode_utf8(t.description),
    ]
}

/// The leading fields of a row are plain, the row line is the comma join
/// of the fields with the description rendered by the quoting rules, and
/// the line splits back into exactly the fields.
#[verifier::rlimit(100)]
#[verifier::spinoff_prover]
proof fn lemma_row_line_split(t: TxView)
    requires
        csv_encodable(t),
    ensures
        forall|i: int|
            0 <= i < row_fields(t).len() - 1 ==> !needs_quote(#[trigger] row_fields(t)[i]),
        no_line_breaks(csv_row_line(t)),
        split_fields(csv_row_line(t)) == Some(row_fields(t)),
{
    common::lemma_dec_of_props(t.tx_id as nat);
    common::lemma_dec_of_props(t.from_user_id as nat);
    common::lemma_dec_of_props(t.to_user_id as nat);
    common::lemma_dec_of_props(t.amount as nat);
    common::lemma_dec_of_props(t.timestamp as nat);
    common::lemma_digits_plain(dec_of(t.tx_id as nat));
    common::lemma_digits_plain(dec_of(t.from_user_id as nat));
    common::lemma_digits_plain(dec_of(t.to_user_id as nat));
    common::lemma_digits_plain(dec_of(t.amount as nat));
    common::lemma_digits_plain(dec_of(t.timestamp as nat));
    crate::model::transaction_type::lemma_type_token_plain(t.tx_type);
    crate::model::transaction_status::lemma_status_token_plain(t.status);
    lemma_plain_field(dec_of(t.tx_id as nat));
    lemma_plain_field(dec_of(t.from_user_id as nat));
    lemma_plain_field(dec_of(t.to_user_id as nat));
    lemma_plain_field(dec_of(t.amount as nat));
    lemma_plain_field(dec_of(t.timestamp as nat));
    lemma_plain_field(type_token(t.tx_type));
    lemma_plain_field(status_token(t.status));
    lemma_join_commas_8(
        dec_of(t.tx_id as nat),
        type_token(t.tx_type),
        dec_of(t.from_user_id as nat),
        dec_of(t.to_user_id as nat),
        dec_of(t.amount as nat),
        dec_of(t.timestamp as nat),
        status_token(t.status),
        csv_field(encode_utf8(t.description)),
    );
    let fs = row_fields(t);
    let rendered = fs.update(fs.len() - 1, csv_field(fs.last()));
    assert(rendered =~= seq![
        dec_of(t.tx_id as nat),
        type_token(t.tx_type),
        dec_of(t.from_user_id as nat),
        dec_of(t.to_user_id as nat),
        dec_of(t.amount as nat),
        dec_of(t.timestamp as nat),
        status_token(t.status),
        csv_field(encode_utf8(t.description)),
    ]);
    assert(csv_row_line(t) == join_commas(rendered));
    lemma_split_rendered(fs);
    assert(no_line_breaks(csv_field(encode_utf8(t.description)))) by {
        let db = encode_utf8(t.description);
        if needs_quote(db) {
            lemma_escape_no_breaks(db);
            assert(no_line_breaks(seq![34u8]));
            common::lemma_no_breaks_concat(seq![34u8], escape_quotes(db));
            common::lemma_no_breaks_concat(seq![34u8] + escape_quotes(db), seq![34u8]);
        }
    }
    assert(forall|i: int| 0 <= i < rendered.len() ==> no_line_breaks(#[trigger] rendered[i]));
    lemma_join_commas_no_breaks(rendered);
}

/// Reading back the fields of a written row yields the transaction.
#[verifier::rlimit(100)]
#[verifier::spinoff_prover]
proof fn lemma_parse_row_of(t: TxView, ln: int)
    requires
        csv_encodable(t),
    ensures
        spec_parse_row(row_fields(t), ln) == Ok::<TxView, ErrorKind>(t),
{
    let fs = row_fields(t);
    common::lemma_dec_of_props(t.tx_id as nat);
    common::lemma_dec_of_props(t.from_user_id as nat);
    common::lemma_dec_of_props(t.to_user_id as nat);
    common::lemma_dec_of_props(t.amount as nat);
    common::lemma_dec_of_props(t.timestamp as nat);
    common::lemma_digits_plain(dec_of(t.tx_id as nat));
    common::lemma_digits_plain(dec_of(t.from_user_id as nat));
    common::lemma_digits_plain(dec_of(t.to_user_id as nat));
    common::lemma_digits_plain(dec_of(t.amount as nat));
    common::lemma_digits_plain(dec_of(t.timestamp as nat));
    common::lemma_trim_noop(dec_of(t.tx_id as nat));
    common::lemma_trim_noop(dec_of(t.from_user_id as nat));
    common::lemma_trim_noop(dec_of(t.to_user_id as nat));
    common::lemma_trim_noop(dec_of(t.amount as nat));
    common::lemma_trim_noop(dec_of(t.timestamp as nat));
    crate::model::transaction_type::lemma_type_token_plain(t.tx_type);
    crate::model::transaction_status::lemma_status_token_plain(t.status);
    common::lemma_trim_noop(type_token(t.tx_type));
    common::lemma_trim_noop(status_token(t.status));
    common::lemma_parse_u64_dec_of(t.tx_id);
    common::lemma_parse_u64_dec_of(t.from_user_id);
    common::lemma_parse_u64_dec_of(t.to_user_id);
    common::lemma_parse_u64_dec_of(t.timestamp);
    common::lemma_parse_i64_dec_of(t.amount);
    crate::model::transaction_type::lemma_type_mappings_invert(t.tx_type);
    crate::model::transaction_status::lemma_status_mappings_invert(t.status);
    vstd::utf8::encode_utf8_valid_utf8(t.description);
    vstd::utf8::encode_utf8_decode_utf8(t.description);
}

/// Decoding the written rows of encodable transactions yields exactly
/// those transactions.
proof fn lemma_csv_rows_round(ts: Seq<TxView>, ln: int)
    requires
        forall|i: int| 0 <= i < ts.len() ==> csv_encodable(#[trigger] ts[i]),
    ensures
        spec_csv_rows(Seq::new(ts.len(), |i: int| csv_row_line(ts[i])), ln) == Ok::<
            Seq<TxView>,
            ErrorKind,
        >(ts),
    decreases ts.len(),
{
    let lines = Seq::new(ts.len(), |i: int| csv_row_line(ts[i]));
    if ts.len() == 0 {
        assert(lines =~= Seq::<Seq<u8>>::empty());
        assert(ts =~= Seq::<TxView>::empty());
    } else {
        let t = ts[0];
        assert(lines[0] == csv_row_line(t));
        lemma_row_line_split(t);
        lemma_parse_row_of(t, ln);
        common::lemma_dec_of_props(t.tx_id as nat);
        common::lemma_digits_plain(dec_of(t.tx_id as nat));
        common::lemma_trim_noop(dec_of(t.tx_id as nat));
        assert(!row_blank(row_fields(t))) by {
            assert(spec_trim(row_fields(t)[0]).len() > 0);
        }
        assert(lines.skip(1) =~= Seq::new(ts.skip(1).len(), |i: int| csv_row_line(ts.skip(1)[i])))
            by {
            assert(forall|i: int|
                0 <= i < ts.skip(1).len() ==> lines.skip(1)[i] == csv_row_line(ts[i + 1])
                    && #[trigger] ts.skip(1)[i] == ts[i + 1]);
        }
        assert(forall|i: int| 0 <= i < ts.skip(1).len() ==> csv_encodable(#[trigger] ts.skip(1)[i]))
            by {
            assert(forall|i: int|
                0 <= i < ts.skip(1).len() ==> ts.skip(1)[i] == ts[i + 1] && csv_encodable(
                    #[trigger] ts.skip(1)[i],
                ));
        }
        lemma_csv_rows_round(ts.skip(1), ln + 1);
        assert(seq![t] + ts.skip(1) =~= ts);
    }
}

/// `join_commas` of break-free fields is break-free.
proof fn lemma_join_commas_no_breaks(fs: Seq<Seq<u8>>)
    requires
        fs.len() >= 1,
        forall|i: int| 0 <= i < fs.len() ==> no_line_breaks(#[trigger] fs[i]),
    ensures
        no_line_breaks(join_commas(fs)),
    decreases fs.len(),
{
    if fs.len() == 1 {
    } else {
        assert(forall|i: int|
            0 <= i < fs.skip(1).len() ==> fs.skip(1)[i] == fs[i + 1] && no_line_breaks(
                #[trigger] fs.skip(1)[i],
            ));
        lemma_join_commas_no_breaks(fs.skip(1));
        assert(no_line_breaks(seq![44u8]));
        common::lemma_no_breaks_concat(fs[0], seq![44u8]);
        common::lemma_no_breaks_concat(fs[0] + seq![44u8], join_commas(fs.skip(1)));
    }
}

/// Decoding the CSV encoding of any sequence of encodable transactions
/// yields exactly that sequence.
#[verifier::rlimit(100)]
#[verifier::spinoff_prover]
pub proof fn lemma_csv_round_trip(ts: Seq<TxView>)
    requires
        forall|i: int| 0 <= i < ts.len() ==> csv_encodable(#[trigger] ts[i]),
    ensures
        spec_csv_decode(spec_csv_encode(ts)) == Ok::<Seq<TxView>, ErrorKind>(ts),
{
    let ls = csv_lines(ts);
    lemma_keys_plain();
    lemma_join_commas_8(
        key_tx_id(),
        key_tx_type(),
        key_from_user_id(),
        key_to_user_id(),
        key_amount(),
        key_timestamp(),
        key_status(),
        key_description(),
    );
    assert(header_line() == join_commas(field_names()));
    assert(forall|i: int|
        0 <= i < field_names().len() ==> !needs_quote(#[trigger] field_names()[i]));
    lemma_split_plain(field_names());
    assert(forall|i: int|
        0 <= i < field_names().len() ==> no_line_breaks(#[trigger] field_names()[i]));
    lemma_join_commas_no_breaks(field_names());
    assert forall|i: int| 0 <= i < ls.len() implies no_line_breaks(#[trigger] ls[i]) by {
        if i > 0 {
            let t = ts[i - 1];
            assert(ls[i] == csv_row_line(t));
            lemma_row_line_split(t);
        }
    }
    common::lemma_lines_of_join(ls, Seq::<u8>::empty());
    assert(join_lines(ls) + Seq::<u8>::empty() =~= join_lines(ls));
    assert(spec_lines(Seq::<u8>::empty()) =~= Seq::<Seq<u8>>::empty());
    assert(ls + Seq::<Seq<u8>>::empty() =~= ls);
    assert(spec_lines(spec_csv_encode(ts)) == ls);
    assert(ls[0] == header_line());
    assert(header_line().len() > 0);
    assert(header_ok(field_names()));
    assert(ls.skip(1) =~= Seq::new(ts.len(), |i: int| csv_row_line(ts[i])));
    lemma_csv_rows_round(ts, 2);
}

/// Every transaction a row yields is well formed.
proof fn lemma_parse_row_wf(fs: Seq<Seq<u8>>, ln: int)
    ensures
        spec_parse_row(fs, ln) is Ok ==> wf_tx(spec_parse_row(fs, ln)->Ok_0),
{
}

/// Every transaction a CSV decode admits is well formed.
pub proof fn lemma_csv_rows_wf(lines: Seq<Seq<u8>>, ln: int)
    ensures
        spec_csv_rows(lines, ln) is Ok ==> forall|i: int|
            0 <= i < spec_csv_rows(lines, ln)->Ok_0.len() ==> wf_tx(
                #[trigger] spec_csv_rows(lines, ln)->Ok_0[i],
            ),
    decreases lines.len(),
{
    if lines.len() > 0 {
        lemma_csv_rows_wf(lines.skip(1), ln + 1);
        if split_fields(lines[0]) is Some {
            lemma_parse_row_wf(split_fields(lines[0])->0, ln);
        }
    }
}

/// Decoding rows from a different starting line number succeeds on the
/// same inputs and yields the same transactions: only what errors carry
/// differs.
proof fn lemma_csv_rows_ln_irrelevant(lines: Seq<Seq<u8>>, ln1: int, ln2: int)
    ensures
        ({
            let a = spec_csv_rows(lines, ln1);
            let b = spec_csv_rows(lines, ln2);
            &&& a is Ok <==> b is Ok
            &&& a is Ok ==> a->Ok_0 == b->Ok_0
        }),
    decreases lines.len(),
{
    if lines.len() > 0 {
        lemma_csv_rows_ln_irrelevant(lines.skip(1), ln1 + 1, ln2 + 1);
    }
}

/// Blank-row tolerance: a row whose every field is blank can stand
/// anywhere among the data rows without changing whether decoding
/// succeeds or what it yields — it never appears in the output and never
/// triggers a field-count error; only the lines later errors are
/// reported at can shift.
pub proof fn lemma_csv_blank_row_tolerance(lines: Seq<Seq<u8>>, k: int, b: Seq<u8>, ln: int)
    requires
        0 <= k <= lines.len(),
        split_fields(b) is Some,
        row_blank(split_fields(b)->0),
    ensures
        ({
            let a = spec_csv_rows(lines.take(k) + seq![b] + lines.skip(k), ln);
            let r = spec_csv_rows(lines, ln);
            &&& a is Ok <==> r is Ok
            &&& a is Ok ==> a->Ok_0 == r->Ok_0
        }),
    decreases lines.len(),
{
    let with = lines.take(k) + seq![b] + lines.skip(k);
    if k == 0 {
        assert(with[0] == b);
        assert(with.skip(1) =~= lines);
        lemma_csv_rows_ln_irrelevant(lines, ln + 1, ln);
    } else {
        assert(with[0] == lines[0]);
        assert(with.skip(1) =~= lines.skip(1).take(k - 1) + seq![b] + lines.skip(1).skip(k - 1));
        if split_fields(lines[0]) is Some {
            lemma_csv_blank_row_tolerance(lines.skip(1), k - 1, b, ln + 1);
        }
    }
}

/// Every transaction a CSV decode admits, header phase included, is well
/// formed.
pub proof fn lemma_csv_header_wf(lines: Seq<Seq<u8>>, ln: int)
    ensures
        spec_csv_header(lines, ln) is Ok ==> forall|i: int|
            0 <= i < spec_csv_header(lines, ln)->Ok_0.len() ==> wf_tx(
                #[trigger] spec_csv_header(lines, ln)->Ok_0[i],
            ),
    decreases lines.len(),
{
    if lines.len() > 0 {
        if lines[0].len() == 0 {
            lemma_csv_header_wf(lines.skip(1), ln + 1);
        } else {
            lemma_csv_rows_wf(lines.skip(1), ln + 1);
        }
    }
}

// ---------------------------------------------------------------------------
// The executable codec
// ---------------------------------------------------------------------------
/// Scans a quoted field from just after its opening quote; returns the
/// content and the index just past the closing quote.
#[verifier::loop_isolation(false)]
fn quoted_scan(l: &Vec<u8>, start: usize) -> (r: Option<(Vec<u8>, usize)>)
    requires
        start <= l.len(),
    ensures
        ({
            match quoted_split(l@.skip(start as int)) {
                Some(cr) => r is Some && (r->0).0@ == cr.0 && cr.1 == l@.skip((r->0).1 as int)
                    && start < (r->0).1 <= l.len(),
                None => r is None,
            }
        }),
{
    let ghost q0 = l@.skip(start as int);
    let mut content: Vec<u8> = Vec::new();
    let mut i: usize = start;
    proof {
        assert(content@ =~= Seq::<u8>::empty());
    }
    while i < l.len()
        invariant
            start <= i <= l.len(),
            match quoted_split(l@.skip(i as int)) {
                Some(cr) => quoted_split(q0) == Some((content@ + cr.0, cr.1)),
                None => quoted_split(q0) is None,
            },
        decreases l.len() - i,
    {
        let ghost s = l@.skip(i as int);
        proof {
            assert(s[0] == l@[i as int]);
            assert(s.skip(1) =~= l@.skip(i as int + 1));
        }
        let b = l[i];
        if b == 34u8 {
            if i + 1 < l.len() && l[i + 1] == 34u8 {
                proof {
                    assert(s[1] == l@[i as int + 1]);
                    assert(s.skip(2) =~= l@.skip(i as int + 2));
                }
                content.push(34u8);
                proof {
                    if quoted_split(l@.skip(i as int + 2)) is Some {
                        let cr = quoted_split(l@.skip(i as int + 2))->0;
                        assert(quoted_split(s) == Some((seq![34u8] + cr.0, cr.1)));
                        assert((content@.drop_last() + (seq![34u8] + cr.0)) =~= content@ + cr.0);
                    }
                }
                i += 2;
            } else {
                proof {
                    assert(quoted_split(s) == Some((Seq::<u8>::empty(), s.skip(1))));
                    assert(content@ + Seq::<u8>::empty() =~= content@);
                }
                return Some((content, i + 1));
            }
        } else {
            content.push(b);
            proof {
                if quoted_split(l@.skip(i as int + 1)) is Some {
                    let cr = quoted_split(l@.skip(i as int + 1))->0;
                    assert(quoted_split(s) == Some((seq![b] + cr.0, cr.1)));
                    assert((content@.drop_last() + (seq![b] + cr.0)) =~= content@ + cr.0);
                }
            }
            i += 1;
        }
    }
    proof {
        assert(l@.skip(i as int).len() == 0);
    }
    None
}

/// The index of the first byte from `start` that is not ASCII whitespace,
/// or the length when all remaining bytes are.
#[verifier::loop_isolation(false)]
fn skip_ws_from(l: &Vec<u8>, start: usize) -> (r: usize)
    requires
        start <= l.len(),
    ensures
        start <= r <= l.len(),
        drop_ws(l@.skip(start as int)) == l@.skip(r as int),
        r < l.len() ==> !is_ws(l@[r as int]),
{
    let mut w = start;
    while w < l.len() && (l[w] == 32u8 || (9u8 <= l[w] && l[w] <= 13u8))
        invariant
            start <= w <= l.len(),
            drop_ws(l@.skip(start as int)) == drop_ws(l@.skip(w as int)),
        decreases l.len() - w,
    {
        proof {
            let s = l@.skip(w as int);
            assert(s[0] == l@[w as int]);
            assert(s.skip(1) =~= l@.skip(w as int + 1));
        }
        w += 1;
    }
    proof {
        let s = l@.skip(w as int);
        if s.len() > 0 {
            assert(s[0] == l@[w as int]);
        }
        assert(drop_ws(s) == s);
    }
    w
}

/// Splits one CSV line into its fields, exactly as [`split_fields`] says;
/// `None` when the quoting rules are violated.
#[verifier::loop_isolation(false)]
#[verifier::rlimit(100)]
fn split_fields_exec(l: &Vec<u8>) -> (r: Option<Vec<Vec<u8>>>)
    ensures
        ({
            match split_fields(l@) {
                Some(fs) => r is Some && r->0.deep_view() == fs,
                None => r is None,
            }
        }),
{
    let mut acc: Vec<Vec<u8>> = Vec::new();
    let mut pos: usize = 0;
    proof {
        assert(l@.skip(0) =~= l@);
        assert(acc.deep_view() =~= Seq::<Seq<u8>>::empty());
    }
    loop
        invariant
            pos <= l.len(),
            match split_fields(l@.skip(pos as int)) {
                Some(fs) => split_fields(l@) == Some(acc.deep_view() + fs),
                None => split_fields(l@) is None,
            },
        decreases l.len() - pos,
    {
        let ghost s = l@.skip(pos as int);
        let w = skip_ws_from(l, pos);
        proof {
            assert(drop_ws(s) == l@.skip(w as int));
        }
        if w == l.len() {
            proof {
                assert(drop_ws(s).len() == 0);
                assert(split_fields(s) == Some(seq![Seq::<u8>::empty()]));
            }
            let ghost prev = acc.deep_view();
            acc.push(Vec::new());
            proof {
                assert(acc.deep_view() =~~= prev.push(Seq::<u8>::empty()));
                assert(prev + seq![Seq::<u8>::empty()] =~= acc.deep_view());
            }
            return Some(acc);
        }
        let ghost d = drop_ws(s);
        proof {
            assert(d[0] == l@[w as int]);
        }
        if l[w] == 34u8 {
            proof {
                assert(d.skip(1) =~= l@.skip(w as int + 1));
            }
            match quoted_scan(l, w + 1) {
                None => {
                    return None;
                },
                Some((content, after)) => {
                    let w2 = skip_ws_from(l, after);
                    let ghost cr = quoted_split(d.skip(1))->0;
                    proof {
                        assert(cr.1 == l@.skip(after as int));
                        assert(drop_ws(cr.1) == l@.skip(w2 as int));
                    }
                    if w2 == l.len() {
                        proof {
                            assert(drop_ws(cr.1).len() == 0);
                            assert(split_fields(s) == Some(seq![cr.0]));
                        }
                        let ghost prev = acc.deep_view();
                        acc.push(content);
                        proof {
                            assert(acc.deep_view() =~~= prev.push(cr.0));
                            assert(prev + seq![cr.0] =~= acc.deep_view());
                        }
                        return Some(acc);
                    } else if l[w2] == 44u8 {
                        proof {
                            assert(drop_ws(cr.1)[0] == l@[w2 as int]);
                            assert(drop_ws(cr.1).skip(1) =~= l@.skip(w2 as int + 1));
                        }
                        let ghost prev = acc.deep_view();
                        acc.push(content);
                        proof {
                            assert(acc.deep_view() =~~= prev.push(cr.0));
                            if split_fields(l@.skip(w2 as int + 1)) is Some {
                                let fs2 = split_fields(l@.skip(w2 as int + 1))->0;
                                assert(split_fields(s) == Some(seq![cr.0] + fs2));
                                assert(prev + (seq![cr.0] + fs2) =~= acc.deep_view() + fs2);
                            }
                        }
                        pos = w2 + 1;
                    } else {
                        proof {
                            assert(drop_ws(cr.1)[0] == l@[w2 as int]);
                            assert(drop_ws(cr.1).len() > 0);
                            assert(split_fields(s) is None);
                        }
                        return None;
                    }
                },
            }
        } else {
            proof {
                assert(!is_ws(d[0]));
                assert(d[0] != 34);
            }
            let cm = common::find_from(l, pos, l.len(), 44u8);
            proof {
                assert(s =~= l@.subrange(pos as int, l@.len() as int));
                assert(find_byte(s, 44u8) == cm - pos);
            }
            let content = common::trim_range(l, pos, cm);
            proof {
                assert(l@.subrange(pos as int, cm as int) =~= s.take(cm - pos));
                assert(content@ == spec_trim(s.take(cm - pos)));
            }
            if cm == l.len() {
                proof {
                    assert(split_fields(s) == Some(seq![spec_trim(s.take(cm - pos))]));
                }
                let ghost prev = acc.deep_view();
                acc.push(content);
                proof {
                    assert(acc.deep_view() =~~= prev.push(content@));
                    assert(prev + seq![content@] =~= acc.deep_view());
                }
                return Some(acc);
            } else {
                proof {
                    assert(s.skip((cm - pos) as int + 1) =~= l@.skip(cm as int + 1));
                }
                let ghost prev = acc.deep_view();
                acc.push(content);
                proof {
                    assert(acc.deep_view() =~~= prev.push(content@));
                    if split_fields(l@.skip(cm as int + 1)) is Some {
                        let fs2 = split_fields(l@.skip(cm as int + 1))->0;
                        assert(split_fields(s) == Some(seq![content@] + fs2));
                        assert(prev + (seq![content@] + fs2) =~= acc.deep_view() + fs2);
                    }
                }
                pos = cm + 1;
            }
        }
    }
}

/// The eight required column names as owned strings, for error payloads.
fn required_field_strings() -> (r: Vec<String>)
    ensures
        r.deep_view() == crate::errors::required_payload(),
{
    let mut v: Vec<String> = Vec::new();
    let mut i: usize = 0;
    proof {
        assert(forall|j: int| 0 <= j < key_tx_id().len() ==> #[trigger] key_tx_id()[j] < 128);
        assert(forall|j: int| 0 <= j < key_tx_type().len() ==> #[trigger] key_tx_type()[j] < 128);
        assert(forall|j: int|
            0 <= j < key_from_user_id().len() ==> #[trigger] key_from_user_id()[j] < 128);
        assert(forall|j: int|
            0 <= j < key_to_user_id().len() ==> #[trigger] key_to_user_id()[j] < 128);
        assert(forall|j: int| 0 <= j < key_amount().len() ==> #[trigger] key_amount()[j] < 128);
        assert(forall|j: int|
            0 <= j < key_timestamp().len() ==> #[trigger] key_timestamp()[j] < 128);
        assert(forall|j: int| 0 <= j < key_status().len() ==> #[trigger] key_status()[j] < 128);
        assert(forall|j: int|
            0 <= j < key_description().len() ==> #[trigger] key_description()[j] < 128);
    }
    while i < 8
        invariant
            i <= 8,
            v.deep_view().len() == i,
            forall|j: int|
                0 <= j < i ==> #[trigger] v.deep_view()[j] == common::msg_raw(field_names()[j]),
        decreases 8 - i,
    {
        let key = common::field_name_bytes(i);
        let ghost prev = v.deep_view();
        proof {
            assert(forall|j: int|
                0 <= j < field_names()[i as int].len() ==> #[trigger] field_names()[i as int][j]
                    < 128);
            common::lemma_ascii_bytes_decode(field_names()[i as int]);
        }
        v.push(common::range_to_string(&key, 0, key.len()));
        proof {
            assert(key@.subrange(0, key@.len() as int) =~= field_names()[i as int]);
            assert(v.deep_view() =~~= prev.push(common::msg_raw(field_names()[i as int])));
        }
        i += 1;
    }
    proof {
        assert(v.deep_view() =~~= crate::errors::required_payload());
    }
    v
}

/// The given fields as owned strings, rendered as the error payloads
/// carry them.
fn fields_as_strings(fs: &Vec<Vec<u8>>) -> (r: Vec<String>)
    ensures
        r.deep_view() == crate::errors::fields_payload(fs.deep_view()),
{
    let mut v: Vec<String> = Vec::new();
    let mut i: usize = 0;
    while i < fs.len()
        invariant
            i <= fs.len(),
            v.deep_view().len() == i,
            forall|j: int|
                0 <= j < i ==> #[trigger] v.deep_view()[j] == common::msg_raw(fs.deep_view()[j]),
        decreases fs.len() - i,
    {
        let ghost prev = v.deep_view();
        v.push(common::range_to_string(&fs[i], 0, fs[i].len()));
        proof {
            assert(fs@[i as int]@.subrange(0, fs@[i as int]@.len() as int) =~= fs.deep_view()[
                i as int]);
            assert(v.deep_view() =~~= prev.push(common::msg_raw(fs.deep_view()[i as int])));
        }
        i += 1;
    }
    proof {
        assert(v.deep_view() =~~= crate::errors::fields_payload(fs.deep_view()));
    }
    v
}

/// True when every field is blank after trimming.
fn row_blank_exec(fs: &Vec<Vec<u8>>) -> (r: bool)
    ensures
        r == row_blank(fs.deep_view()),
{
    let ghost fv = fs.deep_view();
    let mut i: usize = 0;
    while i < fs.len()
        invariant
            i <= fs.len(),
            fv == fs.deep_view(),
            forall|j: int| 0 <= j < i ==> spec_trim(#[trigger] fv[j]).len() == 0,
        decreases fs.len() - i,
    {
        let t = common::trim_range(&fs[i], 0, fs[i].len());
        proof {
            assert(fs[i as int]@.subrange(0, fs[i as int]@.len() as int) =~= fv[i as int]);
        }
        if t.len() > 0 {
            return false;
        }
        i += 1;
    }
    true
}

/// Reading and writing data in the header-delimited CSV format.
pub struct YPBankCsvParser;

impl YPBankCsvParser {
    /// Builds one transaction from the fields of one data row, exactly as
    /// [`spec_parse_row`] says; errors carry the row's line number.
    fn parse_record(fields: &Vec<Vec<u8>>, line_num: usize) -> (r: Result<Transaction, ParseError>)
        ensures
            ({
                match spec_parse_row(fields.deep_view(), line_num as int) {
                    Ok(v) => r is Ok && r->Ok_0@ == v,
                    Err(k) => r is Err && matches_kind(r->Err_0, k),
                }
            }),
    {
        let ghost fv = fields.deep_view();
        if fields.len() != 8 {
            return Err(
                ParseError::InvalidRecord(fields_as_strings(fields), required_field_strings()),
            );
        }
        proof {
            assert forall|i: int| 0 <= i < 8 implies fv[i] == fields@[i]@ by {}
        }
        let f0 = common::trim_range(&fields[0], 0, fields[0].len());
        let f1 = common::trim_range(&fields[1], 0, fields[1].len());
        let f2 = common::trim_range(&fields[2], 0, fields[2].len());
        let f3 = common::trim_range(&fields[3], 0, fields[3].len());
        let f4 = common::trim_range(&fields[4], 0, fields[4].len());
        let f5 = common::trim_range(&fields[5], 0, fields[5].len());
        let f6 = common::trim_range(&fields[6], 0, fields[6].len());
        proof {
            assert(fields@[0]@.subrange(0, fields@[0]@.len() as int) =~= fv[0]);
            assert(fields@[1]@.subrange(0, fields@[1]@.len() as int) =~= fv[1]);
            assert(fields@[2]@.subrange(0, fields@[2]@.len() as int) =~= fv[2]);
            assert(fields@[3]@.subrange(0, fields@[3]@.len() as int) =~= fv[3]);
            assert(fields@[4]@.subrange(0, fields@[4]@.len() as int) =~= fv[4]);
            assert(fields@[5]@.subrange(0, fields@[5]@.len() as int) =~= fv[5]);
            assert(fields@[6]@.subrange(0, fields@[6]@.len() as int) =~= fv[6]);
        }
        let tx_id = match common::parse_number("TxId", &f0, line_num) {
            Ok(n) => n,
            Err(e) => {
                return Err(e);
            },
        };
        let tx_type = match common::parse_transaction_type(&f1, line_num) {
            Ok(t) => t,
            Err(e) => {
                return Err(e);
            },
        };
        let from_user_id = match common::parse_number("FromUserId", &f2, line_num) {
            Ok(n) => n,
            Err(e) => {
                return Err(e);
            },
        };
        let to_user_id = match common::parse_number("ToUserId", &f3, line_num) {
            Ok(n) => n,
            Err(e) => {
                return Err(e);
            },
        };
        let amount = match common::parse_number_i64("AMOUNT", &f4, line_num) {
            Ok(n) => n,
            Err(e) => {
                return Err(e);
            },
        };
        if amount <= 0 {
            return Err(ParseError::InvalidAmount(amount));
        }
        let timestamp = match common::parse_number("TIMESTAMP", &f5, line_num) {
            Ok(n) => n,
            Err(e) => {
                return Err(e);
            },
        };
        let status = match common::parse_transaction_status(&f6, line_num) {
            Ok(s) => s,
            Err(e) => {
                return Err(e);
            },
        };
        let desc_bytes = common::copy_range(&fields[7], 0, fields[7].len());
        proof {
            assert(desc_bytes@ =~= fv[7]);
        }
        let description = match common::utf8_to_string(desc_bytes) {
            Some(d) => d,
            None => {
                let mut m = common::new_string("invalid UTF-8 in DESCRIPTION at line ");
                common::append_u64(&mut m, line_num as u64);
                return Err(ParseError::InvalidDescription(m));
            },
        };
        let tx = Transaction {
            tx_id,
            tx_type,
            from_user_id,
            to_user_id,
            amount,
            timestamp,
            status,
            description,
        };
        match tx.validate() {
            Ok(()) => Ok(tx),
            Err(e) => Err(e),
        }
    }

    /// Decodes a CSV byte source: the mandatory header row, then one
    /// transaction per non-blank row, exactly as [`spec_csv_decode`]
    /// says.
    #[verifier::loop_isolation(false)]
    #[verifier::rlimit(100)]
    pub fn parse(input: &Vec<u8>) -> (r: Result<Vec<Transaction>, ParseError>)
        ensures
            ({
                match spec_csv_decode(input@) {
                    Ok(vs) => r is Ok && r->Ok_0.deep_view() == vs,
                    Err(k) => r is Err && matches_kind(r->Err_0, k),
                }
            }),
    {
        let lines = common::split_lines(input);
        let ghost lv = lines.deep_view();
        let mut li: usize = 0;
        proof {
            assert(lv.skip(0) =~= lv);
        }
        while li < lines.len() && lines[li].len() == 0
            invariant
                li <= lines.len(),
                spec_csv_header(lv.skip(li as int), li + 1) == spec_csv_decode(input@),
            decreases lines.len() - li,
        {
            proof {
                let rem = lv.skip(li as int);
                assert(rem[0] == lines@[li as int]@);
                assert(rem[0].len() == 0);
                assert(rem.skip(1) =~= lv.skip(li as int + 1));
            }
            li += 1;
        }
        if li == lines.len() {
            let actual: Vec<String> = Vec::new();
            proof {
                assert(lv.skip(li as int).len() == 0);
                assert(actual.deep_view() =~~= crate::errors::fields_payload(
                    Seq::<Seq<u8>>::empty(),
                ));
            }
            return Err(ParseError::InvalidHeader(actual, required_field_strings()));
        }
        let ghost hrem = lv.skip(li as int);
        proof {
            assert(hrem[0] == lines@[li as int]@);
            assert(hrem[0].len() > 0);
            assert(hrem.skip(1) =~= lv.skip(li as int + 1));
        }
        let hfields = match split_fields_exec(&lines[li]) {
            Some(fs) => fs,
            None => {
                return Err(
                    ParseError::InvalidData(
                        common::new_string("unterminated quoted field in header"),
                    ),
                );
            },
        };
        proof {
            assert(hfields.deep_view().len() == hfields@.len());
        }
        let mut header_good = hfields.len() == 8;
        let mut hi: usize = 0;
        while hi < 8 && header_good
            invariant
                hi <= 8,
                header_good ==> hfields.deep_view().len() == 8,
                header_good ==> forall|i: int|
                    0 <= i < hi ==> spec_trim(#[trigger] hfields.deep_view()[i])
                        == field_names()[i],
                !header_good ==> !header_ok(hfields.deep_view()),
            decreases 8 - hi,
        {
            let ht = common::trim_range(&hfields[hi], 0, hfields[hi].len());
            proof {
                assert(hfields@[hi as int]@.subrange(0, hfields@[hi as int]@.len() as int)
                    =~= hfields.deep_view()[hi as int]);
            }
            let expected = common::field_name_bytes(hi);
            if !common::bytes_eq(&ht, &expected) {
                proof {
                    assert(spec_trim(hfields.deep_view()[hi as int]) != field_names()[hi as int]);
                }
                header_good = false;
            }
            hi += 1;
        }
        if !header_good {
            return Err(
                ParseError::InvalidHeader(fields_as_strings(&hfields), required_field_strings()),
            );
        }
        proof {
            assert(header_ok(hfields.deep_view()));
        }
        let mut res: Vec<Transaction> = Vec::new();
        let mut ri: usize = li + 1;
        proof {
            assert(res.deep_view() =~= Seq::<TxView>::empty());
            assert(spec_csv_header(hrem, li + 1) == spec_csv_rows(lv.skip(li as int + 1), li + 2));
            if spec_csv_rows(lv.skip(ri as int), ri + 1) is Ok {
                let vs = spec_csv_rows(lv.skip(ri as int), ri + 1)->Ok_0;
                assert(res.deep_view() + vs =~= vs);
            }
        }
        while ri < lines.len()
            invariant
                li + 1 <= ri <= lines.len(),
                match spec_csv_rows(lv.skip(ri as int), ri + 1) {
                    Ok(vs) => spec_csv_decode(input@) == Ok::<Seq<TxView>, ErrorKind>(
                        res.deep_view() + vs,
                    ),
                    Err(k) => spec_csv_decode(input@) == Err::<Seq<TxView>, ErrorKind>(k),
                },
            decreases lines.len() - ri,
        {
            let ghost rem = lv.skip(ri as int);
            proof {
                assert(rem[0] == lines@[ri as int]@);
                assert(rem.skip(1) =~= lv.skip(ri as int + 1));
            }
            let fields = match split_fields_exec(&lines[ri]) {
                Some(fs) => fs,
                None => {
                    return Err(
                        ParseError::InvalidData(
                            common::new_string("unterminated quoted field in record"),
                        ),
                    );
                },
            };
            if !row_blank_exec(&fields) {
                match Self::parse_record(&fields, ri + 1) {
                    Ok(tx) => {
                        let ghost prev = res.deep_view();
                        res.push(tx);
                        proof {
                            assert(res.deep_view() =~= prev.push(tx@));
                            if spec_csv_rows(lv.skip(ri as int + 1), ri + 2) is Ok {
                                let vs = spec_csv_rows(lv.skip(ri as int + 1), ri + 2)->Ok_0;
                                assert(prev + (seq![tx@] + vs) =~= res.deep_view() + vs);
                            }
                        }
                    },
                    Err(e) => {
                        return Err(e);
                    },
                }
            }
            ri += 1;
        }
        proof {
            assert(lv.skip(ri as int).len() == 0);
            assert(res.deep_view() + Seq::<TxView>::empty() =~= res.deep_view());
        }
        Ok(res)
    }

    /// Encodes a transaction sequence as CSV: the header row, then one
    /// row per transaction, quoting the description only where the
    /// quoting rules require it. Succeeds exactly when every amount is
    /// strictly positive; the bytes returned are exactly
    /// [`spec_csv_encode`] of the sequence.
    ///
    /// A description holding a line break is written quoted, but this
    /// module's line-oriented reader cannot read such a row back: see
    /// [`spec_csv_decode`] and [`csv_encodable`].
    #[verifier::loop_isolation(false)]
    #[verifier::rlimit(100)]
    pub fn write(transactions: &Vec<Transaction>) -> (r: Result<Vec<u8>, ParseError>)
        ensures
            r is Ok <==> (forall|i: int|
                0 <= i < transactions.deep_view().len()
                    ==> (#[trigger] transactions.deep_view()[i]).amount > 0),
            r is Ok ==> r->Ok_0@ == spec_csv_encode(transactions.deep_view()),
            r is Err ==> matches_kind(
                r->Err_0,
                ErrorKind::Amount(
                    transactions.deep_view()[crate::model::transaction::first_nonpositive(
                        transactions.deep_view(),
                    )].amount,
                ),
            ),
    {
        let ghost ts = transactions.deep_view();
        let mut lines: Vec<Vec<u8>> = Vec::new();
        lines.push(header_line_vec());
        proof {
            assert(lines.deep_view() =~~= seq![header_line()] + Seq::new(0nat, |j: int| csv_row_line(ts[j])));
        }
        let mut i: usize = 0;
        while i < transactions.len()
            invariant
                i <= transactions.len(),
                lines.deep_view() == seq![header_line()] + Seq::new(
                    i as nat,
                    |j: int| csv_row_line(ts[j]),
                ),
                forall|j: int| 0 <= j < i ==> (#[trigger] ts[j]).amount > 0,
            decreases transactions.len() - i,
        {
            let tx = &transactions[i];
            proof {
                assert(ts[i as int] == tx@);
            }
            if tx.amount <= 0 {
                proof {
                    crate::model::transaction::lemma_first_nonpositive_is(ts, i as int);
                }
                return Err(ParseError::InvalidAmount(tx.amount));
            }
            let ghost prev = lines.deep_view();
            lines.push(row_line_vec(tx));
            proof {
                assert(lines.deep_view() =~~= prev.push(csv_row_line(tx@)));
                assert((seq![header_line()] + Seq::new(i as nat, |j: int| csv_row_line(ts[j])))
                    .push(csv_row_line(ts[i as int])) =~= seq![header_line()] + Seq::new(
                    (i + 1) as nat,
                    |j: int| csv_row_line(ts[j]),
                ));
            }
            i += 1;
        }
        proof {
            assert(lines.deep_view() =~= csv_lines(ts));
        }
        Ok(common::join_lines_exec(&lines))
    }
}

/// The header line, without its closing line feed.
fn header_line_vec() -> (r: Vec<u8>)
    ensures
        r@ == header_line(),
{
    let mut r = common::field_name_bytes(0);
    let mut k1 = common::field_name_bytes(1);
    let mut k2 = common::field_name_bytes(2);
    let mut k3 = common::field_name_bytes(3);
    let mut k4 = common::field_name_bytes(4);
    let mut k5 = common::field_name_bytes(5);
    let mut k6 = common::field_name_bytes(6);
    let mut k7 = common::field_name_bytes(7);
    r.push(44u8);
    r.append(&mut k1);
    r.push(44u8);
    r.append(&mut k2);
    r.push(44u8);
    r.append(&mut k3);
    r.push(44u8);
    r.append(&mut k4);
    r.push(44u8);
    r.append(&mut k5);
    r.push(44u8);
    r.append(&mut k6);
    r.push(44u8);
    r.append(&mut k7);
    assert(r@ =~= header_line());
    r
}

/// One data row, without its closing line feed.
fn row_line_vec(tx: &Transaction) -> (r: Vec<u8>)
    requires
        tx.amount > 0,
    ensures
        r@ == csv_row_line(tx@),
{
    let mut r = common::u64_digits(tx.tx_id);
    r.push(44u8);
    let mut p = tx.tx_type.token_bytes();
    r.append(&mut p);
    r.push(44u8);
    let mut p2 = common::u64_digits(tx.from_user_id);
    r.append(&mut p2);
    r.push(44u8);
    let mut p3 = common::u64_digits(tx.to_user_id);
    r.append(&mut p3);
    r.push(44u8);
    let mut p4 = common::u64_digits(tx.amount as u64);
    proof {
        assert((tx.amount as u64) as nat == tx@.amount as nat);
    }
    r.append(&mut p4);
    r.push(44u8);
    let mut p5 = common::u64_digits(tx.timestamp);
    r.append(&mut p5);
    r.push(44u8);
    let mut p6 = tx.status.token_bytes();
    r.append(&mut p6);
    r.push(44u8);
    let db = tx.description.as_str().as_bytes_vec();
    let mut p7 = csv_field_exec(db);
    r.append(&mut p7);
    assert(r@ =~= csv_row_line(tx@));
    r
}

/// True when a field cannot be written bare.
fn needs_quote_exec(f: &Vec<u8>) -> (r: bool)
    ensures
        r == needs_quote(f@),
{
    if f.len() == 0 {
        return false;
    }
    let first = f[0];
    let last = f[f.len() - 1];
    if first == 32u8 || (9u8 <= first && first <= 13u8) || last == 32u8 || (9u8 <= last && last
        <= 13u8) {
        return true;
    }
    let mut i: usize = 0;
    while i < f.len()
        invariant
            i <= f.len(),
            forall|j: int|
                0 <= j < i ==> (#[trigger] f@[j]) != 44 && f@[j] != 34 && f@[j] != 10 && f@[j]
                    != 13,
        decreases f.len() - i,
    {
        let b = f[i];
        if b == 44u8 || b == 34u8 || b == 10u8 || b == 13u8 {
            return true;
        }
        i += 1;
    }
    false
}

/// A field with each quote doubled.
fn escape_quotes_exec(f: &Vec<u8>) -> (r: Vec<u8>)
    ensures
        r@ == escape_quotes(f@),
{
    let mut r: Vec<u8> = Vec::new();
    let mut i: usize = 0;
    proof {
        assert(f@.skip(0) =~= f@);
    }
    while i < f.len()
        invariant
            i <= f.len(),
            escape_quotes(f@) == r@ + escape_quotes(f@.skip(i as int)),
        decreases f.len() - i,
    {
        let ghost s = f@.skip(i as int);
        proof {
            assert(s[0] == f@[i as int]);
            assert(s.skip(1) =~= f@.skip(i as int + 1));
        }
        let b = f[i];
        let ghost prevr = r@;
        if b == 34u8 {
            r.push(34u8);
            r.push(34u8);
            proof {
                assert(escape_quotes(s) == seq![34u8, 34u8] + escape_quotes(f@.skip(i as int + 1)));
                assert(prevr + (seq![34u8, 34u8] + escape_quotes(f@.skip(i as int + 1))) =~= r@
                    + escape_quotes(f@.skip(i as int + 1)));
            }
        } else {
            r.push(b);
            proof {
                assert(escape_quotes(s) == seq![b] + escape_quotes(f@.skip(i as int + 1)));
                assert(prevr + (seq![b] + escape_quotes(f@.skip(i as int + 1))) =~= r@
                    + escape_quotes(f@.skip(i as int + 1)));
            }
        }
        i += 1;
    }
    proof {
        assert(f@.skip(f@.len() as int).len() == 0);
        assert(r@ + Seq::<u8>::empty() =~= r@);
    }
    r
}

/// A field as the writer emits it: bare where possible, quoted where not.
fn csv_field_exec(f: Vec<u8>) -> (r: Vec<u8>)
    ensures
        r@ == csv_field(f@),
{
    if needs_quote_exec(&f) {
        let mut r: Vec<u8> = Vec::new();
        r.push(34u8);
        let mut e = escape_quotes_exec(&f);
        r.append(&mut e);
        r.push(34u8);
        assert(r@ =~= csv_field(f@));
        r
    } else {
        f
    }
}

} // verus!
