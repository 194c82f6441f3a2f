use vstd::prelude::*;

use vstd::string::StrSliceExecFns;
use vstd::utf8::{decode_utf8, encode_utf8, valid_utf8};

use crate::errors::{matches_kind, ErrorKind, ParseError};
use crate::format::common;
use crate::format::common::{
    dec_of, field_names, find_byte, is_ws, join_lines, key_amount, key_description,
    key_from_user_id, key_status, key_timestamp, key_to_user_id, key_tx_id, key_tx_type,
    no_line_breaks, parse_i64_spec, parse_u64_spec, spec_lines, spec_parse_description, spec_trim,
};
use crate::model::transaction::{domain_ok, wf_tx, Transaction, TxView};
use crate::model::transaction_status::{status_token, token_to_status, TransactionStatus};
use crate::model::transaction_type::{token_to_type, type_display, type_token, TransactionType};

verus! {

// ---------------------------------------------------------------------------
// Blocks of key/value pairs
// ---------------------------------------------------------------------------
/// True when one of the pairs carries the key `k`.
pub open spec fn pairs_has_key(ps: Seq<(Seq<u8>, Seq<u8>)>, k: Seq<u8>) -> bool {
    exists|i: int| 0 <= i < ps.len() && (#[trigger] ps[i]).0 == k
}

/// The value of the first pair carrying the key `k`.
pub open spec fn pairs_get(ps: Seq<(Seq<u8>, Seq<u8>)>, k: Seq<u8>) -> Seq<u8>
    decreases ps.len(),
{
    if ps.len() == 0 {
        Seq::empty()
    } else if ps[0].0 == k {
        ps[0].1
    } else {
        pairs_get(ps.skip(1), k)
    }
}

/// What a closed block of key/value pairs, ending at line `end_ln`,
/// yields: all eight field names must be present — the first missing one
/// in canonical order is reported — the fields are then read in canonical
/// order, the amount must be strictly positive, the description must be
/// quoted, and the domain invariants must hold.
pub open spec fn spec_parse_block(ps: Seq<(Seq<u8>, Seq<u8>)>, end_ln: int) -> Result<
    TxView,
    ErrorKind,
> {
    if !pairs_has_key(ps, key_tx_id()) {
        Err(ErrorKind::MissingKey(key_tx_id(), end_ln))
    } else if !pairs_has_key(ps, key_tx_type()) {
        Err(ErrorKind::MissingKey(key_tx_type(), end_ln))
    } else if !pairs_has_key(ps, key_from_user_id()) {
        Err(ErrorKind::MissingKey(key_from_user_id(), end_ln))
    } else if !pairs_has_key(ps, key_to_user_id()) {
        Err(ErrorKind::MissingKey(key_to_user_id(), end_ln))
    } else if !pairs_has_key(ps, key_amount()) {
        Err(ErrorKind::MissingKey(key_amount(), end_ln))
    } else if !pairs_has_key(ps, key_timestamp()) {
        Err(ErrorKind::MissingKey(key_timestamp(), end_ln))
    } else if !pairs_has_key(ps, key_status()) {
        Err(ErrorKind::MissingKey(key_status(), end_ln))
    } else if !pairs_has_key(ps, key_description()) {
        Err(ErrorKind::MissingKey(key_description(), end_ln))
    } else {
        match parse_u64_spec(pairs_get(ps, key_tx_id())) {
            None => Err(ErrorKind::Number("TX_ID"@, pairs_get(ps, key_tx_id()), end_ln)),
            Some(tx_id) => match token_to_type(pairs_get(ps, key_tx_type())) {
                None => Err(ErrorKind::TypeToken(pairs_get(ps, key_tx_type()), end_ln)),
                Some(tx_type) => match parse_u64_spec(pairs_get(ps, key_from_user_id())) {
                    None => Err(
                        ErrorKind::Number(
                            "FROM_USER_ID"@,
                            pairs_get(ps, key_from_user_id()),
                            end_ln,
                        ),
                    ),
                    Some(from_user_id) => match parse_u64_spec(pairs_get(ps, key_to_user_id())) {
                        None => Err(
                            ErrorKind::Number(
                                "TO_USER_ID"@,
                                pairs_get(ps, key_to_user_id()),
                                end_ln,
                            ),
                        ),
                        Some(to_user_id) => match parse_i64_spec(pairs_get(ps, key_amount())) {
                            None => Err(
                                ErrorKind::Number("AMOUNT"@, pairs_get(ps, key_amount()), end_ln),
                            ),
                            Some(amount) => if amount <= 0 {
                                Err(ErrorKind::Amount(amount))
                            } else {
                                match parse_u64_spec(pairs_get(ps, key_timestamp())) {
                                    None => Err(
                                        ErrorKind::Number(
                                            "TIMESTAMP"@,
                                            pairs_get(ps, key_timestamp()),
                                            end_ln,
                                        ),
                                    ),
                                    Some(timestamp) => match token_to_status(
                                        pairs_get(ps, key_status()),
                                    ) {
                                        None => Err(
                                            ErrorKind::StatusToken(
                                                pairs_get(ps, key_status()),
                                                end_ln,
                                            ),
                                        ),
                                        Some(status) => match spec_parse_description(
                                            pairs_get(ps, key_description()),
                                            end_ln,
                                        ) {
                                            Err(k) => Err(k),
                                            Ok(description) => {
                                                let v = TxView {
                                                    tx_id,
                                                    tx_type,
                                                    from_user_id,
                                                    to_user_id,
                                                    amount,
                                                    timestamp,
                                                    status,
                                                    description,
                                                };
                                                if !domain_ok(v) {
                                                    Err(
                                                        if v.tx_type is Deposit
                                                            && v.from_user_id != 0 {
                                                            ErrorKind::FromUser(v.from_user_id)
                                                        } else {
                                                            ErrorKind::ToUser(v.to_user_id)
                                                        },
                                                    )
                                                } else {
                                                    Ok(v)
                                                }
                                            },
                                        },
                                    },
                                }
                            },
                        },
                    },
                },
            },
        }
    }
}

/// What decoding a sequence of text lines yields, carrying the open
/// block's pairs and the 1-based number `ln` of the first line: blank
/// lines close blocks, `#` lines are ignored, every other line must be
/// `KEY: value` with a key new to its block; errors name the line they
/// arise at, and a block closed by the end of input reports the last
/// line's number.
pub open spec fn spec_text_decode_lines(
    lines: Seq<Seq<u8>>,
    cur: Seq<(Seq<u8>, Seq<u8>)>,
    ln: int,
) -> Result<Seq<TxView>, ErrorKind>
    decreases lines.len(),
{
    if lines.len() == 0 {
        if cur.len() == 0 {
            Ok(Seq::empty())
        } else {
            match spec_parse_block(cur, ln - 1) {
                Ok(v) => Ok(seq![v]),
                Err(k) => Err(k),
            }
        }
    } else {
        let l = spec_trim(lines[0]);
        if l.len() == 0 {
            if cur.len() == 0 {
                spec_text_decode_lines(lines.skip(1), cur, ln + 1)
            } else {
                match spec_parse_block(cur, ln) {
                    Ok(v) => match spec_text_decode_lines(lines.skip(1), Seq::empty(), ln + 1) {
                        Ok(vs) => Ok(seq![v] + vs),
                        Err(k) => Err(k),
                    },
                    Err(k) => Err(k),
                }
            }
        } else if l[0] == 35 {
            spec_text_decode_lines(lines.skip(1), cur, ln + 1)
        } else {
            let c = find_byte(l, 58u8);
            if c == l.len() {
                Err(ErrorKind::MalformedLine(l, ln))
            } else {
                let k = spec_trim(l.take(c));
                let v = spec_trim(l.skip(c + 1));
                if pairs_has_key(cur, k) {
                    Err(ErrorKind::DuplicateKey(k, ln))
                } else {
                    spec_text_decode_lines(lines.skip(1), cur.push((k, v)), ln + 1)
                }
            }
        }
    }
}

/// What decoding a text byte source yields.
pub open spec fn spec_text_decode(s: Seq<u8>) -> Result<Seq<TxView>, ErrorKind> {
    spec_text_decode_lines(spec_lines(s), Seq::empty(), 1)
}

// ---------------------------------------------------------------------------
// Encoding
// ---------------------------------------------------------------------------
/// A `KEY: value` line, without its closing line feed.
pub open spec fn kv_text(key: Seq<u8>, value: Seq<u8>) -> Seq<u8> {
    key + seq![58u8, 32u8] + value
}

/// The human-readable comment line written before a record: its 1-based
/// index, its kind, and its description.
pub open spec fn comment_text(t: TxView, n: nat) -> Seq<u8> {
    seq![35u8, 32u8, 82u8, 101u8, 99u8, 111u8, 114u8, 100u8, 32u8] + dec_of(n) + seq![32u8, 40u8]
        + type_display(t.tx_type) + seq![41u8, 58u8, 32u8] + encode_utf8(t.description)
}

/// The description value as written: the UTF-8 bytes wrapped in double
/// quotes.
pub open spec fn quoted_description(t: TxView) -> Seq<u8> {
    seq![34u8] + encode_utf8(t.description) + seq![34u8]
}

/// The key/value pairs of one block, in the order the writer emits them.
pub open spec fn text_pairs(t: TxView) -> Seq<(Seq<u8>, Seq<u8>)> {
    seq![
        (key_tx_id(), dec_of(t.tx_id as nat)),
        (key_tx_type(), type_token(t.tx_type)),
        (key_from_user_id(), dec_of(t.from_user_id as nat)),
        (key_to_user_id(), dec_of(t.to_user_id as nat)),
        (key_amount(), dec_of(t.amount as nat)),
        (key_timestamp(), dec_of(t.timestamp as nat)),
        (key_status(), status_token(t.status)),
        (key_description(), quoted_description(t)),
    ]
}

/// The lines of one written block, without their closing line feeds.
pub open spec fn text_block_lines(t: TxView, n: nat, comments: bool) -> Seq<Seq<u8>> {
    let kv = seq![
        kv_text(key_tx_id(), dec_of(t.tx_id as nat)),
        kv_text(key_tx_type(), type_token(t.tx_type)),
        kv_text(key_from_user_id(), dec_of(t.from_user_id as nat)),
        kv_text(key_to_user_id(), dec_of(t.to_user_id as nat)),
        kv_text(key_amount(), dec_of(t.amount as nat)),
        kv_text(key_timestamp(), dec_of(t.timestamp as nat)),
        kv_text(key_status(), status_token(t.status)),
        kv_text(key_description(), quoted_description(t)),
    ];
    if comments {
        seq![comment_text(t, n)] + kv
    } else {
        kv
    }
}

/// The bytes of one written block.
pub open spec fn spec_block_bytes(t: TxView, n: nat, comments: bool) -> Seq<u8> {
    join_lines(text_block_lines(t, n, comments))
}

/// The text encoding of the transactions from 1-based index `n` on:
/// blocks separated by exactly one blank line, with no trailing blank
/// line.
pub open spec fn spec_text_encode_from(ts: Seq<TxView>, n: nat, comments: bool) -> Seq<u8>
    decreases ts.len(),
{
    if ts.len() == 0 {
        Seq::empty()
    } else if ts.len() == 1 {
        spec_block_bytes(ts[0], n, comments)
    } else {
        spec_block_bytes(ts[0], n, comments) + seq![10u8] + spec_text_encode_from(
            ts.skip(1),
            n + 1,
            comments,
        )
    }
}

/// The text encoding of a transaction sequence.
pub open spec fn spec_text_encode(ts: Seq<TxView>, comments: bool) -> Seq<u8> {
    spec_text_encode_from(ts, 1, comments)
}

/// A transaction the text format can write and read back: well formed,
/// with no line break in its description.
pub open spec fn text_encodable(t: TxView) -> bool {
    wf_tx(t) && no_line_breaks(encode_utf8(t.description))
}

// ---------------------------------------------------------------------------
// Round trip
// ---------------------------------------------------------------------------
/// The value at the first pair whose key is `k`, characterised without
/// recursion.
proof fn lemma_pairs_get_at(ps: Seq<(Seq<u8>, Seq<u8>)>, k: Seq<u8>, j: int)
    requires
        0 <= j < ps.len(),
        ps[j].0 == k,
        forall|i: int| 0 <= i < j ==> (#[trigger] ps[i]).0 != k,
    ensures
        pairs_has_key(ps, k),
        pairs_get(ps, k) == ps[j].1,
    decreases ps.len(),
{
    if j > 0 {
        assert(ps[0].0 != k);
        let r = ps.skip(1);
        assert(r[j - 1] == ps[j]);
        assert(forall|i: int| 0 <= i < j - 1 ==> (#[trigger] r[i]).0 == ps[i + 1].0);
        lemma_pairs_get_at(r, k, j - 1);
    }
}



/// No line of a written block holds a line break.
proof fn lemma_block_lines_no_breaks(t: TxView, n: nat, comments: bool)
    requires
        no_line_breaks(encode_utf8(t.description)),
    ensures
        forall|i: int|
            0 <= i < text_block_lines(t, n, comments).len() ==> no_line_breaks(
                #[trigger] text_block_lines(t, n, comments)[i],
            ),
{
    let ls = text_block_lines(t, n, comments);
    common::lemma_dec_of_props(t.tx_id as nat);
    common::lemma_dec_of_props(t.from_user_id as nat);
    common::lemma_dec_of_props(t.to_user_id as nat);
    common::lemma_dec_of_props(t.amount as nat);
    common::lemma_dec_of_props(t.timestamp as nat);
    common::lemma_digits_plain(dec_of(t.tx_id as nat));
    common::lemma_digits_plain(dec_of(t.from_user_id as nat));
    common::lemma_digits_plain(dec_of(t.to_user_id as nat));
    common::lemma_digits_plain(dec_of(t.amount as nat));
    common::lemma_digits_plain(dec_of(t.timestamp as nat));
    crate::model::transaction_type::lemma_type_token_plain(t.tx_type);
    crate::model::transaction_status::lemma_status_token_plain(t.status);
    let db = encode_utf8(t.description);
    assert(no_line_breaks(seq![58u8, 32u8]));
    assert(no_line_breaks(seq![34u8]));
    assert(no_line_breaks(key_tx_id()));
    assert(no_line_breaks(key_tx_type()));
    assert(no_line_breaks(key_from_user_id()));
    assert(no_line_breaks(key_to_user_id()));
    assert(no_line_breaks(key_amount()));
    assert(no_line_breaks(key_timestamp()));
    assert(no_line_breaks(key_status()));
    assert(no_line_breaks(key_description()));
    assert(no_line_breaks(type_token(t.tx_type)));
    assert(no_line_breaks(type_display(t.tx_type)));
    assert(no_line_breaks(status_token(t.status)));
    lemma_kv_no_breaks(key_tx_id(), dec_of(t.tx_id as nat));
    lemma_kv_no_breaks(key_tx_type(), type_token(t.tx_type));
    lemma_kv_no_breaks(key_from_user_id(), dec_of(t.from_user_id as nat));
    lemma_kv_no_breaks(key_to_user_id(), dec_of(t.to_user_id as nat));
    lemma_kv_no_breaks(key_amount(), dec_of(t.amount as nat));
    lemma_kv_no_breaks(key_timestamp(), dec_of(t.timestamp as nat));
    lemma_kv_no_breaks(key_status(), status_token(t.status));
    common::lemma_no_breaks_concat(seq![34u8], db);
    common::lemma_no_breaks_concat(seq![34u8] + db, seq![34u8]);
    lemma_kv_no_breaks(key_description(), quoted_description(t));
    if comments {
        common::lemma_dec_of_props(n);
        common::lemma_digits_plain(dec_of(n));
        let c1 = seq![35u8, 32u8, 82u8, 101u8, 99u8, 111u8, 114u8, 100u8, 32u8];
        assert(no_line_breaks(c1));
        assert(no_line_breaks(seq![32u8, 40u8]));
        assert(no_line_breaks(seq![41u8, 58u8, 32u8]));
        common::lemma_no_breaks_concat(c1, dec_of(n));
        common::lemma_no_breaks_concat(c1 + dec_of(n), seq![32u8, 40u8]);
        common::lemma_no_breaks_concat(c1 + dec_of(n) + seq![32u8, 40u8], type_display(t.tx_type));
        common::lemma_no_breaks_concat(
            c1 + dec_of(n) + seq![32u8, 40u8] + type_display(t.tx_type),
            seq![41u8, 58u8, 32u8],
        );
        common::lemma_no_breaks_concat(
            c1 + dec_of(n) + seq![32u8, 40u8] + type_display(t.tx_type) + seq![41u8, 58u8, 32u8],
            db,
        );
        assert(no_line_breaks(comment_text(t, n)));
    }
    assert forall|i: int| 0 <= i < ls.len() implies no_line_breaks(#[trigger] ls[i]) by {}
}

/// A `KEY: value` line of break-free pieces holds no line break.
proof fn lemma_kv_no_breaks(key: Seq<u8>, value: Seq<u8>)
    requires
        no_line_breaks(key),
        no_line_breaks(value),
    ensures
        no_line_breaks(kv_text(key, value)),
{
    assert(no_line_breaks(seq![58u8, 32u8]));
    common::lemma_no_breaks_concat(key, seq![58u8, 32u8]);
    common::lemma_no_breaks_concat(key + seq![58u8, 32u8], value);
}

/// Stepping one `KEY: value` line: a line whose key is new to the open
/// block extends that block by its pair.
#[verifier::rlimit(100)]
#[verifier::spinoff_prover]
proof fn lemma_text_kv_step(
    lines: Seq<Seq<u8>>,
    cur: Seq<(Seq<u8>, Seq<u8>)>,
    key: Seq<u8>,
    value: Seq<u8>,
    ln: int,
)
    requires
        lines.len() > 0,
        lines[0] == kv_text(key, value),
        key.len() > 0,
        !is_ws(key[0]),
        !is_ws(key.last()),
        key[0] != 35,
        forall|i: int| 0 <= i < key.len() ==> #[trigger] key[i] != 58,
        value.len() > 0,
        !is_ws(value[0]),
        !is_ws(value.last()),
        !pairs_has_key(cur, key),
    ensures
        spec_text_decode_lines(lines, cur, ln) == spec_text_decode_lines(
            lines.skip(1),
            cur.push((key, value)),
            ln + 1,
        ),
{
    let l0 = lines[0];
    assert(l0.len() == key.len() + 2 + value.len());
    assert(l0[0] == key[0]);
    assert(l0.last() == value.last());
    common::lemma_trim_noop(l0);
    let l = spec_trim(l0);
    assert(l == l0);
    assert(l.len() > 0);
    assert(l[0] != 35);
    assert forall|j: int| 0 <= j < key.len() implies l[j] != 58 by {
        assert(l[j] == key[j]);
    }
    assert(l[key.len() as int] == 58);
    common::lemma_find_byte_is(l, 58u8, key.len() as int);
    assert(find_byte(l, 58u8) == key.len());
    assert(l.take(key.len() as int) =~= key);
    common::lemma_trim_noop(key);
    assert(l.skip(key.len() as int + 1) =~= seq![32u8] + value);
    assert((seq![32u8] + value)[0] == 32);
    assert((seq![32u8] + value).skip(1) =~= value);
    common::lemma_trim_noop(value);
    assert(spec_trim(l.skip(key.len() as int + 1)) == value);
}

/// Consuming a whole written block from the line stream leaves the rest of
/// the lines with the block's pairs open and the line number advanced by
/// the block's length.
#[verifier::rlimit(100)]
#[verifier::spinoff_prover]
proof fn lemma_text_block_decode(t: TxView, n: nat, comments: bool, more: Seq<Seq<u8>>, ln: int)
    requires
        text_encodable(t),
    ensures
        spec_text_decode_lines(text_block_lines(t, n, comments) + more, Seq::empty(), ln)
            == spec_text_decode_lines(
            more,
            text_pairs(t),
            ln + text_block_lines(t, n, comments).len(),
        ),
{
    common::lemma_dec_of_props(t.tx_id as nat);
    common::lemma_dec_of_props(t.from_user_id as nat);
    common::lemma_dec_of_props(t.to_user_id as nat);
    common::lemma_dec_of_props(t.amount as nat);
    common::lemma_dec_of_props(t.timestamp as nat);
    common::lemma_digits_plain(dec_of(t.tx_id as nat));
    common::lemma_digits_plain(dec_of(t.from_user_id as nat));
    common::lemma_digits_plain(dec_of(t.to_user_id as nat));
    common::lemma_digits_plain(dec_of(t.amount as nat));
    common::lemma_digits_plain(dec_of(t.timestamp as nat));
    crate::model::transaction_type::lemma_type_token_plain(t.tx_type);
    crate::model::transaction_status::lemma_status_token_plain(t.status);
    assert(key_amount() != key_status()) by {
        assert(key_amount()[0] != key_status()[0]);
    }
    let kv = seq![
        kv_text(key_tx_id(), dec_of(t.tx_id as nat)),
        kv_text(key_tx_type(), type_token(t.tx_type)),
        kv_text(key_from_user_id(), dec_of(t.from_user_id as nat)),
        kv_text(key_to_user_id(), dec_of(t.to_user_id as nat)),
        kv_text(key_amount(), dec_of(t.amount as nat)),
        kv_text(key_timestamp(), dec_of(t.timestamp as nat)),
        kv_text(key_status(), status_token(t.status)),
        kv_text(key_description(), quoted_description(t)),
    ];
    let base = text_block_lines(t, n, comments) + more;
    let l0 = kv + more;
    let ln0: int = if comments {
        ln + 1
    } else {
        ln
    };
    if comments {
        let c = comment_text(t, n);
        assert(base[0] == c);
        assert(c[0] == 35);
        assert(!is_ws(c[0]));
        common::lemma_trim_keep_first(c);
        assert(spec_trim(c).len() > 0 && spec_trim(c)[0] == 35);
        assert(base.skip(1) =~= l0);
        assert(spec_text_decode_lines(base, Seq::empty(), ln) == spec_text_decode_lines(
            l0,
            Seq::empty(),
            ln + 1,
        ));
    } else {
        assert(base =~= l0);
    }
    let p0: Seq<(Seq<u8>, Seq<u8>)> = Seq::empty();
    let p1 = p0.push((key_tx_id(), dec_of(t.tx_id as nat)));
    let p2 = p1.push((key_tx_type(), type_token(t.tx_type)));
    let p3 = p2.push((key_from_user_id(), dec_of(t.from_user_id as nat)));
    let p4 = p3.push((key_to_user_id(), dec_of(t.to_user_id as nat)));
    let p5 = p4.push((key_amount(), dec_of(t.amount as nat)));
    let p6 = p5.push((key_timestamp(), dec_of(t.timestamp as nat)));
    let p7 = p6.push((key_status(), status_token(t.status)));
    let p8 = p7.push((key_description(), quoted_description(t)));
    let qd = quoted_description(t);
    assert(qd[0] == 34 && qd.last() == 34 && qd.len() >= 2);
    let l1 = l0.skip(1);
    let l2 = l1.skip(1);
    let l3 = l2.skip(1);
    let l4 = l3.skip(1);
    let l5 = l4.skip(1);
    let l6 = l5.skip(1);
    let l7 = l6.skip(1);
    let l8 = l7.skip(1);
    assert(l8 =~= more);
    lemma_text_kv_step(l0, p0, key_tx_id(), dec_of(t.tx_id as nat), ln0);
    assert(l1[0] == kv[1]);
    lemma_text_kv_step(l1, p1, key_tx_type(), type_token(t.tx_type), ln0 + 1);
    assert(l2[0] == kv[2]);
    lemma_text_kv_step(l2, p2, key_from_user_id(), dec_of(t.from_user_id as nat), ln0 + 2);
    assert(l3[0] == kv[3]);
    lemma_text_kv_step(l3, p3, key_to_user_id(), dec_of(t.to_user_id as nat), ln0 + 3);
    assert(l4[0] == kv[4]);
    lemma_text_kv_step(l4, p4, key_amount(), dec_of(t.amount as nat), ln0 + 4);
    assert(l5[0] == kv[5]);
    lemma_text_kv_step(l5, p5, key_timestamp(), dec_of(t.timestamp as nat), ln0 + 5);
    assert(l6[0] == kv[6]);
    lemma_text_kv_step(l6, p6, key_status(), status_token(t.status), ln0 + 6);
    assert(l7[0] == kv[7]);
    lemma_text_kv_step(l7, p7, key_description(), qd, ln0 + 7);
    assert(p8 =~= text_pairs(t));
    assert(text_block_lines(t, n, comments).len() == if comments {
        9int
    } else {
        8int
    });
}

/// Reading back the pairs of a written block yields the transaction,
/// whatever line the block ended at.
#[verifier::rlimit(100)]
#[verifier::spinoff_prover]
proof fn lemma_parse_block_of(t: TxView, end_ln: int)
    requires
        text_encodable(t),
    ensures
        spec_parse_block(text_pairs(t), end_ln) == Ok::<TxView, ErrorKind>(t),
{
    let ps = text_pairs(t);
    assert(key_amount() != key_status()) by {
        assert(key_amount()[0] != key_status()[0]);
    }
    lemma_pairs_get_at(ps, key_tx_id(), 0);
    lemma_pairs_get_at(ps, key_tx_type(), 1);
    lemma_pairs_get_at(ps, key_from_user_id(), 2);
    lemma_pairs_get_at(ps, key_to_user_id(), 3);
    lemma_pairs_get_at(ps, key_amount(), 4);
    lemma_pairs_get_at(ps, key_timestamp(), 5);
    lemma_pairs_get_at(ps, key_status(), 6);
    lemma_pairs_get_at(ps, key_description(), 7);
    common::lemma_parse_u64_dec_of(t.tx_id);
    common::lemma_parse_u64_dec_of(t.from_user_id);
    common::lemma_parse_u64_dec_of(t.to_user_id);
    common::lemma_parse_u64_dec_of(t.timestamp);
    common::lemma_parse_i64_dec_of(t.amount);
    crate::model::transaction_type::lemma_type_mappings_invert(t.tx_type);
    crate::model::transaction_status::lemma_status_mappings_invert(t.status);
    let qd = quoted_description(t);
    let db = encode_utf8(t.description);
    assert(qd[0] == 34 && qd.last() == 34 && qd.len() >= 2);
    assert(qd.subrange(1, qd.len() - 1) =~= db);
    vstd::utf8::encode_utf8_valid_utf8(t.description);
    vstd::utf8::encode_utf8_decode_utf8(t.description);
    assert(spec_parse_description(qd, end_ln) == Ok::<Seq<char>, ErrorKind>(t.description));
}

/// Decoding the text encoding of any sequence of encodable transactions,
/// from any starting record number, yields exactly that sequence.
#[verifier::rlimit(100)]
#[verifier::spinoff_prover]
proof fn lemma_text_round_trip_from(ts: Seq<TxView>, n: nat, comments: bool, ln: int)
    requires
        forall|i: int| 0 <= i < ts.len() ==> text_encodable(#[trigger] ts[i]),
    ensures
        spec_text_decode_lines(
            spec_lines(spec_text_encode_from(ts, n, comments)),
            Seq::empty(),
            ln,
        ) == Ok::<Seq<TxView>, ErrorKind>(ts),
    decreases ts.len(),
{
    if ts.len() == 0 {
        assert(spec_text_encode_from(ts, n, comments) =~= Seq::<u8>::empty());
        assert(ts =~= Seq::<TxView>::empty());
    } else if ts.len() == 1 {
        let t = ts[0];
        let bl = text_block_lines(t, n, comments);
        lemma_block_lines_no_breaks(t, n, comments);
        common::lemma_lines_of_join(bl, Seq::empty());
        assert(join_lines(bl) + Seq::<u8>::empty() =~= join_lines(bl));
        assert(spec_lines(Seq::<u8>::empty()) =~= Seq::<Seq<u8>>::empty());
        assert(bl + Seq::<Seq<u8>>::empty() =~= bl);
        assert(spec_lines(spec_block_bytes(t, n, comments)) == bl);
        lemma_text_block_decode(t, n, comments, Seq::empty(), ln);
        lemma_parse_block_of(t, ln + bl.len() - 1);
        assert(text_pairs(t).len() == 8);
        assert(seq![t] =~= ts);
    } else {
        let t = ts[0];
        let bl = text_block_lines(t, n, comments);
        let rb = spec_text_encode_from(ts.skip(1), n + 1, comments);
        let whole = spec_text_encode_from(ts, n, comments);
        assert(whole == spec_block_bytes(t, n, comments) + seq![10u8] + rb);
        lemma_block_lines_no_breaks(t, n, comments);
        assert(whole =~= join_lines(bl) + (seq![10u8] + rb));
        common::lemma_lines_of_join(bl, seq![10u8] + rb);
        assert(spec_lines(whole) == bl + spec_lines(seq![10u8] + rb));
        assert(rb.len() > 0) by {
            assert(ts.skip(1).len() >= 1);
            assert(text_block_lines(ts.skip(1)[0], n + 1, comments).len() >= 8);
            assert(spec_block_bytes(ts.skip(1)[0], n + 1, comments).len() > 0) by {
                let bl2 = text_block_lines(ts.skip(1)[0], n + 1, comments);
                assert(join_lines(bl2).len() >= 1) by {
                    assert(join_lines(bl2) == (bl2[0] + seq![10u8]) + join_lines(bl2.skip(1)));
                }
            }
        }
        assert(spec_lines(seq![10u8] + rb) == seq![Seq::<u8>::empty()] + spec_lines(rb)) by {
            let s2 = seq![10u8] + rb;
            assert(s2[0] == 10);
            common::lemma_find_byte_is(s2, 10u8, 0);
            assert(s2.take(0) =~= Seq::<u8>::empty());
            assert(common::strip_cr(s2.take(0)) =~= Seq::<u8>::empty());
            assert(s2.skip(1) =~= rb);
        }
        let more = seq![Seq::<u8>::empty()] + spec_lines(rb);
        assert(spec_lines(whole) =~= bl + more);
        lemma_text_block_decode(t, n, comments, more, ln);
        lemma_parse_block_of(t, ln + bl.len());
        assert(text_pairs(t).len() == 8);
        assert(more[0].len() == 0);
        assert(spec_trim(more[0]).len() == 0);
        assert(more.skip(1) =~= spec_lines(rb));
        assert(forall|i: int|
            0 <= i < ts.skip(1).len() ==> text_encodable(#[trigger] ts.skip(1)[i])) by {
            assert(forall|i: int|
                0 <= i < ts.skip(1).len() ==> ts.skip(1)[i] == ts[i + 1] && text_encodable(
                    #[trigger] ts.skip(1)[i],
                ));
        }
        lemma_text_round_trip_from(ts.skip(1), n + 1, comments, ln + bl.len() + 1);
        assert(seq![t] + ts.skip(1) =~= ts);
    }
}

/// Decoding the text encoding of any sequence of encodable transactions
/// yields exactly that sequence.
pub proof fn lemma_text_round_trip(ts: Seq<TxView>, comments: bool)
    requires
        forall|i: int| 0 <= i < ts.len() ==> text_encodable(#[trigger] ts[i]),
    ensures
        spec_text_decode(spec_text_encode(ts, comments)) == Ok::<Seq<TxView>, ErrorKind>(ts),
{
    lemma_text_round_trip_from(ts, 1, comments, 1);
}

/// Every transaction a closed block yields is well formed.
proof fn lemma_parse_block_wf(ps: Seq<(Seq<u8>, Seq<u8>)>, end_ln: int)
    ensures
        spec_parse_block(ps, end_ln) is Ok ==> wf_tx(spec_parse_block(ps, end_ln)->Ok_0),
{
}

/// Extending the sequence by one transaction appends a blank separator,
/// except in front, and that transaction's block.
proof fn lemma_text_encode_snoc(ts: Seq<TxView>, k: int, n: nat, comments: bool)
    requires
        0 <= k < ts.len(),
    ensures
        spec_text_encode_from(ts.take(k + 1), n, comments) == if k == 0 {
            spec_block_bytes(ts[0], n, comments)
        } else {
            spec_text_encode_from(ts.take(k), n, comments) + seq![10u8] + spec_block_bytes(
                ts[k],
                (n + k) as nat,
                comments,
            )
        },
    decreases k,
{
    if k == 0 {
        assert(ts.take(1) =~= seq![ts[0]]);
        assert(spec_text_encode_from(seq![ts[0]], n, comments) == spec_block_bytes(
            ts[0],
            n,
            comments,
        ));
    } else {
        let u = ts.skip(1);
        lemma_text_encode_snoc(u, k - 1, n + 1, comments);
        assert(ts.take(k + 1)[0] == ts[0]);
        assert(ts.take(k + 1).skip(1) =~= u.take(k));
        assert(ts.take(k)[0] == ts[0]);
        assert(ts.take(k).skip(1) =~= u.take(k - 1));
        assert(u[k - 1] == ts[k]);
        assert(ts.take(k + 1).len() == k + 1);
        assert(spec_text_encode_from(ts.take(k + 1), n, comments) == spec_block_bytes(
            ts[0],
            n,
            comments,
        ) + seq![10u8] + spec_text_encode_from(u.take(k), n + 1, comments));
        if k == 1 {
            assert(u.take(0) =~= Seq::<TxView>::empty());
            assert(spec_text_encode_from(u.take(1), n + 1, comments) == spec_block_bytes(
                u[0],
                n + 1,
                comments,
            ));
            assert(ts.take(1) =~= seq![ts[0]]);
            assert(spec_text_encode_from(ts.take(1), n, comments) == spec_block_bytes(
                ts[0],
                n,
                comments,
            ));
            assert((spec_block_bytes(ts[0], n, comments) + seq![10u8]) + spec_block_bytes(
                ts[1],
                (n + 1) as nat,
                comments,
            ) =~= spec_block_bytes(ts[0], n, comments) + seq![10u8] + spec_block_bytes(
                ts[1],
                (n + 1) as nat,
                comments,
            ));
        } else {
            assert(spec_text_encode_from(ts.take(k), n, comments) == spec_block_bytes(
                ts[0],
                n,
                comments,
            ) + seq![10u8] + spec_text_encode_from(u.take(k - 1), n + 1, comments));
            assert((spec_block_bytes(ts[0], n, comments) + seq![10u8] + spec_text_encode_from(
                u.take(k - 1),
                n + 1,
                comments,
            )) + seq![10u8] + spec_block_bytes(ts[k], (n + k) as nat, comments) =~= spec_block_bytes(
                ts[0],
                n,
                comments,
            ) + seq![10u8] + (spec_text_encode_from(u.take(k - 1), n + 1, comments) + seq![10u8]
                + spec_block_bytes(u[k - 1], ((n + 1) + (k - 1)) as nat, comments)));
        }
    }
}

/// A closed block yields the same outcome whatever line it is reported to
/// end at: only the error's carried line differs.
proof fn lemma_parse_block_ln(ps: Seq<(Seq<u8>, Seq<u8>)>, l1: int, l2: int)
    ensures
        spec_parse_block(ps, l1) is Ok <==> spec_parse_block(ps, l2) is Ok,
        spec_parse_block(ps, l1) is Ok ==> spec_parse_block(ps, l1) == spec_parse_block(ps, l2),
{
}

/// The starting line number affects only what errors carry, never whether
/// decoding succeeds nor what it yields.
pub proof fn lemma_text_decode_ln_irrelevant(
    lines: Seq<Seq<u8>>,
    cur: Seq<(Seq<u8>, Seq<u8>)>,
    ln1: int,
    ln2: int,
)
    ensures
        ({
            let a = spec_text_decode_lines(lines, cur, ln1);
            let b = spec_text_decode_lines(lines, cur, ln2);
            &&& a is Ok <==> b is Ok
            &&& a is Ok ==> a->Ok_0 == b->Ok_0
        }),
    decreases lines.len(),
{
    if lines.len() == 0 {
        if cur.len() > 0 {
            lemma_parse_block_ln(cur, ln1 - 1, ln2 - 1);
        }
    } else {
        let l = spec_trim(lines[0]);
        if l.len() == 0 {
            if cur.len() == 0 {
                lemma_text_decode_ln_irrelevant(lines.skip(1), cur, ln1 + 1, ln2 + 1);
            } else {
                lemma_parse_block_ln(cur, ln1, ln2);
                lemma_text_decode_ln_irrelevant(lines.skip(1), Seq::empty(), ln1 + 1, ln2 + 1);
            }
        } else if l[0] == 35 {
            lemma_text_decode_ln_irrelevant(lines.skip(1), cur, ln1 + 1, ln2 + 1);
        } else {
            let c2 = find_byte(l, 58u8);
            if c2 != l.len() {
                let kk = spec_trim(l.take(c2));
                let vv = spec_trim(l.skip(c2 + 1));
                if !pairs_has_key(cur, kk) {
                    lemma_text_decode_ln_irrelevant(
                        lines.skip(1),
                        cur.push((kk, vv)),
                        ln1 + 1,
                        ln2 + 1,
                    );
                }
            }
        }
    }
}

/// Comment tolerance: a line that trims to a `#` comment can stand
/// anywhere in a text source without changing whether decoding succeeds
/// or what it yields — it never appears in the output and never triggers
/// an error; only the lines later errors are reported at can shift.
pub proof fn lemma_text_comment_tolerance(
    lines: Seq<Seq<u8>>,
    cur: Seq<(Seq<u8>, Seq<u8>)>,
    k: int,
    c: Seq<u8>,
    ln: int,
)
    requires
        0 <= k <= lines.len(),
        spec_trim(c).len() > 0,
        spec_trim(c)[0] == 35,
    ensures
        ({
            let a = spec_text_decode_lines(lines.take(k) + seq![c] + lines.skip(k), cur, ln);
            let b = spec_text_decode_lines(lines, cur, ln);
            &&& a is Ok <==> b is Ok
            &&& a is Ok ==> a->Ok_0 == b->Ok_0
        }),
    decreases lines.len(),
{
    let with = lines.take(k) + seq![c] + lines.skip(k);
    if k == 0 {
        assert(with[0] == c);
        assert(with.skip(1) =~= lines);
        lemma_text_decode_ln_irrelevant(lines, cur, ln + 1, ln);
    } else {
        assert(with[0] == lines[0]);
        assert(with.skip(1) =~= lines.skip(1).take(k - 1) + seq![c] + lines.skip(1).skip(k - 1));
        let l = spec_trim(lines[0]);
        if l.len() == 0 {
            if cur.len() == 0 {
                lemma_text_comment_tolerance(lines.skip(1), cur, k - 1, c, ln + 1);
            } else {
                lemma_text_comment_tolerance(lines.skip(1), Seq::empty(), k - 1, c, ln + 1);
            }
        } else if l[0] == 35 {
            lemma_text_comment_tolerance(lines.skip(1), cur, k - 1, c, ln + 1);
        } else {
            let c2 = find_byte(l, 58u8);
            if c2 != l.len() {
                let kk = spec_trim(l.take(c2));
                let vv = spec_trim(l.skip(c2 + 1));
                if !pairs_has_key(cur, kk) {
                    lemma_text_comment_tolerance(lines.skip(1), cur.push((kk, vv)), k - 1, c, ln + 1);
                }
            }
        }
    }
}

/// Every transaction a text decode admits is well formed.
pub proof fn lemma_text_decode_lines_wf(
    lines: Seq<Seq<u8>>,
    cur: Seq<(Seq<u8>, Seq<u8>)>,
    ln: int,
)
    ensures
        spec_text_decode_lines(lines, cur, ln) is Ok ==> forall|i: int|
            0 <= i < spec_text_decode_lines(lines, cur, ln)->Ok_0.len() ==> wf_tx(
                #[trigger] spec_text_decode_lines(lines, cur, ln)->Ok_0[i],
            ),
    decreases lines.len(),
{
    if lines.len() == 0 {
        lemma_parse_block_wf(cur, ln - 1);
    } else {
        let l = spec_trim(lines[0]);
        if l.len() == 0 {
            lemma_parse_block_wf(cur, ln);
            lemma_text_decode_lines_wf(lines.skip(1), cur, ln + 1);
            lemma_text_decode_lines_wf(lines.skip(1), Seq::empty(), ln + 1);
        } else if l[0] == 35 {
            lemma_text_decode_lines_wf(lines.skip(1), cur, ln + 1);
        } else {
            let c = find_byte(l, 58u8);
            if c != l.len() {
                let k = spec_trim(l.take(c));
                let v = spec_trim(l.skip(c + 1));
                lemma_text_decode_lines_wf(lines.skip(1), cur.push((k, v)), ln + 1);
            }
        }
    }
}

// ---------------------------------------------------------------------------
// The executable codec
// ---------------------------------------------------------------------------
/// The value of the first pair whose key is `key`, if any pair carries it.
fn pairs_lookup(ps: &Vec<(Vec<u8>, Vec<u8>)>, key: &Vec<u8>) -> (r: Option<Vec<u8>>)
    ensures
        r is Some <==> pairs_has_key(ps.deep_view(), key@),
        r is Some ==> r->0@ == pairs_get(ps.deep_view(), key@),
{
    let ghost pv = ps.deep_view();
    let mut j: usize = 0;
    while j < ps.len()
        invariant
            j <= ps.len(),
            pv == ps.deep_view(),
            forall|i: int| 0 <= i < j ==> (#[trigger] pv[i]).0 != key@,
        decreases ps.len() - j,
    {
        proof {
            assert(pv[j as int].0 == ps@[j as int].0@);
        }
        if common::bytes_eq(&ps[j].0, key) {
            proof {
                lemma_pairs_get_at(pv, key@, j as int);
            }
            return Some(common::copy_range(&ps[j].1, 0, ps[j].1.len()));
        }
        j += 1;
    }
    None
}

/// One `KEY: value` line, without its closing line feed.
fn kv_line_vec(key_idx: usize, value: &Vec<u8>) -> (r: Vec<u8>)
    requires
        key_idx < 8,
    ensures
        r@ == kv_text(field_names()[key_idx as int], value@),
{
    let mut r = common::field_name_bytes(key_idx);
    r.push(58u8);
    r.push(32u8);
    let mut v = common::copy_range(value, 0, value.len());
    r.append(&mut v);
    assert(r@ =~= kv_text(field_names()[key_idx as int], value@));
    r
}

/// The quoted description value of a transaction, as written.
fn quoted_description_vec(tx: &Transaction) -> (r: Vec<u8>)
    ensures
        r@ == quoted_description(tx@),
{
    let mut r: Vec<u8> = Vec::new();
    r.push(34u8);
    let mut db = tx.description.as_str().as_bytes_vec();
    r.append(&mut db);
    r.push(34u8);
    assert(r@ =~= quoted_description(tx@));
    r
}

/// The comment line written before a record, without its line feed.
fn comment_line_vec(tx: &Transaction, n: u64) -> (r: Vec<u8>)
    ensures
        r@ == comment_text(tx@, n as nat),
{
    let mut r: Vec<u8> = Vec::new();
    r.push(35u8);
    r.push(32u8);
    r.push(82u8);
    r.push(101u8);
    r.push(99u8);
    r.push(111u8);
    r.push(114u8);
    r.push(100u8);
    r.push(32u8);
    let mut d = common::u64_digits(n);
    r.append(&mut d);
    r.push(32u8);
    r.push(40u8);
    let mut ty = tx.tx_type.display_bytes();
    r.append(&mut ty);
    r.push(41u8);
    r.push(58u8);
    r.push(32u8);
    let mut db = tx.description.as_str().as_bytes_vec();
    r.append(&mut db);
    assert(r@ =~= comment_text(tx@, n as nat));
    r
}

/// Reading and writing data in the `KEY: value` block text format.
pub struct YPBankTextParser;

impl YPBankTextParser {
    /// Builds one transaction from a closed block of key/value pairs,
    /// exactly as [`spec_parse_block`] says; errors carry the line at
    /// which the block ended.
    fn parse_record(record: &Vec<(Vec<u8>, Vec<u8>)>, line_number: usize) -> (r: Result<
        Transaction,
        ParseError,
    >)
        ensures
            ({
                match spec_parse_block(record.deep_view(), line_number as int) {
                    Ok(v) => r is Ok && r->Ok_0@ == v,
                    Err(k) => r is Err && matches_kind(r->Err_0, k),
                }
            }),
    {
        proof {
            assert(field_names()[0] == key_tx_id());
            assert(field_names()[1] == key_tx_type());
            assert(field_names()[2] == key_from_user_id());
            assert(field_names()[3] == key_to_user_id());
            assert(field_names()[4] == key_amount());
            assert(field_names()[5] == key_timestamp());
            assert(field_names()[6] == key_status());
            assert(field_names()[7] == key_description());
        }
        let mut ki: usize = 0;
        while ki < 8
            invariant
                ki <= 8,
                forall|i: int|
                    0 <= i < ki ==> pairs_has_key(record.deep_view(), #[trigger] field_names()[i]),
            decreases 8 - ki,
        {
            let key = common::field_name_bytes(ki);
            match pairs_lookup(record, &key) {
                Some(_) => {
                },
                None => {
                    let mut m = common::new_string("Missing required field '");
                    common::append_bytes(&mut m, &key, 0, key.len());
                    common::append_str(&mut m, "' in transaction ending at line ");
                    common::append_u64(&mut m, line_number as u64);
                    proof {
                        assert(key@.subrange(0, key@.len() as int) =~= key@);
                        assert(field_names()[0] == key_tx_id());
                        assert(field_names()[1] == key_tx_type());
                        assert(field_names()[2] == key_from_user_id());
                        assert(field_names()[3] == key_to_user_id());
                        assert(field_names()[4] == key_amount());
                        assert(field_names()[5] == key_timestamp());
                        assert(field_names()[6] == key_status());
                        assert(field_names()[7] == key_description());
                        assert(spec_parse_block(record.deep_view(), line_number as int)
                            == Err::<TxView, ErrorKind>(
                            ErrorKind::MissingKey(field_names()[ki as int], line_number as int),
                        ));
                    }
                    return Err(ParseError::Validation(m));
                },
            }
            ki += 1;
        }
        proof {
            assert(field_names()[0] == key_tx_id());
            assert(field_names()[1] == key_tx_type());
            assert(field_names()[2] == key_from_user_id());
            assert(field_names()[3] == key_to_user_id());
            assert(field_names()[4] == key_amount());
            assert(field_names()[5] == key_timestamp());
            assert(field_names()[6] == key_status());
            assert(field_names()[7] == key_description());
            assert(pairs_has_key(record.deep_view(), key_tx_id()));
            assert(pairs_has_key(record.deep_view(), key_tx_type()));
            assert(pairs_has_key(record.deep_view(), key_from_user_id()));
            assert(pairs_has_key(record.deep_view(), key_to_user_id()));
            assert(pairs_has_key(record.deep_view(), key_amount()));
            assert(pairs_has_key(record.deep_view(), key_timestamp()));
            assert(pairs_has_key(record.deep_view(), key_status()));
            assert(pairs_has_key(record.deep_view(), key_description()));
        }
        let v_tx_id = pairs_lookup(record, &common::field_name_bytes(0)).unwrap();
        let v_tx_type = pairs_lookup(record, &common::field_name_bytes(1)).unwrap();
        let v_from = pairs_lookup(record, &common::field_name_bytes(2)).unwrap();
        let v_to = pairs_lookup(record, &common::field_name_bytes(3)).unwrap();
        let v_amount = pairs_lookup(record, &common::field_name_bytes(4)).unwrap();
        let v_timestamp = pairs_lookup(record, &common::field_name_bytes(5)).unwrap();
        let v_status = pairs_lookup(record, &common::field_name_bytes(6)).unwrap();
        let v_desc = pairs_lookup(record, &common::field_name_bytes(7)).unwrap();
        let tx_id = match common::parse_number("TX_ID", &v_tx_id, line_number) {
            Ok(n) => n,
            Err(e) => {
                return Err(e);
            },
        };
        let tx_type = match common::parse_transaction_type(&v_tx_type, line_number) {
            Ok(t) => t,
            Err(e) => {
                return Err(e);
            },
        };
        let from_user_id = match common::parse_number("FROM_USER_ID", &v_from, line_number) {
            Ok(n) => n,
            Err(e) => {
                return Err(e);
            },
        };
        let to_user_id = match common::parse_number("TO_USER_ID", &v_to, line_number) {
            Ok(n) => n,
            Err(e) => {
                return Err(e);
            },
        };
        let amount = match common::parse_number_i64("AMOUNT", &v_amount, line_number) {
            Ok(n) => n,
            Err(e) => {
                return Err(e);
            },
        };
        if amount <= 0 {
            return Err(ParseError::InvalidAmount(amount));
        }
        let timestamp = match common::parse_number("TIMESTAMP", &v_timestamp, line_number) {
            Ok(n) => n,
            Err(e) => {
                return Err(e);
            },
        };
        let status = match common::parse_transaction_status(&v_status, line_number) {
            Ok(s) => s,
            Err(e) => {
                return Err(e);
            },
        };
        let description = match common::parse_description(&v_desc, line_number) {
            Ok(d) => d,
            Err(e) => {
                return Err(e);
            },
        };
        let tx = Transaction {
            tx_id,
            tx_type,
            from_user_id,
            to_user_id,
            amount,
            timestamp,
            status,
            description,
        };
        match tx.validate() {
            Ok(()) => Ok(tx),
            Err(e) => Err(e),
        }
    }

    /// Decodes a text byte source: blank-line-delimited blocks of
    /// `KEY: value` lines, with `#` comment lines ignored, exactly as
    /// [`spec_text_decode`] says.
    #[verifier::loop_isolation(false)]
    #[verifier::rlimit(100)]
    pub fn parse(input: &Vec<u8>) -> (r: Result<Vec<Transaction>, ParseError>)
        ensures
            ({
                match spec_text_decode(input@) {
                    Ok(vs) => r is Ok && r->Ok_0.deep_view() == vs,
                    Err(k) => r is Err && matches_kind(r->Err_0, k),
                }
            }),
    {
        let lines = common::split_lines(input);
        let ghost lv = lines.deep_view();
        let mut res: Vec<Transaction> = Vec::new();
        let mut cur: Vec<(Vec<u8>, Vec<u8>)> = Vec::new();
        let mut li: usize = 0;
        proof {
            assert(lv.skip(0) =~= lv);
            assert(res.deep_view() =~= Seq::<TxView>::empty());
            assert(cur.deep_view() =~= Seq::<(Seq<u8>, Seq<u8>)>::empty());
        }
        while li < lines.len()
            invariant
                li <= lines.len(),
                lv == lines.deep_view(),
                lv == spec_lines(input@),
                match spec_text_decode_lines(lv.skip(li as int), cur.deep_view(), li + 1) {
                    Ok(vs) => spec_text_decode(input@) == Ok::<Seq<TxView>, ErrorKind>(
                        res.deep_view() + vs,
                    ),
                    Err(k) => spec_text_decode(input@) == Err::<Seq<TxView>, ErrorKind>(k),
                },
            decreases lines.len() - li,
        {
            let ghost rem = lv.skip(li as int);
            proof {
                assert(rem[0] == lv[li as int]);
                assert(rem.skip(1) =~= lv.skip(li as int + 1));
            }
            let line = &lines[li];
            let trimmed = common::trim_range(line, 0, line.len());
            proof {
                assert(lv[li as int] == lines@[li as int]@);
                assert(line@.subrange(0, line@.len() as int) =~= line@);
                assert(trimmed@ == spec_trim(rem[0]));
            }
            if trimmed.len() == 0 {
                if cur.len() > 0 {
                    match Self::parse_record(&cur, li + 1) {
                        Ok(tx) => {
                            let ghost prev = res.deep_view();
                            res.push(tx);
                            proof {
                                assert(res.deep_view() =~= prev.push(tx@));
                                let restr = spec_text_decode_lines(
                                    lv.skip(li as int + 1),
                                    Seq::empty(),
                                    li + 2,
                                );
                                if restr is Ok {
                                    assert(prev + (seq![tx@] + restr->Ok_0) =~= res.deep_view()
                                        + restr->Ok_0);
                                }
                            }
                            cur = Vec::new();
                            proof {
                                assert(cur.deep_view() =~= Seq::<(Seq<u8>, Seq<u8>)>::empty());
                            }
                        },
                        Err(e) => {
                            return Err(e);
                        },
                    }
                }
            } else if trimmed[0] == 35u8 {
            } else {
                let c = common::find_from(&trimmed, 0, trimmed.len(), 58u8);
                proof {
                    assert(trimmed@.subrange(0, trimmed@.len() as int) =~= trimmed@);
                }
                if c == trimmed.len() {
                    let mut m = common::new_string("Invalid line format at line ");
                    common::append_u64(&mut m, (li + 1) as u64);
                    common::append_str(&mut m, ": '");
                    common::append_bytes(&mut m, &trimmed, 0, trimmed.len());
                    common::append_str(&mut m, "'");
                    proof {
                        assert(((li + 1) as u64) as nat == (li + 1) as nat);
                    }
                    return Err(ParseError::Validation(m));
                }
                let key = common::trim_range(&trimmed, 0, c);
                let value = common::trim_range(&trimmed, c + 1, trimmed.len());
                proof {
                    let l = trimmed@;
                    assert(l.subrange(0, c as int) =~= l.take(c as int));
                    assert(l.subrange(c as int + 1, l.len() as int) =~= l.skip(c as int + 1));
                    assert(key@ == spec_trim(l.take(c as int)));
                    assert(value@ == spec_trim(l.skip(c as int + 1)));
                }
                let mut j: usize = 0;
                while j < cur.len()
                    invariant
                        j <= cur.len(),
                        forall|i: int| 0 <= i < j ==> (#[trigger] cur.deep_view()[i]).0 != key@,
                    decreases cur.len() - j,
                {
                    proof {
                        assert(cur.deep_view()[j as int].0 == cur@[j as int].0@);
                    }
                    if common::bytes_eq(&cur[j].0, &key) {
                        let mut m = common::new_string("Duplicate key '");
                        common::append_bytes(&mut m, &key, 0, key.len());
                        common::append_str(&mut m, "' in transaction at line ");
                        common::append_u64(&mut m, (li + 1) as u64);
                        proof {
                            assert(pairs_has_key(cur.deep_view(), key@));
                            assert(key@.subrange(0, key@.len() as int) =~= key@);
                            assert(((li + 1) as u64) as nat == (li + 1) as nat);
                        }
                        return Err(ParseError::Validation(m));
                    }
                    j += 1;
                }
                proof {
                    assert(!pairs_has_key(cur.deep_view(), key@));
                }
                let ghost prev_cur = cur.deep_view();
                cur.push((key, value));
                proof {
                    assert(cur.deep_view() =~~= prev_cur.push((key@, value@)));
                }
            }
            li += 1;
        }
        proof {
            assert(lv.skip(li as int) =~= Seq::<Seq<u8>>::empty());
        }
        if cur.len() > 0 {
            match Self::parse_record(&cur, lines.len()) {
                Ok(tx) => {
                    let ghost prev = res.deep_view();
                    res.push(tx);
                    proof {
                        assert(res.deep_view() =~= prev.push(tx@));
                        assert(prev + seq![tx@] =~= res.deep_view());
                        assert(res.deep_view() + Seq::<TxView>::empty() =~= res.deep_view());
                    }
                    Ok(res)
                },
                Err(e) => Err(e),
            }
        } else {
            proof {
                assert(res.deep_view() + Seq::<TxView>::empty() =~= res.deep_view());
            }
            Ok(res)
        }
    }

    /// Encodes a transaction sequence as blank-line-delimited text blocks,
    /// optionally preceded by `#` comment lines. Succeeds exactly when
    /// every amount is strictly positive; the bytes returned are exactly
    /// [`spec_text_encode`] of the sequence.
    pub fn write(transactions: &Vec<Transaction>, include_comments: bool) -> (r: Result<
        Vec<u8>,
        ParseError,
    >)
        ensures
            r is Ok <==> (forall|i: int|
                0 <= i < transactions.deep_view().len()
                    ==> (#[trigger] transactions.deep_view()[i]).amount > 0),
            r is Ok ==> r->Ok_0@ == spec_text_encode(transactions.deep_view(), include_comments),
            r is Err ==> matches_kind(
                r->Err_0,
                ErrorKind::Amount(
                    transactions.deep_view()[crate::model::transaction::first_nonpositive(
                        transactions.deep_view(),
                    )].amount,
                ),
            ),
    {
        let ghost ts = transactions.deep_view();
        let mut out: Vec<u8> = Vec::new();
        let mut i: usize = 0;
        proof {
            assert(ts.take(0) =~= Seq::<TxView>::empty());
            assert(out@ =~= spec_text_encode_from(ts.take(0), 1, include_comments));
        }
        while i < transactions.len()
            invariant
                i <= transactions.len(),
                ts == transactions.deep_view(),
                out@ == spec_text_encode_from(ts.take(i as int), 1, include_comments),
                forall|j: int| 0 <= j < i ==> (#[trigger] ts[j]).amount > 0,
            decreases transactions.len() - i,
        {
            let tx = &transactions[i];
            proof {
                assert(ts[i as int] == tx@);
            }
            if tx.amount <= 0 {
                proof {
                    crate::model::transaction::lemma_first_nonpositive_is(ts, i as int);
                }
                return Err(ParseError::InvalidAmount(tx.amount));
            }
            let n = (i as u64) + 1;
            let mut bl: Vec<Vec<u8>> = Vec::new();
            if include_comments {
                bl.push(comment_line_vec(tx, n));
            }
            bl.push(kv_line_vec(0, &common::u64_digits(tx.tx_id)));
            bl.push(kv_line_vec(1, &tx.tx_type.token_bytes()));
            bl.push(kv_line_vec(2, &common::u64_digits(tx.from_user_id)));
            bl.push(kv_line_vec(3, &common::u64_digits(tx.to_user_id)));
            bl.push(kv_line_vec(4, &common::u64_digits(tx.amount as u64)));
            bl.push(kv_line_vec(5, &common::u64_digits(tx.timestamp)));
            bl.push(kv_line_vec(6, &tx.status.token_bytes()));
            bl.push(kv_line_vec(7, &quoted_description_vec(tx)));
            proof {
                assert((tx.amount as u64) as nat == tx@.amount as nat);
                assert(bl.deep_view() =~~= text_block_lines(tx@, n as nat, include_comments));
            }
            let mut bb = common::join_lines_exec(&bl);
            if i > 0 {
                out.push(10u8);
            }
            out.append(&mut bb);
            proof {
                lemma_text_encode_snoc(ts, i as int, 1, include_comments);
                if i == 0 {
                    assert(out@ =~= spec_block_bytes(ts[0], 1, include_comments));
                } else {
                    assert(out@ =~= spec_text_encode_from(ts.take(i as int), 1, include_comments)
                        + seq![10u8] + spec_block_bytes(
                        ts[i as int],
                        (1 + i) as nat,
                        include_comments,
                    ));
                }
            }
            i += 1;
        }
        proof {
            assert(ts.take(transactions.len() as int) =~= ts);
        }
        Ok(out)
    }
}

} // verus!
