use vstd::prelude::*;

use vstd::string::StrSliceExecFns;
use vstd::utf8::{decode_utf8, encode_utf8, valid_utf8};

use crate::errors::{matches_kind, ErrorKind, ParseError};
use crate::format::common;
use crate::model::transaction::{domain_ok, wf_tx, Transaction, TxView};
use crate::model::transaction_status::{code_to_status, status_code, TransactionStatus};
use crate::model::transaction_type::{code_to_type, type_code, TransactionType};

verus! {

// ---------------------------------------------------------------------------
// Big-endian integer framing
// ---------------------------------------------------------------------------
/// The value of four big-endian bytes.
pub open spec fn be32_val(s: Seq<u8>) -> u32
    recommends
        s.len() == 4,
{
    ((s[0] as u32) << 24) | ((s[1] as u32) << 16) | ((s[2] as u32) << 8) | (s[3] as u32)
}

/// The four big-endian bytes of a 32-bit value.
pub open spec fn be32_bytes(v: u32) -> Seq<u8> {
    seq![
        ((v >> 24) & 0xff) as u8,
        ((v >> 16) & 0xff) as u8,
        ((v >> 8) & 0xff) as u8,
        (v & 0xff) as u8,
    ]
}

/// The value of eight big-endian bytes.
pub open spec fn be64_val(s: Seq<u8>) -> u64
    recommends
        s.len() == 8,
{
    ((s[0] as u64) << 56) | ((s[1] as u64) << 48) | ((s[2] as u64) << 40) | ((s[3] as u64) << 32)
        | ((s[4] as u64) << 24) | ((s[5] as u64) << 16) | ((s[6] as u64) << 8) | (s[7] as u64)
}

/// The eight big-endian bytes of a 64-bit value.
pub open spec fn be64_bytes(v: u64) -> Seq<u8> {
    seq![
        ((v >> 56) & 0xff) as u8,
        ((v >> 48) & 0xff) as u8,
        ((v >> 40) & 0xff) as u8,
        ((v >> 32) & 0xff) as u8,
        ((v >> 24) & 0xff) as u8,
        ((v >> 16) & 0xff) as u8,
        ((v >> 8) & 0xff) as u8,
        (v & 0xff) as u8,
    ]
}

/// Reading back the big-endian bytes of a 32-bit value yields that value.
pub proof fn lemma_be32_roundtrip(v: u32)
    ensures
        be32_val(be32_bytes(v)) == v,
{
    assert((((((v >> 24) & 0xff) as u8) as u32) << 24) | (((((v >> 16) & 0xff) as u8) as u32)
        << 16) | (((((v >> 8) & 0xff) as u8) as u32) << 8) | (((v & 0xff) as u8) as u32) == v)
        by (bit_vector);
}

/// Reading back the big-endian bytes of a 64-bit value yields that value.
pub proof fn lemma_be64_roundtrip(v: u64)
    ensures
        be64_val(be64_bytes(v)) == v,
{
    assert((((((v >> 56) & 0xff) as u8) as u64) << 56) | (((((v >> 48) & 0xff) as u8) as u64)
        << 48) | (((((v >> 40) & 0xff) as u8) as u64) << 40) | (((((v >> 32) & 0xff) as u8) as u64)
        << 32) | (((((v >> 24) & 0xff) as u8) as u64) << 24) | (((((v >> 16) & 0xff) as u8) as u64)
        << 16) | (((((v >> 8) & 0xff) as u8) as u64) << 8) | (((v & 0xff) as u8) as u64) == v)
        by (bit_vector);
}

/// A 64-bit value survives the round trip through its unsigned two's
/// complement image.
pub proof fn lemma_i64_u64_roundtrip(x: i64)
    ensures
        ((x as u64) as i64) == x,
{
    assert(((x as u64) as i64) == x) by (bit_vector);
}

fn read_u32_be(v: &Vec<u8>, i: usize) -> (r: u32)
    requires
        i + 4 <= v.len(),
    ensures
        r == be32_val(v@.subrange(i as int, i + 4)),
{
    let r = ((v[i] as u32) << 24) | ((v[i + 1] as u32) << 16) | ((v[i + 2] as u32) << 8) | (v[i
        + 3] as u32);
    proof {
        let s = v@.subrange(i as int, i + 4);
        assert(s[0] == v@[i as int]);
        assert(s[1] == v@[i + 1]);
        assert(s[2] == v@[i + 2]);
        assert(s[3] == v@[i + 3]);
    }
    r
}

fn read_u64_be(v: &Vec<u8>, i: usize) -> (r: u64)
    requires
        i + 8 <= v.len(),
    ensures
        r == be64_val(v@.subrange(i as int, i + 8)),
{
    let r = ((v[i] as u64) << 56) | ((v[i + 1] as u64) << 48) | ((v[i + 2] as u64) << 40) | ((v[i
        + 3] as u64) << 32) | ((v[i + 4] as u64) << 24) | ((v[i + 5] as u64) << 16) | ((v[i
        + 6] as u64) << 8) | (v[i + 7] as u64);
    proof {
        let s = v@.subrange(i as int, i + 8);
        assert(s[0] == v@[i as int]);
        assert(s[1] == v@[i + 1]);
        assert(s[2] == v@[i + 2]);
        assert(s[3] == v@[i + 3]);
        assert(s[4] == v@[i + 4]);
        assert(s[5] == v@[i + 5]);
        assert(s[6] == v@[i + 6]);
        assert(s[7] == v@[i + 7]);
    }
    r
}

fn push_u32_be(out: &mut Vec<u8>, x: u32)
    ensures
        final(out)@ == old(out)@ + be32_bytes(x),
{
    out.push(((x >> 24) & 0xff) as u8);
    out.push(((x >> 16) & 0xff) as u8);
    out.push(((x >> 8) & 0xff) as u8);
    out.push((x & 0xff) as u8);
    assert(out@ =~= old(out)@ + be32_bytes(x));
}

fn push_u64_be(out: &mut Vec<u8>, x: u64)
    ensures
        final(out)@ == old(out)@ + be64_bytes(x),
{
    out.push(((x >> 56) & 0xff) as u8);
    out.push(((x >> 48) & 0xff) as u8);
    out.push(((x >> 40) & 0xff) as u8);
    out.push(((x >> 32) & 0xff) as u8);
    out.push(((x >> 24) & 0xff) as u8);
    out.push(((x >> 16) & 0xff) as u8);
    out.push(((x >> 8) & 0xff) as u8);
    out.push((x & 0xff) as u8);
    assert(out@ =~= old(out)@ + be64_bytes(x));
}

// ---------------------------------------------------------------------------
// The record layout
// ---------------------------------------------------------------------------
/// The magic marker that opens every binary record.
pub open spec fn spec_magic() -> Seq<u8> {
    seq![0x59u8, 0x50u8, 0x42u8, 0x4eu8]
}

/// The magic marker as a vector, for callers that assemble raw records.
pub fn magic() -> (r: Vec<u8>)
    ensures
        r@ == spec_magic(),
{
    let mut v: Vec<u8> = Vec::new();
    v.push(0x59u8);
    v.push(0x50u8);
    v.push(0x42u8);
    v.push(0x4eu8);
    assert(v@ =~= spec_magic());
    v
}

/// The wire amount of a transaction: negative exactly for withdrawals.
pub open spec fn wire_amount(t: TxView) -> i64 {
    if t.tx_type is Withdrawal && t.amount > 0 {
        (0 - t.amount) as i64
    } else {
        t.amount
    }
}

/// A transaction the binary format can frame: well formed, with a
/// description short enough for the 32-bit record size field.
pub open spec fn bin_encodable(t: TxView) -> bool {
    wf_tx(t) && encode_utf8(t.description).len() <= 0xffffffff - 42
}

/// The bytes of one framed binary record: magic, record size, the fixed
/// fields big-endian with the amount sign-encoded, then the description
/// length and its UTF-8 bytes.
pub open spec fn spec_record_bytes(t: TxView) -> Seq<u8> {
    let db = encode_utf8(t.description);
    spec_magic() + be32_bytes((42 + db.len()) as u32) + be64_bytes(t.tx_id) + seq![
        type_code(t.tx_type),
    ] + be64_bytes(t.from_user_id) + be64_bytes(t.to_user_id) + be64_bytes(
        wire_amount(t) as u64,
    ) + be64_bytes(t.timestamp) + seq![status_code(t.status)] + be32_bytes(db.len() as u32) + db
}

/// The binary encoding of a transaction sequence: its records, one after
/// the other, with no count prefix.
pub open spec fn spec_bin_encode(ts: Seq<TxView>) -> Seq<u8>
    decreases ts.len(),
{
    if ts.len() == 0 {
        Seq::empty()
    } else {
        spec_record_bytes(ts[0]) + spec_bin_encode(ts.skip(1))
    }
}

/// What decoding a binary byte stream yields: the record sequence, or the
/// first error in the order the stream is read — truncation, a bad magic
/// marker, a bad type code, a sign that contradicts the type, an
/// unrepresentable amount, a bad status code, a record size that does not
/// match, bad description bytes, or a domain violation.
pub open spec fn spec_bin_decode(s: Seq<u8>) -> Result<Seq<TxView>, ErrorKind>
    decreases s.len(),
{
    if s.len() == 0 {
        Ok(Seq::empty())
    } else if s.len() < 4 {
        Err(ErrorKind::Io)
    } else if s.subrange(0, 4) != spec_magic() {
        Err(ErrorKind::Magic(s.subrange(0, 4), spec_magic()))
    } else if s.len() < 17 {
        Err(ErrorKind::Io)
    } else if code_to_type(s[16]) is None {
        Err(ErrorKind::TypeCode(s[16]))
    } else if s.len() < 41 {
        Err(ErrorKind::Io)
    } else {
        let t = code_to_type(s[16])->0;
        let wire = be64_val(s.subrange(33, 41)) as i64;
        if (t is Withdrawal && wire >= 0) || (!(t is Withdrawal) && wire <= 0) {
            Err(ErrorKind::SignMismatch(wire, t))
        } else if wire == i64::MIN {
            Err(ErrorKind::Amount(wire))
        } else if s.len() < 50 {
            Err(ErrorKind::Io)
        } else if code_to_status(s[49]) is None {
            Err(ErrorKind::StatusCode(s[49]))
        } else if s.len() < 54 {
            Err(ErrorKind::Io)
        } else {
            let dl = be32_val(s.subrange(50, 54)) as int;
            if be32_val(s.subrange(4, 8)) as int != 42 + dl {
                Err(ErrorKind::Size(42 + dl, be32_val(s.subrange(4, 8)) as int))
            } else if s.len() < 54 + dl {
                Err(ErrorKind::Io)
            } else {
                let db = s.subrange(54, 54 + dl);
                if !valid_utf8(db) {
                    Err(ErrorKind::DescriptionUtf8)
                } else {
                    let v = TxView {
                        tx_id: be64_val(s.subrange(8, 16)),
                        tx_type: t,
                        from_user_id: be64_val(s.subrange(17, 25)),
                        to_user_id: be64_val(s.subrange(25, 33)),
                        amount: if wire < 0 {
                            (0 - wire) as i64
                        } else {
                            wire
                        },
                        timestamp: be64_val(s.subrange(41, 49)),
                        status: code_to_status(s[49])->0,
                        description: decode_utf8(db),
                    };
                    if !domain_ok(v) {
                        Err(
                            if v.tx_type is Deposit && v.from_user_id != 0 {
                                ErrorKind::FromUser(v.from_user_id)
                            } else {
                                ErrorKind::ToUser(v.to_user_id)
                            },
                        )
                    } else {
                        match spec_bin_decode(s.skip(54 + dl)) {
                            Ok(rest) => Ok(seq![v] + rest),
                            Err(k) => Err(k),
                        }
                    }
                }
            }
        }
    }
}

/// Every transaction a binary decode admits is well formed: the domain
/// invariants hold and the amount is strictly positive, whatever sign the
/// wire carried.
pub proof fn lemma_bin_decode_wf(s: Seq<u8>)
    ensures
        spec_bin_decode(s) is Ok ==> forall|i: int|
            0 <= i < spec_bin_decode(s)->Ok_0.len() ==> wf_tx(#[trigger] spec_bin_decode(s)->Ok_0[i]),
    decreases s.len(),
{
    if spec_bin_decode(s) is Ok && s.len() != 0 {
        let dl = be32_val(s.subrange(50, 54)) as int;
        lemma_bin_decode_wf(s.skip(54 + dl));
    }
}

/// A subrange taken wholly inside the left part of a concatenation is a
/// subrange of that part.
proof fn lemma_concat_subrange_left(a: Seq<u8>, b: Seq<u8>, x: int, y: int)
    requires
        0 <= x <= y <= a.len(),
    ensures
        (a + b).subrange(x, y) == a.subrange(x, y),
{
    assert((a + b).subrange(x, y) =~= a.subrange(x, y));
}

/// Where each field of a record stands among its bytes.
#[verifier::rlimit(100)]
#[verifier::spinoff_prover]
proof fn lemma_record_layout(t: TxView)
    ensures
        ({
            let db = encode_utf8(t.description);
            let dl = db.len() as int;
            let rb = spec_record_bytes(t);
            &&& rb.len() == 54 + dl
            &&& rb.subrange(0, 4) == spec_magic()
            &&& rb.subrange(4, 8) == be32_bytes((42 + dl) as u32)
            &&& rb.subrange(8, 16) == be64_bytes(t.tx_id)
            &&& rb[16] == type_code(t.tx_type)
            &&& rb.subrange(17, 25) == be64_bytes(t.from_user_id)
            &&& rb.subrange(25, 33) == be64_bytes(t.to_user_id)
            &&& rb.subrange(33, 41) == be64_bytes(wire_amount(t) as u64)
            &&& rb.subrange(41, 49) == be64_bytes(t.timestamp)
            &&& rb[49] == status_code(t.status)
            &&& rb.subrange(50, 54) == be32_bytes(dl as u32)
            &&& rb.subrange(54, 54 + dl) == db
        }),
{
    let db = encode_utf8(t.description);
    let dl = db.len() as int;
    let rb = spec_record_bytes(t);
    assert(rb.len() == 54 + dl);
    assert(rb.subrange(0, 4) =~= spec_magic());
    assert(rb.subrange(4, 8) =~= be32_bytes((42 + dl) as u32));
    assert(rb.subrange(8, 16) =~= be64_bytes(t.tx_id));
    assert(rb[16] == type_code(t.tx_type));
    assert(rb.subrange(17, 25) =~= be64_bytes(t.from_user_id));
    assert(rb.subrange(25, 33) =~= be64_bytes(t.to_user_id));
    assert(rb.subrange(33, 41) =~= be64_bytes(wire_amount(t) as u64));
    assert(rb.subrange(41, 49) =~= be64_bytes(t.timestamp));
    assert(rb[49] == status_code(t.status));
    assert(rb.subrange(50, 54) =~= be32_bytes(dl as u32));
    assert(rb.subrange(54, 54 + dl) =~= db);
}

/// Decoding a stream that opens with the record of an encodable
/// transaction decodes that record and continues with the rest of the
/// stream.
#[verifier::rlimit(100)]
#[verifier::spinoff_prover]
proof fn lemma_bin_decode_step(t: TxView, rest: Seq<u8>)
    requires
        bin_encodable(t),
    ensures
        spec_bin_decode(spec_record_bytes(t) + rest) == match spec_bin_decode(rest) {
            Ok(vs) => Ok::<Seq<TxView>, ErrorKind>(seq![t] + vs),
            Err(k) => Err(k),
        },
{
    let db = encode_utf8(t.description);
    let dl = db.len() as int;
    let rb = spec_record_bytes(t);
    let s = rb + rest;
    lemma_record_layout(t);
        lemma_concat_subrange_left(rb, rest, 0, 4);
        lemma_concat_subrange_left(rb, rest, 4, 8);
        lemma_concat_subrange_left(rb, rest, 8, 16);
        lemma_concat_subrange_left(rb, rest, 17, 25);
        lemma_concat_subrange_left(rb, rest, 25, 33);
        lemma_concat_subrange_left(rb, rest, 33, 41);
        lemma_concat_subrange_left(rb, rest, 41, 49);
        lemma_concat_subrange_left(rb, rest, 50, 54);
        lemma_concat_subrange_left(rb, rest, 54, 54 + dl);
        assert(s[16] == rb[16]);
        assert(s[49] == rb[49]);
        assert(s.subrange(0, 4) == spec_magic());
        assert(s.subrange(4, 8) == be32_bytes((42 + dl) as u32));
        assert(s.subrange(8, 16) == be64_bytes(t.tx_id));
        assert(s[16] == type_code(t.tx_type));
        assert(s.subrange(17, 25) == be64_bytes(t.from_user_id));
        assert(s.subrange(25, 33) == be64_bytes(t.to_user_id));
        assert(s.subrange(33, 41) == be64_bytes(wire_amount(t) as u64));
        assert(s.subrange(41, 49) == be64_bytes(t.timestamp));
        assert(s[49] == status_code(t.status));
        assert(s.subrange(50, 54) == be32_bytes(dl as u32));
        assert(s.subrange(54, 54 + dl) == db);
        lemma_be32_roundtrip((42 + dl) as u32);
        lemma_be32_roundtrip(dl as u32);
        lemma_be64_roundtrip(t.tx_id);
        lemma_be64_roundtrip(t.from_user_id);
        lemma_be64_roundtrip(t.to_user_id);
        lemma_be64_roundtrip(t.timestamp);
        lemma_be64_roundtrip(wire_amount(t) as u64);
        lemma_i64_u64_roundtrip(wire_amount(t));
        crate::model::transaction_type::lemma_type_mappings_invert(t.tx_type);
        crate::model::transaction_status::lemma_status_mappings_invert(t.status);
        vstd::utf8::encode_utf8_valid_utf8(t.description);
        vstd::utf8::encode_utf8_decode_utf8(t.description);
        let wire = be64_val(s.subrange(33, 41)) as i64;
        assert(wire == wire_amount(t));
        assert(!((t.tx_type is Withdrawal && wire >= 0) || (!(t.tx_type is Withdrawal) && wire
            <= 0)));
        assert(wire != i64::MIN);
        let v = TxView {
            tx_id: be64_val(s.subrange(8, 16)),
            tx_type: t.tx_type,
            from_user_id: be64_val(s.subrange(17, 25)),
            to_user_id: be64_val(s.subrange(25, 33)),
            amount: if wire < 0 {
                (0 - wire) as i64
            } else {
                wire
            },
            timestamp: be64_val(s.subrange(41, 49)),
            status: code_to_status(s[49])->0,
            description: decode_utf8(s.subrange(54, 54 + dl)),
        };
        assert(v.amount == t.amount);
        assert(v.description == t.description);
        assert(v == t);
        assert(s.skip(54 + dl) =~= rest) by {
            assert(s.len() == 54 + dl + rest.len());
            assert(forall|i: int|
                0 <= i < rest.len() ==> s.skip(54 + dl)[i] == #[trigger] rest[i]);
        }
}

/// Decoding the binary encoding of any sequence of encodable transactions
/// yields exactly that sequence.
#[verifier::rlimit(100)]
#[verifier::spinoff_prover]
pub proof fn lemma_bin_round_trip(ts: Seq<TxView>)
    requires
        forall|i: int| 0 <= i < ts.len() ==> bin_encodable(#[trigger] ts[i]),
    ensures
        spec_bin_decode(spec_bin_encode(ts)) == Ok::<Seq<TxView>, ErrorKind>(ts),
    decreases ts.len(),
{
    if ts.len() == 0 {
        assert(ts =~= Seq::<TxView>::empty());
        assert(spec_bin_encode(ts) =~= Seq::<u8>::empty());
    } else {
        let t = ts[0];
        let rest = spec_bin_encode(ts.skip(1));
        assert(spec_bin_encode(ts) == spec_record_bytes(t) + rest);
        assert(forall|i: int| 0 <= i < ts.skip(1).len() ==> bin_encodable(#[trigger] ts.skip(1)[i]))
            by {
            assert(forall|i: int|
                0 <= i < ts.skip(1).len() ==> ts.skip(1)[i] == ts[i + 1] && bin_encodable(
                    #[trigger] ts.skip(1)[i],
                ));
        }
        lemma_bin_round_trip(ts.skip(1));
        lemma_bin_decode_step(t, rest);
        assert(seq![t] + ts.skip(1) =~= ts);
    }
}

fn io_error() -> (r: ParseError)
    ensures
        r is Io,
{
    ParseError::Io(common::new_string("unexpected end of input inside a record"))
}

/// Reading and writing data in the fixed-framed binary format.
pub struct YPBankBinParser;

impl YPBankBinParser {
    /// Decodes one record that starts at `pos`, returning the transaction
    /// and the position just past it; the outcome is one step of
    /// [`spec_bin_decode`] on the remaining bytes.
    #[verifier::rlimit(100)]
    #[verifier::spinoff_prover]
    fn parse_record(data: &Vec<u8>, pos: usize) -> (r: Result<(Transaction, usize), ParseError>)
        requires
            pos < data.len(),
        ensures
            ({
                let s = data@.skip(pos as int);
                match r {
                    Ok((tx, np)) => pos < np <= data.len() && (match spec_bin_decode(
                        data@.skip(np as int),
                    ) {
                        Ok(rest) => spec_bin_decode(s) == Ok::<Seq<TxView>, ErrorKind>(
                            seq![tx@] + rest,
                        ),
                        Err(k) => spec_bin_decode(s) == Err::<Seq<TxView>, ErrorKind>(k),
                    }),
                    Err(e) => spec_bin_decode(s) is Err && matches_kind(
                        e,
                        spec_bin_decode(s)->Err_0,
                    ),
                }
            }),
    {
        let ghost s = data@.skip(pos as int);
        proof {
            assert(s =~= data@.subrange(pos as int, data@.len() as int));
        }
        let avail = data.len() - pos;
        assert(s.len() == avail);
        if avail < 4 {
            return Err(io_error());
        }
        let m0 = data[pos];
        let m1 = data[pos + 1];
        let m2 = data[pos + 2];
        let m3 = data[pos + 3];
        proof {
            assert(s.subrange(0, 4)[0] == data@[pos as int]);
            assert(s.subrange(0, 4)[1] == data@[pos + 1]);
            assert(s.subrange(0, 4)[2] == data@[pos + 2]);
            assert(s.subrange(0, 4)[3] == data@[pos + 3]);
        }
        if !(m0 == 0x59u8 && m1 == 0x50u8 && m2 == 0x42u8 && m3 == 0x4eu8) {
            let actual: [u8; 4] = [m0, m1, m2, m3];
            let expected: [u8; 4] = [0x59u8, 0x50u8, 0x42u8, 0x4eu8];
            proof {
                assert(s.subrange(0, 4) != spec_magic());
                assert(actual@ =~= s.subrange(0, 4));
                assert(expected@ =~= spec_magic());
            }
            return Err(ParseError::InvalidMagic(actual, expected));
        }
        proof {
            assert(s.subrange(0, 4) =~= spec_magic());
        }
        if avail < 17 {
            return Err(io_error());
        }
        let ty_byte = data[pos + 16];
        assert(s[16] == data@[pos + 16]);
        let tx_type = match TransactionType::from_u8(ty_byte) {
            Ok(t) => t,
            Err(e) => {
                return Err(e);
            },
        };
        if avail < 41 {
            return Err(io_error());
        }
        proof {
            assert(s.subrange(33, 41) =~= data@.subrange(pos + 33, pos + 41));
        }
        let wire = read_u64_be(data, pos + 33) as i64;
        assert(wire == be64_val(s.subrange(33, 41)) as i64);
        let is_withdrawal = tx_type == TransactionType::Withdrawal;
        if (is_withdrawal && wire >= 0) || (!is_withdrawal && wire <= 0) {
            return Err(ParseError::InvalidAmountForTransactionType(wire, tx_type));
        }
        if wire == i64::MIN {
            return Err(ParseError::InvalidAmount(wire));
        }
        if avail < 50 {
            return Err(io_error());
        }
        let st_byte = data[pos + 49];
        assert(s[49] == data@[pos + 49]);
        let status = match TransactionStatus::from_u8(st_byte) {
            Ok(st) => st,
            Err(e) => {
                return Err(e);
            },
        };
        if avail < 54 {
            return Err(io_error());
        }
        proof {
            assert(s.subrange(50, 54) =~= data@.subrange(pos + 50, pos + 54));
            assert(s.subrange(4, 8) =~= data@.subrange(pos + 4, pos + 8));
        }
        let dl = read_u32_be(data, pos + 50);
        let rs = read_u32_be(data, pos + 4);
        if rs as u64 != 42u64 + (dl as u64) {
            let mut m = common::new_string("Invalid data size: expected ");
            common::append_u64(&mut m, 42u64 + (dl as u64));
            common::append_str(&mut m, ", actual ");
            common::append_u64(&mut m, rs as u64);
            proof {
                assert((42u64 + (dl as u64)) as nat == (42 + dl as int) as nat);
                assert((rs as u64) as nat == (rs as int) as nat);
            }
            return Err(ParseError::InvalidData(m));
        }
        let dlu = dl as usize;
        if avail - 54 < dlu {
            return Err(io_error());
        }
        let np = pos + 54 + dlu;
        proof {
            assert(s.subrange(54, 54 + dl as int) =~= data@.subrange(pos + 54, np as int));
        }
        let desc_bytes = common::copy_range(data, pos + 54, np);
        let description = match common::utf8_to_string(desc_bytes) {
            Some(d) => d,
            None => {
                let mut m = common::new_string("invalid UTF-8 in description bytes");
                return Err(ParseError::InvalidDescription(m));
            },
        };
        proof {
            assert(s.subrange(8, 16) =~= data@.subrange(pos + 8, pos + 16));
            assert(s.subrange(17, 25) =~= data@.subrange(pos + 17, pos + 25));
            assert(s.subrange(25, 33) =~= data@.subrange(pos + 25, pos + 33));
            assert(s.subrange(41, 49) =~= data@.subrange(pos + 41, pos + 49));
        }
        let tx_id = read_u64_be(data, pos + 8);
        let from_user_id = read_u64_be(data, pos + 17);
        let to_user_id = read_u64_be(data, pos + 25);
        let timestamp = read_u64_be(data, pos + 41);
        let amount: i64 = if wire < 0 {
            -wire
        } else {
            wire
        };
        let tx = Transaction {
            tx_id,
            tx_type,
            from_user_id,
            to_user_id,
            amount,
            timestamp,
            status,
            description,
        };
        match tx.validate() {
            Ok(()) => {
            },
            Err(e) => {
                return Err(e);
            },
        }
        proof {
            assert(s.skip(54 + dl as int) =~= data@.skip(np as int));
        }
        Ok((tx, np))
    }

    /// Decodes a whole byte source in the binary format: record after
    /// record until the source ends exactly at a record boundary, exactly
    /// as [`spec_bin_decode`] says.
    pub fn parse(data: &Vec<u8>) -> (r: Result<Vec<Transaction>, ParseError>)
        ensures
            ({
                match spec_bin_decode(data@) {
                    Ok(vs) => r is Ok && r->Ok_0.deep_view() == vs,
                    Err(k) => r is Err && matches_kind(r->Err_0, k),
                }
            }),
    {
        let mut res: Vec<Transaction> = Vec::new();
        let mut pos: usize = 0;
        proof {
            assert(data@.skip(0) =~= data@);
            assert(res.deep_view() =~= Seq::<TxView>::empty());
        }
        while pos < data.len()
            invariant
                pos <= data.len(),
                match spec_bin_decode(data@.skip(pos as int)) {
                    Ok(rest) => spec_bin_decode(data@) == Ok::<Seq<TxView>, ErrorKind>(
                        res.deep_view() + rest,
                    ),
                    Err(k) => spec_bin_decode(data@) == Err::<Seq<TxView>, ErrorKind>(k),
                },
            decreases data.len() - pos,
        {
            match Self::parse_record(data, pos) {
                Ok((tx, np)) => {
                    let ghost prev = res.deep_view();
                    res.push(tx);
                    proof {
                        assert(res.deep_view() =~= prev.push(tx@));
                        if spec_bin_decode(data@.skip(np as int)) is Ok {
                            let rest = spec_bin_decode(data@.skip(np as int))->Ok_0;
                            assert(prev + (seq![tx@] + rest) =~= res.deep_view() + rest);
                        }
                    }
                    pos = np;
                },
                Err(e) => {
                    return Err(e);
                },
            }
        }
        proof {
            assert(data@.skip(pos as int) =~= Seq::<u8>::empty());
            assert(res.deep_view() + Seq::<TxView>::empty() =~= res.deep_view());
        }
        Ok(res)
    }

    /// Encodes a transaction sequence in the binary format. Succeeds unless
    /// a description is too long for the 32-bit record size field; the
    /// bytes returned are exactly [`spec_bin_encode`] of the sequence.
    #[verifier::rlimit(100)]
    #[verifier::spinoff_prover]
    pub fn write(transactions: &Vec<Transaction>) -> (r: Result<Vec<u8>, ParseError>)
        ensures
            r is Ok <==> (forall|i: int|
                0 <= i < transactions.deep_view().len() ==> encode_utf8(
                    #[trigger] transactions.deep_view()[i].description,
                ).len() <= 0xffffffff - 42),
            r is Ok ==> r->Ok_0@ == spec_bin_encode(transactions.deep_view()),
            r is Err ==> matches_kind(r->Err_0, ErrorKind::DescriptionUtf8),
    {
        let ghost ts = transactions.deep_view();
        let mut out: Vec<u8> = Vec::new();
        let mut i: usize = 0;
        proof {
            assert(ts.take(0) =~= Seq::<TxView>::empty());
            assert(out@ =~= spec_bin_encode(ts.take(0)));
        }
        while i < transactions.len()
            invariant
                i <= transactions.len(),
                ts == transactions.deep_view(),
                out@ == spec_bin_encode(ts.take(i as int)),
                forall|j: int|
                    0 <= j < i ==> encode_utf8(#[trigger] ts[j].description).len() <= 0xffffffff
                        - 42,
            decreases transactions.len() - i,
        {
            let tx = &transactions[i];
            let mut db = tx.description.as_str().as_bytes_vec();
            proof {
                assert(db@ == encode_utf8(tx@.description));
                assert(ts[i as int] == tx@);
            }
            if db.len() > 0xffffffffusize - 42 {
                proof {
                    assert(encode_utf8(ts[i as int].description).len() > 0xffffffff - 42);
                }
                let mut m = common::new_string("description too long for a binary record");
                return Err(ParseError::InvalidDescription(m));
            }
            let dl = db.len() as u32;
            let ghost prev = out@;
            let mut m = magic();
            out.append(&mut m);
            push_u32_be(&mut out, 42u32 + dl);
            push_u64_be(&mut out, tx.tx_id);
            out.push(tx.tx_type.to_u8());
            push_u64_be(&mut out, tx.from_user_id);
            push_u64_be(&mut out, tx.to_user_id);
            let wire: i64 = if tx.amount > 0 && tx.tx_type == TransactionType::Withdrawal {
                -tx.amount
            } else {
                tx.amount
            };
            assert(wire == wire_amount(tx@));
            push_u64_be(&mut out, wire as u64);
            push_u64_be(&mut out, tx.timestamp);
            out.push(tx.status.to_u8());
            push_u32_be(&mut out, dl);
            out.append(&mut db);
            proof {
                assert(out@ =~= prev + spec_record_bytes(tx@));
                lemma_bin_encode_snoc(ts, i as int);
                assert(ts[i as int] == tx@);
            }
            i += 1;
        }
        proof {
            assert(ts.take(ts.len() as int) =~= ts);
        }
        Ok(out)
    }
}

/// Extending a sequence by one transaction appends that transaction's
/// record bytes to its encoding.
proof fn lemma_bin_encode_snoc(ts: Seq<TxView>, k: int)
    requires
        0 <= k < ts.len(),
    ensures
        spec_bin_encode(ts.take(k + 1)) == spec_bin_encode(ts.take(k)) + spec_record_bytes(ts[k]),
    decreases k,
{
    if k == 0 {
        assert(ts.take(0) =~= Seq::<TxView>::empty());
        assert(ts.take(1) =~= seq![ts[0]]);
        assert(spec_bin_encode(seq![ts[0]]) == spec_record_bytes(ts[0]) + spec_bin_encode(
            seq![ts[0]].skip(1),
        ));
        assert(seq![ts[0]].skip(1) =~= Seq::<TxView>::empty());
        assert(spec_bin_encode(ts.take(0)) + spec_record_bytes(ts[0]) =~= spec_record_bytes(ts[0])
            + spec_bin_encode(Seq::<TxView>::empty()));
    } else {
        let u = ts.skip(1);
        lemma_bin_encode_snoc(u, k - 1);
        assert(ts.take(k + 1)[0] == ts[0]);
        assert(ts.take(k + 1).skip(1) =~= u.take(k));
        assert(ts.take(k).skip(1) =~= u.take(k - 1));
        assert(ts.take(k)[0] == ts[0]);
        assert(spec_bin_encode(ts.take(k + 1)) == spec_record_bytes(ts[0]) + spec_bin_encode(
            u.take(k),
        ));
        assert(spec_bin_encode(ts.take(k)) == spec_record_bytes(ts[0]) + spec_bin_encode(
            u.take(k - 1),
        ));
        assert(u[k - 1] == ts[k]);
        assert((spec_record_bytes(ts[0]) + spec_bin_encode(u.take(k - 1))) + spec_record_bytes(
            ts[k],
        ) =~= spec_record_bytes(ts[0]) + (spec_bin_encode(u.take(k - 1)) + spec_record_bytes(
            ts[k],
        )));
    }
}

} // verus!
