use vstd::prelude::*;

use vstd::string::StringExecFns;
use vstd::utf8::{decode_utf8, encode_utf8, valid_utf8};

use crate::errors::{ErrorKind, ParseError};
use crate::model::transaction_status::{token_to_status, TransactionStatus};
use crate::model::transaction_type::{token_to_type, TransactionType};

verus! {

// ---------------------------------------------------------------------------
// Byte classes
// ---------------------------------------------------------------------------
/// True for the ASCII decimal digits `0` through `9`.
pub open spec fn is_digit(b: u8) -> bool {
    48 <= b <= 57
}

/// True for the ASCII whitespace bytes: space, tab, line feed, vertical tab,
/// form feed and carriage return.
pub open spec fn is_ws(b: u8) -> bool {
    b == 32 || (9 <= b <= 13)
}

/// The ASCII uppercase fold of a byte; bytes outside `a`..`z` are unchanged.
pub open spec fn byte_upper(b: u8) -> u8 {
    if 97u8 <= b <= 122u8 {
        (b - 32) as u8
    } else {
        b
    }
}

/// True when two byte strings are equal up to ASCII case.
pub open spec fn eq_ignore_case(a: Seq<u8>, b: Seq<u8>) -> bool {
    a.len() == b.len() && (forall|i: int|
        0 <= i < a.len() ==> byte_upper(#[trigger] a[i]) == byte_upper(#[trigger] b[i]))
}

/// Case-insensitive equality is reflexive.
pub proof fn lemma_eq_ignore_case_refl(s: Seq<u8>)
    ensures
        eq_ignore_case(s, s),
{
}

fn is_ws_exec(b: u8) -> (r: bool)
    ensures
        r == is_ws(b),
{
    b == 32 || (9 <= b && b <= 13)
}

fn byte_upper_exec(b: u8) -> (r: u8)
    ensures
        r == byte_upper(b),
{
    if 97u8 <= b && b <= 122u8 {
        b - 32
    } else {
        b
    }
}

/// Compares two byte strings for equality up to ASCII case.
pub fn eq_ignore_case_exec(a: &Vec<u8>, b: &Vec<u8>) -> (r: bool)
    ensures
        r == eq_ignore_case(a@, b@),
{
    if a.len() != b.len() {
        return false;
    }
    let mut i: usize = 0;
    while i < a.len()
        invariant
            0 <= i <= a.len(),
            a.len() == b.len(),
            forall|j: int| 0 <= j < i ==> byte_upper(#[trigger] a@[j]) == byte_upper(#[trigger] b@[j]),
        decreases a.len() - i,
    {
        if byte_upper_exec(a[i]) != byte_upper_exec(b[i]) {
            return false;
        }
        i += 1;
    }
    true
}

// ---------------------------------------------------------------------------
// Copying ranges of bytes
// ---------------------------------------------------------------------------
/// Copies the bytes of `v` in the index range `lo..hi` into a fresh vector.
pub fn copy_range(v: &Vec<u8>, lo: usize, hi: usize) -> (r: Vec<u8>)
    requires
        lo <= hi <= v.len(),
    ensures
        r@ == v@.subrange(lo as int, hi as int),
{
    let mut r: Vec<u8> = Vec::new();
    let mut i: usize = lo;
    while i < hi
        invariant
            lo <= i <= hi <= v.len(),
            r@ == v@.subrange(lo as int, i as int),
        decreases hi - i,
    {
        r.push(v[i]);
        assert(r@ =~= v@.subrange(lo as int, i + 1 as int));
        i += 1;
    }
    r
}

// ---------------------------------------------------------------------------
// Strings and messages
// ---------------------------------------------------------------------------
/// Relies on `String::from_utf8`: it returns `Ok` exactly on input that is
/// valid UTF-8, and the returned string holds the decoding of those bytes.
#[verifier::external_body]
pub fn utf8_to_string(bytes: Vec<u8>) -> (r: Option<String>)
    ensures
        r is Some <==> valid_utf8(bytes@),
        r is Some ==> r->0@ == decode_utf8(bytes@),
{
    match String::from_utf8(bytes) {
        Ok(s) => Some(s),
        Err(_) => None,
    }
}

/// A byte string as it is rendered inside an error message: its decoding
/// where it is valid UTF-8, else a fixed placeholder.
pub open spec fn msg_raw(v: Seq<u8>) -> Seq<char> {
    if valid_utf8(v) {
        decode_utf8(v)
    } else {
        "<non-utf8>"@
    }
}

/// A fresh owned copy of a string slice.
pub fn new_string(s: &str) -> (r: String)
    ensures
        r@ == s@,
{
    String::from_str(s)
}

/// Appends a string slice to a message under construction.
pub fn append_str(m: &mut String, s: &str)
    ensures
        final(m)@ == old(m)@ + s@,
{
    m.append(s)
}

/// Appends the decimal rendering of an unsigned number to a message.
pub fn append_u64(m: &mut String, n: u64)
    ensures
        final(m)@ == old(m)@ + dec_chars(n as nat),
{
    let digits = u64_digits(n);
    proof {
        lemma_dec_of_props(n as nat);
        lemma_ascii_bytes_decode(dec_of(n as nat));
    }
    match utf8_to_string(digits) {
        Some(s) => m.append(s.as_str()),
        None => m.append("?"),
    }
}

/// Appends a raw byte range to a message as [`msg_raw`] renders it.
pub fn append_bytes(m: &mut String, v: &Vec<u8>, lo: usize, hi: usize)
    requires
        lo <= hi <= v.len(),
    ensures
        final(m)@ == old(m)@ + msg_raw(v@.subrange(lo as int, hi as int)),
{
    let raw = copy_range(v, lo, hi);
    match utf8_to_string(raw) {
        Some(s) => m.append(s.as_str()),
        None => m.append("<non-utf8>"),
    }
}

/// A byte range as an owned string, rendered as [`msg_raw`] says.
pub fn range_to_string(v: &Vec<u8>, lo: usize, hi: usize) -> (r: String)
    requires
        lo <= hi <= v.len(),
    ensures
        r@ == msg_raw(v@.subrange(lo as int, hi as int)),
{
    let raw = copy_range(v, lo, hi);
    match utf8_to_string(raw) {
        Some(s) => s,
        None => new_string("<non-utf8>"),
    }
}

// ---------------------------------------------------------------------------
// Decimal numerals
// ---------------------------------------------------------------------------
/// The value of a byte string read as a decimal numeral, most significant
/// digit first.
pub open spec fn dec_val(s: Seq<u8>) -> int
    decreases s.len(),
{
    if s.len() == 0 {
        0
    } else {
        dec_val(s.drop_last()) * 10 + (s.last() - 48)
    }
}

/// True when every byte of `s` is an ASCII decimal digit.
pub open spec fn all_digits(s: Seq<u8>) -> bool {
    forall|i: int| 0 <= i < s.len() ==> is_digit(#[trigger] s[i])
}

/// The canonical decimal numeral of a number: no sign, no leading zero
/// except for the number zero itself.
pub open spec fn dec_of(n: nat) -> Seq<u8>
    decreases n,
{
    if n < 10 {
        seq![(48 + n) as u8]
    } else {
        dec_of(n / 10).push((48 + n % 10) as u8)
    }
}

/// Digit strings hold no delimiter bytes: no line breaks, no whitespace,
/// no colon, no hash, no quote, no comma.
pub proof fn lemma_digits_plain(s: Seq<u8>)
    requires
        all_digits(s),
    ensures
        no_line_breaks(s),
        forall|i: int|
            0 <= i < s.len() ==> !is_ws(#[trigger] s[i]) && s[i] != 58 && s[i] != 35 && s[i] != 34
                && s[i] != 44,
{
}

/// The canonical decimal numeral of a number, as characters.
pub open spec fn dec_chars(n: nat) -> Seq<char> {
    dec_of(n).map_values(|b: u8| b as char)
}

/// ASCII bytes are valid UTF-8 and decode to themselves, byte for
/// character.
pub proof fn lemma_ascii_bytes_decode(s: Seq<u8>)
    requires
        forall|i: int| 0 <= i < s.len() ==> #[trigger] s[i] < 128,
    ensures
        valid_utf8(s),
        decode_utf8(s) == s.map_values(|b: u8| b as char),
{
    let cs = s.map_values(|b: u8| b as char);
    assert(vstd::utf8::is_ascii_chars(cs)) by {
        assert forall|i: int| 0 <= i < cs.len() implies '\0' <= #[trigger] cs[i] <= '\u{7f}' by {
            assert(cs[i] == s[i] as char);
            assert(s[i] < 128);
        }
    }
    vstd::utf8::is_ascii_chars_encode_utf8(cs);
    assert(encode_utf8(cs) =~= s) by {
        assert forall|i: int| 0 <= i < s.len() implies encode_utf8(cs)[i] == s[i] by {
            assert(cs[i] as u8 == encode_utf8(cs)[i]);
            assert(cs[i] == s[i] as char);
        }
    }
    vstd::utf8::encode_utf8_valid_utf8(cs);
    vstd::utf8::encode_utf8_decode_utf8(cs);
}

/// What a byte string yields when read as an unsigned 64-bit decimal
/// numeral: an optional leading `+`, then at least one digit, and a value
/// within range.
pub open spec fn parse_u64_spec(s: Seq<u8>) -> Option<u64> {
    let d = if s.len() > 0 && s[0] == 43u8 {
        s.skip(1)
    } else {
        s
    };
    if d.len() > 0 && all_digits(d) && dec_val(d) <= u64::MAX {
        Some(dec_val(d) as u64)
    } else {
        None
    }
}

/// What a byte string yields when read as a signed 64-bit decimal numeral:
/// an optional leading `+` or `-`, then at least one digit, and a value
/// within range.
pub open spec fn parse_i64_spec(s: Seq<u8>) -> Option<i64> {
    if s.len() > 0 && s[0] == 45u8 {
        let d = s.skip(1);
        if d.len() > 0 && all_digits(d) && dec_val(d) <= 0x8000000000000000 {
            Some((0 - dec_val(d)) as i64)
        } else {
            None
        }
    } else {
        let d = if s.len() > 0 && s[0] == 43u8 {
            s.skip(1)
        } else {
            s
        };
        if d.len() > 0 && all_digits(d) && dec_val(d) <= i64::MAX {
            Some(dec_val(d) as i64)
        } else {
            None
        }
    }
}

/// A digit string has a non-negative value.
pub proof fn lemma_dec_val_nonneg(s: Seq<u8>)
    requires
        all_digits(s),
    ensures
        dec_val(s) >= 0,
    decreases s.len(),
{
    if s.len() > 0 {
        assert(all_digits(s.drop_last())) by {
            assert forall|i: int| 0 <= i < s.len() - 1 implies is_digit(#[trigger] s.drop_last()[i]) by {
                assert(s.drop_last()[i] == s[i]);
            }
        }
        lemma_dec_val_nonneg(s.drop_last());
    }
}

/// Every prefix of a digit string has a value no larger than the whole.
pub proof fn lemma_dec_val_take_le(s: Seq<u8>, k: int)
    requires
        all_digits(s),
        0 <= k <= s.len(),
    ensures
        dec_val(s.take(k)) <= dec_val(s),
    decreases s.len() - k,
{
    if k == s.len() {
        assert(s.take(k) =~= s);
    } else {
        let t = s.take(k + 1);
        assert(t.drop_last() =~= s.take(k));
        assert(t.last() == s[k]);
        assert(all_digits(s.take(k))) by {
            assert forall|i: int| 0 <= i < k implies is_digit(#[trigger] s.take(k)[i]) by {
                assert(s.take(k)[i] == s[i]);
            }
        }
        lemma_dec_val_nonneg(s.take(k));
        assert(dec_val(t) == dec_val(s.take(k)) * 10 + (s[k] - 48));
        lemma_dec_val_take_le(s, k + 1);
    }
}

/// The canonical numeral of `n` is a non-empty digit string whose value
/// is `n`.
pub proof fn lemma_dec_of_props(n: nat)
    ensures
        dec_of(n).len() >= 1,
        all_digits(dec_of(n)),
        is_digit(dec_of(n)[0]),
        dec_val(dec_of(n)) == n,
    decreases n,
{
    if n < 10 {
        let s = dec_of(n);
        assert(s.last() == (48 + n) as u8);
        assert((48 + n) as u8 == 48 + n);
        assert(s.drop_last() =~= Seq::<u8>::empty());
        assert(dec_val(s.drop_last()) == 0);
        assert(dec_val(s) == dec_val(s.drop_last()) * 10 + (s.last() - 48));
    } else {
        lemma_dec_of_props(n / 10);
        let p = dec_of(n / 10);
        let s = dec_of(n);
        assert(s == p.push((48 + n % 10) as u8));
        assert(s.drop_last() =~= p);
        assert(s.last() == (48 + n % 10) as u8);
        assert(all_digits(s)) by {
            assert forall|i: int| 0 <= i < s.len() implies is_digit(#[trigger] s[i]) by {
                if i < p.len() {
                    assert(s[i] == p[i]);
                }
            }
        }
        assert(s[0] == p[0]);
        assert(dec_val(s) == dec_val(p) * 10 + (n % 10));
        assert(n == (n / 10) * 10 + n % 10) by {
            vstd::arithmetic::div_mod::lemma_fundamental_div_mod(n as int, 10);
        }
    }
}

/// Reading back the canonical numeral of an unsigned number yields that
/// number.
pub proof fn lemma_parse_u64_dec_of(n: u64)
    ensures
        parse_u64_spec(dec_of(n as nat)) == Some(n),
{
    lemma_dec_of_props(n as nat);
    let s = dec_of(n as nat);
    assert(is_digit(s[0]));
    assert(s[0] != 43u8);
}

/// Reading back the canonical numeral of a non-negative signed number
/// yields that number.
pub proof fn lemma_parse_i64_dec_of(n: i64)
    requires
        n >= 0,
    ensures
        parse_i64_spec(dec_of(n as nat)) == Some(n),
{
    lemma_dec_of_props(n as nat);
    let s = dec_of(n as nat);
    assert(is_digit(s[0]));
    assert(s[0] != 45u8 && s[0] != 43u8);
}

/// The canonical decimal digits of an unsigned number, as bytes.
pub fn u64_digits(n: u64) -> (r: Vec<u8>)
    ensures
        r@ == dec_of(n as nat),
    decreases n,
{
    if n < 10 {
        let mut v: Vec<u8> = Vec::new();
        v.push(48 + (n as u8));
        assert(v@ =~= dec_of(n as nat));
        v
    } else {
        let mut v = u64_digits(n / 10);
        v.push(48 + ((n % 10) as u8));
        assert(v@ =~= dec_of(n as nat));
        v
    }
}

/// The value of the byte range `lo..hi` of `v` read as an unadorned decimal
/// numeral, or `None` when the range is empty, holds a non-digit, or
/// overflows an unsigned 64-bit value.
fn digits_val(v: &Vec<u8>, lo: usize, hi: usize) -> (r: Option<u64>)
    requires
        lo <= hi <= v.len(),
    ensures
        ({
            let d = v@.subrange(lo as int, hi as int);
            match r {
                Some(n) => d.len() > 0 && all_digits(d) && dec_val(d) == n,
                None => !(d.len() > 0 && all_digits(d) && dec_val(d) <= u64::MAX),
            }
        }),
{
    let ghost d = v@.subrange(lo as int, hi as int);
    if lo == hi {
        return None;
    }
    let mut i: usize = lo;
    let mut acc: u64 = 0;
    while i < hi
        invariant
            lo <= i <= hi <= v.len(),
            d == v@.subrange(lo as int, hi as int),
            all_digits(d.take(i - lo)),
            acc == dec_val(d.take(i - lo)),
        decreases hi - i,
    {
        let b = v[i];
        assert(d[i - lo] == v@[i as int]);
        if !(48 <= b && b <= 57) {
            assert(!all_digits(d));
            return None;
        }
        let dig = (b - 48) as u64;
        proof {
            let t = d.take(i - lo + 1);
            assert(t.drop_last() =~= d.take(i - lo));
            assert(t.last() == d[i - lo]);
            assert(all_digits(t)) by {
                assert forall|j: int| 0 <= j < t.len() implies is_digit(#[trigger] t[j]) by {
                    assert(t[j] == d[j]);
                }
            }
            lemma_dec_val_nonneg(d.take(i - lo));
        }
        if acc > 1844674407370955161u64 || (acc == 1844674407370955161u64 && dig > 5) {
            proof {
                assert(dec_val(d.take(i - lo + 1)) > u64::MAX);
                if all_digits(d) {
                    lemma_dec_val_take_le(d, i - lo + 1);
                }
            }
            return None;
        }
        acc = acc * 10 + dig;
        i += 1;
    }
    proof {
        assert(d.take(hi - lo) =~= d);
    }
    Some(acc)
}

/// Parses a byte string as an unsigned 64-bit decimal number, exactly when
/// [`parse_u64_spec`] admits it; on failure the error is the validation
/// message naming the field, the raw value and the line.
pub fn parse_number(field_name: &str, value: &Vec<u8>, line_number: usize) -> (r: Result<
    u64,
    ParseError,
>)
    ensures
        r is Ok <==> parse_u64_spec(value@) is Some,
        r is Ok ==> Some(r->Ok_0) == parse_u64_spec(value@),
        r is Err ==> crate::errors::matches_kind(
            r->Err_0,
            ErrorKind::Number(field_name@, value@, line_number as int),
        ),
{
    let lo: usize = if value.len() > 0 && value[0] == 43u8 {
        1
    } else {
        0
    };
    proof {
        if value@.len() > 0 && value@[0] == 43u8 {
            assert(value@.skip(1) =~= value@.subrange(1, value@.len() as int));
        } else {
            assert(value@ =~= value@.subrange(0, value@.len() as int));
        }
    }
    match digits_val(value, lo, value.len()) {
        Some(n) => Ok(n),
        None => Err(number_error(field_name, value, line_number)),
    }
}

/// Parses a byte string as a signed 64-bit decimal number, exactly when
/// [`parse_i64_spec`] admits it; on failure the error is the validation
/// message naming the field, the raw value and the line.
pub fn parse_number_i64(field_name: &str, value: &Vec<u8>, line_number: usize) -> (r: Result<
    i64,
    ParseError,
>)
    ensures
        r is Ok <==> parse_i64_spec(value@) is Some,
        r is Ok ==> Some(r->Ok_0) == parse_i64_spec(value@),
        r is Err ==> crate::errors::matches_kind(
            r->Err_0,
            ErrorKind::Number(field_name@, value@, line_number as int),
        ),
{
    if value.len() > 0 && value[0] == 45u8 {
        proof {
            assert(value@.skip(1) =~= value@.subrange(1, value@.len() as int));
        }
        match digits_val(value, 1, value.len()) {
            Some(m) => {
                if m <= 9223372036854775808u64 {
                    let r: i64 = if m == 9223372036854775808u64 {
                        i64::MIN
                    } else {
                        -(m as i64)
                    };
                    Ok(r)
                } else {
                    Err(number_error(field_name, value, line_number))
                }
            },
            None => Err(number_error(field_name, value, line_number)),
        }
    } else {
        let lo: usize = if value.len() > 0 && value[0] == 43u8 {
            1
        } else {
            0
        };
        proof {
            if value@.len() > 0 && value@[0] == 43u8 {
                assert(value@.skip(1) =~= value@.subrange(1, value@.len() as int));
            } else {
                assert(value@ =~= value@.subrange(0, value@.len() as int));
            }
        }
        match digits_val(value, lo, value.len()) {
            Some(n) => {
                if n <= i64::MAX as u64 {
                    Ok(n as i64)
                } else {
                    Err(number_error(field_name, value, line_number))
                }
            },
            None => Err(number_error(field_name, value, line_number)),
        }
    }
}

fn number_error(field_name: &str, value: &Vec<u8>, line_number: usize) -> (r: ParseError)
    ensures
        crate::errors::matches_kind(
            r,
            ErrorKind::Number(field_name@, value@, line_number as int),
        ),
{
    let mut m = new_string("Invalid ");
    append_str(&mut m, field_name);
    append_str(&mut m, " value '");
    append_bytes(&mut m, value, 0, value.len());
    append_str(&mut m, "' at line ");
    append_u64(&mut m, line_number as u64);
    proof {
        assert(value@.subrange(0, value@.len() as int) =~= value@);
    }
    ParseError::Validation(m)
}

// ---------------------------------------------------------------------------
// Trimming and searching
// ---------------------------------------------------------------------------
/// A byte string with ASCII whitespace removed from both ends.
pub open spec fn spec_trim(s: Seq<u8>) -> Seq<u8>
    decreases s.len(),
{
    if s.len() == 0 {
        s
    } else if is_ws(s[0]) {
        spec_trim(s.skip(1))
    } else if is_ws(s.last()) {
        spec_trim(s.drop_last())
    } else {
        s
    }
}

/// The bytes of `v` in `lo..hi` with ASCII whitespace removed from both
/// ends.
pub fn trim_range(v: &Vec<u8>, lo: usize, hi: usize) -> (r: Vec<u8>)
    requires
        lo <= hi <= v.len(),
    ensures
        r@ == spec_trim(v@.subrange(lo as int, hi as int)),
{
    let mut a: usize = lo;
    let mut b: usize = hi;
    while a < b && is_ws_exec(v[a])
        invariant
            lo <= a <= b <= v.len(),
            b == hi,
            spec_trim(v@.subrange(lo as int, hi as int)) == spec_trim(
                v@.subrange(a as int, hi as int),
            ),
        decreases b - a,
    {
        proof {
            let s = v@.subrange(a as int, hi as int);
            assert(s[0] == v@[a as int]);
            assert(s.skip(1) =~= v@.subrange(a + 1 as int, hi as int));
        }
        a += 1;
    }
    while b > a && is_ws_exec(v[b - 1])
        invariant
            lo <= a <= b <= hi <= v.len(),
            a == b || !is_ws(v@[a as int]),
            spec_trim(v@.subrange(lo as int, hi as int)) == spec_trim(
                v@.subrange(a as int, b as int),
            ),
        decreases b,
    {
        proof {
            let s = v@.subrange(a as int, b as int);
            assert(s[0] == v@[a as int]);
            assert(s.last() == v@[b - 1 as int]);
            assert(s.drop_last() =~= v@.subrange(a as int, b - 1 as int));
        }
        b -= 1;
    }
    proof {
        let s = v@.subrange(a as int, b as int);
        if s.len() > 0 {
            assert(s[0] == v@[a as int]);
            assert(s.last() == v@[b - 1 as int]);
        }
        assert(spec_trim(s) == s);
    }
    copy_range(v, a, b)
}

/// The index of the first occurrence of `t` in `s`, or `s.len()` when `s`
/// does not hold `t`.
pub open spec fn find_byte(s: Seq<u8>, t: u8) -> int
    decreases s.len(),
{
    if s.len() == 0 {
        0
    } else if s[0] == t {
        0
    } else {
        1 + find_byte(s.skip(1), t)
    }
}

/// What [`find_byte`] returns, characterised without recursion.
pub proof fn lemma_find_byte_props(s: Seq<u8>, t: u8)
    ensures
        0 <= find_byte(s, t) <= s.len(),
        find_byte(s, t) < s.len() ==> s[find_byte(s, t)] == t,
        forall|j: int| 0 <= j < find_byte(s, t) ==> s[j] != t,
    decreases s.len(),
{
    if s.len() > 0 && s[0] != t {
        lemma_find_byte_props(s.skip(1), t);
        assert forall|j: int| 0 <= j < find_byte(s, t) implies s[j] != t by {
            if j > 0 {
                assert(s.skip(1)[j - 1] == s[j]);
            }
        }
    }
}

/// An index before which `t` never occurs, and at which `t` stands unless
/// the index is the length, is what [`find_byte`] returns.
pub proof fn lemma_find_byte_is(s: Seq<u8>, t: u8, i: int)
    requires
        0 <= i <= s.len(),
        forall|j: int| 0 <= j < i ==> s[j] != t,
        i < s.len() ==> s[i] == t,
    ensures
        find_byte(s, t) == i,
    decreases s.len(),
{
    if s.len() > 0 && s[0] != t {
        assert(i > 0);
        let r = s.skip(1);
        assert forall|j: int| 0 <= j < i - 1 implies r[j] != t by {
            assert(r[j] == s[j + 1]);
        }
        assert(i - 1 < r.len() ==> r[i - 1] == t);
        lemma_find_byte_is(r, t, i - 1);
    }
}

/// The index of the first occurrence of `t` in `v` within `lo..hi`, or `hi`
/// when the range does not hold `t`.
pub fn find_from(v: &Vec<u8>, lo: usize, hi: usize, t: u8) -> (r: usize)
    requires
        lo <= hi <= v.len(),
    ensures
        lo <= r <= hi,
        r - lo == find_byte(v@.subrange(lo as int, hi as int), t),
{
    let ghost s = v@.subrange(lo as int, hi as int);
    let mut i: usize = lo;
    while i < hi
        invariant
            lo <= i <= hi <= v.len(),
            s == v@.subrange(lo as int, hi as int),
            forall|j: int| 0 <= j < i - lo ==> s[j] != t,
        decreases hi - i,
    {
        if v[i] == t {
            proof {
                assert(s[i - lo] == v@[i as int]);
                lemma_find_byte_is(s, t, i - lo);
            }
            return i;
        }
        assert(s[i - lo] == v@[i as int]);
        i += 1;
    }
    proof {
        lemma_find_byte_is(s, t, hi - lo);
    }
    hi
}

// ---------------------------------------------------------------------------
// Splitting a byte source into lines
// ---------------------------------------------------------------------------
/// A line with one trailing carriage return removed, if it has one.
pub open spec fn strip_cr(l: Seq<u8>) -> Seq<u8> {
    if l.len() > 0 && l.last() == 13u8 {
        l.drop_last()
    } else {
        l
    }
}

/// The lines of a byte source: maximal runs split on line feeds, each with
/// one trailing carriage return removed; a final line feed closes the last
/// line rather than opening an empty one.
pub open spec fn spec_lines(s: Seq<u8>) -> Seq<Seq<u8>>
    decreases s.len(),
    via spec_lines_decreases
{
    if s.len() == 0 {
        Seq::empty()
    } else {
        let i = find_byte(s, 10u8);
        if i == s.len() {
            seq![strip_cr(s)]
        } else {
            seq![strip_cr(s.take(i))] + spec_lines(s.skip(i + 1))
        }
    }
}

#[via_fn]
proof fn spec_lines_decreases(s: Seq<u8>) {
    if s.len() > 0 {
        lemma_find_byte_props(s, 10u8);
    }
}

/// The lines of `v`, each as its own vector.
pub fn split_lines(v: &Vec<u8>) -> (r: Vec<Vec<u8>>)
    ensures
        r.deep_view() == spec_lines(v@),
{
    let mut r: Vec<Vec<u8>> = Vec::new();
    let mut pos: usize = 0;
    proof {
        assert(v@.skip(0) =~= v@);
        assert(r.deep_view() =~~= Seq::<Seq<u8>>::empty());
        assert(r.deep_view() + spec_lines(v@) =~~= spec_lines(v@));
    }
    while pos < v.len()
        invariant
            pos <= v.len(),
            spec_lines(v@) == r.deep_view() + spec_lines(v@.skip(pos as int)),
        decreases v.len() - pos,
    {
        let ghost s = v@.skip(pos as int);
        proof {
            assert(s =~= v@.subrange(pos as int, v@.len() as int));
        }
        let nl = find_from(v, pos, v.len(), 10u8);
        let mut line_hi: usize = nl;
        if line_hi > pos && v[line_hi - 1] == 13u8 {
            line_hi -= 1;
        }
        let line = copy_range(v, pos, line_hi);
        proof {
            let i = find_byte(s, 10u8);
            assert(i == nl - pos);
            let raw = s.take(i);
            assert(raw =~= v@.subrange(pos as int, nl as int));
            if raw.len() > 0 && raw.last() == 13u8 {
                assert(strip_cr(raw) =~= v@.subrange(pos as int, nl - 1 as int));
            }
            if i == s.len() {
                assert(raw =~= s);
                assert(line@ == strip_cr(s));
                assert(spec_lines(s) == seq![strip_cr(s)]);
            } else {
                assert(line@ == strip_cr(raw));
                assert(s.skip(i + 1) =~= v@.skip(nl + 1 as int));
            }
        }
        let ghost prev = r.deep_view();
        r.push(line);
        proof {
            assert(r.deep_view() =~~= prev.push(line@));
        }
        if nl == v.len() {
            pos = v.len();
            proof {
                assert(spec_lines(v@.skip(pos as int)) =~~= Seq::<Seq<u8>>::empty());
                assert(spec_lines(v@) =~~= r.deep_view() + spec_lines(v@.skip(pos as int)));
            }
        } else {
            pos = nl + 1;
            proof {
                assert(spec_lines(v@) =~~= r.deep_view() + spec_lines(v@.skip(pos as int)));
            }
        }
    }
    proof {
        assert(spec_lines(v@.skip(pos as int)) =~~= Seq::<Seq<u8>>::empty());
        assert(r.deep_view() =~~= spec_lines(v@));
    }
    r
}

// ---------------------------------------------------------------------------
// Joining lines back into a stream
// ---------------------------------------------------------------------------
/// The given lines, each closed with a line feed, as one byte stream.
pub open spec fn join_lines(ls: Seq<Seq<u8>>) -> Seq<u8>
    decreases ls.len(),
{
    if ls.len() == 0 {
        Seq::empty()
    } else {
        (ls[0] + seq![10u8]) + join_lines(ls.skip(1))
    }
}

/// Extending the lines by one appends that line, closed, to the stream.
pub proof fn lemma_join_lines_snoc(ls: Seq<Seq<u8>>, k: int)
    requires
        0 <= k < ls.len(),
    ensures
        join_lines(ls.take(k + 1)) == join_lines(ls.take(k)) + (ls[k] + seq![10u8]),
    decreases k,
{
    if k == 0 {
        assert(ls.take(0) =~= Seq::<Seq<u8>>::empty());
        assert(ls.take(1) =~= seq![ls[0]]);
        assert(seq![ls[0]].skip(1) =~= Seq::<Seq<u8>>::empty());
        assert(join_lines(ls.take(1)) == (ls[0] + seq![10u8]) + join_lines(
            Seq::<Seq<u8>>::empty(),
        ));
        assert(join_lines(ls.take(0)) + (ls[0] + seq![10u8]) =~= (ls[0] + seq![10u8]) + join_lines(
            Seq::<Seq<u8>>::empty(),
        ));
    } else {
        let u = ls.skip(1);
        lemma_join_lines_snoc(u, k - 1);
        assert(ls.take(k + 1)[0] == ls[0]);
        assert(ls.take(k + 1).skip(1) =~= u.take(k));
        assert(ls.take(k)[0] == ls[0]);
        assert(ls.take(k).skip(1) =~= u.take(k - 1));
        assert(u[k - 1] == ls[k]);
        assert(join_lines(ls.take(k + 1)) == (ls[0] + seq![10u8]) + join_lines(u.take(k)));
        assert(join_lines(ls.take(k)) == (ls[0] + seq![10u8]) + join_lines(u.take(k - 1)));
        assert(((ls[0] + seq![10u8]) + join_lines(u.take(k - 1))) + (ls[k] + seq![10u8]) =~= (ls[0]
            + seq![10u8]) + (join_lines(u.take(k - 1)) + (ls[k] + seq![10u8])));
    }
}

/// The given lines, each closed with a line feed, as one vector.
pub fn join_lines_exec(ls: &Vec<Vec<u8>>) -> (r: Vec<u8>)
    ensures
        r@ == join_lines(ls.deep_view()),
{
    let ghost lv = ls.deep_view();
    let mut r: Vec<u8> = Vec::new();
    let mut i: usize = 0;
    proof {
        assert(lv.take(0) =~= Seq::<Seq<u8>>::empty());
        assert(r@ =~= join_lines(lv.take(0)));
    }
    while i < ls.len()
        invariant
            i <= ls.len(),
            lv == ls.deep_view(),
            r@ == join_lines(lv.take(i as int)),
        decreases ls.len() - i,
    {
        let mut line = copy_range(&ls[i], 0, ls[i].len());
        proof {
            assert(line@ =~= lv[i as int]);
        }
        r.append(&mut line);
        r.push(10u8);
        proof {
            lemma_join_lines_snoc(lv, i as int);
            assert(r@ =~= join_lines(lv.take(i as int)) + (lv[i as int] + seq![10u8]));
        }
        i += 1;
    }
    proof {
        assert(lv.take(ls.len() as int) =~= lv);
    }
    r
}

/// True when `s` holds no line feed and no carriage return.
pub open spec fn no_line_breaks(s: Seq<u8>) -> bool {
    forall|i: int| 0 <= i < s.len() ==> #[trigger] s[i] != 10 && s[i] != 13
}

/// Concatenation preserves freedom from line breaks.
pub proof fn lemma_no_breaks_concat(a: Seq<u8>, b: Seq<u8>)
    requires
        no_line_breaks(a),
        no_line_breaks(b),
    ensures
        no_line_breaks(a + b),
{
    assert forall|i: int| 0 <= i < (a + b).len() implies (a + b)[i] != 10 && (a + b)[i] != 13 by {
        if i < a.len() {
            assert((a + b)[i] == a[i]);
        } else {
            assert((a + b)[i] == b[i - a.len()]);
        }
    }
}

/// A break-free closed line splits off the front of a byte stream as one
/// whole line.
pub proof fn lemma_lines_one(l: Seq<u8>, rest: Seq<u8>)
    requires
        no_line_breaks(l),
    ensures
        spec_lines(l + seq![10u8] + rest) == seq![l] + spec_lines(rest),
{
    let s = l + seq![10u8] + rest;
    assert forall|j: int| 0 <= j < l.len() implies s[j] != 10 by {
        assert(s[j] == l[j]);
    }
    assert(s[l.len() as int] == 10);
    lemma_find_byte_is(s, 10u8, l.len() as int);
    assert(s.take(l.len() as int) =~= l);
    if l.len() > 0 {
        assert(l.last() != 13);
    }
    assert(l.len() < s.len());
    assert(s.skip(l.len() as int + 1) =~= rest);
    assert(spec_lines(s) == seq![strip_cr(l)] + spec_lines(rest));
    assert(strip_cr(l) == l);
}

/// The lines of a stream of break-free closed lines followed by more bytes
/// are those lines followed by the lines of the rest.
pub proof fn lemma_lines_of_join(ls: Seq<Seq<u8>>, rest: Seq<u8>)
    requires
        forall|i: int| 0 <= i < ls.len() ==> no_line_breaks(#[trigger] ls[i]),
    ensures
        spec_lines(join_lines(ls) + rest) == ls + spec_lines(rest),
    decreases ls.len(),
{
    if ls.len() == 0 {
        assert(join_lines(ls) + rest =~= rest);
        assert(ls + spec_lines(rest) =~= spec_lines(rest));
    } else {
        assert(forall|i: int|
            0 <= i < ls.skip(1).len() ==> no_line_breaks(#[trigger] ls.skip(1)[i])) by {
            assert(forall|i: int|
                0 <= i < ls.skip(1).len() ==> ls.skip(1)[i] == ls[i + 1] && no_line_breaks(
                    #[trigger] ls.skip(1)[i],
                ));
        }
        lemma_lines_of_join(ls.skip(1), rest);
        let l = ls[0];
        assert(join_lines(ls) + rest =~= (l + seq![10u8]) + (join_lines(ls.skip(1)) + rest));
        lemma_lines_one(l, join_lines(ls.skip(1)) + rest);
        assert(seq![l] + (ls.skip(1) + spec_lines(rest)) =~= ls + spec_lines(rest));
    }
}

/// Trimming changes nothing where neither end is whitespace.
pub proof fn lemma_trim_noop(s: Seq<u8>)
    requires
        s.len() == 0 || (!is_ws(s[0]) && !is_ws(s.last())),
    ensures
        spec_trim(s) == s,
{
}

/// Trimming a string that opens with a non-whitespace byte keeps that byte
/// in front.
pub proof fn lemma_trim_keep_first(s: Seq<u8>)
    requires
        s.len() > 0,
        !is_ws(s[0]),
    ensures
        spec_trim(s).len() > 0,
        spec_trim(s)[0] == s[0],
    decreases s.len(),
{
    if is_ws(s.last()) {
        assert(s.len() > 1);
        assert(s.drop_last()[0] == s[0]);
        lemma_trim_keep_first(s.drop_last());
    }
}

// ---------------------------------------------------------------------------
// The eight record fields
// ---------------------------------------------------------------------------
/// The field name `TX_ID`, as bytes.
pub open spec fn key_tx_id() -> Seq<u8> {
    seq![84u8, 88u8, 95u8, 73u8, 68u8]
}

/// The field name `TX_TYPE`, as bytes.
pub open spec fn key_tx_type() -> Seq<u8> {
    seq![84u8, 88u8, 95u8, 84u8, 89u8, 80u8, 69u8]
}

/// The field name `FROM_USER_ID`, as bytes.
pub open spec fn key_from_user_id() -> Seq<u8> {
    seq![70u8, 82u8, 79u8, 77u8, 95u8, 85u8, 83u8, 69u8, 82u8, 95u8, 73u8, 68u8]
}

/// The field name `TO_USER_ID`, as bytes.
pub open spec fn key_to_user_id() -> Seq<u8> {
    seq![84u8, 79u8, 95u8, 85u8, 83u8, 69u8, 82u8, 95u8, 73u8, 68u8]
}

/// The field name `AMOUNT`, as bytes.
pub open spec fn key_amount() -> Seq<u8> {
    seq![65u8, 77u8, 79u8, 85u8, 78u8, 84u8]
}

/// The field name `TIMESTAMP`, as bytes.
pub open spec fn key_timestamp() -> Seq<u8> {
    seq![84u8, 73u8, 77u8, 69u8, 83u8, 84u8, 65u8, 77u8, 80u8]
}

/// The field name `STATUS`, as bytes.
pub open spec fn key_status() -> Seq<u8> {
    seq![83u8, 84u8, 65u8, 84u8, 85u8, 83u8]
}

/// The field name `DESCRIPTION`, as bytes.
pub open spec fn key_description() -> Seq<u8> {
    seq![68u8, 69u8, 83u8, 67u8, 82u8, 73u8, 80u8, 84u8, 73u8, 79u8, 78u8]
}

/// The eight required field names, in their canonical order.
pub open spec fn field_names() -> Seq<Seq<u8>> {
    seq![
        key_tx_id(),
        key_tx_type(),
        key_from_user_id(),
        key_to_user_id(),
        key_amount(),
        key_timestamp(),
        key_status(),
        key_description(),
    ]
}

/// The field name at position `idx` of the canonical order, as a vector.
pub fn field_name_bytes(idx: usize) -> (r: Vec<u8>)
    requires
        idx < 8,
    ensures
        r@ == field_names()[idx as int],
{
    let mut v: Vec<u8> = Vec::new();
    if idx == 0 {
        v.push(84u8);
        v.push(88u8);
        v.push(95u8);
        v.push(73u8);
        v.push(68u8);
        assert(v@ =~= key_tx_id());
    } else if idx == 1 {
        v.push(84u8);
        v.push(88u8);
        v.push(95u8);
        v.push(84u8);
        v.push(89u8);
        v.push(80u8);
        v.push(69u8);
        assert(v@ =~= key_tx_type());
    } else if idx == 2 {
        v.push(70u8);
        v.push(82u8);
        v.push(79u8);
        v.push(77u8);
        v.push(95u8);
        v.push(85u8);
        v.push(83u8);
        v.push(69u8);
        v.push(82u8);
        v.push(95u8);
        v.push(73u8);
        v.push(68u8);
        assert(v@ =~= key_from_user_id());
    } else if idx == 3 {
        v.push(84u8);
        v.push(79u8);
        v.push(95u8);
        v.push(85u8);
        v.push(83u8);
        v.push(69u8);
        v.push(82u8);
        v.push(95u8);
        v.push(73u8);
        v.push(68u8);
        assert(v@ =~= key_to_user_id());
    } else if idx == 4 {
        v.push(65u8);
        v.push(77u8);
        v.push(79u8);
        v.push(85u8);
        v.push(78u8);
        v.push(84u8);
        assert(v@ =~= key_amount());
    } else if idx == 5 {
        v.push(84u8);
        v.push(73u8);
        v.push(77u8);
        v.push(69u8);
        v.push(83u8);
        v.push(84u8);
        v.push(65u8);
        v.push(77u8);
        v.push(80u8);
        assert(v@ =~= key_timestamp());
    } else if idx == 6 {
        v.push(83u8);
        v.push(84u8);
        v.push(65u8);
        v.push(84u8);
        v.push(85u8);
        v.push(83u8);
        assert(v@ =~= key_status());
    } else {
        v.push(68u8);
        v.push(69u8);
        v.push(83u8);
        v.push(67u8);
        v.push(82u8);
        v.push(73u8);
        v.push(80u8);
        v.push(84u8);
        v.push(73u8);
        v.push(79u8);
        v.push(78u8);
        assert(v@ =~= key_description());
    }
    v
}

/// Compares two byte vectors for exact equality.
pub fn bytes_eq(a: &Vec<u8>, b: &Vec<u8>) -> (r: bool)
    ensures
        r == (a@ == b@),
{
    if a.len() != b.len() {
        proof {
            assert(a@.len() != b@.len());
        }
        return false;
    }
    let mut i: usize = 0;
    while i < a.len()
        invariant
            0 <= i <= a.len(),
            a.len() == b.len(),
            forall|j: int| 0 <= j < i ==> a@[j] == b@[j],
        decreases a.len() - i,
    {
        if a[i] != b[i] {
            return false;
        }
        i += 1;
    }
    proof {
        assert(a@ =~= b@);
    }
    true
}

// ---------------------------------------------------------------------------
// Shared field parsers
// ---------------------------------------------------------------------------
/// Parses a byte string as a transaction type token, exactly when
/// [`token_to_type`] recognises it case-insensitively; the error names
/// the raw value and the line.
pub fn parse_transaction_type(value: &Vec<u8>, line_number: usize) -> (r: Result<
    TransactionType,
    ParseError,
>)
    ensures
        r is Ok <==> token_to_type(value@) is Some,
        r is Ok ==> Some(r->Ok_0) == token_to_type(value@),
        r is Err ==> crate::errors::matches_kind(
            r->Err_0,
            ErrorKind::TypeToken(value@, line_number as int),
        ),
{
    let deposit = TransactionType::Deposit.token_bytes();
    let transfer = TransactionType::Transfer.token_bytes();
    let withdrawal = TransactionType::Withdrawal.token_bytes();
    if eq_ignore_case_exec(value, &deposit) {
        Ok(TransactionType::Deposit)
    } else if eq_ignore_case_exec(value, &transfer) {
        Ok(TransactionType::Transfer)
    } else if eq_ignore_case_exec(value, &withdrawal) {
        Ok(TransactionType::Withdrawal)
    } else {
        let mut m = new_string("Invalid TX_TYPE '");
        append_bytes(&mut m, value, 0, value.len());
        append_str(&mut m, "' at line ");
        append_u64(&mut m, line_number as u64);
        proof {
            assert(value@.subrange(0, value@.len() as int) =~= value@);
        }
        Err(ParseError::Validation(m))
    }
}

/// Parses a byte string as a transaction status token, exactly when
/// [`token_to_status`] recognises it case-insensitively; the error names
/// the raw value and the line.
pub fn parse_transaction_status(value: &Vec<u8>, line_number: usize) -> (r: Result<
    TransactionStatus,
    ParseError,
>)
    ensures
        r is Ok <==> token_to_status(value@) is Some,
        r is Ok ==> Some(r->Ok_0) == token_to_status(value@),
        r is Err ==> crate::errors::matches_kind(
            r->Err_0,
            ErrorKind::StatusToken(value@, line_number as int),
        ),
{
    let success = TransactionStatus::Success.token_bytes();
    let failure = TransactionStatus::Failure.token_bytes();
    let pending = TransactionStatus::Pending.token_bytes();
    if eq_ignore_case_exec(value, &success) {
        Ok(TransactionStatus::Success)
    } else if eq_ignore_case_exec(value, &failure) {
        Ok(TransactionStatus::Failure)
    } else if eq_ignore_case_exec(value, &pending) {
        Ok(TransactionStatus::Pending)
    } else {
        let mut m = new_string("Invalid STATUS '");
        append_bytes(&mut m, value, 0, value.len());
        append_str(&mut m, "' at line ");
        append_u64(&mut m, line_number as u64);
        proof {
            assert(value@.subrange(0, value@.len() as int) =~= value@);
        }
        Err(ParseError::Validation(m))
    }
}

/// What a description value at the given line yields: the content between
/// a mandatory pair of surrounding double quotes, which must be valid
/// UTF-8; the quoting error names the raw value and the line.
pub open spec fn spec_parse_description(s: Seq<u8>, line: int) -> Result<Seq<char>, ErrorKind> {
    if !(s.len() >= 2 && s[0] == 34u8 && s.last() == 34u8) {
        Err(ErrorKind::QuoteMissing(s, line))
    } else if !valid_utf8(s.subrange(1, s.len() - 1)) {
        Err(ErrorKind::DescriptionUtf8)
    } else {
        Ok(decode_utf8(s.subrange(1, s.len() - 1)))
    }
}

/// Parses a description value: strips the mandatory surrounding double
/// quotes and decodes the content, exactly as [`spec_parse_description`]
/// says.
pub fn parse_description(value: &Vec<u8>, line_number: usize) -> (r: Result<String, ParseError>)
    ensures
        ({
            match spec_parse_description(value@, line_number as int) {
                Ok(d) => r is Ok && r->Ok_0@ == d,
                Err(k) => r is Err && crate::errors::matches_kind(r->Err_0, k),
            }
        }),
{
    if !(value.len() >= 2 && value[0] == 34u8 && value[value.len() - 1] == 34u8) {
        let mut m = new_string("DESCRIPTION must be in double quotes at line ");
        append_u64(&mut m, line_number as u64);
        append_str(&mut m, ": ");
        append_bytes(&mut m, value, 0, value.len());
        proof {
            assert(value@.subrange(0, value@.len() as int) =~= value@);
        }
        return Err(ParseError::Validation(m));
    }
    let content = copy_range(value, 1, value.len() - 1);
    match utf8_to_string(content) {
        Some(s) => Ok(s),
        None => {
            let mut m = new_string("invalid UTF-8 in DESCRIPTION at line ");
            append_u64(&mut m, line_number as u64);
            Err(ParseError::InvalidDescription(m))
        },
    }
}

} // verus!
