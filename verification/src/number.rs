//! JSON numbers kept as their text, and their integer readings.

use crate::chars;
use crate::element::is_number_byte;
use crate::reader::Bytes;
use crate::text::utf8_lossy;
use vstd::prelude::*;
use vstd::string::StringSliceAdditionalSpecFns;
use vstd::utf8::{decode_utf8, encode_utf8, valid_utf8};

verus! {

pub const MAX_UINT_53: u64 = 4503599627370495u64;

pub const MIN_INT_53: i64 = -2251799813685248i64;

pub const MAX_INT_53: i64 = 2251799813685247i64;

/// A JSON number, kept as the text it was written with: `F64` when the text
/// holds a dot after its first byte, else `I64` when it starts with a minus
/// sign, else `U64`.
#[derive(Debug, PartialEq, Eq, Clone)]
pub enum Number {
    F64(String),
    U64(String),
    I64(String),
}

/// The value of a run of decimal digits.
pub open spec fn digits_value(s: Seq<u8>) -> nat
    decreases s.len(),
{
    if s.len() == 0 {
        0
    } else {
        digits_value(s.drop_last()) * 10 + (s.last() - chars::DIGIT_0) as nat
    }
}

/// Every byte is a decimal digit.
pub open spec fn all_digits(s: Seq<u8>) -> bool {
    forall|k: int| 0 <= k < s.len() ==> chars::is_digit(#[trigger] s[k])
}

/// What `str::parse::<u64>` gives for the text `s`: an optional `+` and at
/// least one digit, with a value that fits.
pub open spec fn spec_parse_u64(s: Seq<u8>) -> Option<u64> {
    let d = if s.len() > 0 && s[0] == chars::PLUS { s.drop_first() } else { s };
    if d.len() > 0 && all_digits(d) && digits_value(d) <= u64::MAX {
        Some(digits_value(d) as u64)
    } else {
        None
    }
}

/// What `str::parse::<i64>` gives for the text `s`: an optional sign and at
/// least one digit, with a value that fits.
pub open spec fn spec_parse_i64(s: Seq<u8>) -> Option<i64> {
    let neg = s.len() > 0 && s[0] == chars::MINUS;
    let d = if s.len() > 0 && (s[0] == chars::PLUS || s[0] == chars::MINUS) {
        s.drop_first()
    } else {
        s
    };
    if d.len() > 0 && all_digits(d) {
        let v = if neg { -(digits_value(d) as int) } else { digits_value(d) as int };
        if i64::MIN <= v <= i64::MAX {
            Some(v as i64)
        } else {
            None
        }
    } else {
        None
    }
}

/// The length of the leading run of digits of `s`.
pub open spec fn leading_digits(s: Seq<u8>, i: int) -> int
    decreases s.len() - i,
{
    if i < 0 || i >= s.len() {
        if i < 0 { 0 } else { s.len() as int }
    } else if chars::is_digit(s[i]) {
        leading_digits(s, i + 1)
    } else {
        i
    }
}

/// `digits_value` taken modulo 2^64, digit by digit, as a wrapping `u64`
/// accumulator computes it.
pub open spec fn wrapping_digits_value(s: Seq<u8>) -> u64
    decreases s.len(),
{
    if s.len() == 0 {
        0
    } else {
        ((wrapping_digits_value(s.drop_last()) * 10 + (s.last() - chars::DIGIT_0)) % 0x1_0000_0000_0000_0000) as u64
    }
}

/// The text is a decimal that `str::parse::<f64>` accepts: an optional minus
/// sign, digits with at most one dot among them, and at least one digit.
pub open spec fn decimal_syntax_ok(s: Seq<u8>) -> bool {
    let body = decimal_body(s);
    &&& forall|k: int| 0 <= k < body.len() ==> chars::is_digit(#[trigger] body[k]) || body[k] == chars::DOT
    &&& forall|k1: int, k2: int| #![trigger body[k1], body[k2]] 0 <= k1 < k2 < body.len() && body[k1] == chars::DOT ==> body[k2] != chars::DOT
    &&& exists|k: int| 0 <= k < body.len() && chars::is_digit(#[trigger] body[k])
}

/// The text without its leading minus sign.
pub open spec fn decimal_body(s: Seq<u8>) -> Seq<u8> {
    if s.len() > 0 && s[0] == chars::MINUS { s.drop_first() } else { s }
}

/// The digits before the dot.
pub open spec fn decimal_int_digits(s: Seq<u8>) -> Seq<u8> {
    let body = decimal_body(s);
    body.take(leading_digits(body, 0))
}

/// The text starts with a minus sign.
pub open spec fn decimal_negative(s: Seq<u8>) -> bool {
    s.len() > 0 && s[0] == chars::MINUS
}

/// The number that `to_u64` reads from the text of an `F64`: the decimal
/// cut toward zero (a negative value and text that is not a decimal read as
/// 0) when that is at most `MAX_UINT_53`, else the leading digits.
pub open spec fn spec_f64_text_to_u64(s: Seq<u8>) -> u64 {
    if !decimal_syntax_ok(s) || decimal_negative(s) {
        0
    } else if digits_value(decimal_int_digits(s)) <= MAX_UINT_53 {
        digits_value(decimal_int_digits(s)) as u64
    } else {
        spec_parse_uint_lossy(s)
    }
}

/// The number that `to_i64` reads from the text of an `F64`: the decimal cut
/// toward zero (text that is not a decimal reads as 0) when that lies between
/// `MIN_INT_53` and `MAX_INT_53`, else the leading digits.
pub open spec fn spec_f64_text_to_i64(s: Seq<u8>) -> i64 {
    if !decimal_syntax_ok(s) {
        0
    } else {
        let m = digits_value(decimal_int_digits(s)) as int;
        let t = if decimal_negative(s) { -m } else { m };
        if MIN_INT_53 <= t <= MAX_INT_53 {
            t as i64
        } else {
            spec_parse_int_lossy(s)
        }
    }
}

/// What `parse_uint_lossy` returns: the value of the leading digits, kept
/// modulo 2^64.
pub open spec fn spec_parse_uint_lossy(v: Seq<u8>) -> u64 {
    wrapping_digits_value(v.take(leading_digits(v, 0)))
}

/// What `parse_int_lossy` returns: 0 for empty text and for text that starts
/// with a minus sign (the sign stops the scan before any digit), else the
/// value of the leading digits, kept modulo 2^64 as an `i64`.
pub open spec fn spec_parse_int_lossy(v: Seq<u8>) -> i64 {
    if v.len() == 0 || v[0] == chars::MINUS {
        0
    } else {
        spec_parse_uint_lossy(v) as i64
    }
}

/// The end of the text that `Number::from_bytes` takes: the first byte
/// always, then digits and dots.
pub open spec fn number_text_end(v: Seq<u8>, i: int) -> int
    decreases v.len() - i,
{
    if i < 1 || i >= v.len() {
        if i < 1 { 1 } else { v.len() as int }
    } else if chars::is_digit(v[i]) || v[i] == chars::DOT {
        number_text_end(v, i + 1)
    } else {
        i
    }
}

/// The kind of number that `Number::from_bytes` makes of `v`: 0 for `F64`,
/// 1 for `I64`, 2 for `U64`.
pub open spec fn number_kind(v: Seq<u8>) -> int {
    let e = number_text_end(v, 1);
    if exists|k: int| 1 <= k < e && v[k] == chars::DOT {
        0
    } else if v[0] == chars::MINUS {
        1
    } else {
        2
    }
}

impl Number {
    /// The text of the number, as bytes.
    pub open spec fn text(&self) -> Seq<u8> {
        match self {
            Number::F64(s) => encode_utf8(s@),
            Number::U64(s) => encode_utf8(s@),
            Number::I64(s) => encode_utf8(s@),
        }
    }

    /// The kind of the number: 0 for `F64`, 1 for `I64`, 2 for `U64`.
    pub open spec fn kind(&self) -> int {
        match self {
            Number::F64(_) => 0,
            Number::I64(_) => 1,
            Number::U64(_) => 2,
        }
    }

    /// The number that `to_u64` reads.
    pub open spec fn spec_u64(&self) -> u64 {
        match self {
            Number::F64(_) => spec_f64_text_to_u64(self.text()),
            _ => match spec_parse_u64(self.text()) {
                Some(u) => u,
                None => 0,
            },
        }
    }

    /// The number that `to_i64` reads.
    pub open spec fn spec_i64(&self) -> i64 {
        match self {
            Number::F64(_) => spec_f64_text_to_i64(self.text()),
            _ => match spec_parse_i64(self.text()) {
                Some(i) => i,
                None => 0,
            },
        }
    }
}

pub proof fn lemma_ascii_text(v: Seq<u8>)
    requires
        forall|k: int| 0 <= k < v.len() ==> #[trigger] v[k] < 128,
    ensures
        valid_utf8(v),
        encode_utf8(decode_utf8(v)) == v,
{
    assert forall|k: int| 0 <= 0 <= k < v.len() <= v.len() implies #[trigger]
        vstd::utf8::is_leading_byte_width_1(v[k]) by {
        assert(v[k] < 128);
    }
    vstd::utf8::partial_valid_utf8_extend_ascii_block(v, 0, v.len() as int);
    assert(v.subrange(0, v.len() as int) =~= v);
    vstd::utf8::decode_utf8_encode_utf8(v);
}

/// Makes a `String` of ASCII bytes.
pub fn ascii_string(v: &[u8]) -> (s: String)
    requires
        forall|k: int| 0 <= k < v@.len() ==> #[trigger] v@[k] < 128,
    ensures
        encode_utf8(s@) == v@,
{
    proof {
        lemma_ascii_text(v@);
    }
    utf8_lossy(v)
}

impl Number {
    /// Reads the number at the start of `v`: its text runs from the first
    /// byte (an ASCII byte, so that the text is UTF-8) through the digits
    /// and dots that follow it.
    pub fn from_bytes(v: &[u8]) -> (r: Number)
        requires
            v@.len() > 0,
            v@[0] < 128,
        ensures
            r.text() == v@.subrange(0, number_text_end(v@, 1)),
            r.kind() == number_kind(v@),
    {
        let mut reader = Bytes::new(v);
        let start = reader.position();
        let sign = match reader.peek() {
            Some(b) => b == chars::MINUS,
            None => false,
        };
        let mut float = false;
        let ghost mut seen_dot = false;
        loop
            invariant_except_break
                reader.wf(),
                reader.buffer_view() == v@,
                1 <= reader.pos() + 1,
                reader.pos() < v@.len(),
                number_text_end(v@, reader.pos() + 1int) == number_text_end(v@, 1),
                float <==> exists|k: int| 1 <= k <= reader.pos() && v@[k] == chars::DOT,
                reader.pos() == 0 || chars::is_digit(v@[reader.pos() as int]) || v@[reader.pos() as int] == chars::DOT,
                forall|k: int| 1 <= k <= reader.pos() ==> chars::is_digit(#[trigger] v@[k]) || v@[k] == chars::DOT,
            ensures
                reader.wf(),
                reader.buffer_view() == v@,
                1 <= reader.pos() <= v@.len(),
                reader.pos() == number_text_end(v@, 1),
                float <==> exists|k: int| 1 <= k < reader.pos() && v@[k] == chars::DOT,
                forall|k: int| 1 <= k < reader.pos() ==> chars::is_digit(#[trigger] v@[k]) || v@[k] == chars::DOT,
            decreases v@.len() - reader.pos(),
        {
            let ghost p = reader.pos();
            match reader.next() {
                Some(b) => {
                    if chars::DIGIT_0 <= b && b <= chars::DIGIT_9 {
                    } else if b == chars::DOT {
                        float = true;
                    } else {
                        proof {
                            assert(number_text_end(v@, p + 1int) == p + 1);
                        }
                        break;
                    }
                },
                None => {
                    break;
                },
            }
        }
        let end = reader.position() - 1;
        let text = reader.slice(start, end);
        proof {
            assert forall|k: int| 0 <= k < text@.len() implies #[trigger] text@[k] < 128 by {
                assert(text@[k] == v@[k]);
            }
        }
        let s = ascii_string(text);
        if float {
            Number::F64(s)
        } else if sign {
            Number::I64(s)
        } else {
            Number::U64(s)
        }
    }
}


pub proof fn lemma_digits_value_push(s: Seq<u8>, i: int)
    requires
        0 <= i < s.len(),
    ensures
        digits_value(s.take(i + 1)) == digits_value(s.take(i)) * 10 + (s[i] - chars::DIGIT_0) as nat,
        wrapping_digits_value(s.take(i + 1)) == ((wrapping_digits_value(s.take(i)) * 10 + (s[i]
            - chars::DIGIT_0)) % 0x1_0000_0000_0000_0000) as u64,
{
    assert(s.take(i + 1).drop_last() =~= s.take(i));
}

pub proof fn lemma_digits_value_monotone(s: Seq<u8>, i: int, j: int)
    requires
        0 <= i <= j <= s.len(),
        all_digits(s),
    ensures
        digits_value(s.take(i)) <= digits_value(s.take(j)),
    decreases j - i,
{
    if i < j {
        lemma_digits_value_monotone(s, i, j - 1);
        lemma_digits_value_push(s, j - 1);
    }
}

pub proof fn lemma_leading_digits_bounds(s: Seq<u8>, i: int)
    requires
        0 <= i <= s.len(),
    ensures
        i <= leading_digits(s, i) <= s.len(),
        forall|k: int| i <= k < leading_digits(s, i) ==> chars::is_digit(#[trigger] s[k]),
        leading_digits(s, i) < s.len() ==> !chars::is_digit(s[leading_digits(s, i)]),
    decreases s.len() - i,
{
    if i < s.len() && chars::is_digit(s[i]) {
        lemma_leading_digits_bounds(s, i + 1);
    }
}

/// The value of the digits `v[from..]`, when they are all digits, at least
/// one, and the value fits a `u64`.
fn parse_digits(v: &[u8], from: usize) -> (r: Option<u64>)
    requires
        from <= v@.len(),
    ensures
        ({
            let d = v@.subrange(from as int, v@.len() as int);
            r == if d.len() > 0 && all_digits(d) && digits_value(d) <= u64::MAX {
                Some(digits_value(d) as u64)
            } else {
                None::<u64>
            }
        }),
{
    let ghost d = v@.subrange(from as int, v@.len() as int);
    let len = v.len();
    if from >= len {
        return None;
    }
    let mut i = from;
    let mut acc: u64 = 0;
    let mut overflow = false;
    while i < len
        invariant
            from <= i <= len,
            len == v@.len(),
            d == v@.subrange(from as int, len as int),
            forall|k: int| from <= k < i ==> chars::is_digit(#[trigger] v@[k]),
            !overflow ==> acc == digits_value(d.take(i - from)),
            overflow ==> digits_value(d.take(i - from)) > u64::MAX,
        decreases len - i,
    {
        let b = v[i];
        if !(chars::DIGIT_0 <= b && b <= chars::DIGIT_9) {
            proof {
                assert(!chars::is_digit(d[i - from]));
            }
            return None;
        }
        proof {
            lemma_digits_value_push(d, i - from);
        }
        if !overflow {
            match acc.checked_mul(10) {
                Some(m) => match m.checked_add((b - chars::DIGIT_0) as u64) {
                    Some(a) => {
                        acc = a;
                    },
                    None => {
                        overflow = true;
                    },
                },
                None => {
                    overflow = true;
                },
            }
        }
        i += 1;
    }
    proof {
        assert(d.take(len - from) =~= d);
        assert(all_digits(d));
    }
    if overflow {
        None
    } else {
        Some(acc)
    }
}

/// `str::parse::<u64>` on the text `v`; see `spec_parse_u64`.
pub fn parse_u64_text(v: &[u8]) -> (r: Option<u64>)
    ensures
        r == spec_parse_u64(v@),
{
    if v.len() > 0 && v[0] == chars::PLUS {
        proof {
            assert(v@.subrange(1, v@.len() as int) =~= v@.drop_first());
        }
        parse_digits(v, 1)
    } else {
        proof {
            assert(v@.subrange(0, v@.len() as int) =~= v@);
        }
        parse_digits(v, 0)
    }
}

/// `str::parse::<i64>` on the text `v`; see `spec_parse_i64`.
pub fn parse_i64_text(v: &[u8]) -> (r: Option<i64>)
    ensures
        r == spec_parse_i64(v@),
{
    let neg = v.len() > 0 && v[0] == chars::MINUS;
    let signed = v.len() > 0 && (v[0] == chars::PLUS || v[0] == chars::MINUS);
    let from: usize = if signed { 1 } else { 0 };
    proof {
        if signed {
            assert(v@.subrange(1, v@.len() as int) =~= v@.drop_first());
        } else {
            assert(v@.subrange(0, v@.len() as int) =~= v@);
        }
    }
    let ghost d = v@.subrange(from as int, v@.len() as int);
    let len = v.len();
    if from >= len {
        return None;
    }
    let mut i = from;
    let mut acc: u128 = 0;
    let mut big = false;
    while i < len
        invariant
            from <= i <= len,
            len == v@.len(),
            d == v@.subrange(from as int, len as int),
            signed == (v@.len() > 0 && (v@[0] == chars::PLUS || v@[0] == chars::MINUS)),
            signed ==> d == v@.drop_first(),
            !signed ==> d == v@,
            forall|k: int| from <= k < i ==> chars::is_digit(#[trigger] v@[k]),
            !big ==> acc == digits_value(d.take(i - from)) && acc <= 0x8000_0000_0000_0000u128,
            big ==> digits_value(d.take(i - from)) > 0x8000_0000_0000_0000u128,
        decreases len - i,
    {
        let b = v[i];
        if !(chars::DIGIT_0 <= b && b <= chars::DIGIT_9) {
            proof {
                assert(!chars::is_digit(d[i - from]));
                assert(!all_digits(d));
                if signed {
                    assert(d == v@.drop_first());
                } else {
                    assert(d == v@);
                }
            }
            return None;
        }
        proof {
            lemma_digits_value_push(d, i - from);
        }
        if !big {
            let a = acc * 10 + (b - chars::DIGIT_0) as u128;
            if a > 0x8000_0000_0000_0000u128 {
                big = true;
            } else {
                acc = a;
            }
        }
        i += 1;
    }
    proof {
        assert(d.take(len - from) =~= d);
        assert(all_digits(d));
    }
    if big {
        None
    } else if neg {
        Some((0i128 - acc as i128) as i64)
    } else if acc <= 0x7FFF_FFFF_FFFF_FFFFu128 {
        Some(acc as i64)
    } else {
        None
    }
}

/// The value of the leading digits of `v`, kept modulo 2^64; stops at the
/// first byte that is not a digit.
pub fn parse_uint_lossy(v: &[u8]) -> (r: u64)
    ensures
        r == spec_parse_uint_lossy(v@),
{
    let mut acc: u64 = 0;
    let mut i: usize = 0;
    let len = v.len();
    proof {
        lemma_leading_digits_bounds(v@, 0);
    }
    while i < len
        invariant
            i <= len,
            len == v@.len(),
            i <= leading_digits(v@, 0),
            leading_digits(v@, 0) <= len,
            forall|k: int| 0 <= k < leading_digits(v@, 0) ==> chars::is_digit(#[trigger] v@[k]),
            leading_digits(v@, 0) < len ==> !chars::is_digit(v@[leading_digits(v@, 0)]),
            acc == wrapping_digits_value(v@.take(i as int)),
        decreases len - i,
    {
        let b = v[i];
        if !(chars::DIGIT_0 <= b && b <= chars::DIGIT_9) {
            return acc;
        }
        proof {
            lemma_digits_value_push(v@, i as int);
        }
        acc = ((acc as u128 * 10 + (b - chars::DIGIT_0) as u128) % 0x1_0000_0000_0000_0000u128) as u64;
        i += 1;
    }
    acc
}

/// Like `parse_uint_lossy`, as an `i64`; text that starts with a minus sign
/// gives 0.
pub fn parse_int_lossy(v: &[u8]) -> (r: i64)
    ensures
        r == spec_parse_int_lossy(v@),
{
    if v.len() == 0 || v[0] == chars::MINUS {
        return 0;
    }
    parse_uint_lossy(v) as i64
}


/// Whether `v` is decimal text that `str::parse::<f64>` accepts; see
/// `decimal_syntax_ok`.
pub fn decimal_syntax(v: &[u8]) -> (r: bool)
    ensures
        r == decimal_syntax_ok(v@),
{
    let ghost body = decimal_body(v@);
    let len = v.len();
    let from: usize = if len > 0 && v[0] == chars::MINUS { 1 } else { 0 };
    proof {
        if from == 1 {
            assert(body =~= v@.subrange(1, len as int));
        } else {
            assert(body =~= v@.subrange(0, len as int));
        }
    }
    let mut i = from;
    let mut dot_at: Option<usize> = None;
    let mut digit = false;
    while i < len
        invariant
            from <= i <= len,
            len == v@.len(),
            from <= 1,
            body == v@.subrange(from as int, len as int),
            body == decimal_body(v@),
            forall|k: int| 0 <= k < i - from ==> chars::is_digit(#[trigger] body[k]) || body[k] == chars::DOT,
            dot_at matches Some(p) ==> from <= p < i && v@[p as int] == chars::DOT,
            dot_at matches Some(p) ==> forall|k: int| from <= k < i && k != p ==> v@[k] != chars::DOT,
            dot_at is None ==> forall|k: int| from <= k < i ==> v@[k] != chars::DOT,
            digit <==> exists|k: int| 0 <= k < i - from && chars::is_digit(#[trigger] body[k]),
        decreases len - i,
    {
        let b = v[i];
        proof {
            assert(body[i - from] == b);
        }
        if chars::DIGIT_0 <= b && b <= chars::DIGIT_9 {
            digit = true;
        } else if b == chars::DOT {
            if dot_at.is_some() {
                proof {
                    let p = dot_at.unwrap();
                    assert(body[p - from] == chars::DOT);
                    assert(body[i - from] == chars::DOT);
                    let k1 = p - from;
                    let k2 = i - from;
                    assert(0 <= k1 < k2 < body.len() && body[k1] == chars::DOT && body[k2] == chars::DOT);
                    assert(!decimal_syntax_ok(v@));
                }
                return false;
            }
            dot_at = Some(i);
        } else {
            proof {
                assert(!(chars::is_digit(body[i - from]) || body[i - from] == chars::DOT));
                assert(!decimal_syntax_ok(v@));
            }
            return false;
        }
        i += 1;
    }
    proof {
        assert forall|k1: int, k2: int|
            #![trigger body[k1], body[k2]]
            0 <= k1 < k2 < body.len() && body[k1] == chars::DOT implies body[k2] != chars::DOT by {
            assert(v@[k1 + from] == chars::DOT);
            assert(body[k2] == v@[k2 + from]);
        }
    }
    digit
}

/// The value of the digits before the dot in the decimal text `v`, when it
/// fits a `u64`.
fn decimal_int_value(v: &[u8]) -> (r: Option<u64>)
    ensures
        r == if digits_value(decimal_int_digits(v@)) <= u64::MAX {
            Some(digits_value(decimal_int_digits(v@)) as u64)
        } else {
            None::<u64>
        },
{
    let ghost body = decimal_body(v@);
    let len = v.len();
    let from: usize = if len > 0 && v[0] == chars::MINUS { 1 } else { 0 };
    proof {
        if from == 1 {
            assert(body =~= v@.subrange(1, len as int));
        } else {
            assert(body =~= v@.subrange(0, len as int));
        }
        lemma_leading_digits_bounds(body, 0);
    }
    let ghost n = leading_digits(body, 0);
    let mut i = from;
    let mut acc: u64 = 0;
    let mut overflow = false;
    while i < len && chars::DIGIT_0 <= v[i] && v[i] <= chars::DIGIT_9
        invariant
            from <= i <= len,
            len == v@.len(),
            body == v@.subrange(from as int, len as int),
            body == decimal_body(v@),
            n == leading_digits(body, 0),
            0 <= n <= body.len(),
            forall|k: int| 0 <= k < n ==> chars::is_digit(#[trigger] body[k]),
            n < body.len() ==> !chars::is_digit(body[n]),
            i - from <= n,
            !overflow ==> acc == digits_value(body.take(i - from)),
            overflow ==> digits_value(body.take(i - from)) > u64::MAX,
        decreases len - i,
    {
        proof {
            lemma_digits_value_push(body, i - from);
            assert(body[i - from] == v@[i as int]);
        }
        if !overflow {
            match acc.checked_mul(10) {
                Some(m) => match m.checked_add((v[i] - chars::DIGIT_0) as u64) {
                    Some(a) => {
                        acc = a;
                    },
                    None => {
                        overflow = true;
                    },
                },
                None => {
                    overflow = true;
                },
            }
        }
        i += 1;
    }
    proof {
        if i < len {
            assert(body[i - from] == v@[i as int]);
        }
        assert(i - from == n);
    }
    if overflow {
        None
    } else {
        Some(acc)
    }
}

impl Number {
    /// The text of the number.
    pub fn as_str(&self) -> (r: &str)
        ensures
            r.spec_bytes() == self.text(),
    {
        match self {
            Number::F64(s) => s.as_str(),
            Number::U64(s) => s.as_str(),
            Number::I64(s) => s.as_str(),
        }
    }

    /// Reads the number as a `u64`: integer text through `str::parse`, 0
    /// when that fails; decimal text cut toward zero while it stays below
    /// 2^52, else its leading digits. See `spec_u64`.
    pub fn to_u64(&self) -> (r: u64)
        ensures
            r == self.spec_u64(),
    {
        let text = self.as_str().as_bytes();
        match self {
            Number::F64(_) => {
                if !decimal_syntax(text) || text[0] == chars::MINUS {
                    return 0;
                }
                match decimal_int_value(text) {
                    Some(u) => {
                        if u <= MAX_UINT_53 {
                            u
                        } else {
                            parse_uint_lossy(text)
                        }
                    },
                    None => parse_uint_lossy(text),
                }
            },
            _ => match parse_u64_text(text) {
                Some(u) => u,
                None => 0,
            },
        }
    }

    /// Reads the number as an `i64`: integer text through `str::parse`, 0
    /// when that fails; decimal text cut toward zero while it stays within
    /// 2^51 of zero, else its leading digits. See `spec_i64`.
    pub fn to_i64(&self) -> (r: i64)
        ensures
            r == self.spec_i64(),
    {
        let text = self.as_str().as_bytes();
        match self {
            Number::F64(_) => {
                if !decimal_syntax(text) {
                    return 0;
                }
                let neg = text[0] == chars::MINUS;
                match decimal_int_value(text) {
                    Some(u) => {
                        if neg && u <= 2251799813685248u64 {
                            (0i64 - u as i64) as i64
                        } else if !neg && u <= MAX_INT_53 as u64 {
                            u as i64
                        } else {
                            parse_int_lossy(text)
                        }
                    },
                    None => parse_int_lossy(text),
                }
            },
            _ => match parse_i64_text(text) {
                Some(i) => i,
                None => 0,
            },
        }
    }
}

} // verus!
