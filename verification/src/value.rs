//! Values handed back to the caller.

use crate::chars;
use crate::element::ElementModel;
use crate::number::{ascii_string, Number};
use vstd::string::StringExecFns;
use crate::parser::{bytes_to_map, bytes_to_vec, entries_of, spec_bytes_to_map, spec_bytes_to_vec, values_of, EntryModel};
use crate::{get, spec_get, value_result, Result};
use vstd::prelude::*;
use vstd::string::StringSliceAdditionalSpecFns;
use vstd::utf8::{decode_utf8, encode_utf8};

verus! {

/// A JSON value: strings are decoded, objects and arrays are kept as their
/// JSON text, numbers as their text.
#[derive(Debug, PartialEq, Eq, Clone)]
pub enum Value {
    String(String),
    Number(Number),
    Usize(usize),
    Object(String),
    Array(String),
    Boolean(bool),
    Null,
}

impl Value {
    /// Whether the value is a JSON string.
    pub fn is_string(&self) -> (r: bool)
        ensures
            r == (self is String),
    {
        matches!(self, Value::String(_))
    }

    /// Whether the value is a JSON number.
    pub fn is_number(&self) -> (r: bool)
        ensures
            r == (self is Number),
    {
        matches!(self, Value::Number(_))
    }

    /// Whether the value is a JSON array.
    pub fn is_array(&self) -> (r: bool)
        ensures
            r == (self is Array),
    {
        matches!(self, Value::Array(_))
    }

    /// Whether the value is a JSON object.
    pub fn is_object(&self) -> (r: bool)
        ensures
            r == (self is Object),
    {
        matches!(self, Value::Object(_))
    }

    /// Whether the value is a JSON boolean.
    pub fn is_bool(&self) -> (r: bool)
        ensures
            r == (self is Boolean),
    {
        matches!(self, Value::Boolean(_))
    }

    /// Whether the value is JSON null.
    pub fn is_null(&self) -> (r: bool)
        ensures
            r == (self is Null),
    {
        matches!(self, Value::Null)
    }

    /// The text of a string value.
    pub fn as_str(&self) -> (r: Option<&str>)
        ensures
            self matches Value::String(s) ==> r matches Some(t) && t@ == s@,
            !(self is String) ==> r is None,
    {
        match self {
            Value::String(s) => Some(s.as_str()),
            _ => None,
        }
    }

    /// A number or a count read as a `u64`; see `Number::to_u64`.
    pub fn as_u64(&self) -> (r: Option<u64>)
        ensures
            self matches Value::Number(n) ==> r == Some(n.spec_u64()),
            self matches Value::Usize(u) ==> r == Some(*u as u64),
            !(self is Number || self is Usize) ==> r is None,
    {
        match self {
            Value::Number(number) => Some(number.to_u64()),
            Value::Usize(n) => Some(*n as u64),
            _ => None,
        }
    }

    /// A number or a count read as an `i64`; see `Number::to_i64`.
    pub fn as_i64(&self) -> (r: Option<i64>)
        ensures
            self matches Value::Number(n) ==> r == Some(n.spec_i64()),
            self matches Value::Usize(u) ==> r == Some(*u as i64),
            !(self is Number || self is Usize) ==> r is None,
    {
        match self {
            Value::Number(number) => Some(number.to_i64()),
            Value::Usize(n) => Some(*n as i64),
            _ => None,
        }
    }

    /// The truth value of a boolean.
    pub fn as_bool(&self) -> (r: Option<bool>)
        ensures
            self matches Value::Boolean(b) ==> r == Some(*b),
            !(self is Boolean) ==> r is None,
    {
        match *self {
            Value::Boolean(b) => Some(b),
            _ => None,
        }
    }
}

impl Value {
    /// Gets the value at `path` inside an array or object value; any other
    /// value holds nothing. See `spec_get`.
    pub fn get(&self, path: &str) -> (r: Result<Option<Value>>)
        ensures
            (self is Array || self is Object) ==> value_result(
                r,
                spec_get(
                    encode_utf8(
                        match self {
                            Value::Array(s) => s@,
                            Value::Object(s) => s@,
                            _ => Seq::empty(),
                        },
                    ),
                    path.spec_bytes(),
                ),
            ),
            !(self is Array || self is Object) ==> r matches Ok(None),
    {
        match self {
            Value::Array(s) => get(s.as_str(), path),
            Value::Object(s) => get(s.as_str(), path),
            _ => Ok(None),
        }
    }

    /// The values of an array value, read one after another; nothing for
    /// any other value, or when reading fails. See `spec_bytes_to_vec`.
    pub fn as_vec(&self) -> (r: Option<Vec<Value>>)
        requires
            self matches Value::Array(s) ==> s@.len() > 0,
        ensures
            self matches Value::Array(s) ==> match spec_bytes_to_vec(encode_utf8(s@)) {
                Ok(m) => r matches Some(v) && values_of(v@, m),
                Err(_) => r is None,
            },
            !(self is Array) ==> r is None,
    {
        match self {
            Value::Array(s) => {
                proof {
                    vstd::utf8::encode_utf8_first_scalar(s@);
                }
                match bytes_to_vec(s.as_str().as_bytes()) {
                    Ok(v) => Some(v),
                    Err(_) => None,
                }
            },
            _ => None,
        }
    }

    /// The members of an object value, as key and value pairs in the order
    /// they were first met (a key met again keeps its place and takes the
    /// later value); nothing for any other value, or when reading fails. See
    /// `spec_bytes_to_map`.
    pub fn as_object(&self) -> (r: Option<Vec<(String, Value)>>)
        requires
            self matches Value::Object(s) ==> s@.len() > 0,
        ensures
            self matches Value::Object(s) ==> match spec_bytes_to_map(encode_utf8(s@)) {
                Ok(m) => r matches Some(v) && entries_of(v@, m),
                Err(_) => r is None,
            },
            !(self is Object) ==> r is None,
    {
        match self {
            Value::Object(s) => {
                proof {
                    vstd::utf8::encode_utf8_first_scalar(s@);
                }
                match bytes_to_map(s.as_str().as_bytes()) {
                    Ok(v) => Some(v),
                    Err(_) => None,
                }
            },
            _ => None,
        }
    }
}

/// The law that the text of a count reads back as the count: its bytes
/// are decimal digits, most significant first, with no leading zero (but
/// for 0 itself), and their value is `n`.
pub proof fn lemma_decimal_text_reads_back(n: nat)
    ensures
        crate::number::all_digits(decimal_text(n)),
        crate::number::digits_value(decimal_text(n)) == n,
        decimal_text(n).len() >= 1,
        n > 0 ==> decimal_text(n)[0] != chars::DIGIT_0,
    decreases n,
{
    let t = decimal_text(n);
    if n < 10 {
        assert(t.drop_last() =~= Seq::<u8>::empty());
        assert(crate::number::digits_value(t.drop_last()) == 0);
    } else {
        let q = n / 10;
        let d = n % 10;
        lemma_decimal_text_reads_back(q);
        let u = decimal_text(q);
        assert(t == u.push((chars::DIGIT_0 + d) as u8));
        assert(t.drop_last() =~= u);
        assert(t.last() == (chars::DIGIT_0 + d) as u8);
        assert(n == q * 10 + d) by (nonlinear_arith)
            requires
                q == n / 10,
                d == n % 10,
        ;
        assert(q > 0);
        assert(t[0] == u[0]);
        assert forall|k: int| 0 <= k < t.len() implies chars::is_digit(#[trigger] t[k]) by {
            if k < u.len() {
                assert(t[k] == u[k]);
            }
        }
    }
}

/// The decimal digits of `n`, most significant first.
pub open spec fn decimal_text(n: nat) -> Seq<u8>
    decreases n,
{
    if n < 10 {
        seq![(chars::DIGIT_0 + n) as u8]
    } else {
        decimal_text(n / 10).push((chars::DIGIT_0 + n % 10) as u8)
    }
}

/// The text a value is shown as: a string as its text, a number as it was
/// written, a count in decimal, an object or array as its JSON text, a
/// boolean or null as its keyword.
pub open spec fn display_text(v: Value) -> Seq<char> {
    match v {
        Value::String(s) => s@,
        Value::Number(n) => decode_utf8(n.text()),
        Value::Usize(u) => decode_utf8(decimal_text(u as nat)),
        Value::Object(s) => s@,
        Value::Array(s) => s@,
        Value::Boolean(b) => if b { seq!['t', 'r', 'u', 'e'] } else { seq!['f', 'a', 'l', 's', 'e'] },
        Value::Null => seq!['n', 'u', 'l', 'l'],
    }
}

pub proof fn lemma_decimal_text_ascii(n: nat)
    ensures
        decimal_text(n).len() >= 1,
        forall|k: int| 0 <= k < decimal_text(n).len() ==> #[trigger] decimal_text(n)[k] < 128,
    decreases n,
{
    if n >= 10 {
        lemma_decimal_text_ascii(n / 10);
    }
}

/// The decimal digits of `n`.
pub(crate) fn decimal_bytes(n: usize) -> (r: Vec<u8>)
    ensures
        r@ == decimal_text(n as nat),
    decreases n,
{
    if n < 10 {
        let mut v: Vec<u8> = Vec::new();
        v.push(chars::DIGIT_0 + n as u8);
        proof {
            assert(v@ =~= decimal_text(n as nat));
        }
        v
    } else {
        let mut v = decimal_bytes(n / 10);
        v.push(chars::DIGIT_0 + (n % 10) as u8);
        v
    }
}

impl Value {
    /// The text the value is shown as; see `display_text`.
    pub fn to_display_string(&self) -> (r: String)
        ensures
            r@ == display_text(*self),
    {
        match self {
            Value::String(s) => String::from_str(s.as_str()),
            Value::Number(n) => {
                let t = n.as_str();
                proof {
                    vstd::utf8::encode_utf8_decode_utf8(t@);
                }
                String::from_str(t)
            },
            Value::Usize(u) => {
                let d = decimal_bytes(*u);
                proof {
                    lemma_decimal_text_ascii(*u as nat);
                    crate::number::lemma_ascii_text(d@);
                    vstd::utf8::encode_utf8_decode_utf8(decode_utf8(d@));
                }
                let r = ascii_string(d.as_slice());
                proof {
                    vstd::utf8::encode_utf8_decode_utf8(r@);
                }
                r
            },
            Value::Object(s) => String::from_str(s.as_str()),
            Value::Array(s) => String::from_str(s.as_str()),
            Value::Boolean(b) => {
                if *b {
                    let t = "true";
                    proof {
                        reveal_strlit("true");
                    }
                    String::from_str(t)
                } else {
                    let t = "false";
                    proof {
                        reveal_strlit("false");
                    }
                    String::from_str(t)
                }
            },
            Value::Null => {
                let t = "null";
                proof {
                    reveal_strlit("null");
                }
                String::from_str(t)
            },
        }
    }
}

} // verus!
