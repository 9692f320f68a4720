//! Decoding of JSON string escapes.

use crate::chars;
use crate::text::{spec_utf8_lossy, utf8_lossy};
use vstd::prelude::*;

verus! {

/// A hexadecimal digit, upper or lower case.
pub open spec fn is_hex(b: u8) -> bool {
    ||| chars::DIGIT_0 <= b <= chars::DIGIT_9
    ||| chars::LOWER_A <= b <= chars::LOWER_F
    ||| chars::UPPER_A <= b <= chars::UPPER_F
}

/// The value of a hexadecimal digit.
pub open spec fn hex_value(b: u8) -> u32 {
    if chars::DIGIT_0 <= b <= chars::DIGIT_9 {
        (b - chars::DIGIT_0) as u32
    } else if chars::LOWER_A <= b <= chars::LOWER_F {
        (b + 10 - chars::LOWER_A) as u32
    } else {
        (b + 10 - chars::UPPER_A) as u32
    }
}

/// Four hexadecimal digits start at `k`.
pub open spec fn hex4_ok(v: Seq<u8>, k: int) -> bool {
    &&& 0 <= k
    &&& k + 4 <= v.len()
    &&& is_hex(v[k])
    &&& is_hex(v[k + 1])
    &&& is_hex(v[k + 2])
    &&& is_hex(v[k + 3])
}

/// The number written by the four hexadecimal digits at `k`.
pub open spec fn hex4_value(v: Seq<u8>, k: int) -> u32 {
    (hex_value(v[k]) * 4096 + hex_value(v[k + 1]) * 256 + hex_value(v[k + 2]) * 16 + hex_value(
        v[k + 3],
    )) as u32
}

/// The bytes that `write_codepoint` appends for a code point up to 0x10FFFF:
/// the UTF-8 bit layout, which it also applies to surrogates.
#[verifier::opaque]
pub open spec fn codepoint_bytes(c: u32) -> Seq<u8> {
    if c <= 0x7F {
        seq![c as u8]
    } else if c <= 0x7FF {
        seq![(((c >> 6u32) as u8) & 0x1F) | 0xC0, ((c as u8) & 0x3F) | 0x80]
    } else if c <= 0xFFFF {
        seq![
            (((c >> 12u32) as u8) & 0x0F) | 0xE0,
            (((c >> 6u32) as u8) & 0x3F) | 0x80,
            ((c as u8) & 0x3F) | 0x80,
        ]
    } else {
        seq![
            (((c >> 18u32) as u8) & 0x07) | 0xF0,
            (((c >> 12u32) as u8) & 0x3F) | 0x80,
            (((c >> 6u32) as u8) & 0x3F) | 0x80,
            ((c as u8) & 0x3F) | 0x80,
        ]
    }
}

/// The code point that a high surrogate `hi` and the escape after it give.
pub open spec fn pair_codepoint(hi: u32, lo: u32) -> u32 {
    if 0xDC00 <= lo <= 0xDFFF {
        ((hi - 0xD800) * 1024 + (lo - 0xDC00) + 0x10000) as u32
    } else {
        ((hi - 0xD800) * 1024) as u32
    }
}

/// The decoded bytes of `v[i..]`, where `v` is the inside of a JSON string.
///
/// A backslash escape is decoded; `\u` with four hex digits becomes the UTF-8
/// bytes of its code point (a high surrogate takes the escape that follows it
/// as its low half). A `\u` that has fewer than four bytes after it ends the
/// text with its raw bytes; a lone low surrogate stays as written; an unknown
/// escape keeps its backslash. Where the hex digits are not hex (a case that
/// `unescape` rules out), the escape is kept as written.
pub open spec fn spec_unescape(v: Seq<u8>, i: int) -> Seq<u8>
    decreases v.len() + 16 - i,
{
    if i < 0 || i >= v.len() {
        seq![]
    } else if v[i] != chars::BACKSLASH {
        seq![v[i]] + spec_unescape(v, i + 1)
    } else {
        let k = i + 1;
        if k >= v.len() {
            seq![]
        } else {
            let e = v[k];
            if e == chars::QUOTE || e == chars::BACKSLASH || e == chars::SLASH {
                seq![e] + spec_unescape(v, k + 1)
            } else if e == chars::LOWER_B {
                seq![0x08u8] + spec_unescape(v, k + 1)
            } else if e == chars::LOWER_F {
                seq![0x0Cu8] + spec_unescape(v, k + 1)
            } else if e == chars::LOWER_N {
                seq![chars::LF] + spec_unescape(v, k + 1)
            } else if e == chars::LOWER_R {
                seq![chars::CR] + spec_unescape(v, k + 1)
            } else if e == chars::LOWER_T {
                seq![chars::TAB] + spec_unescape(v, k + 1)
            } else if e == chars::LOWER_U {
                let k5 = k + 5;
                if k5 > v.len() {
                    v.subrange(i, v.len() as int)
                } else if !hex4_ok(v, k + 1) {
                    v.subrange(i, k5) + spec_unescape(v, k5)
                } else {
                    let c = hex4_value(v, k + 1);
                    if c <= 0xD7FF || 0xE000 <= c {
                        codepoint_bytes(c) + spec_unescape(v, k5)
                    } else if c <= 0xDBFF {
                        if k5 + 5 < v.len() && v[k5] == chars::BACKSLASH && hex4_ok(v, k5 + 2) {
                            codepoint_bytes(pair_codepoint(c, hex4_value(v, k5 + 2)))
                                + spec_unescape(v, k5 + 6)
                        } else if k5 + 5 < v.len() && v[k5] == chars::BACKSLASH {
                            codepoint_bytes(c) + spec_unescape(v, k5)
                        } else {
                            codepoint_bytes(c) + spec_unescape(v, k5 + 2)
                        }
                    } else {
                        v.subrange(i, k5) + spec_unescape(v, k5)
                    }
                }
            } else {
                seq![chars::BACKSLASH, e] + spec_unescape(v, k + 1)
            }
        }
    }
}

/// Text without a backslash from `j` up to `i` decodes to itself, and the
/// rest after it as from `i`.
proof fn lemma_unescape_prefix(v: Seq<u8>, j: int, i: int)
    requires
        0 <= j <= i <= v.len(),
        forall|k: int| j <= k < i ==> v[k] != chars::BACKSLASH,
    ensures
        spec_unescape(v, j) == v.subrange(j, i) + spec_unescape(v, i),
    decreases i - j,
{
    if j < i {
        lemma_unescape_prefix(v, j + 1, i);
        assert(seq![v[j]] + (v.subrange(j + 1, i) + spec_unescape(v, i)) =~= v.subrange(j, i) + spec_unescape(v, i));
    } else {
        assert(v.subrange(j, i) + spec_unescape(v, i) =~= spec_unescape(v, i));
    }
}

/// The law that each JSON short escape decodes to its one byte, with the
/// plain text before it kept and the text after it decoded on:
/// `\b` gives 0x08, `\f` 0x0C, `\n` 0x0A, `\r` 0x0D, `\t` 0x09, and
/// `\"`, `\\`, `\/` the escaped character.
pub proof fn lemma_short_escapes_decode(v: Seq<u8>, i: int)
    requires
        0 <= i,
        i + 1 < v.len(),
        forall|k: int| 0 <= k < i ==> v[k] != chars::BACKSLASH,
        v[i] == chars::BACKSLASH,
    ensures
        ({
            let e = v[i + 1];
            let pre = v.subrange(0, i);
            let rest = spec_unescape(v, i + 2);
            &&& e == chars::LOWER_B ==> spec_unescape(v, 0) == pre + seq![0x08u8] + rest
            &&& e == chars::LOWER_F ==> spec_unescape(v, 0) == pre + seq![0x0Cu8] + rest
            &&& e == chars::LOWER_N ==> spec_unescape(v, 0) == pre + seq![0x0Au8] + rest
            &&& e == chars::LOWER_R ==> spec_unescape(v, 0) == pre + seq![0x0Du8] + rest
            &&& e == chars::LOWER_T ==> spec_unescape(v, 0) == pre + seq![0x09u8] + rest
            &&& e == chars::QUOTE ==> spec_unescape(v, 0) == pre + seq![0x22u8] + rest
            &&& e == chars::BACKSLASH ==> spec_unescape(v, 0) == pre + seq![0x5Cu8] + rest
            &&& e == chars::SLASH ==> spec_unescape(v, 0) == pre + seq![0x2Fu8] + rest
        }),
{
    lemma_unescape_prefix(v, 0, i);
    let e = v[i + 1];
    let pre = v.subrange(0, i);
    let rest = spec_unescape(v, i + 2);
    let x = spec_unescape(v, i);
    assert(pre + x == spec_unescape(v, 0));
    if e == chars::QUOTE || e == chars::BACKSLASH || e == chars::SLASH || e == chars::LOWER_B || e
        == chars::LOWER_F || e == chars::LOWER_N || e == chars::LOWER_R || e == chars::LOWER_T {
        let c = if e == chars::LOWER_B {
            0x08u8
        } else if e == chars::LOWER_F {
            0x0Cu8
        } else if e == chars::LOWER_N {
            0x0Au8
        } else if e == chars::LOWER_R {
            0x0Du8
        } else if e == chars::LOWER_T {
            0x09u8
        } else {
            e
        };
        assert(x == seq![c] + rest);
        assert(pre + (seq![c] + rest) =~= pre + seq![c] + rest);
    }
}

/// The law that text without a backslash decodes to itself.
pub proof fn lemma_unescape_plain(v: Seq<u8>, i: int)
    requires
        0 <= i,
        forall|k: int| 0 <= k < v.len() ==> v[k] != chars::BACKSLASH,
    ensures
        spec_unescape(v, i) == (if i < v.len() { v.subrange(i, v.len() as int) } else { Seq::empty() }),
    decreases v.len() - i,
{
    if i < v.len() {
        lemma_unescape_plain(v, i + 1);
        assert(seq![v[i]] + (if i + 1 < v.len() { v.subrange(i + 1, v.len() as int) } else { Seq::empty() })
            =~= v.subrange(i, v.len() as int));
    }
}

/// Whether every `\u` escape in `v[i..]` that has four bytes after it
/// carries hexadecimal digits, and so does the escape that a high surrogate
/// takes as its low half.
pub open spec fn escapes_are_hex(v: Seq<u8>, i: int) -> bool
    decreases v.len() + 16 - i,
{
    if i < 0 || i >= v.len() {
        true
    } else if v[i] != chars::BACKSLASH {
        escapes_are_hex(v, i + 1)
    } else {
        let k = i + 1;
        if k >= v.len() {
            true
        } else if v[k] != chars::LOWER_U {
            escapes_are_hex(v, k + 1)
        } else {
            let k5 = k + 5;
            if k5 > v.len() {
                true
            } else if !hex4_ok(v, k + 1) {
                false
            } else {
                let c = hex4_value(v, k + 1);
                if 0xD800 <= c <= 0xDBFF {
                    if k5 + 5 < v.len() && v[k5] == chars::BACKSLASH {
                        hex4_ok(v, k5 + 2) && escapes_are_hex(v, k5 + 6)
                    } else {
                        escapes_are_hex(v, k5 + 2)
                    }
                } else {
                    escapes_are_hex(v, k5)
                }
            }
        }
    }
}

fn u8_to_u32(b: u8) -> (r: u32)
    requires
        is_hex(b),
    ensures
        r == hex_value(b),
        r < 16,
{
    let r = if chars::DIGIT_0 <= b && b <= chars::DIGIT_9 {
        b - chars::DIGIT_0
    } else if chars::LOWER_A <= b && b <= chars::LOWER_F {
        b + 10 - chars::LOWER_A
    } else {
        b + 10 - chars::UPPER_A
    };
    r as u32
}

fn is_hex_byte(b: u8) -> (r: bool)
    ensures
        r == is_hex(b),
{
    (chars::DIGIT_0 <= b && b <= chars::DIGIT_9) || (chars::LOWER_A <= b && b <= chars::LOWER_F)
        || (chars::UPPER_A <= b && b <= chars::UPPER_F)
}

fn hex4_at(v: &[u8], k: usize) -> (r: bool)
    ensures
        r == hex4_ok(v@, k as int),
{
    k <= v.len() && v.len() - k >= 4 && is_hex_byte(v[k]) && is_hex_byte(v[k + 1])
        && is_hex_byte(v[k + 2]) && is_hex_byte(v[k + 3])
}

fn u8s_to_u32(v: &[u8]) -> (r: u32)
    requires
        hex4_ok(v@, 0),
    ensures
        r == hex4_value(v@, 0),
        r <= 0xFFFF,
{
    let a = u8_to_u32(v[0]);
    let b = u8_to_u32(v[1]);
    let c = u8_to_u32(v[2]);
    let d = u8_to_u32(v[3]);
    assert(a << 12u32 | b << 8u32 | c << 4u32 | d == a * 4096 + b * 256 + c * 16 + d) by (bit_vector)
        requires
            a < 16 && b < 16 && c < 16 && d < 16,
    ;
    a << 12 | b << 8 | c << 4 | d
}

/// Appends the bytes of `codepoint` in the UTF-8 bit layout; code points
/// above 0x10FFFF are refused and nothing is written.
fn write_codepoint(codepoint: u32, buffer: &mut Vec<u8>) -> (ok: bool)
    ensures
        ok == (codepoint <= 0x10FFFF),
        ok ==> final(buffer)@ == old(buffer)@ + codepoint_bytes(codepoint),
        !ok ==> final(buffer)@ == old(buffer)@,
{
    reveal(codepoint_bytes);
    if codepoint <= 0x007F {
        buffer.push(codepoint as u8);
    } else if codepoint <= 0x07FF {
        buffer.push((((codepoint >> 6) as u8) & 0x1F) | 0xC0);
        buffer.push(((codepoint as u8) & 0x3F) | 0x80);
    } else if codepoint <= 0xFFFF {
        buffer.push((((codepoint >> 12) as u8) & 0x0F) | 0xE0);
        buffer.push((((codepoint >> 6) as u8) & 0x3F) | 0x80);
        buffer.push(((codepoint as u8) & 0x3F) | 0x80);
    } else if codepoint <= 0x10FFFF {
        buffer.push((((codepoint >> 18) as u8) & 0x07) | 0xF0);
        buffer.push((((codepoint >> 12) as u8) & 0x3F) | 0x80);
        buffer.push((((codepoint >> 6) as u8) & 0x3F) | 0x80);
        buffer.push(((codepoint as u8) & 0x3F) | 0x80);
    } else {
        return false;
    }
    true
}

/// The law that `write_codepoint` writes the standard UTF-8 encoding of
/// every Unicode scalar value.
pub proof fn lemma_codepoint_bytes_utf8(c: u32)
    requires
        vstd::utf8::is_scalar(c),
    ensures
        codepoint_bytes(c) == vstd::utf8::encode_scalar(c),
{
    reveal(codepoint_bytes);
    assert(c <= 0x7F ==> (c as u8) == ((c & 0x7F) as u8)) by (bit_vector);
    assert(0x80 <= c <= 0x7FF ==> (((c >> 6u32) as u8) & 0x1F) | 0xC0 == 0xC0 | ((c >> 6u32) & 0x1F) as u8) by (bit_vector);
    assert(((c as u8) & 0x3F) | 0x80 == 0x80 | (c & 0x3F) as u8) by (bit_vector);
    assert((((c >> 12u32) as u8) & 0x0F) | 0xE0 == 0xE0 | ((c >> 12u32) & 0x0F) as u8) by (bit_vector);
    assert((((c >> 6u32) as u8) & 0x3F) | 0x80 == 0x80 | ((c >> 6u32) & 0x3F) as u8) by (bit_vector);
    assert((((c >> 18u32) as u8) & 0x07) | 0xF0 == 0xF0 | ((c >> 18u32) & 0x7) as u8) by (bit_vector);
    assert((((c >> 12u32) as u8) & 0x3F) | 0x80 == 0x80 | ((c >> 12u32) & 0x3F) as u8) by (bit_vector);
}

/// Decodes one `\u` escape whose backslash stands at `i`; returns where the
/// decoding goes on.
#[verifier::spinoff_prover]
#[verifier::rlimit(40)]
fn unescape_unicode(v: &[u8], i: usize, s: &mut Vec<u8>) -> (next: usize)
    requires
        i + 1 < v@.len(),
        v@[i as int] == chars::BACKSLASH,
        v@[i + 1] == chars::LOWER_U,
    ensures
        i < next <= v@.len() + 2,
        final(s)@ + spec_unescape(v@, next as int) == old(s)@ + spec_unescape(v@, i as int),
{
    let len = v.len();
    let k = i + 1;
    let ghost old_s = s@;
    if len - k < 5 {
        push_range(s, v, i, len);
        proof {
            assert(s@ + spec_unescape(v@, len as int) =~= old_s + spec_unescape(v@, i as int));
        }
        return len;
    }
    let k5 = k + 5;
    if !hex4_at(v, k + 1) {
        push_range(s, v, i, k5);
        proof {
            assert(s@ + spec_unescape(v@, k5 as int) =~= old_s + spec_unescape(v@, i as int));
        }
        return k5;
    }
    let c = u8s_to_u32(&v[k + 1..k5]);
    proof {
        assert(v@.subrange(k + 1, k5 as int)[0] == v@[k + 1]);
        assert(v@.subrange(k + 1, k5 as int)[1] == v@[k + 2]);
        assert(v@.subrange(k + 1, k5 as int)[2] == v@[k + 3]);
        assert(v@.subrange(k + 1, k5 as int)[3] == v@[k + 4]);
    }
    let ghost c_spec = hex4_value(v@, k + 1);
    assert(c == c_spec);
    if c <= 0xD7FF || 0xE000 <= c {
        assert(spec_unescape(v@, i as int) == codepoint_bytes(c) + spec_unescape(v@, k5 as int));
        write_codepoint(c, s);
        proof {
            assert(s@ + spec_unescape(v@, k5 as int) =~= old_s + spec_unescape(v@, i as int));
        }
        k5
    } else if c <= 0xDBFF {
        if len - k5 > 5 && v[k5] == chars::BACKSLASH && hex4_at(v, k5 + 2) {
            let lo = u8s_to_u32(&v[k5 + 2..k5 + 6]);
            proof {
                assert(v@.subrange(k5 + 2, k5 + 6)[0] == v@[k5 + 2]);
                assert(v@.subrange(k5 + 2, k5 + 6)[1] == v@[k5 + 3]);
                assert(v@.subrange(k5 + 2, k5 + 6)[2] == v@[k5 + 4]);
                assert(v@.subrange(k5 + 2, k5 + 6)[3] == v@[k5 + 5]);
            }
            let hi10 = c - 0xD800;
            let cp = if 0xDC00 <= lo && lo <= 0xDFFF {
                let lo10 = lo - 0xDC00;
                assert((hi10 << 10u32) | lo10 == hi10 * 1024 + lo10) by (bit_vector)
                    requires
                        hi10 <= 0x3FF && lo10 <= 0x3FF,
                ;
                ((hi10 << 10) | lo10) + 0x10000
            } else {
                assert(hi10 << 10u32 == hi10 * 1024) by (bit_vector)
                    requires
                        hi10 <= 0x3FF,
                ;
                hi10 << 10
            };
            assert(cp == pair_codepoint(c, lo));
            assert(spec_unescape(v@, i as int) == codepoint_bytes(pair_codepoint(c, lo))
                + spec_unescape(v@, k5 + 6));
            write_codepoint(cp, s);
            proof {
                assert(s@ + spec_unescape(v@, k5 + 6) =~= old_s + spec_unescape(v@, i as int));
            }
            k5 + 6
        } else if len - k5 > 5 && v[k5] == chars::BACKSLASH {
            assert(spec_unescape(v@, i as int) == codepoint_bytes(c) + spec_unescape(v@, k5 as int));
            write_codepoint(c, s);
            proof {
                assert(s@ + spec_unescape(v@, k5 as int) =~= old_s + spec_unescape(v@, i as int));
            }
            k5
        } else {
            assert(spec_unescape(v@, i as int) == codepoint_bytes(c) + spec_unescape(v@, k5 + 2));
            write_codepoint(c, s);
            let next = if len - k5 >= 2 { k5 + 2 } else { len };
            proof {
                assert(spec_unescape(v@, next as int) == spec_unescape(v@, k5 + 2));
                assert(s@ + spec_unescape(v@, next as int) =~= old_s + spec_unescape(v@, i as int));
            }
            next
        }
    } else {
        assert(spec_unescape(v@, i as int) == v@.subrange(i as int, k5 as int) + spec_unescape(v@, k5 as int));
        push_range(s, v, i, k5);
        proof {
            assert(s@ + spec_unescape(v@, k5 as int) =~= old_s + spec_unescape(v@, i as int));
        }
        k5
    }
}

/// Decodes the escape whose backslash stands at `i`; returns where the
/// decoding goes on.
fn unescape_escape(v: &[u8], i: usize, s: &mut Vec<u8>) -> (next: usize)
    requires
        i < v@.len(),
        v@[i as int] == chars::BACKSLASH,
    ensures
        i < next <= v@.len() + 2,
        final(s)@ + spec_unescape(v@, next as int) == old(s)@ + spec_unescape(v@, i as int),
{
    let len = v.len();
    let k = i + 1;
    if k >= len {
        return len;
    }
    let e = v[k];
    if e == chars::LOWER_U {
        return unescape_unicode(v, i, s);
    }
    let ghost old_s = s@;
    if e == chars::QUOTE || e == chars::BACKSLASH || e == chars::SLASH {
        s.push(e);
    } else if e == chars::LOWER_B {
        s.push(0x08);
    } else if e == chars::LOWER_F {
        s.push(0x0C);
    } else if e == chars::LOWER_N {
        s.push(chars::LF);
    } else if e == chars::LOWER_R {
        s.push(chars::CR);
    } else if e == chars::LOWER_T {
        s.push(chars::TAB);
    } else {
        s.push(chars::BACKSLASH);
        s.push(e);
    }
    proof {
        assert(s@ + spec_unescape(v@, k + 1) =~= old_s + spec_unescape(v@, i as int));
    }
    k + 1
}

/// Decodes the escapes of a JSON string's inside into bytes; see
/// `spec_unescape` for the rules.
pub fn unescape_bytes(v: &[u8]) -> (r: Vec<u8>)
    ensures
        r@ == spec_unescape(v@, 0),
{
    let mut s: Vec<u8> = Vec::new();
    let mut i: usize = 0;
    let len = v.len();
    while i < len
        invariant
            len == v@.len(),
            i <= len + 2,
            s@ + spec_unescape(v@, i as int) == spec_unescape(v@, 0),
        decreases len + 2 - i,
    {
        if v[i] != chars::BACKSLASH {
            let ghost old_s = s@;
            s.push(v[i]);
            proof {
                assert(s@ + spec_unescape(v@, i + 1) =~= old_s + spec_unescape(v@, i as int));
            }
            i += 1;
        } else {
            i = unescape_escape(v, i, &mut s);
        }
    }
    proof {
        assert(s@ =~= s@ + spec_unescape(v@, i as int));
    }
    s
}

/// Appends `v[from..to]` to `s`.
fn push_range(s: &mut Vec<u8>, v: &[u8], from: usize, to: usize)
    requires
        from <= to <= v@.len(),
    ensures
        final(s)@ == old(s)@ + v@.subrange(from as int, to as int),
{
    let mut t = from;
    while t < to
        invariant
            from <= t <= to <= v@.len(),
            s@ == old(s)@ + v@.subrange(from as int, t as int),
        decreases to - t,
    {
        s.push(v[t]);
        t += 1;
        proof {
            assert(s@ =~= old(s)@ + v@.subrange(from as int, t as int));
        }
    }
}

/// Decodes the escapes of a JSON string's inside (the bytes between the
/// quotes) and returns the text.
///
/// `\u` escapes must carry hexadecimal digits: the decoding of any other
/// escape is defined for every input.
pub fn unescape(v: &[u8]) -> (s: String)
    requires
        escapes_are_hex(v@, 0),
    ensures
        s@ == spec_utf8_lossy(spec_unescape(v@, 0)),
{
    let bytes = unescape_bytes(v);
    utf8_lossy(bytes.as_slice())
}

} // verus!
