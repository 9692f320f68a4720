//! Exact ordering of decimal numbers written as text.

use crate::chars;
use crate::number::{
    all_digits, decimal_body, decimal_int_digits, decimal_negative, decimal_syntax,
    decimal_syntax_ok, digits_value, lemma_leading_digits_bounds, leading_digits, Number, MAX_UINT_53,
};
use vstd::prelude::*;

verus! {

/// Ten to the power `n`.
pub open spec fn pow10(n: nat) -> nat
    decreases n,
{
    if n == 0 {
        1
    } else {
        10 * pow10((n - 1) as nat)
    }
}

/// The digits after the dot of a decimal text.
pub open spec fn decimal_frac_digits(s: Seq<u8>) -> Seq<u8> {
    let body = decimal_body(s);
    let n = leading_digits(body, 0);
    if n < body.len() {
        body.subrange(n + 1, body.len() as int)
    } else {
        Seq::empty()
    }
}

/// The digits of a decimal text without its dot; none for text that is not
/// a decimal, which counts as zero.
pub open spec fn decimal_digits(s: Seq<u8>) -> Seq<u8> {
    if decimal_syntax_ok(s) {
        decimal_int_digits(s) + decimal_frac_digits(s)
    } else {
        Seq::empty()
    }
}

/// The number of digits after the dot (0 for text that is not a decimal).
pub open spec fn decimal_scale(s: Seq<u8>) -> nat {
    if decimal_syntax_ok(s) {
        decimal_frac_digits(s).len()
    } else {
        0
    }
}

/// The value of a decimal text times ten to its scale: its digits read as
/// an integer, with its sign.
pub open spec fn decimal_units(s: Seq<u8>) -> int {
    if decimal_syntax_ok(s) && decimal_negative(s) {
        -(digits_value(decimal_digits(s)) as int)
    } else {
        digits_value(decimal_digits(s)) as int
    }
}

/// The sign of an integer: -1, 0 or 1.
pub open spec fn sign_of(x: int) -> int {
    if x < 0 {
        -1
    } else if x == 0 {
        0
    } else {
        1
    }
}

/// The digits before and after the dot of a decimal text are all digits.
proof fn lemma_decimal_parts_digits(s: Seq<u8>)
    requires
        decimal_syntax_ok(s),
    ensures
        all_digits(decimal_int_digits(s)),
        all_digits(decimal_frac_digits(s)),
{
    let body = decimal_body(s);
    let n = leading_digits(body, 0);
    lemma_leading_digits_bounds(body, 0);
    let id = decimal_int_digits(s);
    assert forall|k: int| 0 <= k < id.len() implies chars::is_digit(#[trigger] id[k]) by {
        assert(id[k] == body[k]);
    }
    if n < body.len() {
        assert(body[n] == chars::DOT);
        let f = decimal_frac_digits(s);
        assert forall|k: int| 0 <= k < f.len() implies chars::is_digit(#[trigger] f[k]) by {
            assert(f[k] == body[n + 1 + k]);
            assert(chars::is_digit(body[n + 1 + k]) || body[n + 1 + k] == chars::DOT);
            if body[n + 1 + k] == chars::DOT {
                assert(body[n] == chars::DOT && body[n + 1 + k] == chars::DOT);
            }
        }
    }
}

/// The law that `to_u64` cuts a decimal toward zero: for a number written
/// as a decimal `d.f`, not negative and below 2^52, the result `r` is the
/// whole part, `r <= d.f < r + 1` (in units of the last decimal place).
pub proof fn lemma_to_u64_cuts_toward_zero(n: Number)
    requires
        n is F64,
        decimal_syntax_ok(n.text()),
        !decimal_negative(n.text()),
        decimal_units(n.text()) < (MAX_UINT_53 + 1) * pow10(decimal_scale(n.text())),
    ensures
        ({
            let s = n.text();
            let r = n.spec_u64() as int;
            let p = pow10(decimal_scale(s)) as int;
            &&& r * p <= decimal_units(s)
            &&& decimal_units(s) < (r + 1) * p
        }),
{
    let s = n.text();
    let i = decimal_int_digits(s);
    let f = decimal_frac_digits(s);
    lemma_decimal_parts_digits(s);
    lemma_digits_append(i, f);
    lemma_digits_below(f);
    lemma_pow10_positive(f.len());
    let p = pow10(f.len()) as int;
    let a = digits_value(i) as int;
    let b = digits_value(f) as int;
    assert(decimal_units(s) == a * p + b);
    assert(a <= MAX_UINT_53) by (nonlinear_arith)
        requires
            a * p + b < (MAX_UINT_53 + 1) * p,
            0 <= b,
            p >= 1,
            a >= 0,
    ;
    assert(n.spec_u64() == a);
    assert(a * p + b < (a + 1) * p) by (nonlinear_arith)
        requires
            b < p,
    ;
}

/// How the decimal `a` orders against `b` by value: -1 below, 0 equal, 1
/// above. Text that is not a decimal counts as zero.
pub open spec fn decimal_order_spec(a: Seq<u8>, b: Seq<u8>) -> int {
    sign_of(decimal_units(a) * pow10(decimal_scale(b)) - decimal_units(b) * pow10(decimal_scale(a)))
}

/// `n` zero digits.
pub open spec fn zeros(n: nat) -> Seq<u8> {
    Seq::new(n, |i: int| chars::DIGIT_0)
}

proof fn lemma_pow10_positive(n: nat)
    ensures
        pow10(n) >= 1,
    decreases n,
{
    if n > 0 {
        lemma_pow10_positive((n - 1) as nat);
    }
}

proof fn lemma_pow10_add(a: nat, b: nat)
    ensures
        pow10(a + b) == pow10(a) * pow10(b),
    decreases b,
{
    if b == 0 {
        assert(a + b == a);
        assert(pow10(b) == 1);
    } else {
        let b1 = (b - 1) as nat;
        lemma_pow10_add(a, b1);
        let x = pow10(a);
        let y = pow10(b1);
        assert(pow10(a + b1) == x * y);
        assert(((a + b) - 1) as nat == a + b1);
        assert(pow10(a + b) == 10 * pow10(a + b1));
        assert(pow10(b) == 10 * y);
        assert(10 * (x * y) == x * (10 * y)) by (nonlinear_arith);
    }
}

proof fn lemma_pow10_monotone(a: nat, b: nat)
    requires
        a <= b,
    ensures
        pow10(a) <= pow10(b),
    decreases b,
{
    if a < b {
        lemma_pow10_monotone(a, (b - 1) as nat);
    }
}

/// Digits joined: the value of `s + t` is that of `s` shifted by the
/// length of `t`, plus that of `t`.
proof fn lemma_digits_append(s: Seq<u8>, t: Seq<u8>)
    ensures
        digits_value(s + t) == digits_value(s) * pow10(t.len()) + digits_value(t),
    decreases t.len(),
{
    if t.len() == 0 {
        assert(s + t =~= s);
        assert(pow10(0) == 1);
        assert(digits_value(t) == 0);
        assert(digits_value(s) * 1 == digits_value(s));
    } else {
        let t2 = t.drop_last();
        lemma_digits_append(s, t2);
        assert((s + t).drop_last() =~= s + t2);
        assert((s + t).last() == t.last());
        let d = (t.last() - chars::DIGIT_0) as nat;
        let a = digits_value(s);
        let p = pow10(t2.len());
        let v2 = digits_value(t2);
        assert(digits_value(s + t2) == a * p + v2);
        assert(pow10(t.len()) == 10 * p);
        assert(digits_value(s + t) == digits_value(s + t2) * 10 + d);
        assert(digits_value(t) == v2 * 10 + d);
        assert((a * p + v2) * 10 + d == a * (10 * p) + (v2 * 10 + d)) by (nonlinear_arith);
    }
}

proof fn lemma_zeros_value(n: nat)
    ensures
        digits_value(zeros(n)) == 0,
    decreases n,
{
    if n > 0 {
        lemma_zeros_value((n - 1) as nat);
        assert(zeros(n).drop_last() =~= zeros((n - 1) as nat));
    }
}

/// Every run of digits is below ten to its length.
proof fn lemma_digits_below(s: Seq<u8>)
    requires
        all_digits(s),
    ensures
        digits_value(s) < pow10(s.len()),
    decreases s.len(),
{
    if s.len() > 0 {
        let s2 = s.drop_last();
        assert(all_digits(s2)) by {
            assert forall|k: int| 0 <= k < s2.len() implies chars::is_digit(#[trigger] s2[k]) by {
                assert(s2[k] == s[k]);
            }
        }
        lemma_digits_below(s2);
        assert(chars::is_digit(s[s.len() - 1]));
        let d = (s.last() - chars::DIGIT_0) as nat;
        assert(d <= 9);
        let v2 = digits_value(s2);
        let p = pow10(s2.len());
        assert(v2 + 1 <= p);
        assert(v2 * 10 + d < 10 * p) by (nonlinear_arith)
            requires
                v2 + 1 <= p,
                d <= 9,
        ;
    }
}

/// A run of digits that starts with a digit other than zero is at least
/// ten to its length less one.
proof fn lemma_digits_above(s: Seq<u8>)
    requires
        all_digits(s),
        s.len() >= 1,
        s[0] != chars::DIGIT_0,
    ensures
        digits_value(s) >= pow10((s.len() - 1) as nat),
{
    let h = s.subrange(0, 1);
    let t = s.subrange(1, s.len() as int);
    assert(h + t =~= s);
    lemma_digits_append(h, t);
    assert(h.drop_last() =~= Seq::<u8>::empty());
    assert(h.last() == s[0]);
    assert(digits_value(h.drop_last()) == 0);
    assert(digits_value(h) == (s[0] - chars::DIGIT_0) as nat);
    assert(chars::is_digit(s[0]));
    let p = pow10(t.len());
    assert(digits_value(h) >= 1);
    assert(digits_value(h) * p >= p) by (nonlinear_arith)
        requires
            digits_value(h) >= 1,
    ;
}

/// Two runs of digits of one length that agree before `p` and differ at
/// `p` order as their digits at `p` do.
proof fn lemma_digits_first_difference(x: Seq<u8>, y: Seq<u8>, p: int)
    requires
        all_digits(x),
        all_digits(y),
        x.len() == y.len(),
        0 <= p < x.len(),
        x.subrange(0, p) == y.subrange(0, p),
        x[p] < y[p],
    ensures
        digits_value(x) < digits_value(y),
{
    let r = x.len() - p - 1;
    let xh = x.subrange(0, p + 1);
    let xt = x.subrange(p + 1, x.len() as int);
    let yh = y.subrange(0, p + 1);
    let yt = y.subrange(p + 1, y.len() as int);
    assert(xh + xt =~= x);
    assert(yh + yt =~= y);
    lemma_digits_append(xh, xt);
    lemma_digits_append(yh, yt);
    assert(xh.drop_last() =~= x.subrange(0, p));
    assert(yh.drop_last() =~= y.subrange(0, p));
    assert(all_digits(xt)) by {
        assert forall|k: int| 0 <= k < xt.len() implies chars::is_digit(#[trigger] xt[k]) by {
            assert(xt[k] == x[p + 1 + k]);
        }
    }
    lemma_digits_below(xt);
    assert(chars::is_digit(x[p]) && chars::is_digit(y[p]));
    let a = digits_value(x.subrange(0, p));
    let dx = (x[p] - chars::DIGIT_0) as nat;
    let dy = (y[p] - chars::DIGIT_0) as nat;
    let pw = pow10(xt.len());
    assert(yt.len() == xt.len());
    assert(digits_value(x) == (a * 10 + dx) * pw + digits_value(xt));
    assert(digits_value(y) == (a * 10 + dy) * pw + digits_value(yt));
    assert(dx + 1 <= dy);
    assert((a * 10 + dx) * pw + digits_value(xt) < (a * 10 + dy) * pw + digits_value(yt))
        by (nonlinear_arith)
        requires
            digits_value(xt) < pw,
            dx + 1 <= dy,
            digits_value(yt) >= 0,
    ;
}

/// How the values of two runs of digits order: -1, 0 or 1.
pub fn digits_order(x: &[u8], y: &[u8]) -> (r: i8)
    requires
        all_digits(x@),
        all_digits(y@),
    ensures
        r as int == sign_of(digits_value(x@) - digits_value(y@)),
{
    let mut i: usize = 0;
    while i < x.len() && x[i] == chars::DIGIT_0
        invariant
            i <= x@.len(),
            forall|k: int| 0 <= k < i ==> x@[k] == chars::DIGIT_0,
        decreases x@.len() - i,
    {
        i += 1;
    }
    let mut j: usize = 0;
    while j < y.len() && y[j] == chars::DIGIT_0
        invariant
            j <= y@.len(),
            forall|k: int| 0 <= k < j ==> y@[k] == chars::DIGIT_0,
        decreases y@.len() - j,
    {
        j += 1;
    }
    let ghost xs = x@.subrange(i as int, x@.len() as int);
    let ghost ys = y@.subrange(j as int, y@.len() as int);
    proof {
        assert(x@.subrange(0, i as int) =~= zeros(i as nat));
        assert(y@.subrange(0, j as int) =~= zeros(j as nat));
        assert(x@.subrange(0, i as int) + xs =~= x@);
        assert(y@.subrange(0, j as int) + ys =~= y@);
        lemma_digits_append(x@.subrange(0, i as int), xs);
        lemma_digits_append(y@.subrange(0, j as int), ys);
        lemma_zeros_value(i as nat);
        lemma_zeros_value(j as nat);
        assert(all_digits(xs)) by {
            assert forall|k: int| 0 <= k < xs.len() implies chars::is_digit(#[trigger] xs[k]) by {
                assert(xs[k] == x@[i + k]);
            }
        }
        assert(all_digits(ys)) by {
            assert forall|k: int| 0 <= k < ys.len() implies chars::is_digit(#[trigger] ys[k]) by {
                assert(ys[k] == y@[j + k]);
            }
        }
        assert(digits_value(x@.subrange(0, i as int)) == 0);
        assert(digits_value(y@.subrange(0, j as int)) == 0);
        assert(0 * pow10(xs.len()) == 0);
        assert(0 * pow10(ys.len()) == 0);
        assert(digits_value(x@) == digits_value(xs));
        assert(digits_value(y@) == digits_value(ys));
        lemma_digits_below(xs);
        lemma_digits_below(ys);
        if xs.len() > 0 {
            lemma_digits_above(xs);
        }
        if ys.len() > 0 {
            lemma_digits_above(ys);
        }
    }
    let lx = x.len() - i;
    let ly = y.len() - j;
    if lx < ly {
        proof {
            lemma_pow10_monotone(lx as nat, (ly - 1) as nat);
        }
        return -1;
    }
    if lx > ly {
        proof {
            lemma_pow10_monotone(ly as nat, (lx - 1) as nat);
        }
        return 1;
    }
    let xr = &x[i..x.len()];
    let yr = &y[j..y.len()];
    let mut k: usize = 0;
    while k < lx
        invariant
            xr@ == xs,
            yr@ == ys,
            xs.len() == lx,
            ys.len() == ly,
            lx == ly,
            i + lx == x@.len(),
            j + ly == y@.len(),
            k <= lx,
            xs == x@.subrange(i as int, x@.len() as int),
            ys == y@.subrange(j as int, y@.len() as int),
            xs.subrange(0, k as int) == ys.subrange(0, k as int),
            all_digits(xs),
            all_digits(ys),
            digits_value(x@) == digits_value(xs),
            digits_value(y@) == digits_value(ys),
        decreases lx - k,
    {
        let a = xr[k];
        let b = yr[k];
        proof {
            assert(xs[k as int] == a);
            assert(ys[k as int] == b);
        }
        if a < b {
            proof {
                lemma_digits_first_difference(xs, ys, k as int);
            }
            return -1;
        }
        if a > b {
            proof {
                lemma_digits_first_difference(ys, xs, k as int);
            }
            return 1;
        }
        proof {
            assert(xs.subrange(0, k + 1) =~= xs.subrange(0, k as int).push(a));
            assert(ys.subrange(0, k + 1) =~= ys.subrange(0, k as int).push(b));
        }
        k += 1;
    }
    proof {
        assert(xs =~= xs.subrange(0, lx as int));
        assert(ys =~= ys.subrange(0, ly as int));
    }
    0
}

/// The digits of the decimal text `v` without its sign and dot, followed by
/// `pad` zeros; nothing but the zeros for text that is not a decimal.
fn padded_digits(v: &[u8], ok: bool, pad: usize) -> (r: Vec<u8>)
    requires
        ok == decimal_syntax_ok(v@),
    ensures
        r@ == decimal_digits(v@) + zeros(pad as nat),
        all_digits(r@),
{
    let mut out: Vec<u8> = Vec::new();
    let len = v.len();
    if ok {
        let ghost body = decimal_body(v@);
        let from: usize = if len > 0 && v[0] == chars::MINUS { 1 } else { 0 };
        proof {
            if from == 1 {
                assert(body =~= v@.subrange(1, len as int));
            } else {
                assert(body =~= v@.subrange(0, len as int));
            }
            lemma_leading_digits_bounds(body, 0);
        }
        let ghost n = leading_digits(body, 0);
        let mut i = from;
        while i < len
            invariant
                from <= i <= len,
                from <= 1,
                len == v@.len(),
                body == v@.subrange(from as int, len as int),
                body == decimal_body(v@),
                decimal_syntax_ok(v@),
                n == leading_digits(body, 0),
                0 <= n <= body.len(),
                forall|k: int| 0 <= k < n ==> chars::is_digit(#[trigger] body[k]),
                n < body.len() ==> !chars::is_digit(body[n]),
                i - from <= n ==> out@ == body.subrange(0, i - from),
                i - from > n ==> out@ == body.subrange(0, n) + body.subrange(n + 1, i - from),
                all_digits(out@),
            decreases len - i,
        {
            let b = v[i];
            proof {
                assert(body[i - from] == b);
            }
            if b != chars::DOT {
                proof {
                    assert(chars::is_digit(b));
                    if i - from == n {
                        assert(!chars::is_digit(body[n]));
                    }
                }
                out.push(b);
                proof {
                    if i - from < n {
                        assert(out@ =~= body.subrange(0, i - from + 1));
                    } else {
                        assert(out@ =~= body.subrange(0, n) + body.subrange(n + 1, i - from + 1));
                    }
                }
            } else {
                proof {
                    if i - from < n {
                        assert(chars::is_digit(body[i - from]));
                    }
                    assert(i - from == n || i - from > n);
                    if i - from > n {
                        assert(body[n] == chars::DOT) by {
                            assert(!chars::is_digit(body[n]));
                        }
                        assert(false);
                    }
                    assert(out@ =~= body.subrange(0, n) + body.subrange(n + 1, i - from + 1));
                }
            }
            i += 1;
        }
        proof {
            assert(decimal_int_digits(v@) =~= body.subrange(0, n));
            if n < body.len() {
                assert(out@ =~= decimal_int_digits(v@) + decimal_frac_digits(v@));
            } else {
                assert(out@ =~= decimal_int_digits(v@) + decimal_frac_digits(v@));
            }
        }
    }
    let ghost base = out@;
    proof {
        assert(base == decimal_digits(v@));
    }
    let mut z: usize = 0;
    while z < pad
        invariant
            z <= pad,
            out@ == base + zeros(z as nat),
            all_digits(out@),
        decreases pad - z,
    {
        out.push(chars::DIGIT_0);
        z += 1;
        proof {
            assert(out@ =~= base + zeros(z as nat));
        }
    }
    out
}

/// The number of digits after the dot of the decimal text `v` (0 for text
/// that is not a decimal).
fn scale_of(v: &[u8], ok: bool) -> (r: usize)
    requires
        ok == decimal_syntax_ok(v@),
    ensures
        r as nat == decimal_scale(v@),
{
    if !ok {
        return 0;
    }
    let len = v.len();
    let mut i: usize = 0;
    while i < len && v[i] != chars::DOT
        invariant
            i <= len,
            len == v@.len(),
            forall|k: int| 0 <= k < i ==> v@[k] != chars::DOT,
        decreases len - i,
    {
        i += 1;
    }
    proof {
        let body = decimal_body(v@);
        let from: int = if len > 0 && v@[0] == chars::MINUS { 1 } else { 0 };
        if from == 1 {
            assert(body =~= v@.subrange(1, len as int));
        } else {
            assert(body =~= v@.subrange(0, len as int));
        }
        lemma_leading_digits_bounds(body, 0);
        let n = leading_digits(body, 0);
        if n < body.len() {
            assert(!chars::is_digit(body[n]));
            assert(body[n] == chars::DOT);
            assert(v@[from + n] == chars::DOT);
            assert forall|k: int| 0 <= k < from + n implies v@[k] != chars::DOT by {
                if k >= from {
                    assert(chars::is_digit(body[k - from]));
                }
            }
            assert(i == from + n);
        } else {
            assert forall|k: int| 0 <= k < len implies v@[k] != chars::DOT by {
                if k >= from {
                    assert(chars::is_digit(body[k - from]));
                }
            }
            assert(i == len);
        }
    }
    if i < len {
        len - i - 1
    } else {
        0
    }
}

/// How the decimal text `a` orders against `b` by value; see
/// `decimal_order_spec`.
pub fn decimal_order(a: &[u8], b: &[u8]) -> (r: i8)
    ensures
        r as int == decimal_order_spec(a@, b@),
{
    let ok_a = decimal_syntax(a);
    let ok_b = decimal_syntax(b);
    let fa = scale_of(a, ok_a);
    let fb = scale_of(b, ok_b);
    let m = if fa > fb { fa } else { fb };
    let xa = padded_digits(a, ok_a, m - fa);
    let xb = padded_digits(b, ok_b, m - fb);
    let neg_a = ok_a && a[0] == chars::MINUS;
    let neg_b = ok_b && b[0] == chars::MINUS;
    let empty: Vec<u8> = Vec::new();
    let magnitude = digits_order(xa.as_slice(), xb.as_slice());
    let zero_a = digits_order(xa.as_slice(), empty.as_slice()) == 0;
    let zero_b = digits_order(xb.as_slice(), empty.as_slice()) == 0;
    proof {
        let da = decimal_digits(a@);
        let db = decimal_digits(b@);
        lemma_digits_append(da, zeros((m - fa) as nat));
        lemma_digits_append(db, zeros((m - fb) as nat));
        lemma_zeros_value((m - fa) as nat);
        lemma_zeros_value((m - fb) as nat);
        let k: nat = (fa + fb - m) as nat;
        lemma_pow10_add((m - fa) as nat, k);
        lemma_pow10_add((m - fb) as nat, k);
        assert((m - fa) as nat + k == fb as nat);
        assert((m - fb) as nat + k == fa as nat);
        lemma_pow10_positive(k);
        let va = digits_value(xa@) as int;
        let vb = digits_value(xb@) as int;
        let sa: int = if neg_a { -va } else { va };
        let sb: int = if neg_b { -vb } else { vb };
        let pk = pow10(k) as int;
        let pa = pow10((m - fa) as nat) as int;
        let pb = pow10((m - fb) as nat) as int;
        assert(va == digits_value(da) * pa);
        assert(vb == digits_value(db) * pb);
        assert(decimal_units(a@) * pow10(decimal_scale(b@)) == sa * pk) by (nonlinear_arith)
            requires
                decimal_units(a@) == (if neg_a { -(digits_value(da) as int) } else { digits_value(da) as int }),
                pow10(decimal_scale(b@)) == pa * pk,
                va == digits_value(da) * pa,
                sa == (if neg_a { -va } else { va }),
        ;
        assert(decimal_units(b@) * pow10(decimal_scale(a@)) == sb * pk) by (nonlinear_arith)
            requires
                decimal_units(b@) == (if neg_b { -(digits_value(db) as int) } else { digits_value(db) as int }),
                pow10(decimal_scale(a@)) == pb * pk,
                vb == digits_value(db) * pb,
                sb == (if neg_b { -vb } else { vb }),
        ;
        assert(sign_of(sa * pk - sb * pk) == sign_of(sa - sb)) by (nonlinear_arith)
            requires
                pk >= 1,
        ;
        assert(digits_value(Seq::<u8>::empty()) == 0);
    }
    if !neg_a && !neg_b {
        magnitude
    } else if neg_a && neg_b {
        0 - magnitude
    } else if zero_a && zero_b {
        0
    } else if neg_a {
        -1
    } else {
        1
    }
}

/// The law that the decimal order is antisymmetric: swapping the texts
/// flips the order, and every text equals itself.
pub proof fn lemma_decimal_order_antisymmetric(a: Seq<u8>, b: Seq<u8>)
    ensures
        decimal_order_spec(a, b) == -decimal_order_spec(b, a),
        decimal_order_spec(a, a) == 0,
{
}

/// The law that the decimal order is transitive.
pub proof fn lemma_decimal_order_transitive(a: Seq<u8>, b: Seq<u8>, c: Seq<u8>)
    requires
        decimal_order_spec(a, b) <= 0,
        decimal_order_spec(b, c) <= 0,
    ensures
        decimal_order_spec(a, c) <= 0,
{
    let ua = decimal_units(a);
    let ub = decimal_units(b);
    let uc = decimal_units(c);
    let pa = pow10(decimal_scale(a)) as int;
    let pb = pow10(decimal_scale(b)) as int;
    let pc = pow10(decimal_scale(c)) as int;
    lemma_pow10_positive(decimal_scale(a));
    lemma_pow10_positive(decimal_scale(b));
    lemma_pow10_positive(decimal_scale(c));
    assert(ua * pb <= ub * pa);
    assert(ub * pc <= uc * pb);
    assert(ua * pc <= uc * pa) by (nonlinear_arith)
        requires
            ua * pb <= ub * pa,
            ub * pc <= uc * pb,
            pa >= 1,
            pb >= 1,
            pc >= 1,
    ;
}

} // verus!
