//! Small KF8 formatting primitives: base-32 record and flow numbers.

use vstd::prelude::*;
use crate::error::{Error, output_error};

verus! {

/// The ASCII digit for a base-32 value `d < 32` (`0-9`, then `A-V`).
pub open spec fn base32_digit(d: nat) -> u8 {
    if d < 10 { (48 + d) as u8 } else { (55 + d) as u8 }
}

/// The base-32 digits of `v`, most significant first, without padding
/// (empty for zero).
pub open spec fn base32_digits(v: nat) -> Seq<u8>
    decreases v,
{
    if v == 0 { seq![] } else { base32_digits(v / 32).push(base32_digit(v % 32)) }
}

/// `s` padded on the left with ASCII `0` up to `width` bytes.
pub open spec fn zero_pad(s: Seq<u8>, width: nat) -> Seq<u8> {
    if s.len() < width { Seq::new((width - s.len()) as nat, |i: int| 48u8) + s } else { s }
}

/// The KF8 base-32 text of `v`: its digits (`0` for zero), padded to four.
pub open spec fn base32_text(v: nat) -> Seq<u8> {
    zero_pad(if v == 0 { seq![48u8] } else { base32_digits(v) }, 4)
}

proof fn lemma_base32_digits_ascii(v: nat)
    ensures
        forall|i: int| 0 <= i < base32_digits(v).len() ==> #[trigger] base32_digits(v)[i] < 128,
    decreases v,
{
    if v != 0 {
        lemma_base32_digits_ascii(v / 32);
        let d = base32_digits(v / 32);
        assert(base32_digit(v % 32) < 128);
        assert forall|i: int| 0 <= i < base32_digits(v).len() implies #[trigger] base32_digits(v)[i] < 128 by {
            if i < d.len() {
                assert(base32_digits(v)[i] == d[i]);
            }
        }
    }
}

/// The base-32 text is ASCII.
pub proof fn lemma_base32_text_ascii(v: nat)
    ensures
        forall|i: int| 0 <= i < base32_text(v).len() ==> #[trigger] base32_text(v)[i] < 128,
{
    lemma_base32_digits_ascii(v);
}

spec fn pow32(k: nat) -> nat
    decreases k,
{
    if k == 0 { 1 } else { 32 * pow32((k - 1) as nat) }
}

proof fn lemma_base32_digits_bound(v: nat, k: nat)
    requires
        v < pow32(k),
    ensures
        base32_digits(v).len() <= k,
    decreases v,
{
    if v > 0 {
        assert(k > 0);
        assert(v / 32 < pow32((k - 1) as nat));
        lemma_base32_digits_bound(v / 32, (k - 1) as nat);
    }
}

proof fn lemma_base32_digits_len(v: nat)
    ensures
        v < 0x1_0000_0000 ==> base32_digits(v).len() <= 7,
        v > 0 ==> base32_digits(v).len() > 0,
{
    reveal_with_fuel(pow32, 8);
    if v < 0x1_0000_0000 {
        lemma_base32_digits_bound(v, 7);
    }
}

/// A value below `32^4` has at most four base-32 digits.
pub proof fn lemma_base32_four_digits(v: nat)
    requires
        v < 1048576,
    ensures
        base32_text(v).len() == 4,
{
    reveal_with_fuel(pow32, 5);
    lemma_base32_digits_bound(v, 4);
}

/// Encode `value` as KF8 base-32 text: upper-case digits, at least four wide.
pub fn to_base32(value: u32) -> (r: Vec<u8>)
    ensures
        r@ == base32_text(value as nat),
        4 <= r@.len() <= 7,
{
    // Collect the digits least-significant first, then emit them reversed.
    let mut rev: Vec<u8> = Vec::new();
    let mut v = value;
    while v != 0
        invariant
            base32_digits(value as nat) == base32_digits(v as nat) + rev@.reverse(),
        decreases v,
    {
        let d = v % 32;
        let digit: u8 = if d < 10 { (48 + d) as u8 } else { (55 + d) as u8 };
        let ghost before = rev@;
        rev.push(digit);
        assert(rev@.reverse() =~= seq![digit] + before.reverse());
        assert(base32_digits(v as nat) == base32_digits((v / 32) as nat).push(digit));
        assert(base32_digits((v / 32) as nat).push(digit) + before.reverse()
            =~= base32_digits((v / 32) as nat) + rev@.reverse());
        v = v / 32;
    }
    assert(rev@.reverse() =~= base32_digits(value as nat));
    proof {
        lemma_base32_digits_len(value as nat);
    }
    let body_len = if rev.len() == 0 { 1 } else { rev.len() };
    let mut r: Vec<u8> = Vec::new();
    let mut pad = body_len;
    while pad < 4
        invariant
            body_len <= pad <= 4 || (body_len > 4 && pad == body_len),
            r@ == Seq::new((pad - body_len) as nat, |i: int| 48u8),
        decreases 4 - pad,
    {
        r.push(48u8);
        pad = pad + 1;
        assert(r@ =~= Seq::new((pad - body_len) as nat, |i: int| 48u8));
    }
    let ghost padding = r@;
    if rev.len() == 0 {
        r.push(48u8);
        assert(r@ =~= padding + seq![48u8]);
    } else {
        let mut i = rev.len();
        while i > 0
            invariant
                i <= rev@.len(),
                r@ == padding + rev@.reverse().subrange(0, (rev@.len() - i) as int),
            decreases i,
        {
            i = i - 1;
            r.push(rev[i]);
            assert(r@ =~= padding + rev@.reverse().subrange(0, (rev@.len() - i) as int));
        }
        assert(rev@.reverse().subrange(0, rev@.len() as int) =~= rev@.reverse());
    }
    assert(r@ =~= base32_text(value as nat));
    r
}

/// Encode `value` in base 32 padded with `0` to exactly `width` bytes; an
/// encoding longer than `width` is an output error.
pub fn to_base32_fixed(value: u32, width: usize) -> (r: Result<Vec<u8>, Error>)
    ensures
        match r {
            Ok(s) => base32_text(value as nat).len() <= width
                && s@ == zero_pad(base32_text(value as nat), width as nat),
            Err(e) => base32_text(value as nat).len() > width && e is Output,
        },
{
    let encoded = to_base32(value);
    if encoded.len() > width {
        return Err(output_error("base32 value exceeds fixed KF8 field width"));
    }
    let mut r: Vec<u8> = Vec::new();
    let mut pad = encoded.len();
    while pad < width
        invariant
            encoded@.len() <= pad <= width,
            r@ == Seq::new((pad - encoded@.len()) as nat, |i: int| 48u8),
        decreases width - pad,
    {
        r.push(48u8);
        pad = pad + 1;
        assert(r@ =~= Seq::new((pad - encoded@.len()) as nat, |i: int| 48u8));
    }
    let ghost padding = r@;
    crate::kf8::wire::push_bytes(&mut r, encoded.as_slice());
    assert(r@ =~= zero_pad(encoded@, width as nat));
    Ok(r)
}

/// The decimal digits of `v`, most significant first, without padding
/// (empty for zero).
pub open spec fn decimal_digits(v: nat) -> Seq<u8>
    decreases v,
{
    if v == 0 { seq![] } else { decimal_digits(v / 10).push((48 + v % 10) as u8) }
}

/// `v` in decimal, zero-padded on the left to at least `width` digits
/// (the `{:0width$}` format).
pub open spec fn decimal_text(v: nat, width: nat) -> Seq<u8> {
    zero_pad(if v == 0 { seq![48u8] } else { decimal_digits(v) }, width)
}

proof fn lemma_decimal_digits_len(v: nat)
    ensures
        v > 0 ==> decimal_digits(v).len() > 0,
        v < 0x1_0000_0000_0000_0000 ==> decimal_digits(v).len() <= 20,
    decreases v,
{
    if v > 0 {
        lemma_decimal_digits_len(v / 10);
        if v < 0x1_0000_0000_0000_0000 {
            lemma_decimal_bound(v, 20);
        }
    }
}

spec fn pow10(k: nat) -> nat
    decreases k,
{
    if k == 0 { 1 } else { 10 * pow10((k - 1) as nat) }
}

proof fn lemma_decimal_bound(v: nat, k: nat)
    requires
        v < pow10(k) || (k == 20 && v < 0x1_0000_0000_0000_0000),
    ensures
        decimal_digits(v).len() <= k,
    decreases v,
{
    if k == 20 {
        reveal_with_fuel(pow10, 21);
        assert(0x1_0000_0000_0000_0000 <= pow10(20));
    }
    if v > 0 {
        assert(k > 0) by {
            if k == 0 {
                assert(pow10(0) == 1);
            }
        }
        assert(v / 10 < pow10((k - 1) as nat)) by {
            assert(pow10(k) == 10 * pow10((k - 1) as nat));
        }
        lemma_decimal_bound(v / 10, (k - 1) as nat);
    }
}

/// `value` in decimal, zero-padded to at least `width` digits.
pub fn to_decimal_padded(value: u64, width: usize) -> (r: Vec<u8>)
    requires
        width <= 64,
    ensures
        r@ == decimal_text(value as nat, width as nat),
{
    let mut rev: Vec<u8> = Vec::new();
    let mut v = value;
    while v != 0
        invariant
            decimal_digits(value as nat) == decimal_digits(v as nat) + rev@.reverse(),
        decreases v,
    {
        let digit: u8 = (48 + v % 10) as u8;
        let ghost before = rev@;
        rev.push(digit);
        assert(rev@.reverse() =~= seq![digit] + before.reverse());
        assert(decimal_digits(v as nat) == decimal_digits((v / 10) as nat).push(digit));
        assert(decimal_digits((v / 10) as nat).push(digit) + before.reverse()
            =~= decimal_digits((v / 10) as nat) + rev@.reverse());
        v = v / 10;
    }
    assert(rev@.reverse() =~= decimal_digits(value as nat));
    proof {
        lemma_decimal_digits_len(value as nat);
    }
    let body_len = if rev.len() == 0 { 1 } else { rev.len() };
    let mut r: Vec<u8> = Vec::new();
    let mut pad = body_len;
    while pad < width
        invariant
            body_len <= pad,
            pad <= width || pad == body_len,
            r@ == Seq::new((pad - body_len) as nat, |i: int| 48u8),
        decreases width - pad,
    {
        r.push(48u8);
        pad = pad + 1;
        assert(r@ =~= Seq::new((pad - body_len) as nat, |i: int| 48u8));
    }
    let ghost padding = r@;
    if rev.len() == 0 {
        r.push(48u8);
        assert(r@ =~= padding + seq![48u8]);
    } else {
        let mut i = rev.len();
        while i > 0
            invariant
                i <= rev@.len(),
                r@ == padding + rev@.reverse().subrange(0, (rev@.len() - i) as int),
            decreases i,
        {
            i = i - 1;
            r.push(rev[i]);
            assert(r@ =~= padding + rev@.reverse().subrange(0, (rev@.len() - i) as int));
        }
        assert(rev@.reverse().subrange(0, rev@.len() as int) =~= rev@.reverse());
    }
    assert(r@ =~= decimal_text(value as nat, width as nat));
    r
}

} // verus!