//! Character-level string operations shared by the CSS and metadata code:
//! Unicode whitespace trimming and comparisons up to ASCII case.

use vstd::prelude::*;
use vstd::string::StrSliceExecFns;
use vstd::std_specs::iter::IteratorSpec;
use vstd::string::StringSliceAdditionalSpecFns;
use vstd::utf8::valid_utf8;

verus! {

/// Unicode `White_Space`, the whitespace of `char::is_whitespace` and `str::trim`.
pub open spec fn is_unicode_ws(c: char) -> bool {
    let u = c as u32;
    (9 <= u <= 13) || u == 32 || u == 0x85 || u == 0xa0 || u == 0x1680 || (0x2000 <= u <= 0x200a)
        || u == 0x2028 || u == 0x2029 || u == 0x202f || u == 0x205f || u == 0x3000
}

/// Number of leading whitespace characters of `s` from `i` on.
pub open spec fn lead_ws(s: Seq<char>, i: int) -> int
    decreases s.len() - i,
{
    if 0 <= i < s.len() && is_unicode_ws(s[i]) {
        lead_ws(s, i + 1)
    } else {
        i
    }
}

/// Position after the last non-whitespace character of `s` below `j`, not
/// below `lo`.
pub open spec fn trail_ws(s: Seq<char>, lo: int, j: int) -> int
    decreases j - lo,
{
    if lo < j <= s.len() && is_unicode_ws(s[j - 1]) {
        trail_ws(s, lo, j - 1)
    } else {
        j
    }
}

/// `s` without leading and trailing Unicode whitespace.
pub open spec fn trim_spec(s: Seq<char>) -> Seq<char> {
    let a = lead_ws(s, 0);
    s.subrange(a, trail_ws(s, a, s.len() as int))
}

pub proof fn lemma_lead_ws(s: Seq<char>, i: int)
    requires
        0 <= i <= s.len(),
    ensures
        i <= lead_ws(s, i) <= s.len(),
    decreases s.len() - i,
{
    if i < s.len() && is_unicode_ws(s[i]) {
        lemma_lead_ws(s, i + 1);
    }
}

pub proof fn lemma_trail_ws(s: Seq<char>, lo: int, j: int)
    requires
        0 <= lo <= j <= s.len(),
    ensures
        lo <= trail_ws(s, lo, j) <= j,
    decreases j - lo,
{
    if lo < j && is_unicode_ws(s[j - 1]) {
        lemma_trail_ws(s, lo, j - 1);
    }
}

/// Whether `c` is Unicode whitespace.
pub fn unicode_whitespace(c: char) -> (r: bool)
    ensures
        r == is_unicode_ws(c),
{
    let u = c as u32;
    (9 <= u && u <= 13) || u == 32 || u == 0x85 || u == 0xa0 || u == 0x1680 || (0x2000 <= u && u
        <= 0x200a) || u == 0x2028 || u == 0x2029 || u == 0x202f || u == 0x205f || u == 0x3000
}

/// `s` without leading and trailing Unicode whitespace.
pub fn trim_str(s: &str) -> (r: &str)
    ensures
        r@ == trim_spec(s@),
{
    let n = s.unicode_len();
    let mut a: usize = 0;
    proof {
        lemma_lead_ws(s@, 0);
    }
    while a < n && unicode_whitespace(s.get_char(a))
        invariant
            n == s@.len(),
            a <= n,
            lead_ws(s@, a as int) == lead_ws(s@, 0),
        decreases n - a,
    {
        a = a + 1;
    }
    let mut e: usize = n;
    proof {
        lemma_trail_ws(s@, a as int, n as int);
    }
    while e > a && unicode_whitespace(s.get_char(e - 1))
        invariant
            n == s@.len(),
            a <= e <= n,
            a == lead_ws(s@, 0),
            trail_ws(s@, a as int, e as int) == trail_ws(s@, a as int, n as int),
        decreases e,
    {
        e = e - 1;
    }
    s.substring_char(a, e)
}

/// Equality of the characters of two strings.
pub fn str_eq(a: &str, b: &str) -> (r: bool)
    ensures
        r == (a@ == b@),
{
    let n = a.unicode_len();
    if n != b.unicode_len() {
        return false;
    }
    let mut i: usize = 0;
    while i < n
        invariant
            n == a@.len(),
            n == b@.len(),
            i <= n,
            forall|j: int| 0 <= j < i ==> a@[j] == b@[j],
        decreases n - i,
    {
        if a.get_char(i) != b.get_char(i) {
            return false;
        }
        i = i + 1;
    }
    assert(a@ =~= b@);
    true
}

/// ASCII lowercase of a character; other characters are unchanged.
pub open spec fn lower_char(c: char) -> char {
    if 'A' <= c <= 'Z' {
        ((c as u32) + 32) as char
    } else {
        c
    }
}

/// ASCII lowercase of every character.
pub open spec fn lower_chars(s: Seq<char>) -> Seq<char> {
    Seq::new(s.len(), |i: int| lower_char(s[i]))
}

/// The text of an optional string.
pub open spec fn opt_text(o: Option<String>) -> Option<Seq<char>> {
    match o {
        Some(s) => Some(s@),
        None => None,
    }
}

/// The texts of a sequence of strings.
pub open spec fn texts(v: Seq<String>) -> Seq<Seq<char>> {
    v.map_values(|s: String| s@)
}

/// ASCII lowercase of a character.
pub fn to_lower_char(c: char) -> (r: char)
    ensures
        r == lower_char(c),
{
    if 'A' <= c && c <= 'Z' {
        let b = (c as u32 as u8) + 32;
        b as char
    } else {
        c
    }
}

/// Whether the ASCII lowercase of `s` equals `lit`.
pub fn lower_eq(s: &str, lit: &str) -> (r: bool)
    ensures
        r == (lower_chars(s@) == lit@),
{
    let n = s.unicode_len();
    if n != lit.unicode_len() {
        assert(lower_chars(s@).len() != lit@.len());
        return false;
    }
    let mut i: usize = 0;
    while i < n
        invariant
            n == s@.len(),
            n == lit@.len(),
            i <= n,
            forall|j: int| 0 <= j < i ==> lower_char(s@[j]) == lit@[j],
        decreases n - i,
    {
        if to_lower_char(s.get_char(i)) != lit.get_char(i) {
            assert(lower_chars(s@)[i as int] != lit@[i as int]);
            return false;
        }
        i = i + 1;
    }
    assert(lower_chars(s@) =~= lit@);
    true
}

/// The characters of a string.
pub fn str_chars(s: &str) -> (r: Vec<char>)
    ensures
        r@ == s@,
{
    broadcast use vstd::string::axiom_spec_iter;

    let mut r: Vec<char> = Vec::new();
    for c in it: s.chars()
        invariant
            r@ == it.seq().take(it.index() as int),
            it.seq() == s@,
    {
        r.push(c);
        assert(r@ =~= it.seq().take(it.index() + 1));
    }
    assert(r@ =~= s@);
    r
}

/// The string of the given characters, built by `FromIterator<char>`; the
/// contract claims that the string holds exactly those characters.
#[verifier::external_body]
pub(crate) fn string_from_chars(chars: &[char]) -> (r: String)
    ensures
        r@ == chars@,
{
    chars.iter().collect()
}

/// `std::str::from_utf8`: the text of valid UTF-8 bytes, or the message of
/// the `Utf8Error` (its `Display`). The contract claims that it accepts
/// exactly the valid UTF-8 byte strings and that the text keeps their bytes;
/// it claims nothing of the message.
#[verifier::external_body]
pub(crate) fn utf8_text<'a>(bytes: &'a [u8]) -> (r: Result<&'a str, String>)
    ensures
        match r {
            Ok(s) => valid_utf8(bytes@) && s.spec_bytes() == bytes@,
            Err(_) => !valid_utf8(bytes@),
        },
{
    std::str::from_utf8(bytes).map_err(|error| error.to_string())
}

/// What `String::from_utf8_lossy` makes of bytes.
pub uninterp spec fn lossy_text(bytes: Seq<u8>) -> Seq<char>;

/// `String::from_utf8_lossy`: the text of the bytes, each invalid sequence
/// replaced by U+FFFD. The contract claims that the text depends on the
/// bytes alone and that valid UTF-8 comes back unchanged, as the
/// documentation says; how invalid sequences are replaced is left to the
/// name.
#[verifier::external_body]
pub(crate) fn utf8_lossy(bytes: &[u8]) -> (r: String)
    ensures
        r@ == lossy_text(bytes@),
        valid_utf8(bytes@) ==> vstd::utf8::encode_utf8(r@) == bytes@,
{
    String::from_utf8_lossy(bytes).into_owned()
}

/// The text of valid UTF-8 bytes, `None` otherwise.
pub fn utf8_str<'a>(bytes: &'a [u8]) -> (r: Option<&'a str>)
    ensures
        match r {
            Some(s) => valid_utf8(bytes@) && s.spec_bytes() == bytes@,
            None => !valid_utf8(bytes@),
        },
{
    match utf8_text(bytes) {
        Ok(s) => Some(s),
        Err(_) => None,
    }
}

/// Whether a UTF-16 code unit is a high (leading) surrogate.
pub open spec fn is_high_surrogate(u: u16) -> bool {
    0xD800 <= u <= 0xDBFF
}

/// Whether a UTF-16 code unit is a low (trailing) surrogate.
pub open spec fn is_low_surrogate(u: u16) -> bool {
    0xDC00 <= u <= 0xDFFF
}

/// The characters that UTF-16 code units encode: a unit outside the
/// surrogates is its own character, a high surrogate followed by a low one
/// is the supplementary character they encode; `None` when a surrogate is
/// unpaired.
pub open spec fn utf16_decode(u: Seq<u16>) -> Option<Seq<char>>
    decreases u.len(),
{
    if u.len() == 0 {
        Some(Seq::empty())
    } else if is_high_surrogate(u[0]) {
        if u.len() >= 2 && is_low_surrogate(u[1]) {
            match utf16_decode(u.subrange(2, u.len() as int)) {
                Some(rest) => Some(
                    seq![((0x10000 + (u[0] - 0xD800) * 0x400 + (u[1] - 0xDC00)) as u32) as char] + rest,
                ),
                None => None,
            }
        } else {
            None
        }
    } else if is_low_surrogate(u[0]) {
        None
    } else {
        match utf16_decode(u.subrange(1, u.len() as int)) {
            Some(rest) => Some(seq![(u[0] as u32) as char] + rest),
            None => None,
        }
    }
}

/// `char::decode_utf16` collected into a `String`: the decoded text, or the
/// message of the first `DecodeUtf16Error` (its `Display`) when a surrogate
/// is unpaired. The contract claims the decoding that the documentation
/// describes; it claims nothing of the message.
#[verifier::external_body]
pub(crate) fn utf16_string(units: &[u16]) -> (r: Result<String, String>)
    ensures
        match utf16_decode(units@) {
            Some(t) => r matches Ok(s) && s@ == t,
            None => r is Err,
        },
{
    char::decode_utf16(units.iter().copied()).collect::<Result<String, _>>().map_err(|error| error.to_string())
}

/// Append `v[a..b]` to `out`.
pub fn push_chars(out: &mut Vec<char>, v: &[char], a: usize, b: usize)
    requires
        a <= b <= v@.len(),
    ensures
        final(out)@ == old(out)@ + v@.subrange(a as int, b as int),
{
    let ghost start = out@;
    let mut i = a;
    while i < b
        invariant
            a <= i <= b,
            b <= v@.len(),
            out@ == start + v@.subrange(a as int, i as int),
        decreases b - i,
    {
        out.push(v[i]);
        i = i + 1;
        assert(out@ =~= start + v@.subrange(a as int, i as int));
    }
}

/// Append the characters of a string to `out`.
pub fn push_str_chars(out: &mut Vec<char>, s: &str)
    ensures
        final(out)@ == old(out)@ + s@,
{
    let chars = str_chars(s);
    let n = chars.len();
    push_chars(out, chars.as_slice(), 0, n);
    assert(chars@.subrange(0, n as int) =~= s@);
}

/// The characters `v[a..b]`.
pub fn char_range(v: &[char], a: usize, b: usize) -> (r: Vec<char>)
    requires
        a <= b <= v@.len(),
    ensures
        r@ == v@.subrange(a as int, b as int),
{
    let mut r: Vec<char> = Vec::new();
    push_chars(&mut r, v, a, b);
    assert(Seq::<char>::empty() + v@.subrange(a as int, b as int) =~= v@.subrange(a as int, b as int));
    r
}

/// The characters without leading and trailing Unicode whitespace.
pub fn trim_chars(v: &[char]) -> (r: Vec<char>)
    ensures
        r@ == trim_spec(v@),
{
    let n = v.len();
    let mut a: usize = 0;
    proof {
        lemma_lead_ws(v@, 0);
    }
    while a < n && unicode_whitespace(v[a])
        invariant
            n == v@.len(),
            a <= n,
            lead_ws(v@, a as int) == lead_ws(v@, 0),
        decreases n - a,
    {
        a = a + 1;
    }
    let mut e: usize = n;
    proof {
        lemma_trail_ws(v@, a as int, n as int);
    }
    while e > a && unicode_whitespace(v[e - 1])
        invariant
            n == v@.len(),
            a <= e <= n,
            a == lead_ws(v@, 0),
            trail_ws(v@, a as int, e as int) == trail_ws(v@, a as int, n as int),
        decreases e,
    {
        e = e - 1;
    }
    char_range(v, a, e)
}

/// ASCII lowercase of every character.
pub fn lower_vec(v: &[char]) -> (r: Vec<char>)
    ensures
        r@ == lower_chars(v@),
{
    let mut r: Vec<char> = Vec::new();
    let mut i: usize = 0;
    while i < v.len()
        invariant
            i <= v@.len(),
            r@ == lower_chars(v@.subrange(0, i as int)),
        decreases v@.len() - i,
    {
        r.push(to_lower_char(v[i]));
        i = i + 1;
        assert(r@ =~= lower_chars(v@.subrange(0, i as int)));
    }
    assert(v@.subrange(0, i as int) =~= v@);
    r
}

/// Position of the first `c` in `s` at or after `i`.
pub open spec fn find_char(s: Seq<char>, c: char, i: int) -> Option<int>
    decreases s.len() - i,
{
    if i < 0 || i >= s.len() {
        None
    } else if s[i] == c {
        Some(i)
    } else {
        find_char(s, c, i + 1)
    }
}

pub proof fn lemma_find_char(s: Seq<char>, c: char, i: int)
    requires
        0 <= i,
    ensures
        find_char(s, c, i) matches Some(k) ==> i <= k < s.len() && s[k] == c,
    decreases s.len() - i,
{
    if i < s.len() && s[i] != c {
        lemma_find_char(s, c, i + 1);
    }
}

/// Position of the first `c` in `v` at or after `i`.
pub fn find_char_from(v: &[char], c: char, i: usize) -> (r: Option<usize>)
    ensures
        r == (match find_char(v@, c, i as int) {
            Some(k) => Some(k as usize),
            None => None::<usize>,
        }),
        r matches Some(k) ==> i <= k < v@.len() && v@[k as int] == c && find_char(v@, c, i as int)
            == Some(k as int),
{
    proof {
        lemma_find_char(v@, c, i as int);
    }
    let mut k = i;
    while k < v.len()
        invariant
            i <= k,
            find_char(v@, c, k as int) == find_char(v@, c, i as int),
        decreases v@.len() - k,
    {
        if v[k] == c {
            return Some(k);
        }
        k = k + 1;
    }
    None
}

// ---------------------------------------------------------------------------
// Decimal numbers and distinct candidates.

/// The ASCII digit for `d < 10`.
pub open spec fn digit_char(d: nat) -> char {
    ((48 + d) as u32) as char
}

/// The decimal digits of `v`, most significant first (empty for zero).
pub open spec fn dec_chars(v: nat) -> Seq<char>
    decreases v,
{
    if v == 0 {
        Seq::empty()
    } else {
        dec_chars(v / 10).push(digit_char(v % 10))
    }
}

/// `v` in decimal, zero-padded on the left to at least `width` digits (the
/// `{:0width$}` format; `width` 0 is plain `{}`).
pub open spec fn decimal(v: nat, width: nat) -> Seq<char> {
    let d = if v == 0 {
        seq!['0']
    } else {
        dec_chars(v)
    };
    if d.len() < width {
        Seq::new((width - d.len()) as nat, |i: int| '0') + d
    } else {
        d
    }
}

/// The number that decimal digits spell.
pub open spec fn digits_value(s: Seq<char>) -> int
    decreases s.len(),
{
    if s.len() == 0 {
        0
    } else {
        digits_value(s.drop_last()) * 10 + (s.last() as int - 48)
    }
}

proof fn lemma_dec_chars_value(v: nat)
    ensures
        digits_value(dec_chars(v)) == v,
    decreases v,
{
    if v > 0 {
        lemma_dec_chars_value(v / 10);
        let d = dec_chars(v);
        assert(d.drop_last() =~= dec_chars(v / 10));
        assert(d.last() == digit_char(v % 10));
        assert((digit_char(v % 10) as int) == 48 + v % 10);
    }
}

proof fn lemma_zeros_value(z: nat, s: Seq<char>)
    ensures
        digits_value(Seq::new(z, |i: int| '0') + s) == digits_value(s),
    decreases s.len(), z,
{
    if s.len() == 0 {
        if z > 0 {
            let t = Seq::new(z, |i: int| '0');
            assert(t + s =~= t);
            assert(t.drop_last() =~= Seq::new((z - 1) as nat, |i: int| '0'));
            assert(Seq::new((z - 1) as nat, |i: int| '0') + s =~= Seq::new((z - 1) as nat, |i: int| '0'));
            lemma_zeros_value((z - 1) as nat, s);
        } else {
            assert(Seq::new(z, |i: int| '0') + s =~= s);
        }
    } else {
        let t = Seq::new(z, |i: int| '0') + s;
        assert(t.drop_last() =~= Seq::new(z, |i: int| '0') + s.drop_last());
        assert(t.last() == s.last());
        lemma_zeros_value(z, s.drop_last());
    }
}

/// The digits of `decimal(v, width)` spell `v`.
pub proof fn lemma_decimal_value(v: nat, width: nat)
    ensures
        digits_value(decimal(v, width)) == v,
{
    let d = if v == 0 {
        seq!['0']
    } else {
        dec_chars(v)
    };
    if v == 0 {
        assert(d.drop_last() =~= Seq::<char>::empty());
        assert(d.last() == '0');
        assert(('0' as int) == 48);
        assert(digits_value(d.drop_last()) == 0);
        assert(digits_value(d) == 0);
    } else {
        lemma_dec_chars_value(v);
    }
    if d.len() < width {
        lemma_zeros_value((width - d.len()) as nat, d);
    }
}

/// Distinct numbers have distinct decimal texts.
pub proof fn lemma_decimal_injective(a: nat, b: nat, width: nat)
    requires
        decimal(a, width) == decimal(b, width),
    ensures
        a == b,
{
    lemma_decimal_value(a, width);
    lemma_decimal_value(b, width);
}

/// `n` distinct values all found among `taken` number at most its length.
pub proof fn lemma_pigeonhole(cands: Seq<Seq<char>>, taken: Seq<Seq<char>>)
    requires
        cands.no_duplicates(),
        forall|j: int| 0 <= j < cands.len() ==> taken.contains(#[trigger] cands[j]),
    ensures
        cands.len() <= taken.len(),
{
    cands.unique_seq_to_set();
    taken.lemma_cardinality_of_set();
    assert(cands.to_set().subset_of(taken.to_set())) by {
        assert forall|x: Seq<char>| cands.to_set().contains(x) implies taken.to_set().contains(x) by {
            let j = choose|j: int| 0 <= j < cands.len() && cands[j] == x;
            assert(taken.contains(cands[j]));
        }
    }
    vstd::seq_lib::seq_to_set_is_finite(taken);
    vstd::set_lib::lemma_len_subset(cands.to_set(), taken.to_set());
}

/// `v` in decimal, zero-padded to at least `width` digits.
pub fn decimal_chars(v: usize, width: usize) -> (r: Vec<char>)
    ensures
        r@ == decimal(v as nat, width as nat),
{
    let mut rev: Vec<char> = Vec::new();
    let mut x = v;
    while x != 0
        invariant
            dec_chars(v as nat) == dec_chars(x as nat) + rev@.reverse(),
        decreases x,
    {
        let d = (x % 10) as u32;
        let c = char_from_digit(d);
        let ghost before = rev@;
        rev.push(c);
        assert(rev@.reverse() =~= seq![c] + before.reverse());
        assert(dec_chars(x as nat) == dec_chars((x / 10) as nat).push(digit_char((x % 10) as nat)));
        assert(dec_chars((x / 10) as nat).push(c) + before.reverse() =~= dec_chars((x / 10) as nat)
            + rev@.reverse());
        x = x / 10;
    }
    assert(rev@.reverse() =~= dec_chars(v as nat));
    let mut digits: Vec<char> = Vec::new();
    if v == 0 {
        digits.push('0');
    } else {
        let mut i = rev.len();
        while i > 0
            invariant
                i <= rev@.len(),
                digits@ =~= rev@.reverse().subrange(0, (rev@.len() - i) as int),
            decreases i,
        {
            i = i - 1;
            digits.push(rev[i]);
        }
        assert(digits@ =~= rev@.reverse());
    }
    let ghost d = digits@;
    assert(d == (if v == 0 {
        seq!['0']
    } else {
        dec_chars(v as nat)
    }));
    if digits.len() >= width {
        return digits;
    }
    let mut out: Vec<char> = Vec::new();
    let z = width - digits.len();
    let mut k: usize = 0;
    while k < z
        invariant
            k <= z,
            out@ =~= Seq::new(k as nat, |i: int| '0'),
        decreases z - k,
    {
        out.push('0');
        k = k + 1;
    }
    let mut j: usize = 0;
    while j < digits.len()
        invariant
            j <= digits@.len(),
            out@ =~= Seq::new(z as nat, |i: int| '0') + digits@.subrange(0, j as int),
        decreases digits@.len() - j,
    {
        out.push(digits[j]);
        j = j + 1;
    }
    assert(digits@.subrange(0, j as int) =~= digits@);
    out
}

/// The ASCII digit character of `d < 10`.
fn char_from_digit(d: u32) -> (r: char)
    requires
        d < 10,
    ensures
        r == digit_char(d as nat),
{
    match d {
        0 => '0',
        1 => '1',
        2 => '2',
        3 => '3',
        4 => '4',
        5 => '5',
        6 => '6',
        7 => '7',
        8 => '8',
        _ => '9',
    }
}

/// Whether one of the strings is `s`.
pub fn texts_contain(v: &[String], s: &str) -> (r: bool)
    ensures
        r == texts(v@).contains(s@),
{
    let ghost views = texts(v@);
    let mut i: usize = 0;
    while i < v.len()
        invariant
            i <= v@.len(),
            views == texts(v@),
            forall|j: int| 0 <= j < i ==> views[j] != s@,
        decreases v@.len() - i,
    {
        if str_eq(v[i].as_str(), s) {
            assert(views[i as int] == s@);
            return true;
        }
        i = i + 1;
    }
    false
}

} // verus!
