//! Low-level, syntax-only XHTML/HTML scanning primitives over the UTF-8
//! bytes of a document.
//!
//! The scanner handles tag boundaries, names, and raw-text elements. Semantic
//! interpretation such as cover, stylesheet, layout, or position-bearing
//! status belongs to callers. Positions are byte offsets; a cursor moves over
//! whole characters.

use vstd::prelude::*;
use vstd::string::StringSliceAdditionalSpecFns;
use vstd::utf8::{
    is_char_boundary, is_char_boundary_iff_not_is_continuation_byte,
    is_char_boundary_start_end_of_seq, length_of_first_scalar, pop_first_scalar, valid_first_scalar,
    valid_utf8, valid_utf8_split,
};

verus! {

// ---------------------------------------------------------------------------
// Bytes and characters.

/// ASCII lowercase of a byte; other bytes are unchanged.
pub open spec fn lower(b: u8) -> u8 {
    if 65 <= b <= 90 {
        (b + 32) as u8
    } else {
        b
    }
}

/// Equality of byte strings up to ASCII case.
pub open spec fn ascii_ci_eq(a: Seq<u8>, b: Seq<u8>) -> bool {
    a.len() == b.len() && forall|i: int| 0 <= i < a.len() ==> lower(a[i]) == lower(b[i])
}

/// ASCII whitespace: space, tab, line feed, form feed, carriage return.
pub open spec fn is_ascii_ws(b: u8) -> bool {
    b == 32 || b == 9 || b == 10 || b == 12 || b == 13
}

/// Width of the character that a leading byte starts.
pub open spec fn char_width(b: u8) -> int {
    if b < 0x80 {
        1
    } else if b < 0xe0 {
        2
    } else if b < 0xf0 {
        3
    } else {
        4
    }
}

/// The position after the character at `c`, or the end when `c` is not at
/// the start of a character.
pub open spec fn adv(b: Seq<u8>, c: int) -> int {
    if 0 <= c < b.len() && !(0x80 <= b[c] < 0xc0) {
        if c + char_width(b[c]) < b.len() {
            c + char_width(b[c])
        } else {
            b.len() as int
        }
    } else {
        b.len() as int
    }
}

/// The byte at `i`, if any.
pub open spec fn at(b: Seq<u8>, i: int) -> Option<u8> {
    if 0 <= i < b.len() {
        Some(b[i])
    } else {
        None
    }
}

/// ASCII lowercase of a byte.
pub(crate) fn to_lower(b: u8) -> (r: u8)
    ensures
        r == lower(b),
{
    if 65 <= b && b <= 90 {
        b + 32
    } else {
        b
    }
}

/// Whether `b` is ASCII whitespace.
pub fn ascii_whitespace(b: u8) -> (r: bool)
    ensures
        r == is_ascii_ws(b),
{
    b == 32 || b == 9 || b == 10 || b == 12 || b == 13
}

/// Compare `left` with `right[from..from + left.len()]`, ignoring ASCII case.
fn ascii_eq_at(left: &[u8], right: &[u8], from: usize) -> (r: bool)
    requires
        from + left@.len() <= right@.len(),
    ensures
        r == ascii_ci_eq(left@, right@.subrange(from as int, from + left@.len())),
{
    let n = left.len();
    let m = right.len();
    let mut i: usize = 0;
    while i < n
        invariant
            n == left@.len(),
            m == right@.len(),
            i <= n,
            from + n <= right@.len(),
            forall|j: int| 0 <= j < i ==> lower(left@[j]) == lower(#[trigger] right@.subrange(from as int, from + n)[j]),
        decreases n - i,
    {
        if to_lower(left[i]) != to_lower(right[from + i]) {
            assert(right@.subrange(from as int, from + n)[i as int] == right@[from + i]);
            return false;
        }
        i = i + 1;
    }
    true
}

/// Equality of two byte strings up to ASCII case.
pub fn ascii_bytes_eq_ignore_case(left: &[u8], right: &[u8]) -> (r: bool)
    ensures
        r == ascii_ci_eq(left@, right@),
{
    if left.len() != right.len() {
        return false;
    }
    let r = ascii_eq_at(left, right, 0);
    assert(right@.subrange(0, left@.len() as int) =~= right@);
    r
}

/// Equality of two strings up to ASCII case, by their UTF-8 bytes.
pub fn str_eq_ignore_ascii_case(left: &str, right: &str) -> (r: bool)
    ensures
        r == ascii_ci_eq(left.spec_bytes(), right.spec_bytes()),
{
    ascii_bytes_eq_ignore_case(left.as_bytes(), right.as_bytes())
}

/// The position after the character that starts at `cursor`; the end of
/// the source when `cursor` is at or past the end.
pub fn advance_char(source: &str, cursor: usize) -> (r: usize)
    ensures
        r == adv(source.spec_bytes(), cursor as int),
{
    let bytes = source.as_bytes();
    advance_byte_char(bytes, cursor)
}

/// [`advance_char`] over bytes.
pub fn advance_byte_char(bytes: &[u8], cursor: usize) -> (r: usize)
    ensures
        r == adv(bytes@, cursor as int),
{
    let n = bytes.len();
    if cursor >= n {
        return n;
    }
    let b = bytes[cursor];
    if 0x80 <= b && b < 0xc0 {
        return n;
    }
    let width: usize = if b < 0x80 {
        1
    } else if b < 0xe0 {
        2
    } else if b < 0xf0 {
        3
    } else {
        4
    };
    if width < n - cursor {
        cursor + width
    } else {
        n
    }
}

// ---------------------------------------------------------------------------
// Character boundaries of valid UTF-8 text.

/// At an ASCII byte of valid UTF-8 text, and right after it, a character
/// starts.
pub proof fn lemma_ascii_boundary(b: Seq<u8>, i: int)
    requires
        valid_utf8(b),
        0 <= i < b.len(),
        b[i] < 0x80,
    ensures
        is_char_boundary(b, i),
        is_char_boundary(b, i + 1),
{
    is_char_boundary_iff_not_is_continuation_byte(b, i);
    if i + 1 == b.len() {
        is_char_boundary_start_end_of_seq(b);
    } else {
        valid_utf8_split(b, i);
        let t = b.subrange(i, b.len() as int);
        assert(t[0] == b[i]);
        assert(valid_first_scalar(t));
        assert(length_of_first_scalar(t) == 1);
        let p = pop_first_scalar(t);
        assert(p =~= b.subrange(i + 1, b.len() as int));
        assert(p.len() > 0);
        assert(valid_utf8(t));
        assert(valid_utf8(p));
        assert(valid_first_scalar(p));
        assert(p[0] == b[i + 1]);
        is_char_boundary_iff_not_is_continuation_byte(b, i + 1);
    }
}

/// The bytes between two character boundaries of valid UTF-8 text are
/// valid UTF-8.
pub proof fn lemma_utf8_slice(b: Seq<u8>, a: int, e: int)
    requires
        valid_utf8(b),
        0 <= a <= e <= b.len(),
        is_char_boundary(b, a),
        is_char_boundary(b, e),
    ensures
        valid_utf8(b.subrange(a, e)),
{
    valid_utf8_split(b, e);
    let p = b.subrange(0, e);
    if a < e {
        is_char_boundary_iff_not_is_continuation_byte(b, a);
        is_char_boundary_iff_not_is_continuation_byte(p, a);
        assert(p[a] == b[a]);
    } else {
        is_char_boundary_start_end_of_seq(p);
    }
    valid_utf8_split(p, a);
    assert(p.subrange(a, e) =~= b.subrange(a, e));
}

// ---------------------------------------------------------------------------
// Searching.

/// First position at or after `i` where `needle` occurs in `b`, up to ASCII case.
pub open spec fn first_ci_match(b: Seq<u8>, needle: Seq<u8>, i: int) -> Option<int>
    decreases b.len() - i,
{
    if i < 0 || i + needle.len() > b.len() {
        None
    } else if ascii_ci_eq(b.subrange(i, i + needle.len()), needle) {
        Some(i)
    } else {
        first_ci_match(b, needle, i + 1)
    }
}

/// Find an ASCII needle at or after `start`, ignoring ASCII case, without
/// allocating a lowercased copy of `source`. An empty needle is found at
/// `start` (clamped to the end).
pub fn find_ascii_case_insensitive(source: &str, needle: &str, start: usize) -> (r: Option<usize>)
    ensures
        r == (if needle.spec_bytes().len() == 0 {
            Some(if start <= source.spec_bytes().len() { start } else { source.spec_bytes().len() as usize })
        } else if start > source.spec_bytes().len() {
            None::<usize>
        } else {
            match first_ci_match(source.spec_bytes(), needle.spec_bytes(), start as int) {
                Some(p) => Some(p as usize),
                None => None::<usize>,
            }
        }),
{
    let bytes = source.as_bytes();
    let nd = needle.as_bytes();
    let n = bytes.len();
    if nd.len() == 0 {
        return Some(if start <= n { start } else { n });
    }
    if start > n {
        return None;
    }
    let mut i = start;
    while i <= n && nd.len() <= n - i
        invariant
            n == bytes@.len(),
            bytes@ == source.spec_bytes(),
            nd@ == needle.spec_bytes(),
            nd@.len() > 0,
            start <= n,
            start <= i,
            i <= n + 1,
            first_ci_match(bytes@, nd@, i as int) == first_ci_match(bytes@, nd@, start as int),
        decreases n + 1 - i,
    {
        if ascii_eq_at(nd, bytes, i) {
            assert(first_ci_match(bytes@, nd@, i as int) == Some(i as int));
            return Some(i);
        }
        i = i + 1;
    }
    None
}

/// Some window of `source` equals `needle` up to ASCII case.
pub open spec fn contains_ci(source: Seq<u8>, needle: Seq<u8>) -> bool {
    exists|i: int|
        0 <= i && i + needle.len() <= source.len() && #[trigger] ascii_ci_eq(
            source.subrange(i, i + needle.len()),
            needle,
        )
}

proof fn lemma_first_ci_match(b: Seq<u8>, needle: Seq<u8>, i: int)
    requires
        0 <= i,
    ensures
        first_ci_match(b, needle, i) is None ==> forall|j: int|
            i <= j && j + needle.len() <= b.len() ==> !#[trigger] ascii_ci_eq(
                b.subrange(j, j + needle.len()),
                needle,
            ),
        first_ci_match(b, needle, i) matches Some(p) ==> i <= p && p + needle.len() <= b.len()
            && ascii_ci_eq(b.subrange(p, p + needle.len()), needle),
    decreases b.len() - i,
{
    if i + needle.len() <= b.len() && !ascii_ci_eq(b.subrange(i, i + needle.len()), needle) {
        lemma_first_ci_match(b, needle, i + 1);
    }
}

/// Whether `needle` occurs in `source`, ignoring ASCII case; the empty
/// needle always occurs.
pub fn contains_ascii_case_insensitive_bytes(source: &[u8], needle: &[u8]) -> (r: bool)
    ensures
        r == (needle@.len() == 0 || contains_ci(source@, needle@)),
{
    if needle.len() == 0 {
        return true;
    }
    let n = source.len();
    let mut i: usize = 0;
    while i <= n && needle.len() <= n - i
        invariant
            n == source@.len(),
            i <= n + 1,
            first_ci_match(source@, needle@, i as int) == first_ci_match(source@, needle@, 0),
        decreases n + 1 - i,
    {
        if ascii_eq_at(needle, source, i) {
            proof {
                assert(ascii_ci_eq(source@.subrange(i as int, i + needle@.len()), needle@));
            }
            return true;
        }
        i = i + 1;
    }
    proof {
        lemma_first_ci_match(source@, needle@, 0);
    }
    false
}

/// Whether any non-empty needle occurs in `source`, ignoring ASCII case.
pub fn contains_any_ascii_case_insensitive(source: &str, needles: &[&str]) -> (r: bool)
    ensures
        r == exists|k: int|
            0 <= k < needles@.len() && (#[trigger] needles@[k]).spec_bytes().len() > 0 && contains_ci(
                source.spec_bytes(),
                needles@[k].spec_bytes(),
            ),
{
    let bytes = source.as_bytes();
    let mut k: usize = 0;
    while k < needles.len()
        invariant
            bytes@ == source.spec_bytes(),
            k <= needles@.len(),
            forall|j: int|
                0 <= j < k ==> !((#[trigger] needles@[j]).spec_bytes().len() > 0 && contains_ci(
                    source.spec_bytes(),
                    needles@[j].spec_bytes(),
                )),
        decreases needles@.len() - k,
    {
        let needle = needles[k].as_bytes();
        if needle.len() > 0 && contains_ascii_case_insensitive_bytes(bytes, needle) {
            return true;
        }
        k = k + 1;
    }
    false
}

// ---------------------------------------------------------------------------
// Tags.

pub proof fn lemma_adv(b: Seq<u8>, c: int)
    requires
        0 <= c < b.len(),
    ensures
        c < adv(b, c) <= b.len(),
{
}

/// The first `>` outside quotes at or after `c`.
pub open spec fn tag_end_from(b: Seq<u8>, c: int, q: Option<u8>) -> Option<int>
    decreases b.len() - c,
{
    if c < 0 || c >= b.len() {
        None
    } else {
        let byte = b[c];
        match q {
            Some(e) => tag_end_from(b, adv(b, c), if byte == e { None } else { q }),
            None => if byte == 34 || byte == 39 {
                tag_end_from(b, adv(b, c), Some(byte))
            } else if byte == 62 {
                Some(c)
            } else {
                tag_end_from(b, adv(b, c), None)
            },
        }
    }
}

/// The `>` that ends the tag opened at `start`.
pub open spec fn tag_end(b: Seq<u8>, start: int) -> Option<int> {
    tag_end_from(b, start + 1, None)
}

pub proof fn lemma_tag_end_from(b: Seq<u8>, c: int, q: Option<u8>)
    requires
        0 <= c,
    ensures
        tag_end_from(b, c, q) matches Some(t) ==> c <= t < b.len() && b[t] == 62,
    decreases b.len() - c,
{
    if c < b.len() {
        let byte = b[c];
        lemma_adv(b, c);
        match q {
            Some(e) => lemma_tag_end_from(b, adv(b, c), if byte == e { None } else { q }),
            None => if byte == 34 || byte == 39 {
                lemma_tag_end_from(b, adv(b, c), Some(byte));
            } else if byte != 62 {
                lemma_tag_end_from(b, adv(b, c), None);
            },
        }
    }
}

/// Find the `>` that ends the tag starting at `start`, skipping quoted
/// attribute values.
pub fn html_tag_end(source: &str, start: usize) -> (r: Option<usize>)
    ensures
        r == (match tag_end(source.spec_bytes(), start as int) {
            Some(t) => Some(t as usize),
            None => None::<usize>,
        }),
{
    byte_tag_end(source.as_bytes(), start)
}

/// [`html_tag_end`] over bytes.
pub fn byte_tag_end(bytes: &[u8], start: usize) -> (r: Option<usize>)
    ensures
        r == (match tag_end(bytes@, start as int) {
            Some(t) => Some(t as usize),
            None => None::<usize>,
        }),
        r matches Some(t) ==> start < t < bytes@.len(),
{
    let n = bytes.len();
    proof {
        lemma_tag_end_from(bytes@, start + 1, None);
    }
    if start >= n {
        return None;
    }
    let mut cursor = start + 1;
    let mut quote: Option<u8> = None;
    while cursor < n
        invariant
            n == bytes@.len(),
            start < cursor <= n,
            tag_end_from(bytes@, cursor as int, quote) == tag_end(bytes@, start as int),
        decreases n - cursor,
    {
        let byte = bytes[cursor];
        match quote {
            Some(e) => {
                if byte == e {
                    quote = None;
                }
            },
            None => {
                if byte == 34 || byte == 39 {
                    quote = Some(byte);
                } else if byte == 62 {
                    return Some(cursor);
                }
            },
        }
        cursor = advance_byte_char(bytes, cursor);
    }
    None
}

/// Skip ASCII whitespace from `c`, staying before `tag_end`.
pub open spec fn skip_ws(b: Seq<u8>, c: int, tag_end: int) -> int
    decreases tag_end - c,
{
    if 0 <= c < tag_end && c < b.len() && is_ascii_ws(b[c]) {
        skip_ws(b, c + 1, tag_end)
    } else {
        c
    }
}

/// The end of a tag name that starts at `c`.
pub open spec fn name_end_from(b: Seq<u8>, c: int, tag_end: int) -> int
    decreases b.len() - c,
{
    if 0 <= c < tag_end && c < b.len() && !is_ascii_ws(b[c]) && b[c] != 47 && b[c] != 62 {
        name_end_from(b, adv(b, c), tag_end)
    } else {
        c
    }
}

/// The name of the tag `b[start..tag_end]` and whether it closes an element;
/// with `leading`, whitespace before the name is skipped.
pub open spec fn tag_name_range(b: Seq<u8>, start: int, tag_end: int, leading: bool) -> Option<(int, int, bool)> {
    let c0 = start + 1;
    let closing = at(b, c0) == Some(47u8);
    let c1 = if closing { c0 + 1 } else { c0 };
    let c2 = if leading { skip_ws(b, c1, tag_end) } else { c1 };
    if c2 >= tag_end || b[c2] == 33 || b[c2] == 63 {
        None
    } else {
        let e = name_end_from(b, c2, tag_end);
        if c2 < e {
            Some((c2, e, closing))
        } else {
            None
        }
    }
}

pub proof fn lemma_name_end_from(b: Seq<u8>, c: int, tag_end: int)
    requires
        0 <= c,
    ensures
        c <= name_end_from(b, c, tag_end),
        c < b.len() ==> name_end_from(b, c, tag_end) <= b.len(),
    decreases b.len() - c,
{
    if 0 <= c < tag_end && c < b.len() && !is_ascii_ws(b[c]) && b[c] != 47 && b[c] != 62 {
        lemma_adv(b, c);
        lemma_name_end_from(b, adv(b, c), tag_end);
    }
}

pub proof fn lemma_skip_ws(b: Seq<u8>, c: int, tag_end: int)
    requires
        0 <= c,
    ensures
        c <= skip_ws(b, c, tag_end),
        c <= tag_end ==> skip_ws(b, c, tag_end) <= tag_end,
    decreases tag_end - c,
{
    if 0 <= c < tag_end && c < b.len() && is_ascii_ws(b[c]) {
        lemma_skip_ws(b, c + 1, tag_end);
    }
}

pub proof fn lemma_tag_name_range(b: Seq<u8>, start: int, tag_end: int, leading: bool)
    requires
        0 <= start,
        tag_end <= b.len(),
    ensures
        tag_name_range(b, start, tag_end, leading) matches Some((a, e, c)) ==> start < a < e <= b.len(),
{
    let c0 = start + 1;
    let closing = at(b, c0) == Some(47u8);
    let c1 = if closing { c0 + 1 } else { c0 };
    lemma_skip_ws(b, c1, tag_end);
    let c2 = if leading { skip_ws(b, c1, tag_end) } else { c1 };
    if !(c2 >= tag_end || b[c2] == 33 || b[c2] == 63) {
        lemma_name_end_from(b, c2, tag_end);
    }
}

/// Tag name range over bytes.
pub fn byte_tag_name_range(bytes: &[u8], start: usize, tag_end: usize, leading: bool) -> (r: Option<
    (usize, usize, bool),
>)
    requires
        tag_end <= bytes@.len(),
    ensures
        r == (match tag_name_range(bytes@, start as int, tag_end as int, leading) {
            Some((a, e, c)) => Some((a as usize, e as usize, c)),
            None => None::<(usize, usize, bool)>,
        }),
        r matches Some((a, e, c)) ==> start < a < e <= bytes@.len(),
{
    let n = bytes.len();
    if start >= tag_end {
        return None;
    }
    let mut cursor = start + 1;
    let closing = cursor < n && bytes[cursor] == 47;
    if closing {
        cursor = cursor + 1;
    }
    if leading {
        proof {
            lemma_skip_ws(bytes@, cursor as int, tag_end as int);
        }
        let ghost c1 = cursor as int;
        while cursor < tag_end && ascii_whitespace(bytes[cursor])
            invariant
                tag_end <= n,
                n == bytes@.len(),
                c1 <= cursor,
                skip_ws(bytes@, cursor as int, tag_end as int) == skip_ws(bytes@, c1, tag_end as int),
            decreases tag_end - cursor,
        {
            cursor = cursor + 1;
        }
    }
    if cursor >= tag_end || bytes[cursor] == 33 || bytes[cursor] == 63 {
        return None;
    }
    let name_start = cursor;
    proof {
        lemma_name_end_from(bytes@, cursor as int, tag_end as int);
    }
    while cursor < tag_end && !ascii_whitespace(bytes[cursor]) && bytes[cursor] != 47 && bytes[cursor]
        != 62
        invariant
            tag_end <= n,
            n == bytes@.len(),
            name_start <= cursor <= n,
            name_end_from(bytes@, cursor as int, tag_end as int) == name_end_from(
                bytes@,
                name_start as int,
                tag_end as int,
            ),
        decreases n - cursor,
    {
        cursor = advance_byte_char(bytes, cursor);
    }
    if name_start < cursor {
        Some((name_start, cursor, closing))
    } else {
        None
    }
}

/// The name of the tag `source[start..tag_end]` and whether it closes an element.
pub fn html_tag_name_range(source: &str, start: usize, tag_end: usize) -> (r: Option<
    (usize, usize, bool),
>)
    requires
        tag_end <= source.spec_bytes().len(),
    ensures
        r == (match tag_name_range(source.spec_bytes(), start as int, tag_end as int, false) {
            Some((a, e, c)) => Some((a as usize, e as usize, c)),
            None => None::<(usize, usize, bool)>,
        }),
{
    byte_tag_name_range(source.as_bytes(), start, tag_end, false)
}

/// Like [`html_tag_name_range`], skipping whitespace before the name.
pub fn html_tag_name_range_with_leading_space(source: &str, start: usize, tag_end: usize) -> (r:
    Option<(usize, usize, bool)>)
    requires
        tag_end <= source.spec_bytes().len(),
    ensures
        r == (match tag_name_range(source.spec_bytes(), start as int, tag_end as int, true) {
            Some((a, e, c)) => Some((a as usize, e as usize, c)),
            None => None::<(usize, usize, bool)>,
        }),
{
    byte_tag_name_range(source.as_bytes(), start, tag_end, true)
}

// ---------------------------------------------------------------------------
// Local names.

/// Start of the part of `s` after its last `:`, searching below `i`.
pub open spec fn local_start(s: Seq<u8>, i: int) -> int
    decreases i,
{
    if i <= 0 {
        0
    } else if s[i - 1] == 58 {
        i
    } else {
        local_start(s, i - 1)
    }
}

/// The local part of a qualified name equals `wanted` up to ASCII case.
pub open spec fn local_name_is(name: Seq<u8>, wanted: Seq<u8>) -> bool {
    ascii_ci_eq(name.subrange(local_start(name, name.len() as int), name.len() as int), wanted)
}

proof fn lemma_local_start(s: Seq<u8>, i: int)
    requires
        0 <= i <= s.len(),
    ensures
        0 <= local_start(s, i) <= i,
    decreases i,
{
    if i > 0 && s[i - 1] != 58 {
        lemma_local_start(s, i - 1);
    }
}

/// Whether the local part of `bytes[start..end]` equals `wanted` up to ASCII case.
pub fn byte_local_name_is(bytes: &[u8], start: usize, end: usize, wanted: &[u8]) -> (r: bool)
    requires
        start <= end <= bytes@.len(),
    ensures
        r == local_name_is(bytes@.subrange(start as int, end as int), wanted@),
{
    let ghost name = bytes@.subrange(start as int, end as int);
    let mut i = end;
    proof {
        lemma_local_start(name, name.len() as int);
    }
    while i > start && bytes[i - 1] != 58
        invariant
            start <= i <= end,
            end <= bytes@.len(),
            name == bytes@.subrange(start as int, end as int),
            local_start(name, i - start) == local_start(name, name.len() as int),
        decreases i,
    {
        assert(name[i - start - 1] == bytes@[i - 1]);
        i = i - 1;
    }
    proof {
        if i > start {
            assert(name[i - start - 1] == bytes@[i - 1]);
        }
    }
    let ghost local = name.subrange(i - start, name.len() as int);
    assert(local =~= bytes@.subrange(i as int, end as int));
    if wanted.len() != end - i {
        return false;
    }
    let mut window: Vec<u8> = Vec::new();
    let mut j = i;
    while j < end
        invariant
            i <= j <= end,
            end <= bytes@.len(),
            window@ == bytes@.subrange(i as int, j as int),
        decreases end - j,
    {
        window.push(bytes[j]);
        j = j + 1;
        assert(window@ =~= bytes@.subrange(i as int, j as int));
    }
    ascii_bytes_eq_ignore_case(window.as_slice(), wanted)
}

/// Whether the local part of the qualified name `source[start..end]` equals
/// `wanted`, ignoring ASCII case.
pub fn html_local_name_is(source: &str, start: usize, end: usize, wanted: &str) -> (r: bool)
    requires
        start <= end <= source.spec_bytes().len(),
    ensures
        r == local_name_is(source.spec_bytes().subrange(start as int, end as int), wanted.spec_bytes()),
{
    byte_local_name_is(source.as_bytes(), start, end, wanted.as_bytes())
}

/// Whether the local part of the qualified name `name` equals `wanted`,
/// ignoring ASCII case.
pub fn html_local_name_is_text(name: &str, wanted: &str) -> (r: bool)
    ensures
        r == local_name_is(name.spec_bytes(), wanted.spec_bytes()),
{
    let bytes = name.as_bytes();
    let r = byte_local_name_is(bytes, 0, bytes.len(), wanted.as_bytes());
    assert(bytes@.subrange(0, bytes@.len() as int) =~= bytes@);
    r
}

// ---------------------------------------------------------------------------
// Raw-text elements.

/// How a scan for a closing tag ended.
#[derive(Debug, Clone, Copy, PartialEq, Eq)]
pub enum RawScan {
    /// The closing tag spans `start..=end` (`end` is its `>`).
    Found(usize, usize),
    /// A closing tag was opened but never ended.
    Unterminated,
    /// The source ended first.
    Exhausted,
}

/// The state of a raw-text scan: the open quote and whether a block, line
/// or HTML comment is open.
pub struct ScanState {
    pub quote: Option<u8>,
    pub block: bool,
    pub line: bool,
    pub html: bool,
}

/// Scan raw text from `c` for the closing tag named `name`, skipping
/// comments and quoted strings; `script` enables `//` line comments and
/// `leading` allows whitespace before a closing tag's name.
pub open spec fn raw_scan(
    b: Seq<u8>,
    c: int,
    q: Option<u8>,
    bc: bool,
    lc: bool,
    hc: bool,
    script: bool,
    name: Seq<u8>,
    leading: bool,
) -> RawScan
    decreases b.len() - c,
{
    if c < 0 || c >= b.len() {
        RawScan::Exhausted
    } else {
        let byte = b[c];
        if hc {
            if byte == 45 && at(b, c + 1) == Some(45u8) && at(b, c + 2) == Some(62u8) {
                raw_scan(b, c + 3, q, bc, lc, false, script, name, leading)
            } else {
                raw_scan(b, adv(b, c), q, bc, lc, true, script, name, leading)
            }
        } else if bc {
            if byte == 42 && at(b, c + 1) == Some(47u8) {
                raw_scan(b, c + 2, q, false, lc, hc, script, name, leading)
            } else {
                raw_scan(b, adv(b, c), q, true, lc, hc, script, name, leading)
            }
        } else if lc {
            raw_scan(b, adv(b, c), q, bc, !(byte == 13 || byte == 10), hc, script, name, leading)
        } else if q is Some {
            if byte == 92 {
                let c1 = adv(b, c);
                raw_scan(
                    b,
                    if c1 < b.len() { adv(b, c1) } else { c1 },
                    q,
                    bc,
                    lc,
                    hc,
                    script,
                    name,
                    leading,
                )
            } else {
                raw_scan(
                    b,
                    adv(b, c),
                    if Some(byte) == q { None } else { q },
                    bc,
                    lc,
                    hc,
                    script,
                    name,
                    leading,
                )
            }
        } else if byte == 60 && at(b, c + 1) == Some(33u8) && at(b, c + 2) == Some(45u8) && at(b, c + 3)
            == Some(45u8) {
            raw_scan(b, c + 4, q, bc, lc, true, script, name, leading)
        } else if byte == 47 && at(b, c + 1) == Some(42u8) {
            raw_scan(b, c + 2, q, true, lc, hc, script, name, leading)
        } else if script && byte == 47 && at(b, c + 1) == Some(47u8) {
            raw_scan(b, c + 2, q, bc, true, hc, script, name, leading)
        } else if byte == 39 || byte == 34 || byte == 96 {
            raw_scan(b, adv(b, c), Some(byte), bc, lc, hc, script, name, leading)
        } else if byte == 60 && at(b, c + 1) == Some(47u8) {
            match tag_end(b, c) {
                None => RawScan::Unterminated,
                Some(te) => {
                    proof {
                        lemma_tag_end_from(b, c + 1, None);
                    }
                    let found = match tag_name_range(b, c, te, leading) {
                        Some((ns, ne, closing)) => closing && local_name_is(b.subrange(ns, ne), name),
                        None => false,
                    };
                    if found {
                        RawScan::Found(c as usize, te as usize)
                    } else {
                        raw_scan(b, te + 1, q, bc, lc, hc, script, name, leading)
                    }
                },
            }
        } else {
            raw_scan(b, adv(b, c), q, bc, lc, hc, script, name, leading)
        }
    }
}

/// A closing tag that a raw scan finds lies at or after where it started.
pub proof fn lemma_raw_scan(
    b: Seq<u8>,
    c: int,
    q: Option<u8>,
    bc: bool,
    lc: bool,
    hc: bool,
    script: bool,
    name: Seq<u8>,
    leading: bool,
)
    requires
        b.len() <= usize::MAX,
    ensures
        raw_scan(b, c, q, bc, lc, hc, script, name, leading) matches RawScan::Found(a, e) ==> c <= a
            < e < b.len() && b[a as int] == 60,
    decreases b.len() - c,
{
    if 0 <= c < b.len() {
        let byte = b[c];
        lemma_adv(b, c);
        let a1 = adv(b, c);
        if hc {
            if byte == 45 && at(b, c + 1) == Some(45u8) && at(b, c + 2) == Some(62u8) {
                lemma_raw_scan(b, c + 3, q, bc, lc, false, script, name, leading);
            } else {
                lemma_raw_scan(b, a1, q, bc, lc, true, script, name, leading);
            }
        } else if bc {
            if byte == 42 && at(b, c + 1) == Some(47u8) {
                lemma_raw_scan(b, c + 2, q, false, lc, hc, script, name, leading);
            } else {
                lemma_raw_scan(b, a1, q, true, lc, hc, script, name, leading);
            }
        } else if lc {
            lemma_raw_scan(b, a1, q, bc, !(byte == 13 || byte == 10), hc, script, name, leading);
        } else if q is Some {
            if byte == 92 {
                if a1 < b.len() {
                    lemma_adv(b, a1);
                }
                lemma_raw_scan(
                    b,
                    if a1 < b.len() { adv(b, a1) } else { a1 },
                    q,
                    bc,
                    lc,
                    hc,
                    script,
                    name,
                    leading,
                );
            } else {
                lemma_raw_scan(
                    b,
                    a1,
                    if Some(byte) == q { None } else { q },
                    bc,
                    lc,
                    hc,
                    script,
                    name,
                    leading,
                );
            }
        } else if byte == 60 && at(b, c + 1) == Some(33u8) && at(b, c + 2) == Some(45u8) && at(b, c + 3)
            == Some(45u8) {
            lemma_raw_scan(b, c + 4, q, bc, lc, true, script, name, leading);
        } else if byte == 47 && at(b, c + 1) == Some(42u8) {
            lemma_raw_scan(b, c + 2, q, true, lc, hc, script, name, leading);
        } else if script && byte == 47 && at(b, c + 1) == Some(47u8) {
            lemma_raw_scan(b, c + 2, q, bc, true, hc, script, name, leading);
        } else if byte == 39 || byte == 34 || byte == 96 {
            lemma_raw_scan(b, a1, Some(byte), bc, lc, hc, script, name, leading);
        } else if byte == 60 && at(b, c + 1) == Some(47u8) {
            lemma_tag_end_from(b, c + 1, None);
            match tag_end(b, c) {
                None => {},
                Some(te) => {
                    lemma_raw_scan(b, te + 1, q, bc, lc, hc, script, name, leading);
                },
            }
        } else {
            lemma_raw_scan(b, a1, q, bc, lc, hc, script, name, leading);
        }
    }
}

/// Scan raw text from `start` for the closing tag named `name`.
pub fn scan_raw_text(bytes: &[u8], start: usize, name: &[u8], script: bool, leading: bool) -> (r:
    RawScan)
    ensures
        r == raw_scan(bytes@, start as int, None, false, false, false, script, name@, leading),
        r matches RawScan::Found(a, e) ==> e < bytes@.len(),
{
    let ghost target = raw_scan(bytes@, start as int, None, false, false, false, script, name@, leading);
    let n = bytes.len();
    let mut cursor = start;
    let mut quote: Option<u8> = None;
    let mut block_comment = false;
    let mut line_comment = false;
    let mut html_comment = false;
    while cursor < n
        invariant
            n == bytes@.len(),
            target == raw_scan(bytes@, start as int, None, false, false, false, script, name@, leading),
            target == raw_scan(
                bytes@,
                cursor as int,
                quote,
                block_comment,
                line_comment,
                html_comment,
                script,
                name@,
                leading,
            ),
        decreases n - cursor,
    {
        let byte = bytes[cursor];
        proof {
            lemma_adv(bytes@, cursor as int);
        }
        if html_comment {
            if byte == 45 && n - cursor > 2 && bytes[cursor + 1] == 45 && bytes[cursor + 2] == 62 {
                html_comment = false;
                cursor = cursor + 3;
            } else {
                proof {
                    assert(!(byte == 45 && at(bytes@, cursor + 1) == Some(45u8) && at(bytes@, cursor + 2) == Some(62u8)));
                }
                cursor = advance_byte_char(bytes, cursor);
            }
        } else if block_comment {
            if byte == 42 && n - cursor > 1 && bytes[cursor + 1] == 47 {
                block_comment = false;
                cursor = cursor + 2;
            } else {
                cursor = advance_byte_char(bytes, cursor);
            }
        } else if line_comment {
            if byte == 13 || byte == 10 {
                line_comment = false;
            }
            cursor = advance_byte_char(bytes, cursor);
        } else if quote.is_some() {
            if byte == 92 {
                cursor = advance_byte_char(bytes, cursor);
                if cursor < n {
                    cursor = advance_byte_char(bytes, cursor);
                }
            } else {
                let closes = match quote {
                    Some(d) => d == byte,
                    None => false,
                };
                if closes {
                    quote = None;
                }
                cursor = advance_byte_char(bytes, cursor);
            }
        } else if byte == 60 && n - cursor > 3 && bytes[cursor + 1] == 33 && bytes[cursor + 2] == 45
            && bytes[cursor + 3] == 45 {
            html_comment = true;
            cursor = cursor + 4;
        } else if byte == 47 && n - cursor > 1 && bytes[cursor + 1] == 42 {
            block_comment = true;
            cursor = cursor + 2;
        } else if script && byte == 47 && n - cursor > 1 && bytes[cursor + 1] == 47 {
            line_comment = true;
            cursor = cursor + 2;
        } else if byte == 39 || byte == 34 || byte == 96 {
            quote = Some(byte);
            cursor = advance_byte_char(bytes, cursor);
        } else if byte == 60 && n - cursor > 1 && bytes[cursor + 1] == 47 {
            let candidate_end = match byte_tag_end(bytes, cursor) {
                Some(t) => t,
                None => {
                    return RawScan::Unterminated;
                },
            };
            let found = match byte_tag_name_range(bytes, cursor, candidate_end, leading) {
                Some((ns, ne, closing)) => closing && byte_local_name_is(bytes, ns, ne, name),
                None => false,
            };
            proof {
                let te = candidate_end as int;
                lemma_tag_end_from(bytes@, cursor + 1, None);
                match tag_end(bytes@, cursor as int) {
                    Some(tt) => {
                        assert(tt as usize == candidate_end);
                    },
                    None => {},
                }
                assert(tag_end(bytes@, cursor as int) == Some(te));
                let sf = match tag_name_range(bytes@, cursor as int, te, leading) {
                    Some((ns, ne, closing)) => closing && local_name_is(bytes@.subrange(ns, ne), name@),
                    None => false,
                };
                match tag_name_range(bytes@, cursor as int, te, leading) {
                    Some((ns, ne, closing)) => {
                        lemma_name_end_from(bytes@, ns, te);
                        assert(found == sf);
                    },
                    None => {},
                }
                assert(found == sf);
            }
            if found {
                return RawScan::Found(cursor, candidate_end);
            }
            cursor = candidate_end + 1;
        } else {
            cursor = advance_byte_char(bytes, cursor);
        }
    }
    RawScan::Exhausted
}

/// The end of the raw text of the `script` or `style` element whose start
/// tag is `source[start..=tag_end]`: the byte after its closing tag, or the
/// end of the source. `None` for other elements, closing and self-closing tags.
pub open spec fn raw_text_end_spec(b: Seq<u8>, start: int, tag_end: int) -> Option<int> {
    match tag_name_range(b, start, tag_end, false) {
        None => None,
        Some((ns, ne, closing)) => if closing {
            None
        } else {
            let ce = content_end(b, start, tag_end);
            if ce >= 1 && b[ce - 1] == 47 {
                None
            } else if !local_name_is(b.subrange(ns, ne), script_bytes())
                && !local_name_is(b.subrange(ns, ne), style_bytes()) {
                None
            } else {
                let script = local_name_is(b.subrange(ns, ne), script_bytes());
                let name = if script {
                    script_bytes()
                } else {
                    style_bytes()
                };
                match raw_scan(b, tag_end + 1, None, false, false, false, script, name, false) {
                    RawScan::Found(_, te) => Some(te + 1),
                    _ => Some(b.len() as int),
                }
            }
        },
    }
}

/// `tag_end` without trailing ASCII whitespace, not below `start`.
pub open spec fn content_end(b: Seq<u8>, start: int, e: int) -> int
    decreases e - start,
{
    if e > start && 0 < e <= b.len() && is_ascii_ws(b[e - 1]) {
        content_end(b, start, e - 1)
    } else {
        e
    }
}

/// The bytes of `script`.
pub open spec fn script_bytes() -> Seq<u8> {
    seq![115u8, 99u8, 114u8, 105u8, 112u8, 116u8]
}

/// The bytes of `style`.
pub open spec fn style_bytes() -> Seq<u8> {
    seq![115u8, 116u8, 121u8, 108u8, 101u8]
}

fn script_name() -> (v: Vec<u8>)
    ensures
        v@ == script_bytes(),
{
    let mut v: Vec<u8> = Vec::new();
    v.push(115);
    v.push(99);
    v.push(114);
    v.push(105);
    v.push(112);
    v.push(116);
    assert(v@ =~= script_bytes());
    v
}

fn style_name() -> (v: Vec<u8>)
    ensures
        v@ == style_bytes(),
{
    let mut v: Vec<u8> = Vec::new();
    v.push(115);
    v.push(116);
    v.push(121);
    v.push(108);
    v.push(101);
    assert(v@ =~= style_bytes());
    v
}

/// The end of the raw text of a `script` or `style` element whose start tag
/// is `source[start..=tag_end]`: the byte after the matching closing tag, or
/// the end of the source when there is none.
pub fn html_raw_text_end(source: &str, start: usize, tag_end: usize) -> (r: Option<usize>)
    requires
        tag_end < source.spec_bytes().len(),
    ensures
        r == (match raw_text_end_spec(source.spec_bytes(), start as int, tag_end as int) {
            Some(e) => Some(e as usize),
            None => None::<usize>,
        }),
{
    let bytes = source.as_bytes();
    let ghost b = bytes@;
    let n = bytes.len();
    let (ns, ne, closing) = match byte_tag_name_range(bytes, start, tag_end, false) {
        Some(x) => x,
        None => {
            return None;
        },
    };
    proof {
        match tag_name_range(b, start as int, tag_end as int, false) {
            Some((a, e, c)) => {
                lemma_tag_name_range(b, start as int, tag_end as int, false);
                assert(a as usize == ns && e as usize == ne && c == closing);
                assert(a == ns as int && e == ne as int);
            },
            None => {},
        }
    }
    if closing {
        return None;
    }
    let mut ce = tag_end;
    while ce > start && ascii_whitespace(bytes[ce - 1])
        invariant
            ce <= tag_end,
            tag_end < b.len(),
            b == bytes@,
            content_end(b, start as int, ce as int) == content_end(b, start as int, tag_end as int),
        decreases ce,
    {
        ce = ce - 1;
    }
    if ce >= 1 && bytes[ce - 1] == 47 {
        return None;
    }
    let script = script_name();
    let style = style_name();
    let is_script = byte_local_name_is(bytes, ns, ne, script.as_slice());
    if !is_script && !byte_local_name_is(bytes, ns, ne, style.as_slice()) {
        return None;
    }
    let name = if is_script {
        script
    } else {
        style
    };
    match scan_raw_text(bytes, tag_end + 1, name.as_slice(), is_script, false) {
        RawScan::Found(_, te) => Some(te + 1),
        _ => Some(bytes.len()),
    }
}

} // verus!
