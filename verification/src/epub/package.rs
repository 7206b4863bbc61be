//! The EPUB archive and its package-level checks: opening the archive and
//! its package document, the text encodings of documents and stylesheets,
//! media types that the KF8 projection refuses, content documents, SVG
//! wrapping, rendition semantics and what each manifest entry becomes.

use vstd::prelude::*;
use vstd::string::{StrSliceExecFns, StringSliceAdditionalSpecFns};
use vstd::utf8::{
    decode_utf8, encode_utf8, encode_utf8_decode_utf8, is_char_boundary,
    is_char_boundary_iff_not_is_continuation_byte, is_char_boundary_start_end_of_seq, valid_utf8,
};
use crate::book::layout::{RenditionAlign, RenditionSemantics};
use crate::book::resource::{Resource, Resources};
use crate::book::{Book, ContentDocument, Navigation, ReadingOrder};
use crate::book::layout::WritingMode;
use crate::book::metadata::MetadataView;
use crate::book::style::{ComputedStyle, CssRule, StyleSheet, Styles, style_of};
use crate::epub::xhtml::{inferred_layout, infer_layout, parse_document_root_writing_mode, root_mode_of, root_modes_checked};
use crate::epub::opf::{ManifestItem, ManifestItemView, SpineItemView, copy_strings, has_property, has_text_ci};
use crate::error::Error;
use crate::strings::{
    texts, lead_ws, lemma_lead_ws, lower_chars, lower_eq, lower_vec, push_str_chars, str_chars,
    string_from_chars, trim_spec, trim_str, utf16_decode, utf16_string, utf8_text,
};
use crate::xhtml::scan::{lemma_ascii_boundary, lemma_utf8_slice, lower, to_lower};
use crate::epub::opf::{
    ParsedOpf, ParsedOpfView, RootfileFailure, initial_reader, manifest_views, no_manifest_or_spine, no_rootfile,
    opf_finished, opf_read, parse_opf, parse_rootfile, rootfile_read,
};
use crate::epub::xhtml::{ScanOutcome, mathml_read, scripting_from, scripting_media_check, srcset_object_read};
use std::io::{Cursor, Read};
use zip::ZipArchive;
use crate::strings::{decimal, opt_text};
use crate::epub::xhtml::collision_id;

verus! {

// ---------------------------------------------------------------------------
// Text kinds and encodings.

/// What a text entry of the package is.
#[derive(Debug, Clone, Copy, PartialEq, Eq)]
pub enum TextKind {
    Xhtml,
    Css,
}

/// The encoding of a text entry.
#[derive(Debug, Clone, Copy, PartialEq, Eq)]
pub enum TextEncoding {
    Utf8,
    Utf16Le,
    Utf16Be,
}

/// The name of a text kind in messages.
pub open spec fn kind_name(kind: TextKind) -> Seq<char> {
    match kind {
        TextKind::Xhtml => "XHTML"@,
        TextKind::Css => "CSS"@,
    }
}

/// The name of a text kind in messages.
pub fn text_kind_name(kind: TextKind) -> (r: &'static str)
    ensures
        r@ == kind_name(kind),
{
    match kind {
        TextKind::Xhtml => "XHTML",
        TextKind::Css => "CSS",
    }
}

/// Whether the bytes start like ASCII text in UTF-16LE without a byte
/// order mark.
pub open spec fn utf16le_like(d: Seq<u8>) -> bool {
    d.len() >= 4 && d[1] == 0 && d[3] == 0 && d[0] != 0 && d[2] != 0
}

/// Whether the bytes start like ASCII text in UTF-16BE without a byte
/// order mark.
pub open spec fn utf16be_like(d: Seq<u8>) -> bool {
    d.len() >= 4 && d[0] == 0 && d[2] == 0 && d[1] != 0 && d[3] != 0
}

/// Whether the bytes start like ASCII text in UTF-16LE.
pub fn looks_like_utf16le(data: &[u8]) -> (r: bool)
    ensures
        r == utf16le_like(data@),
{
    data.len() >= 4 && data[1] == 0 && data[3] == 0 && data[0] != 0 && data[2] != 0
}

/// Whether the bytes start like ASCII text in UTF-16BE.
pub fn looks_like_utf16be(data: &[u8]) -> (r: bool)
    ensures
        r == utf16be_like(data@),
{
    data.len() >= 4 && data[0] == 0 && data[2] == 0 && data[1] != 0 && data[3] != 0
}

/// The encoding of the bytes and the length of their byte order mark: a
/// UTF-8, UTF-16LE or UTF-16BE mark decides, then the look of UTF-16 ASCII
/// text, else UTF-8.
pub open spec fn detected_encoding(d: Seq<u8>) -> (TextEncoding, int) {
    if d.len() >= 3 && d[0] == 0xef && d[1] == 0xbb && d[2] == 0xbf {
        (TextEncoding::Utf8, 3)
    } else if d.len() >= 2 && d[0] == 0xff && d[1] == 0xfe {
        (TextEncoding::Utf16Le, 2)
    } else if d.len() >= 2 && d[0] == 0xfe && d[1] == 0xff {
        (TextEncoding::Utf16Be, 2)
    } else if utf16le_like(d) {
        (TextEncoding::Utf16Le, 0)
    } else if utf16be_like(d) {
        (TextEncoding::Utf16Be, 0)
    } else {
        (TextEncoding::Utf8, 0)
    }
}

/// The bytes without `-` and `_`.
pub open spec fn without_dashes(s: Seq<char>) -> Seq<char> {
    s.filter(|c: char| c != '-' && c != '_')
}

/// An encoding declaration's name, trimmed, lowercased, without `-` and `_`.
pub open spec fn encoding_key(value: Seq<char>) -> Seq<char> {
    without_dashes(lower_chars(trim_spec(value)))
}

/// The encoding that a declaration names: `utf8`, `utf16` and `utf16le`
/// (little endian), `utf16be`.
pub open spec fn named_encoding(value: Seq<char>) -> Option<TextEncoding> {
    let k = encoding_key(value);
    if k == "utf8"@ {
        Some(TextEncoding::Utf8)
    } else if k == "utf16"@ || k == "utf16le"@ {
        Some(TextEncoding::Utf16Le)
    } else if k == "utf16be"@ {
        Some(TextEncoding::Utf16Be)
    } else {
        None
    }
}

fn encoding_key_of(value: &str) -> (r: String)
    ensures
        r@ == encoding_key(value@),
{
    let lowered = lower_vec(str_chars(trim_str(value)).as_slice());
    let n = lowered.len();
    let mut out: Vec<char> = Vec::new();
    let mut i: usize = 0;
    while i < n
        invariant
            n == lowered@.len(),
            i <= n,
            out@ == without_dashes(lowered@.subrange(0, i as int)),
        decreases n - i,
    {
        let c = lowered[i];
        proof {
            let p = lowered@.subrange(0, i as int);
            assert(lowered@.subrange(0, i + 1) =~= p.push(c));
            p.lemma_filter_push(c, |c: char| c != '-' && c != '_');
        }
        if c != '-' && c != '_' {
            out.push(c);
        }
        i = i + 1;
    }
    assert(lowered@.subrange(0, n as int) =~= lowered@);
    string_from_chars(out.as_slice())
}

/// The encoding that a declaration names.
pub fn normalize_encoding_name(value: &str) -> (r: Option<TextEncoding>)
    ensures
        r == named_encoding(value@),
{
    let key = encoding_key_of(value);
    let k = key.as_str();
    if crate::strings::str_eq(k, "utf8") {
        Some(TextEncoding::Utf8)
    } else if crate::strings::str_eq(k, "utf16") || crate::strings::str_eq(k, "utf16le") {
        Some(TextEncoding::Utf16Le)
    } else if crate::strings::str_eq(k, "utf16be") {
        Some(TextEncoding::Utf16Be)
    } else {
        None
    }
}

// ---------------------------------------------------------------------------
// Encoding declarations.

/// The bytes in ASCII lowercase.
pub open spec fn lower_bytes(b: Seq<u8>) -> Seq<u8> {
    Seq::new(b.len(), |i: int| lower(b[i]))
}

/// Whether `n` occurs in `h` at `j`.
pub open spec fn bytes_at(h: Seq<u8>, n: Seq<u8>, j: int) -> bool {
    0 <= j && j + n.len() <= h.len() && h.subrange(j, j + n.len()) == n
}

/// The first position from `i` on where `n` occurs in `h`.
pub open spec fn find_bytes(h: Seq<u8>, n: Seq<u8>, i: int) -> Option<int>
    decreases h.len() + 1 - i,
{
    if i < 0 || i + n.len() > h.len() {
        None
    } else if bytes_at(h, n, i) {
        Some(i)
    } else {
        find_bytes(h, n, i + 1)
    }
}

/// The first quote (`'` or `"`) from `i` on.
pub open spec fn quote_from(p: Seq<u8>, i: int) -> Option<int>
    decreases p.len() - i,
{
    if i < 0 || i >= p.len() {
        None
    } else if p[i] == 39u8 || p[i] == 34u8 {
        Some(i)
    } else {
        quote_from(p, i + 1)
    }
}

/// The first `x` from `i` on.
pub open spec fn byte_from(p: Seq<u8>, x: u8, i: int) -> Option<int>
    decreases p.len() - i,
{
    if i < 0 || i >= p.len() {
        None
    } else if p[i] == x {
        Some(i)
    } else {
        byte_from(p, x, i + 1)
    }
}

/// The quoted value after the first occurrence of `key` in the lowercased
/// bytes: from the first quote after it to the next equal quote.
pub open spec fn quoted_after_key(p: Seq<u8>, key: Seq<u8>) -> Option<Seq<u8>> {
    match find_bytes(lower_bytes(p), key, 0) {
        Some(i) => match quote_from(p, i + key.len()) {
            Some(q) => match byte_from(p, p[q], q + 1) {
                Some(e) => Some(p.subrange(q + 1, e)),
                None => None,
            },
            None => None,
        },
        None => None,
    }
}

/// The quoted value after `key` within the first `limit` bytes; none when
/// that cut splits a character.
pub open spec fn quoted_in_prefix(b: Seq<u8>, limit: int, key: Seq<u8>) -> Option<Seq<u8>> {
    let k = if b.len() < limit {
        b.len() as int
    } else {
        limit
    };
    if is_char_boundary(b, k) {
        quoted_after_key(b.subrange(0, k), key)
    } else {
        None
    }
}

/// The text of optional bytes.
pub open spec fn opt_decoded(v: Option<Seq<u8>>) -> Option<Seq<char>> {
    match v {
        Some(b) => Some(decode_utf8(b)),
        None => None,
    }
}

proof fn lemma_find_bytes(h: Seq<u8>, n: Seq<u8>, i: int)
    requires
        0 <= i,
    ensures
        find_bytes(h, n, i) matches Some(j) ==> i <= j && bytes_at(h, n, j),
    decreases h.len() + 1 - i,
{
    if i + n.len() <= h.len() && !bytes_at(h, n, i) {
        lemma_find_bytes(h, n, i + 1);
    }
}

proof fn lemma_quote_from(p: Seq<u8>, i: int)
    requires
        0 <= i,
    ensures
        quote_from(p, i) matches Some(j) ==> i <= j < p.len() && (p[j] == 39u8 || p[j] == 34u8),
    decreases p.len() - i,
{
    if i < p.len() && !(p[i] == 39u8 || p[i] == 34u8) {
        lemma_quote_from(p, i + 1);
    }
}

proof fn lemma_byte_from(p: Seq<u8>, x: u8, i: int)
    requires
        0 <= i,
    ensures
        byte_from(p, x, i) matches Some(j) ==> i <= j < p.len() && p[j] == x,
    decreases p.len() - i,
{
    if i < p.len() && p[i] != x {
        lemma_byte_from(p, x, i + 1);
    }
}

fn bytes_match_lower(p: &[u8], key: &[u8], j: usize) -> (r: bool)
    requires
        j + key@.len() <= p@.len(),
    ensures
        r == bytes_at(lower_bytes(p@), key@, j as int),
{
    let n = key.len();
    let mut t: usize = 0;
    while t < n
        invariant
            n == key@.len(),
            j + n <= p.len(),
            t <= n,
            forall|u: int| 0 <= u < t ==> lower(p@[j + u]) == key@[u],
        decreases n - t,
    {
        if to_lower(p[j + t]) != key[t] {
            assert(lower_bytes(p@).subrange(j as int, j + n)[t as int] != key@[t as int]);
            return false;
        }
        t = t + 1;
    }
    assert(lower_bytes(p@).subrange(j as int, j + n) =~= key@);
    true
}

/// The quoted value after `key` in the first `limit` bytes of valid UTF-8.
fn quoted_in_bytes(b: &[u8], limit: usize, key: &[u8]) -> (r: Option<String>)
    requires
        valid_utf8(b@),
        limit < usize::MAX,
    ensures
        opt_text(r) == opt_decoded(quoted_in_prefix(b@, limit as int, key@)),
{
    let k = if b.len() < limit {
        b.len()
    } else {
        limit
    };
    proof {
        is_char_boundary_start_end_of_seq(b@);
        if k < b@.len() {
            is_char_boundary_iff_not_is_continuation_byte(b@, k as int);
        }
    }
    if k < b.len() && 0x80 <= b[k] && b[k] <= 0xbf {
        return None;
    }
    assert(is_char_boundary(b@, k as int));
    proof {
        lemma_utf8_slice(b@, 0, k as int);
    }
    let p = &b[0..k];
    assert(p@ == b@.subrange(0, k as int));
    let ghost lp = lower_bytes(p@);
    let kn = key.len();
    if kn > k {
        assert(find_bytes(lp, key@, 0) is None);
        return None;
    }
    let last = k - kn;
    let mut i: usize = 0;
    let mut found: Option<usize> = None;
    while i <= last
        invariant_except_break
            found is None,
        invariant
            kn == key@.len(),
            last == k - kn,
            k == p@.len(),
            k <= limit,
            limit < usize::MAX,
            lp == lower_bytes(p@),
            i <= last + 1,
            find_bytes(lp, key@, i as int) == find_bytes(lp, key@, 0),
        ensures
            found matches Some(s) ==> find_bytes(lp, key@, 0) == Some(s as int) && s <= last,
            found is None ==> find_bytes(lp, key@, 0) is None,
        decreases last + 1 - i,
    {
        if bytes_match_lower(p, key, i) {
            found = Some(i);
            break;
        }
        i = i + 1;
    }
    let start = match found {
        Some(s) => s,
        None => {
            return None;
        },
    };
    assert(find_bytes(lp, key@, 0) == Some(start as int));
    let mut q = start + kn;
    proof {
        lemma_quote_from(p@, q as int);
    }
    while q < k && p[q] != 39u8 && p[q] != 34u8
        invariant
            start + kn <= q <= k,
            k == p@.len(),
            quote_from(p@, q as int) == quote_from(p@, start + kn),
        decreases k - q,
    {
        q = q + 1;
    }
    if q >= k {
        return None;
    }
    let quote = p[q];
    let mut e = q + 1;
    while e < k && p[e] != quote
        invariant
            q < e <= k,
            k == p@.len(),
            quote == p@[q as int],
            byte_from(p@, quote, e as int) == byte_from(p@, quote, q + 1),
        decreases k - e,
    {
        e = e + 1;
    }
    if e >= k {
        return None;
    }
    proof {
        lemma_ascii_boundary(p@, q as int);
        lemma_ascii_boundary(p@, e as int);
        lemma_utf8_slice(p@, q + 1, e as int);
    }
    let value = &p[q + 1..e];
    assert(value@ == p@.subrange(q + 1, e as int));
    match utf8_text(value) {
        Ok(text) => {
            proof {
                encode_utf8_decode_utf8(text@);
            }
            Some(text.to_owned())
        },
        Err(_) => None,
    }
}

/// The value of a quoted `key` declaration in the first 1024 bytes of the
/// source, such as the XML declaration's `encoding`.
pub fn find_quoted_encoding(source: &str, key: &str) -> (r: Option<String>)
    ensures
        opt_text(r) == opt_decoded(quoted_in_prefix(encode_utf8(source@), 1024, encode_utf8(key@))),
{
    let b = source.as_bytes();
    proof {
        vstd::utf8::encode_utf8_valid_utf8(source@);
    }
    quoted_in_bytes(b, 1024, key.as_bytes())
}

/// The source without its leading whitespace.
pub open spec fn trimmed_start(s: Seq<char>) -> Seq<char> {
    s.subrange(lead_ws(s, 0), s.len() as int)
}

/// The value of the `@charset` rule in the first 256 bytes of the
/// stylesheet, its leading whitespace aside.
pub fn find_css_charset(source: &str) -> (r: Option<String>)
    ensures
        opt_text(r) == opt_decoded(quoted_in_prefix(encode_utf8(trimmed_start(source@)), 256, encode_utf8("@charset"@))),
{
    let chars = str_chars(source);
    let n = chars.len();
    let mut a: usize = 0;
    proof {
        lemma_lead_ws(source@, 0);
    }
    while a < n && crate::strings::unicode_whitespace(chars[a])
        invariant
            n == chars@.len(),
            chars@ == source@,
            a <= n,
            lead_ws(source@, a as int) == lead_ws(source@, 0),
        decreases n - a,
    {
        a = a + 1;
    }
    let trimmed = string_from_chars(&chars.as_slice()[a..n]);
    assert(trimmed@ == trimmed_start(source@));
    proof {
        vstd::utf8::encode_utf8_valid_utf8(trimmed@);
    }
    quoted_in_bytes(trimmed.as_str().as_bytes(), 256, "@charset".as_bytes())
}

/// The encoding that a text declares in its head: the XML declaration's
/// `encoding` for XHTML, the `@charset` rule for CSS.
pub open spec fn declared_encoding(source: Seq<char>, kind: TextKind) -> Option<Seq<char>> {
    match kind {
        TextKind::Xhtml => opt_decoded(quoted_in_prefix(encode_utf8(source), 1024, encode_utf8("encoding"@))),
        TextKind::Css => opt_decoded(
            quoted_in_prefix(encode_utf8(trimmed_start(source)), 256, encode_utf8("@charset"@)),
        ),
    }
}

/// Whether a declaration agrees with the encoding that decoded the bytes:
/// it must name a known encoding, and that one, where a bare `utf16`
/// agrees with either byte order.
pub open spec fn declaration_check(source: Seq<char>, kind: TextKind, actual: TextEncoding) -> Result<(), Seq<char>> {
    match declared_encoding(source, kind) {
        None => Ok(()),
        Some(d) => match named_encoding(d) {
            None => Err("unsupported "@ + kind_name(kind) + " encoding declaration "@ + d),
            Some(declared) => {
                let generic = encoding_key(d) == "utf16"@ && (actual is Utf16Le || actual is Utf16Be);
                if !generic && declared != actual {
                    Err(kind_name(kind) + " encoding declaration "@ + d + " does not match decoded bytes"@)
                } else {
                    Ok(())
                }
            },
        },
    }
}

fn same_encoding(a: TextEncoding, b: TextEncoding) -> (r: bool)
    ensures
        r == (a == b),
{
    match (a, b) {
        (TextEncoding::Utf8, TextEncoding::Utf8) => true,
        (TextEncoding::Utf16Le, TextEncoding::Utf16Le) => true,
        (TextEncoding::Utf16Be, TextEncoding::Utf16Be) => true,
        _ => false,
    }
}

/// Check the encoding that a decoded text declares against the encoding
/// that decoded it.
pub fn validate_declared_encoding(source: &str, kind: TextKind, actual: TextEncoding) -> (r: Result<(), Error>)
    ensures
        match declaration_check(source@, kind, actual) {
            Ok(()) => r is Ok,
            Err(m) => r matches Err(Error::InvalidEpub(e)) && e@ == m,
        },
{
    let declaration = match kind {
        TextKind::Xhtml => find_quoted_encoding(source, "encoding"),
        TextKind::Css => find_css_charset(source),
    };
    let declaration = match declaration {
        Some(d) => d,
        None => {
            return Ok(());
        },
    };
    let d = declaration.as_str();
    let declared = match normalize_encoding_name(d) {
        Some(e) => e,
        None => {
            let mut m: Vec<char> = Vec::new();
            push_str_chars(&mut m, "unsupported ");
            push_str_chars(&mut m, text_kind_name(kind));
            push_str_chars(&mut m, " encoding declaration ");
            push_str_chars(&mut m, d);
            return Err(Error::InvalidEpub(string_from_chars(m.as_slice())));
        },
    };
    let key = encoding_key_of(d);
    let generic = crate::strings::str_eq(key.as_str(), "utf16") && match actual {
        TextEncoding::Utf16Le => true,
        TextEncoding::Utf16Be => true,
        TextEncoding::Utf8 => false,
    };
    if !generic && !same_encoding(declared, actual) {
        let mut m: Vec<char> = Vec::new();
        push_str_chars(&mut m, text_kind_name(kind));
        push_str_chars(&mut m, " encoding declaration ");
        push_str_chars(&mut m, d);
        push_str_chars(&mut m, " does not match decoded bytes");
        return Err(Error::InvalidEpub(string_from_chars(m.as_slice())));
    }
    Ok(())
}

// ---------------------------------------------------------------------------
// Decoding text entries.

/// The UTF-16 code units of an even number of bytes in the given byte order.
pub open spec fn utf16_units(b: Seq<u8>, little_endian: bool) -> Seq<u16> {
    Seq::new(
        b.len() / 2,
        |i: int| if little_endian {
            (b[2 * i] + 256 * b[2 * i + 1]) as u16
        } else {
            (256 * b[2 * i] + b[2 * i + 1]) as u16
        },
    )
}

/// The outcome of a decoded text: its declaration is checked.
pub open spec fn checked_text(t: Seq<char>, kind: TextKind, encoding: TextEncoding, r: Result<String, Error>) -> bool {
    match declaration_check(t, kind, encoding) {
        Ok(()) => r matches Ok(s) && s@ == t,
        Err(m) => r matches Err(Error::InvalidEpub(e)) && e@ == m,
    }
}

/// The text of an entry when it decodes and its declaration agrees.
pub open spec fn entry_text(d: Seq<u8>, kind: TextKind) -> Option<Seq<char>> {
    let (encoding, offset) = detected_encoding(d);
    let body = d.subrange(offset, d.len() as int);
    let text = match encoding {
        TextEncoding::Utf8 => if valid_utf8(body) {
            Some(decode_utf8(body))
        } else {
            None
        },
        _ => if body.len() % 2 != 0 {
            None
        } else {
            utf16_decode(utf16_units(body, encoding is Utf16Le))
        },
    };
    match text {
        Some(t) => if declaration_check(t, kind, encoding) is Ok {
            Some(t)
        } else {
            None
        },
        None => None,
    }
}

/// Whether `r` is an invalid-EPUB error whose message starts with `p`.
pub open spec fn invalid_with_prefix(r: Result<String, Error>, p: Seq<char>) -> bool {
    r matches Err(Error::InvalidEpub(e)) && e@.len() >= p.len() && e@.subrange(0, p.len() as int) == p
}

fn invalid_with(prefix: &str, detail: &str) -> (r: Result<String, Error>)
    ensures
        invalid_with_prefix(r, prefix@),
{
    let mut m: Vec<char> = Vec::new();
    push_str_chars(&mut m, prefix);
    push_str_chars(&mut m, detail);
    assert(m@.subrange(0, prefix@.len() as int) =~= prefix@);
    Err(Error::InvalidEpub(string_from_chars(m.as_slice())))
}

fn kind_message(head: &str, kind: TextKind, tail: &str) -> (r: String)
    ensures
        r@ == head@ + kind_name(kind) + tail@,
{
    let mut m: Vec<char> = Vec::new();
    push_str_chars(&mut m, head);
    push_str_chars(&mut m, text_kind_name(kind));
    push_str_chars(&mut m, tail);
    string_from_chars(m.as_slice())
}

/// Decode a text entry of the package: a byte order mark, or the look of
/// UTF-16 ASCII text, picks the encoding (UTF-8 otherwise); the text must
/// decode, an odd number of UTF-16 bytes is refused, and a declared
/// encoding must agree.
pub fn decode_text_entry(data: &[u8], kind: TextKind) -> (r: Result<String, Error>)
    ensures
        ({
            let (encoding, offset) = detected_encoding(data@);
            let body = data@.subrange(offset, data@.len() as int);
            match encoding {
                TextEncoding::Utf8 => if valid_utf8(body) {
                    checked_text(decode_utf8(body), kind, encoding, r)
                } else {
                    invalid_with_prefix(r, "invalid UTF-8 "@ + kind_name(kind) + " entry: "@)
                },
                _ => if body.len() % 2 != 0 {
                    r matches Err(Error::InvalidEpub(e)) && e@ == "odd-length UTF-16 "@ + kind_name(kind)
                        + " entry"@
                } else {
                    match utf16_decode(utf16_units(body, encoding is Utf16Le)) {
                        Some(t) => checked_text(t, kind, encoding, r),
                        None => invalid_with_prefix(r, "invalid UTF-16 "@ + kind_name(kind) + " entry: "@),
                    }
                },
            }
        }),
        match entry_text(data@, kind) {
            Some(t) => r matches Ok(s) && s@ == t,
            None => r matches Err(Error::InvalidEpub(_)),
        },
{
    let n = data.len();
    let (encoding, offset): (TextEncoding, usize) = if n >= 3 && data[0] == 0xef && data[1] == 0xbb && data[2] == 0xbf {
        (TextEncoding::Utf8, 3)
    } else if n >= 2 && data[0] == 0xff && data[1] == 0xfe {
        (TextEncoding::Utf16Le, 2)
    } else if n >= 2 && data[0] == 0xfe && data[1] == 0xff {
        (TextEncoding::Utf16Be, 2)
    } else if looks_like_utf16le(data) {
        (TextEncoding::Utf16Le, 0)
    } else if looks_like_utf16be(data) {
        (TextEncoding::Utf16Be, 0)
    } else {
        (TextEncoding::Utf8, 0)
    };
    let body = &data[offset..n];
    assert(body@ == data@.subrange(offset as int, n as int));
    let source = match encoding {
        TextEncoding::Utf8 => match utf8_text(body) {
            Ok(text) => {
                proof {
                    encode_utf8_decode_utf8(text@);
                }
                text.to_owned()
            },
            Err(detail) => {
                let head = kind_message("invalid UTF-8 ", kind, " entry: ");
                return invalid_with(head.as_str(), detail.as_str());
            },
        },
        _ => {
            let m = body.len();
            if m % 2 != 0 {
                return Err(Error::InvalidEpub(kind_message("odd-length UTF-16 ", kind, " entry")));
            }
            let little = match encoding {
                TextEncoding::Utf16Le => true,
                _ => false,
            };
            let mut units: Vec<u16> = Vec::new();
            let mut i: usize = 0;
            while i < m / 2
                invariant
                    m == body@.len(),
                    m % 2 == 0,
                    i <= m / 2,
                    units@ =~= utf16_units(body@, little).subrange(0, i as int),
                decreases m / 2 - i,
            {
                let lo = body[2 * i];
                let hi = body[2 * i + 1];
                let unit: u16 = if little {
                    (lo as u16) + 256 * (hi as u16)
                } else {
                    256 * (lo as u16) + (hi as u16)
                };
                units.push(unit);
                i = i + 1;
            }
            assert(units@ =~= utf16_units(body@, little));
            match utf16_string(units.as_slice()) {
                Ok(text) => text,
                Err(detail) => {
                    let head = kind_message("invalid UTF-16 ", kind, " entry: ");
                    return invalid_with(head.as_str(), detail.as_str());
                },
            }
        },
    };
    match validate_declared_encoding(source.as_str(), kind, encoding) {
        Ok(()) => Ok(source),
        Err(e) => Err(e),
    }
}

// ---------------------------------------------------------------------------
// SVG content documents.

/// The first position from `i` on where `lit` occurs in `s`.
pub open spec fn find_chars(s: Seq<char>, lit: Seq<char>, i: int) -> Option<int>
    decreases s.len() + 1 - i,
{
    if i < 0 || i + lit.len() > s.len() {
        None
    } else if s.subrange(i, i + lit.len()) == lit {
        Some(i)
    } else {
        find_chars(s, lit, i + 1)
    }
}

proof fn lemma_find_chars(s: Seq<char>, lit: Seq<char>, i: int)
    requires
        0 <= i,
    ensures
        find_chars(s, lit, i) matches Some(j) ==> i <= j && j + lit.len() <= s.len() && s.subrange(j, j
            + lit.len()) == lit,
    decreases s.len() + 1 - i,
{
    if i + lit.len() <= s.len() && s.subrange(i, i + lit.len()) != lit {
        lemma_find_chars(s, lit, i + 1);
    }
}

/// An SVG document without its XML declaration: leading whitespace, an
/// `<?xml ...?>` declaration when it is closed, and the whitespace after it
/// are dropped.
pub open spec fn svg_without_prolog(s: Seq<char>) -> Seq<char> {
    let t = s.subrange(lead_ws(s, 0), s.len() as int);
    let u = if t.len() >= 5 && t.subrange(0, 5) == "<?xml"@ {
        match find_chars(t, "?>"@, 0) {
            Some(e) => t.subrange(e + 2, t.len() as int),
            None => t,
        }
    } else {
        t
    };
    u.subrange(lead_ws(u, 0), u.len() as int)
}

fn trim_start_chars(v: &[char]) -> (r: Vec<char>)
    ensures
        r@ == v@.subrange(lead_ws(v@, 0), v@.len() as int),
{
    let n = v.len();
    let mut a: usize = 0;
    proof {
        lemma_lead_ws(v@, 0);
    }
    while a < n && crate::strings::unicode_whitespace(v[a])
        invariant
            n == v@.len(),
            a <= n,
            lead_ws(v@, a as int) == lead_ws(v@, 0),
        decreases n - a,
    {
        a = a + 1;
    }
    crate::strings::char_range(v, a, n)
}

fn find_chars_from(s: &[char], lit: &[char]) -> (r: Option<usize>)
    ensures
        match find_chars(s@, lit@, 0) {
            Some(j) => r == Some(j as usize),
            None => r is None,
        },
{
    let n = s.len();
    let m = lit.len();
    if m > n {
        return None;
    }
    let mut i: usize = 0;
    proof {
        lemma_find_chars(s@, lit@, 0);
    }
    while i <= n - m
        invariant
            n == s@.len(),
            m == lit@.len(),
            m <= n,
            i <= n - m + 1,
            find_chars(s@, lit@, i as int) == find_chars(s@, lit@, 0),
        decreases n - m + 1 - i,
    {
        let mut t: usize = 0;
        while t < m && s[i + t] == lit[t]
            invariant
                i + m <= n,
                m == lit@.len(),
                n == s@.len(),
                t <= m,
                forall|u: int| 0 <= u < t ==> s@[i + u] == lit@[u],
            decreases m - t,
        {
            t = t + 1;
        }
        if t == m {
            assert(s@.subrange(i as int, i + m) =~= lit@);
            return Some(i);
        }
        assert(s@.subrange(i as int, i + m)[t as int] != lit@[t as int]);
        i = i + 1;
    }
    None
}

/// An SVG document without its XML declaration and the whitespace around it.
pub fn strip_svg_prolog(source: &str) -> (r: String)
    ensures
        r@ == svg_without_prolog(source@),
{
    let t = trim_start_chars(str_chars(source).as_slice());
    let decl = str_chars("<?xml");
    let close = str_chars("?>");
    proof {
        reveal_strlit("<?xml");
        reveal_strlit("?>");
    }
    let mut starts = t.len() >= 5;
    let mut k: usize = 0;
    while starts && k < 5
        invariant
            t@.len() >= 5 || !starts,
            k <= 5,
            decl@ == "<?xml"@,
            decl@.len() == 5,
            starts ==> forall|u: int| 0 <= u < k ==> t@[u] == decl@[u],
            !starts ==> !(t@.len() >= 5 && t@.subrange(0, 5) == "<?xml"@),
        decreases 5 - k,
    {
        if t[k] != decl[k] {
            assert(t@.subrange(0, 5)[k as int] != decl@[k as int]);
            starts = false;
        }
        k = k + 1;
    }
    if starts {
        assert(t@.subrange(0, 5) =~= decl@);
    }
    let u = if starts {
        match find_chars_from(t.as_slice(), close.as_slice()) {
            Some(e) => {
                proof {
                    lemma_find_chars(t@, close@, 0);
                }
                crate::strings::char_range(t.as_slice(), e + 2, t.len())
            },
            None => t,
        }
    } else {
        t
    };
    string_from_chars(trim_start_chars(u.as_slice()).as_slice())
}

/// The page wrapped around an SVG content document.
pub open spec fn svg_page(body: Seq<char>) -> Seq<char> {
    "<?xml version=\"1.0\" encoding=\"UTF-8\"?><html xmlns=\"http://www.w3.org/1999/xhtml\"><head><title>SVG Content Document</title></head><body><div class=\"epub-svg-content\">"@
        + body + "</div></body></html>"@
}

/// The text without its leading byte order marks.
pub open spec fn without_boms(s: Seq<char>, i: int) -> Seq<char>
    decreases s.len() - i,
{
    if 0 <= i < s.len() && s[i] == '\u{feff}' {
        without_boms(s, i + 1)
    } else if 0 <= i <= s.len() {
        s.subrange(i, s.len() as int)
    } else {
        s
    }
}

/// An SVG content document as an XHTML page: decoded as XHTML, free of
/// scripting, its byte order marks and XML declaration dropped, wrapped in
/// a page.
pub fn svg_content_document(data: &[u8]) -> (r: Result<String, Error>)
    ensures
        match entry_text(data@, TextKind::Xhtml) {
            None => r matches Err(Error::InvalidEpub(_)),
            Some(t) => match scripting_from(encode_utf8(t), 0) {
                Ok(()) => r matches Ok(page) && page@ == svg_page(svg_without_prolog(without_boms(t, 0))),
                Err((true, m)) => r matches Err(Error::UnsupportedEpub(e)) && e@ == m,
                Err((false, m)) => r matches Err(Error::InvalidXhtmlCss(e)) && e@ == m,
            },
        },
{
    let source = match decode_text_entry(data, TextKind::Xhtml) {
        Ok(s) => s,
        Err(e) => {
            return Err(e);
        },
    };
    match crate::epub::xhtml::reject_scripting(source.as_str()) {
        Ok(()) => {},
        Err(e) => {
            return Err(e);
        },
    }
    let chars = str_chars(source.as_str());
    let n = chars.len();
    let mut i: usize = 0;
    while i < n && chars[i] == '\u{feff}'
        invariant
            n == chars@.len(),
            i <= n,
            without_boms(chars@, i as int) == without_boms(chars@, 0),
        decreases n - i,
    {
        i = i + 1;
    }
    let rest = string_from_chars(&chars.as_slice()[i..n]);
    let body = strip_svg_prolog(rest.as_str());
    let mut page: Vec<char> = Vec::new();
    push_str_chars(
        &mut page,
        "<?xml version=\"1.0\" encoding=\"UTF-8\"?><html xmlns=\"http://www.w3.org/1999/xhtml\"><head><title>SVG Content Document</title></head><body><div class=\"epub-svg-content\">",
    );
    push_str_chars(&mut page, body.as_str());
    push_str_chars(&mut page, "</div></body></html>");
    Ok(string_from_chars(page.as_slice()))
}

// ---------------------------------------------------------------------------
// Media types and rendition semantics.

/// Whether the text starts with `p` up to ASCII case (`p` lowercase).
pub open spec fn starts_ci(s: Seq<char>, p: Seq<char>) -> bool {
    lower_chars(s).len() >= p.len() && lower_chars(s).subrange(0, p.len() as int) == p
}

fn starts_with_lower(s: &str, p: &str) -> (r: bool)
    ensures
        r == starts_ci(s@, p@),
{
    let l = lower_vec(str_chars(s).as_slice());
    let q = str_chars(p);
    let m = q.len();
    if l.len() < m {
        return false;
    }
    let mut i: usize = 0;
    while i < m
        invariant
            m == q@.len(),
            m <= l@.len(),
            l@ == lower_chars(s@),
            q@ == p@,
            i <= m,
            forall|u: int| 0 <= u < i ==> l@[u] == q@[u],
        decreases m - i,
    {
        if l[i] != q[i] {
            assert(l@.subrange(0, m as int)[i as int] != q@[i as int]);
            return false;
        }
        i = i + 1;
    }
    assert(l@.subrange(0, m as int) =~= q@);
    true
}

/// Whether a media type is an audio type.
pub open spec fn audio_media_type(t: Seq<char>) -> bool {
    let l = lower_chars(t);
    l == "audio/mpeg"@ || l == "audio/mp4"@ || l == "audio/ogg"@ || l == "audio/wav"@ || l == "audio/webm"@
        || starts_ci(t, "audio/"@)
}

/// Whether a media type is an audio type.
pub fn is_audio_media_type(media_type: &str) -> (r: bool)
    ensures
        r == audio_media_type(media_type@),
{
    lower_eq(media_type, "audio/mpeg") || lower_eq(media_type, "audio/mp4") || lower_eq(media_type, "audio/ogg")
        || lower_eq(media_type, "audio/wav") || lower_eq(media_type, "audio/webm") || starts_with_lower(
        media_type,
        "audio/",
    )
}

/// Whether a media type is a video type.
pub fn is_video_media_type(media_type: &str) -> (r: bool)
    ensures
        r == starts_ci(media_type@, "video/"@),
{
    starts_with_lower(media_type, "video/")
}

/// Whether a media type is SMIL.
pub fn is_smil_media_type(media_type: &str) -> (r: bool)
    ensures
        r == (lower_chars(media_type@) == "application/smil+xml"@),
{
    lower_eq(media_type, "application/smil+xml")
}

/// Whether a manifest item is a content document: XHTML, HTML or SVG.
pub open spec fn content_document(item: ManifestItemView) -> bool {
    let l = lower_chars(item.media_type);
    l == "application/xhtml+xml"@ || l == "text/html"@ || l == "image/svg+xml"@
}

/// Whether a manifest item is a content document.
pub fn is_content_document(item: &ManifestItem) -> (r: bool)
    ensures
        r == content_document(item@),
{
    let t = item.media_type.as_str();
    lower_eq(t, "application/xhtml+xml") || lower_eq(t, "text/html") || lower_eq(t, "image/svg+xml")
}

/// The message of a publication-wide `rendition:align-x-center`.
pub open spec fn align_message(scope: Seq<char>) -> Seq<char> {
    scope + " rendition:align-x-center has no demonstrated KF8 projection"@
}

/// Refuse `rendition:align-x-center` declared for the whole publication.
pub fn validate_rendition(scope: &str, rendition: RenditionSemantics) -> (r: Result<(), Error>)
    ensures
        (scope@ == "publication"@ && rendition.align_x == Some(RenditionAlign::Center)) <==> r is Err,
        r matches Err(e) ==> e matches Error::UnsupportedEpub(m) && m@ == align_message(scope@),
{
    let centered = match rendition.align_x {
        Some(RenditionAlign::Center) => true,
        None => false,
    };
    if crate::strings::str_eq(scope, "publication") && centered {
        assert(scope@ == "publication"@);
        assert(rendition.align_x == Some(RenditionAlign::Center));
        let mut m: Vec<char> = Vec::new();
        push_str_chars(&mut m, scope);
        push_str_chars(&mut m, " rendition:align-x-center has no demonstrated KF8 projection");
        return Err(Error::UnsupportedEpub(string_from_chars(m.as_slice())));
    }
    Ok(())
}

/// The rendition of a spine item: each property of its own, else the
/// publication's; its page spread is its own.
pub fn merge_rendition(publication: RenditionSemantics, item: RenditionSemantics) -> (r: RenditionSemantics)
    ensures
        r.orientation == (if item.orientation is Some { item.orientation } else { publication.orientation }),
        r.spread == (if item.spread is Some { item.spread } else { publication.spread }),
        r.flow == (if item.flow is Some { item.flow } else { publication.flow }),
        r.align_x == (if item.align_x is Some { item.align_x } else { publication.align_x }),
        r.page_spread == item.page_spread,
{
    RenditionSemantics {
        orientation: match item.orientation {
            Some(v) => Some(v),
            None => publication.orientation,
        },
        spread: match item.spread {
            Some(v) => Some(v),
            None => publication.spread,
        },
        flow: match item.flow {
            Some(v) => Some(v),
            None => publication.flow,
        },
        align_x: match item.align_x {
            Some(v) => Some(v),
            None => publication.align_x,
        },
        page_spread: item.page_spread,
    }
}

// ---------------------------------------------------------------------------
// Finding manifest items by id.

/// The index of the first manifest item from `i` on with the id.
pub open spec fn first_with_id(manifest: Seq<ManifestItemView>, id: Seq<char>, i: int) -> Option<int>
    decreases manifest.len() - i,
{
    if i < 0 || i >= manifest.len() {
        None
    } else if manifest[i].id == id {
        Some(i)
    } else {
        first_with_id(manifest, id, i + 1)
    }
}

/// The position that the first entry with the id records.
pub open spec fn position_of(entries: Seq<(String, usize)>, id: Seq<char>, i: int) -> Option<int>
    decreases entries.len() - i,
{
    if i < 0 || i >= entries.len() {
        None
    } else if entries[i].0@ == id {
        Some(entries[i].1 as int)
    } else {
        position_of(entries, id, i + 1)
    }
}

/// The position of each manifest id's first item: the manifest's ids in
/// order, each with its position, so that the first entry of an id holds
/// its first item.
pub struct ManifestIdIndex {
    pub positions: Vec<(String, usize)>,
}

proof fn lemma_position_of(entries: Seq<(String, usize)>, manifest: Seq<ManifestItemView>, id: Seq<char>, i: int)
    requires
        0 <= i <= manifest.len(),
        entries.len() == manifest.len(),
        forall|j: int| 0 <= j < entries.len() ==> (#[trigger] entries[j]).0@ == manifest[j].id && entries[j].1 == j,
    ensures
        position_of(entries, id, i) == first_with_id(manifest, id, i),
    decreases manifest.len() - i,
{
    if i < manifest.len() {
        lemma_position_of(entries, manifest, id, i + 1);
    }
}

impl ManifestIdIndex {
    /// Whether the index records, for every id, the first manifest item
    /// with it.
    pub open spec fn indexes(&self, manifest: Seq<ManifestItemView>) -> bool {
        forall|id: Seq<char>| #[trigger] position_of(self.positions@, id, 0) == first_with_id(manifest, id, 0)
    }

    /// The index of a manifest.
    pub fn from_manifest(manifest: &[ManifestItem]) -> (r: ManifestIdIndex)
        ensures
            r.indexes(manifest@.map_values(|m: ManifestItem| m@)),
    {
        let ghost mv = manifest@.map_values(|m: ManifestItem| m@);
        let mut positions: Vec<(String, usize)> = Vec::new();
        let n = manifest.len();
        let mut i: usize = 0;
        while i < n
            invariant
                n == manifest@.len(),
                i <= n,
                mv == manifest@.map_values(|m: ManifestItem| m@),
                positions@.len() == i,
                forall|j: int| 0 <= j < i ==> (#[trigger] positions@[j]).0@ == mv[j].id && positions@[j].1 == j,
            decreases n - i,
        {
            assert(mv[i as int] == manifest@[i as int]@);
            positions.push((manifest[i].id.clone(), i));
            i = i + 1;
        }
        proof {
            assert forall|id: Seq<char>| #[trigger] position_of(positions@, id, 0) == first_with_id(mv, id, 0) by {
                lemma_position_of(positions@, mv, id, 0);
            }
        }
        ManifestIdIndex { positions }
    }

    /// The first manifest item with the id.
    pub fn get<'a>(&self, manifest: &'a [ManifestItem], id: &str) -> (r: Option<&'a ManifestItem>)
        requires
            self.indexes(manifest@.map_values(|m: ManifestItem| m@)),
        ensures
            match first_with_id(manifest@.map_values(|m: ManifestItem| m@), id@, 0) {
                Some(k) => r == Some(&manifest@[k]),
                None => r is None,
            },
    {
        let n = self.positions.len();
        let mut i: usize = 0;
        while i < n
            invariant
                n == self.positions@.len(),
                i <= n,
                self.indexes(manifest@.map_values(|m: ManifestItem| m@)),
                position_of(self.positions@, id@, i as int) == position_of(self.positions@, id@, 0),
            decreases n - i,
        {
            if crate::strings::str_eq(self.positions[i].0.as_str(), id) {
                let k = self.positions[i].1;
                proof {
                    let mv = manifest@.map_values(|m: ManifestItem| m@);
                    assert(position_of(self.positions@, id@, i as int) == Some(k as int));
                    assert(position_of(self.positions@, id@, 0) == first_with_id(mv, id@, 0));
                    assert(first_with_id(mv, id@, 0) == Some(k as int));
                    lemma_first_with_id(mv, id@, 0);
                }
                return Some(&manifest[k]);
            }
            i = i + 1;
        }
        None
    }
}

proof fn lemma_first_with_id(manifest: Seq<ManifestItemView>, id: Seq<char>, i: int)
    requires
        0 <= i,
    ensures
        first_with_id(manifest, id, i) matches Some(k) ==> i <= k < manifest.len(),
    decreases manifest.len() - i,
{
    if i < manifest.len() && manifest[i].id != id {
        lemma_first_with_id(manifest, id, i + 1);
    }
}

// ---------------------------------------------------------------------------
// Loading manifest entries.

/// Whether a media type is XHTML or HTML.
pub open spec fn is_xhtml_type(t: Seq<char>) -> bool {
    lower_chars(t) == "application/xhtml+xml"@ || lower_chars(t) == "text/html"@
}

/// What loading a manifest entry comes to: the bytes its resource keeps and
/// the XHTML to read, or the error.
pub enum EntryLoad {
    Loaded(Seq<u8>, Option<Seq<char>>),
    /// The entry does not decode (see `decode_text_entry`).
    Invalid,
    Xml(Seq<char>),
    Unsupported(Seq<char>),
    BadXhtml(Seq<char>),
}

/// What loading decoded XHTML comes to: MathML is refused; a content
/// source is also checked for scripting, media playback, `srcset`
/// candidates and object targets, and is kept to read.
pub open spec fn xhtml_entry_load(t: Seq<char>, is_content_source: bool, href: Seq<char>, manifest: Seq<ManifestItemView>) -> EntryLoad {
    let b = encode_utf8(t);
    match mathml_read(b, 0, b.len()) {
        ScanOutcome::Xml(m) => EntryLoad::Xml(m),
        ScanOutcome::Refused(m) => EntryLoad::Unsupported(m),
        ScanOutcome::Pass => if !is_content_source {
            EntryLoad::Loaded(Seq::empty(), None)
        } else {
            match scripting_media_check(b) {
                Err((true, m)) => EntryLoad::Unsupported(m),
                Err((false, m)) => EntryLoad::BadXhtml(m),
                Ok(()) => match srcset_object_read(b, href, manifest, 0, b.len(), None) {
                    ScanOutcome::Xml(m) => EntryLoad::Xml(m),
                    ScanOutcome::Refused(m) => EntryLoad::Unsupported(m),
                    ScanOutcome::Pass => EntryLoad::Loaded(Seq::empty(), Some(t)),
                },
            }
        },
    }
}

/// What loading a manifest entry's bytes comes to, by its media type.
pub open spec fn entry_load(item: ManifestItemView, data: Seq<u8>, is_content_source: bool, manifest: Seq<ManifestItemView>) -> EntryLoad {
    let l = lower_chars(item.media_type);
    if is_xhtml_type(item.media_type) {
        match entry_text(data, TextKind::Xhtml) {
            None => EntryLoad::Invalid,
            Some(t) => xhtml_entry_load(t, is_content_source, item.href, manifest),
        }
    } else if l == "text/css"@ {
        match entry_text(data, TextKind::Css) {
            None => EntryLoad::Invalid,
            Some(t) => EntryLoad::Loaded(encode_utf8(t), None),
        }
    } else if l == "image/svg+xml"@ && is_content_source {
        match entry_text(data, TextKind::Xhtml) {
            None => EntryLoad::Invalid,
            Some(t) => match scripting_from(encode_utf8(t), 0) {
                Ok(()) => EntryLoad::Loaded(Seq::empty(), Some(svg_page(svg_without_prolog(without_boms(t, 0))))),
                Err((true, m)) => EntryLoad::Unsupported(m),
                Err((false, m)) => EntryLoad::BadXhtml(m),
            },
        }
    } else {
        EntryLoad::Loaded(data, None)
    }
}

/// Whether a loading's result is the outcome.
pub open spec fn load_result(r: Result<(Resource, Option<String>), Error>, o: EntryLoad) -> bool {
    match o {
        EntryLoad::Loaded(d, src) => r matches Ok((res, s)) && res.data@ == d && opt_text(s) == src,
        EntryLoad::Invalid => r matches Err(Error::InvalidEpub(_)),
        EntryLoad::Xml(m) => r matches Err(Error::Xml(e)) && e@ == m,
        EntryLoad::Unsupported(m) => r matches Err(Error::UnsupportedEpub(e)) && e@ == m,
        EntryLoad::BadXhtml(m) => r matches Err(Error::InvalidXhtmlCss(e)) && e@ == m,
    }
}

/// What a manifest entry's bytes become: the resource that keeps the
/// entry's id, href, media type and properties, and, for a content source,
/// the XHTML to read. An XHTML or HTML entry is decoded and checked for
/// MathML, and a content source also for scripting, media playback,
/// `srcset` candidates and object targets; its resource keeps no bytes. A
/// stylesheet is decoded and kept as UTF-8. An SVG content source becomes
/// an XHTML page and keeps no bytes. Other entries keep their bytes.
pub fn load_resource_entry(item: &ManifestItem, data: Vec<u8>, is_content_source: bool, manifest: &[ManifestItem]) -> (r:
    Result<(Resource, Option<String>), Error>)
    ensures
        r matches Ok((res, _)) ==> res.id@ == item.id@ && res.href@ == item.href@ && res.media_type@
            == item.media_type@ && texts(res.properties@) == texts(item.properties@),
        load_result(r, entry_load(item@, data@, is_content_source, manifest_views(manifest@))),
{
    let t = item.media_type.as_str();
    let mut source: Option<String> = None;
    let bytes: Vec<u8> = if lower_eq(t, "application/xhtml+xml") || lower_eq(t, "text/html") {
        let text = match decode_text_entry(data.as_slice(), TextKind::Xhtml) {
            Ok(s) => s,
            Err(e) => {
                return Err(e);
            },
        };
        match crate::epub::xhtml::reject_mathml(text.as_str()) {
            Ok(()) => {},
            Err(e) => {
                return Err(e);
            },
        }
        if is_content_source {
            match crate::epub::xhtml::reject_scripting_and_media_playback(text.as_str()) {
                Ok(()) => {},
                Err(e) => {
                    return Err(e);
                },
            }
            match crate::epub::xhtml::reject_unsupported_srcset_and_generic_object(
                text.as_str(),
                item.href.as_str(),
                manifest,
            ) {
                Ok(()) => {},
                Err(e) => {
                    return Err(e);
                },
            }
            source = Some(text);
        }
        Vec::new()
    } else if lower_eq(t, "text/css") {
        let text = match decode_text_entry(data.as_slice(), TextKind::Css) {
            Ok(s) => s,
            Err(e) => {
                return Err(e);
            },
        };
        let b = text.as_str().as_bytes();
        proof {
            vstd::utf8::encode_utf8_valid_utf8(text@);
        }
        vstd::slice::slice_to_vec(b)
    } else if lower_eq(t, "image/svg+xml") && is_content_source {
        let page = match svg_content_document(data.as_slice()) {
            Ok(p) => p,
            Err(e) => {
                return Err(e);
            },
        };
        source = Some(page);
        Vec::new()
    } else {
        data
    };
    let resource = Resource {
        id: item.id.clone(),
        href: item.href.clone(),
        media_type: item.media_type.clone(),
        properties: copy_strings(item.properties.as_slice()),
        data: bytes,
    };
    Ok((resource, source))
}

/// The message of a manifest item that declares MathML.
pub open spec fn mathml_item_message(id: Seq<char>) -> Seq<char> {
    "MathML is unsupported by the KF8 projection (manifest item "@ + id + ")"@
}

/// The index of the first manifest item from `i` on that has the `mathml`
/// property.
pub open spec fn first_mathml(manifest: Seq<ManifestItemView>, i: int) -> Option<int>
    decreases manifest.len() - i,
{
    if i < 0 || i >= manifest.len() {
        None
    } else if has_text_ci(manifest[i].properties, "mathml"@) {
        Some(i)
    } else {
        first_mathml(manifest, i + 1)
    }
}

proof fn lemma_first_mathml(manifest: Seq<ManifestItemView>, i: int)
    requires
        0 <= i,
    ensures
        first_mathml(manifest, i) matches Some(k) ==> i <= k < manifest.len(),
    decreases manifest.len() - i,
{
    if i < manifest.len() && !has_text_ci(manifest[i].properties, "mathml"@) {
        lemma_first_mathml(manifest, i + 1);
    }
}

/// Refuse a package whose manifest declares MathML: the first item with the
/// `mathml` property is named.
pub fn reject_mathml_manifest(manifest: &[ManifestItem]) -> (r: Result<(), Error>)
    ensures
        match first_mathml(manifest_views(manifest@), 0) {
            Some(k) => r matches Err(Error::UnsupportedEpub(e)) && e@ == mathml_item_message(manifest@[k].id@),
            None => r is Ok,
        },
        r is Ok <==> forall|i: int| 0 <= i < manifest@.len() ==> !has_text_ci(#[trigger] manifest@[i]@.properties, "mathml"@),
        r matches Err(e) ==> exists|i: int| {
            &&& 0 <= i < manifest@.len()
            &&& has_text_ci(manifest@[i]@.properties, "mathml"@)
            &&& forall|j: int| 0 <= j < i ==> !has_text_ci(#[trigger] manifest@[j]@.properties, "mathml"@)
            &&& e matches Error::UnsupportedEpub(m) && m@ == mathml_item_message(manifest@[i].id@)
        },
{
    let n = manifest.len();
    let mut i: usize = 0;
    while i < n
        invariant
            n == manifest@.len(),
            i <= n,
            forall|j: int| 0 <= j < i ==> !has_text_ci(#[trigger] manifest@[j]@.properties, "mathml"@),
            first_mathml(manifest_views(manifest@), i as int) == first_mathml(manifest_views(manifest@), 0),
        decreases n - i,
    {
        assert(manifest_views(manifest@)[i as int] == manifest@[i as int]@);
        if has_property(&manifest[i], "mathml") {
            let mut m: Vec<char> = Vec::new();
            push_str_chars(&mut m, "MathML is unsupported by the KF8 projection (manifest item ");
            push_str_chars(&mut m, manifest[i].id.as_str());
            push_str_chars(&mut m, ")");
            return Err(Error::UnsupportedEpub(string_from_chars(m.as_slice())));
        }
        i = i + 1;
    }
    Ok(())
}

// ---------------------------------------------------------------------------
// Media and spine checks of the package.

/// How a package is refused: as an invalid EPUB, or as one that uses what
/// the projection does not support.
pub enum Refusal {
    Invalid(Seq<char>),
    Unsupported(Seq<char>),
}

/// The message of a manifest item with the `media-overlay` property.
pub open spec fn overlay_property_message(id: Seq<char>) -> Seq<char> {
    "G8-06/G8-08/G8-09 media overlay boundary: manifest item "@ + id + " declares the media-overlay property"@
}

/// The message of a spine item whose idref names no manifest item.
pub open spec fn missing_spine_item_message(idref: Seq<char>) -> Seq<char> {
    "spine references missing manifest item "@ + idref
}

/// The message of an audio spine item.
pub open spec fn audio_spine_message(id: Seq<char>) -> Seq<char> {
    "G6-23/G6-25 media boundary: spine item "@ + id + " is an audio resource and playback is unsupported"@
}

/// The message of a video spine item.
pub open spec fn video_spine_message(id: Seq<char>) -> Seq<char> {
    "G6-24/G6-25 media boundary: spine item "@ + id + " is a video resource and playback is unsupported"@
}

/// The message of a SMIL spine item.
pub open spec fn smil_spine_message(id: Seq<char>) -> Seq<char> {
    "G8-06/G8-07/G8-08/G8-09 media overlay boundary: spine item "@ + id + " is an SMIL document"@
}

/// The message of a spine item that is no content document and has no
/// fallback.
pub open spec fn fallback_end_message(id: Seq<char>, media_type: Seq<char>) -> Seq<char> {
    "fallback chain for "@ + id + " ends at unsupported media type "@ + media_type
}

/// The index of the first manifest item from `i` on with the
/// `media-overlay` property.
pub open spec fn first_overlay(manifest: Seq<ManifestItemView>, i: int) -> Option<int>
    decreases manifest.len() - i,
{
    if i < 0 || i >= manifest.len() {
        None
    } else if has_text_ci(manifest[i].properties, "media-overlay"@) {
        Some(i)
    } else {
        first_overlay(manifest, i + 1)
    }
}

proof fn lemma_first_overlay(manifest: Seq<ManifestItemView>, i: int)
    requires
        0 <= i,
    ensures
        first_overlay(manifest, i) matches Some(k) ==> i <= k < manifest.len(),
    decreases manifest.len() - i,
{
    if i < manifest.len() && !has_text_ci(manifest[i].properties, "media-overlay"@) {
        lemma_first_overlay(manifest, i + 1);
    }
}

/// The refusal, if any, of a media type played as a spine item.
pub open spec fn spine_media_refusal(item: ManifestItemView) -> Option<Refusal> {
    if audio_media_type(item.media_type) {
        Some(Refusal::Unsupported(audio_spine_message(item.id)))
    } else if starts_ci(item.media_type, "video/"@) {
        Some(Refusal::Unsupported(video_spine_message(item.id)))
    } else if lower_chars(item.media_type) == "application/smil+xml"@ {
        Some(Refusal::Unsupported(smil_spine_message(item.id)))
    } else {
        None
    }
}

/// The first refusal of the spine items from `j` on: an idref that names no
/// manifest item, or an audio, video or SMIL item.
pub open spec fn spine_media_check(manifest: Seq<ManifestItemView>, spine: Seq<SpineItemView>, j: int) -> Option<Refusal>
    decreases spine.len() - j,
{
    if j < 0 || j >= spine.len() {
        None
    } else {
        match first_with_id(manifest, spine[j].idref, 0) {
            None => Some(Refusal::Invalid(missing_spine_item_message(spine[j].idref))),
            Some(k) => match spine_media_refusal(manifest[k]) {
                Some(r) => Some(r),
                None => spine_media_check(manifest, spine, j + 1),
            },
        }
    }
}

/// The first refusal of the manifest's media overlays and the spine's media.
pub open spec fn media_refusal(manifest: Seq<ManifestItemView>, spine: Seq<SpineItemView>) -> Option<Refusal> {
    match first_overlay(manifest, 0) {
        Some(k) => Some(Refusal::Unsupported(overlay_property_message(manifest[k].id))),
        None => spine_media_check(manifest, spine, 0),
    }
}

/// The first spine item from `j` on whose manifest item is no content
/// document.
pub open spec fn spine_source_check(manifest: Seq<ManifestItemView>, spine: Seq<SpineItemView>, j: int) -> Option<Refusal>
    decreases spine.len() - j,
{
    if j < 0 || j >= spine.len() {
        None
    } else {
        match first_with_id(manifest, spine[j].idref, 0) {
            None => Some(Refusal::Invalid(missing_spine_item_message(spine[j].idref))),
            Some(k) => if content_document(manifest[k]) {
                spine_source_check(manifest, spine, j + 1)
            } else {
                Some(Refusal::Unsupported(fallback_end_message(manifest[k].id, manifest[k].media_type)))
            },
        }
    }
}

/// The refusal of a package after its MathML check: media overlays and
/// media spine items first, then spine items that are no content document.
pub open spec fn package_refusal(manifest: Seq<ManifestItemView>, spine: Seq<SpineItemView>) -> Option<Refusal> {
    match media_refusal(manifest, spine) {
        Some(r) => Some(r),
        None => spine_source_check(manifest, spine, 0),
    }
}

/// The error of a refusal.
pub open spec fn refusal_error(r: Result<(), Error>, refusal: Option<Refusal>) -> bool {
    match refusal {
        None => r is Ok,
        Some(Refusal::Invalid(m)) => r matches Err(Error::InvalidEpub(e)) && e@ == m,
        Some(Refusal::Unsupported(m)) => r matches Err(Error::UnsupportedEpub(e)) && e@ == m,
    }
}

fn message2(a: &str, b: &str) -> (r: String)
    ensures
        r@ == a@ + b@,
{
    let mut m: Vec<char> = Vec::new();
    push_str_chars(&mut m, a);
    push_str_chars(&mut m, b);
    string_from_chars(m.as_slice())
}

fn message3(a: &str, b: &str, c: &str) -> (r: String)
    ensures
        r@ == a@ + b@ + c@,
{
    let mut m: Vec<char> = Vec::new();
    push_str_chars(&mut m, a);
    push_str_chars(&mut m, b);
    push_str_chars(&mut m, c);
    string_from_chars(m.as_slice())
}

/// Refuse media overlays and media spine items: a manifest item with the
/// `media-overlay` property, a spine idref that names no manifest item, or
/// a spine item that is audio, video or SMIL.
pub fn reject_unsupported_media_semantics(parsed: &ParsedOpf, index: &ManifestIdIndex) -> (r: Result<(), Error>)
    requires
        index.indexes(manifest_views(parsed.manifest@)),
    ensures
        refusal_error(r, media_refusal(manifest_views(parsed.manifest@), parsed@.spine)),
{
    let ghost mv = manifest_views(parsed.manifest@);
    let n = parsed.manifest.len();
    let mut i: usize = 0;
    while i < n
        invariant
            n == parsed.manifest@.len(),
            i <= n,
            mv == manifest_views(parsed.manifest@),
            first_overlay(mv, i as int) == first_overlay(mv, 0),
        decreases n - i,
    {
        assert(mv[i as int] == parsed.manifest@[i as int]@);
        if has_property(&parsed.manifest[i], "media-overlay") {
            return Err(Error::UnsupportedEpub(message3(
                "G8-06/G8-08/G8-09 media overlay boundary: manifest item ",
                parsed.manifest[i].id.as_str(),
                " declares the media-overlay property",
            )));
        }
        i = i + 1;
    }
    assert(first_overlay(mv, 0) is None);
    let ghost sv = parsed@.spine;
    let m = parsed.spine.len();
    let mut j: usize = 0;
    while j < m
        invariant
            m == parsed.spine@.len(),
            j <= m,
            mv == manifest_views(parsed.manifest@),
            sv == parsed@.spine,
            sv.len() == m,
            index.indexes(mv),
            first_overlay(mv, 0) is None,
            spine_media_check(mv, sv, j as int) == spine_media_check(mv, sv, 0),
        decreases m - j,
    {
        assert(sv[j as int] == parsed.spine@[j as int]@);
        let idref = parsed.spine[j].idref.as_str();
        match index.get(parsed.manifest.as_slice(), idref) {
            None => {
                return Err(Error::InvalidEpub(message2("spine references missing manifest item ", idref)));
            },
            Some(item) => {
                proof {
                    lemma_first_with_id(mv, idref@, 0);
                    let k = first_with_id(mv, idref@, 0)->0;
                    assert(mv[k] == item@);
                }
                let t = item.media_type.as_str();
                if is_audio_media_type(t) {
                    return Err(Error::UnsupportedEpub(message3(
                        "G6-23/G6-25 media boundary: spine item ",
                        item.id.as_str(),
                        " is an audio resource and playback is unsupported",
                    )));
                }
                if is_video_media_type(t) {
                    return Err(Error::UnsupportedEpub(message3(
                        "G6-24/G6-25 media boundary: spine item ",
                        item.id.as_str(),
                        " is a video resource and playback is unsupported",
                    )));
                }
                if is_smil_media_type(t) {
                    return Err(Error::UnsupportedEpub(message3(
                        "G8-06/G8-07/G8-08/G8-09 media overlay boundary: spine item ",
                        item.id.as_str(),
                        " is an SMIL document",
                    )));
                }
            },
        }
        j = j + 1;
    }
    Ok(())
}

/// The content document that a spine item's manifest item stands for. The
/// package model declares no fallbacks, so the item itself is the source
/// when it is XHTML, HTML or SVG, and otherwise its fallback chain ends at
/// once on its unsupported media type.
pub fn resolve_content_source<'a>(item: &'a ManifestItem) -> (r: Result<&'a ManifestItem, Error>)
    ensures
        content_document(item@) ==> r == Ok::<&ManifestItem, Error>(item),
        !content_document(item@) ==> (r matches Err(Error::UnsupportedEpub(e))
            && e@ == fallback_end_message(item@.id, item@.media_type)),
{
    if is_content_document(item) {
        Ok(item)
    } else {
        let mut m: Vec<char> = Vec::new();
        push_str_chars(&mut m, "fallback chain for ");
        push_str_chars(&mut m, item.id.as_str());
        push_str_chars(&mut m, " ends at unsupported media type ");
        push_str_chars(&mut m, item.media_type.as_str());
        Err(Error::UnsupportedEpub(string_from_chars(m.as_slice())))
    }
}

/// Resolve the content source of every spine item, in order: an idref that
/// names no manifest item makes the EPUB invalid, and an item that is no
/// content document is refused.
pub fn validate_spine_sources(parsed: &ParsedOpf, index: &ManifestIdIndex) -> (r: Result<(), Error>)
    requires
        index.indexes(manifest_views(parsed.manifest@)),
    ensures
        refusal_error(r, spine_source_check(manifest_views(parsed.manifest@), parsed@.spine, 0)),
{
    let ghost mv = manifest_views(parsed.manifest@);
    let ghost sv = parsed@.spine;
    let m = parsed.spine.len();
    let mut j: usize = 0;
    while j < m
        invariant
            m == parsed.spine@.len(),
            j <= m,
            mv == manifest_views(parsed.manifest@),
            sv == parsed@.spine,
            sv.len() == m,
            index.indexes(mv),
            spine_source_check(mv, sv, j as int) == spine_source_check(mv, sv, 0),
        decreases m - j,
    {
        assert(sv[j as int] == parsed.spine@[j as int]@);
        let idref = parsed.spine[j].idref.as_str();
        match index.get(parsed.manifest.as_slice(), idref) {
            None => {
                return Err(Error::InvalidEpub(message2("spine references missing manifest item ", idref)));
            },
            Some(item) => {
                proof {
                    lemma_first_with_id(mv, idref@, 0);
                    let k = first_with_id(mv, idref@, 0)->0;
                    assert(mv[k] == item@);
                }
                match resolve_content_source(item) {
                    Ok(_) => {},
                    Err(e) => {
                        return Err(e);
                    },
                }
            },
        }
        j = j + 1;
    }
    Ok(())
}

// ---------------------------------------------------------------------------
// The EPUB archive.

/// `zip::ZipArchive`, a ZIP archive being read.
#[verifier::external_type_specification]
#[verifier::external_body]
#[verifier::reject_recursive_types(R)]
pub struct ExZipArchive<R>(ZipArchive<R>);

/// `std::io::Cursor`, a reader over bytes in memory.
#[verifier::external_type_specification]
#[verifier::external_body]
#[verifier::reject_recursive_types(T)]
pub struct ExIoCursor<T>(Cursor<T>);

/// The message of `zip::ZipArchive::new`'s error on the bytes; none when
/// it reads them as an archive.
pub uninterp spec fn zip_open_error(input: Seq<u8>) -> Option<Seq<char>>;

/// What reading an archive entry gives.
pub enum ZipEntryView {
    /// `by_name` fails: no entry has the name, or the entry cannot be
    /// opened (an unsupported compression method, an encrypted entry, a
    /// damaged header); the `ZipError`'s message.
    Missing(Seq<char>),
    /// Reading the entry fails with an I/O error.
    Unreadable,
    /// The entry's bytes.
    Data(Seq<u8>),
}

/// What `ZipArchive::by_name` and `Read::read_to_end` give for the entry at
/// the path of the archive over the bytes.
pub uninterp spec fn zip_entry(input: Seq<u8>, path: Seq<char>) -> ZipEntryView;

/// An EPUB archive being read, over the bytes it was opened on.
pub struct EpubArchive<'a> {
    archive: ZipArchive<Cursor<&'a [u8]>>,
    input: Ghost<Seq<u8>>,
}

/// `zip::ZipArchive::new` over the bytes, or the `ZipError`'s message.
/// The contract claims that the outcome is what the name gives for the
/// bytes.
#[verifier::external_body]
fn zip_archive<'a>(input: &'a [u8]) -> (r: Result<ZipArchive<Cursor<&'a [u8]>>, String>)
    ensures
        match r {
            Ok(_) => zip_open_error(input@) is None,
            Err(m) => zip_open_error(input@) == Some(m@),
        },
{
    ZipArchive::new(Cursor::new(input)).map_err(|error| error.to_string())
}

/// `ZipArchive::by_name`, then `Read::read_to_end` on the entry: its bytes,
/// the reading's I/O error, or the lookup's `ZipError` message. The
/// contract claims that the outcome is what the name gives for the
/// archive's bytes and the path, the I/O error aside.
#[verifier::external_body]
fn zip_entry_data(archive: &mut EpubArchive, path: &str) -> (r: Result<Result<Vec<u8>, std::io::Error>, String>)
    ensures
        final(archive).input() == old(archive).input(),
        match zip_entry(old(archive).input(), path@) {
            ZipEntryView::Missing(m) => r matches Err(e) && e@ == m,
            ZipEntryView::Unreadable => r matches Ok(Err(_)),
            ZipEntryView::Data(d) => r matches Ok(Ok(v)) && v@ == d,
        },
{
    match archive.archive.by_name(path) {
        Ok(mut entry) => {
            let mut data = Vec::new();
            Ok(entry.read_to_end(&mut data).map(|_| data))
        },
        Err(error) => Err(error.to_string()),
    }
}

impl<'a> EpubArchive<'a> {
    /// The bytes the archive was opened on.
    pub closed spec fn input(&self) -> Seq<u8> {
        self.input@
    }

    /// Open the bytes as a ZIP archive, or give the `ZipError`'s message.
    pub fn open(input: &'a [u8]) -> (r: Result<EpubArchive<'a>, String>)
        ensures
            match zip_open_error(input@) {
                None => r matches Ok(a) && a.input() == input@,
                Some(m) => r matches Err(e) && e@ == m,
            },
    {
        match zip_archive(input) {
            Ok(archive) => Ok(EpubArchive { archive, input: Ghost(input@) }),
            Err(m) => Err(m),
        }
    }
}

/// The message of an archive entry that `by_name` cannot open, up to the
/// lookup's detail.
pub open spec fn missing_entry_prefix(path: Seq<char>) -> Seq<char> {
    "missing EPUB entry "@ + path + ": "@
}

/// What reading an entry comes to: its bytes, or the error.
pub enum EntryOutcome {
    Data(Seq<u8>),
    Invalid(Seq<char>),
    Io(Seq<char>),
}

/// What reading the entry at the path comes to.
pub open spec fn entry_outcome(input: Seq<u8>, path: Seq<char>) -> EntryOutcome {
    match zip_entry(input, path) {
        ZipEntryView::Missing(m) => EntryOutcome::Invalid(missing_entry_prefix(path) + m),
        ZipEntryView::Unreadable => EntryOutcome::Io(path),
        ZipEntryView::Data(d) => EntryOutcome::Data(d),
    }
}

/// The bytes of an archive entry: a missing entry makes the EPUB invalid,
/// a failed read is an I/O error of that entry.
pub fn read_zip_entry(archive: &mut EpubArchive, path: &str) -> (r: Result<Vec<u8>, Error>)
    ensures
        final(archive).input() == old(archive).input(),
        match entry_outcome(old(archive).input(), path@) {
            EntryOutcome::Data(d) => r matches Ok(v) && v@ == d,
            EntryOutcome::Invalid(m) => r matches Err(Error::InvalidEpub(e)) && e@ == m,
            EntryOutcome::Io(p) => r matches Err(Error::Io { path: q, .. }) && q@ == p,
        },
{
    match zip_entry_data(archive, path) {
        Ok(Ok(data)) => Ok(data),
        Ok(Err(source)) => Err(Error::Io { path: path.to_owned(), source }),
        Err(detail) => {
            let mut m: Vec<char> = Vec::new();
            push_str_chars(&mut m, "missing EPUB entry ");
            push_str_chars(&mut m, path);
            push_str_chars(&mut m, ": ");
            push_str_chars(&mut m, detail.as_str());
            Err(Error::InvalidEpub(string_from_chars(m.as_slice())))
        },
    }
}

/// The message of bytes that are no ZIP archive, up to the detail.
pub open spec fn unreadable_zip_prefix() -> Seq<char> {
    "not a readable EPUB ZIP: "@
}

/// What opening a package comes to.
pub enum PackageOutcome {
    /// The package document and its path.
    Open(ParsedOpfView, Seq<char>),
    Invalid(Seq<char>),
    Io(Seq<char>),
    Xml(Seq<char>),
    Unsupported(Seq<char>),
}

/// What opening the package of the EPUB bytes comes to: the archive opens,
/// `META-INF/container.xml` reads and names the package document, that
/// document reads and parses, no manifest item declares MathML, and the
/// media and spine checks of `package_refusal` pass.
pub open spec fn package_outcome(input: Seq<u8>) -> PackageOutcome {
    match zip_open_error(input) {
        Some(m) => PackageOutcome::Invalid(unreadable_zip_prefix() + m),
        None => match entry_outcome(input, "META-INF/container.xml"@) {
            EntryOutcome::Invalid(m) => PackageOutcome::Invalid(m),
            EntryOutcome::Io(p) => PackageOutcome::Io(p),
            EntryOutcome::Data(c) => match rootfile_read(c, 0, c.len()) {
                Err(RootfileFailure::Xml(m)) => PackageOutcome::Xml(m),
                Err(RootfileFailure::Missing) => PackageOutcome::Invalid(no_rootfile()),
                Ok(path) => match entry_outcome(input, path) {
                    EntryOutcome::Invalid(m) => PackageOutcome::Invalid(m),
                    EntryOutcome::Io(p) => PackageOutcome::Io(p),
                    EntryOutcome::Data(o) => match opf_read(o, 0, o.len(), initial_reader()) {
                        Err(m) => PackageOutcome::Xml(m),
                        Ok(s) => if s.result.manifest.len() == 0 || s.result.spine.len() == 0 {
                            PackageOutcome::Invalid(no_manifest_or_spine())
                        } else {
                            let parsed = opf_finished(s.result);
                            match first_mathml(parsed.manifest, 0) {
                                Some(k) => PackageOutcome::Unsupported(mathml_item_message(parsed.manifest[k].id)),
                                None => match package_refusal(parsed.manifest, parsed.spine) {
                                    Some(Refusal::Invalid(m)) => PackageOutcome::Invalid(m),
                                    Some(Refusal::Unsupported(m)) => PackageOutcome::Unsupported(m),
                                    None => PackageOutcome::Open(parsed, path),
                                },
                            }
                        },
                    },
                },
            },
        },
    }
}

/// Open an EPUB archive and read its package document: the archive must
/// be a ZIP, `META-INF/container.xml` must name the package document, that
/// document must parse, no manifest item may declare MathML or a media
/// overlay, and every spine item must name a manifest item that is a
/// content document and no audio, video or SMIL. The archive comes back
/// with the package and its path.
pub fn open_package<'a>(input: &'a [u8]) -> (r: Result<(EpubArchive<'a>, ParsedOpf, String), Error>)
    ensures
        match package_outcome(input@) {
            PackageOutcome::Open(parsed, path) => r matches Ok((archive, opf, p)) && archive.input() == input@
                && opf@ == parsed && p@ == path,
            PackageOutcome::Invalid(m) => r matches Err(Error::InvalidEpub(e)) && e@ == m,
            PackageOutcome::Io(p) => r matches Err(Error::Io { path: q, .. }) && q@ == p,
            PackageOutcome::Xml(m) => r matches Err(Error::Xml(e)) && e@ == m,
            PackageOutcome::Unsupported(m) => r matches Err(Error::UnsupportedEpub(e)) && e@ == m,
        },
        r matches Ok((_, opf, _)) ==> {
            &&& opf@.manifest.len() > 0
            &&& opf@.spine.len() > 0
            &&& forall|i: int| 0 <= i < opf@.manifest.len() ==> !has_text_ci(#[trigger] opf@.manifest[i].properties, "mathml"@)
            &&& package_refusal(opf@.manifest, opf@.spine) is None
        },
{
    let mut archive = match EpubArchive::open(input) {
        Ok(a) => a,
        Err(detail) => {
            let mut m: Vec<char> = Vec::new();
            push_str_chars(&mut m, "not a readable EPUB ZIP: ");
            push_str_chars(&mut m, detail.as_str());
            return Err(Error::InvalidEpub(string_from_chars(m.as_slice())));
        },
    };
    let container = match read_zip_entry(&mut archive, "META-INF/container.xml") {
        Ok(d) => d,
        Err(e) => {
            return Err(e);
        },
    };
    let opf_path = match parse_rootfile(container.as_slice()) {
        Ok(p) => p,
        Err(e) => {
            return Err(e);
        },
    };
    let opf = match read_zip_entry(&mut archive, opf_path.as_str()) {
        Ok(d) => d,
        Err(e) => {
            return Err(e);
        },
    };
    let parsed = match parse_opf(opf.as_slice()) {
        Ok(p) => p,
        Err(e) => {
            return Err(e);
        },
    };
    assert(parsed@.manifest =~= manifest_views(parsed.manifest@));
    match reject_mathml_manifest(parsed.manifest.as_slice()) {
        Ok(()) => {},
        Err(e) => {
            proof {
                if let Some(k) = first_mathml(manifest_views(parsed.manifest@), 0) {
                    lemma_first_mathml(manifest_views(parsed.manifest@), 0);
                    assert(manifest_views(parsed.manifest@)[k].id == parsed.manifest@[k].id@);
                }
            }
            return Err(e);
        },
    }
    let index = ManifestIdIndex::from_manifest(parsed.manifest.as_slice());
    match reject_unsupported_media_semantics(&parsed, &index) {
        Ok(()) => {},
        Err(e) => {
            return Err(e);
        },
    }
    match validate_spine_sources(&parsed, &index) {
        Ok(()) => {},
        Err(e) => {
            return Err(e);
        },
    }
    proof {
        assert forall|i: int| 0 <= i < parsed@.manifest.len() implies !has_text_ci(#[trigger] parsed@.manifest[i].properties, "mathml"@) by {
            assert(parsed@.manifest[i] == parsed.manifest@[i]@);
        }
    }
    Ok((archive, parsed, opf_path))
}

// ---------------------------------------------------------------------------
// Loading the manifest's resources.

/// Why loading the resources stops: an invalid EPUB (with the message when
/// an entry is missing; a decoding failure's message is `decode_text_entry`'s),
/// an I/O error of an entry, an XML error, an unsupported feature, or bad
/// XHTML.
pub enum LoadFailure {
    Invalid(Option<Seq<char>>),
    Io(Seq<char>),
    Xml(Seq<char>),
    Unsupported(Seq<char>),
    BadXhtml(Seq<char>),
}

/// The loaded resources of the manifest items from `i` on: for each item
/// that is no external reference, in order, its index, the bytes its
/// resource keeps and the XHTML to read; or why loading stops.
pub open spec fn resources_from(
    input: Seq<u8>,
    base: Seq<char>,
    m: Seq<ManifestItemView>,
    sources: Seq<Seq<char>>,
    i: int,
) -> Result<Seq<(int, Seq<u8>, Option<Seq<char>>)>, LoadFailure>
    decreases m.len() - i,
{
    if i < 0 || i >= m.len() {
        Ok(Seq::empty())
    } else if crate::xhtml::path::external_spec(m[i].href) {
        resources_from(input, base, m, sources, i + 1)
    } else {
        match entry_outcome(input, crate::epub::opf::resolved_href(base, m[i].href)) {
            EntryOutcome::Invalid(msg) => Err(LoadFailure::Invalid(Some(msg))),
            EntryOutcome::Io(p) => Err(LoadFailure::Io(p)),
            EntryOutcome::Data(d) => match entry_load(m[i], d, sources.contains(m[i].id), m) {
                EntryLoad::Loaded(bytes, src) => match resources_from(input, base, m, sources, i + 1) {
                    Ok(rest) => Ok(seq![(i, bytes, src)] + rest),
                    Err(f) => Err(f),
                },
                EntryLoad::Invalid => Err(LoadFailure::Invalid(None)),
                EntryLoad::Xml(x) => Err(LoadFailure::Xml(x)),
                EntryLoad::Unsupported(x) => Err(LoadFailure::Unsupported(x)),
                EntryLoad::BadXhtml(x) => Err(LoadFailure::BadXhtml(x)),
            },
        }
    }
}

/// Whether loaded resources are the entries: each keeps its manifest item's
/// id, href, media type and properties, and the bytes and XHTML source the
/// entry gives.
pub open spec fn loaded_as(
    rs: Seq<Resource>,
    xs: Seq<Option<String>>,
    es: Seq<(int, Seq<u8>, Option<Seq<char>>)>,
    manifest: Seq<ManifestItem>,
) -> bool {
    &&& rs.len() == es.len()
    &&& xs.len() == es.len()
    &&& forall|k: int| 0 <= k < es.len() ==> {
        let item = manifest[(#[trigger] es[k]).0];
        &&& 0 <= es[k].0 < manifest.len()
        &&& rs[k].id@ == item.id@
        &&& rs[k].href@ == item.href@
        &&& rs[k].media_type@ == item.media_type@
        &&& texts(rs[k].properties@) == texts(item.properties@)
        &&& rs[k].data@ == es[k].1
        &&& opt_text(xs[k]) == es[k].2
    }
}

/// Whether an error is a loading failure.
pub open spec fn load_failure_error(r: Result<(Vec<Resource>, Vec<Option<String>>), Error>, f: LoadFailure) -> bool {
    match f {
        LoadFailure::Invalid(Some(m)) => r matches Err(Error::InvalidEpub(e)) && e@ == m,
        LoadFailure::Invalid(None) => r matches Err(Error::InvalidEpub(_)),
        LoadFailure::Io(p) => r matches Err(Error::Io { path: q, .. }) && q@ == p,
        LoadFailure::Xml(m) => r matches Err(Error::Xml(e)) && e@ == m,
        LoadFailure::Unsupported(m) => r matches Err(Error::UnsupportedEpub(e)) && e@ == m,
        LoadFailure::BadXhtml(m) => r matches Err(Error::InvalidXhtmlCss(e)) && e@ == m,
    }
}

/// Load the resources of the manifest from the archive: external references
/// are no archive entries and are passed over; every other item's entry, at
/// its href resolved against the package document's directory `base`, is
/// read and loaded as `load_resource_entry` says, `content_sources` naming
/// the items that the spine reads as content. Each resource comes with the
/// XHTML source to read, if any.
pub fn load_resources(
    archive: &mut EpubArchive,
    manifest: &[ManifestItem],
    base: &str,
    content_sources: &[String],
) -> (r: Result<(Vec<Resource>, Vec<Option<String>>), Error>)
    ensures
        final(archive).input() == old(archive).input(),
        match resources_from(old(archive).input(), base@, manifest_views(manifest@), texts(content_sources@), 0) {
            Ok(es) => r matches Ok((rs, xs)) && loaded_as(rs@, xs@, es, manifest@),
            Err(f) => load_failure_error(r, f),
        },
{
    let ghost input = archive.input();
    let ghost mv = manifest_views(manifest@);
    let ghost sv = texts(content_sources@);
    let ghost target = resources_from(input, base@, mv, sv, 0);
    let mut rs: Vec<Resource> = Vec::new();
    let mut xs: Vec<Option<String>> = Vec::new();
    let ghost mut es: Seq<(int, Seq<u8>, Option<Seq<char>>)> = Seq::empty();
    let mut i: usize = 0;
    while i < manifest.len()
        invariant
            i <= manifest@.len(),
            archive.input() == input,
            input == old(archive).input(),
            mv == manifest_views(manifest@),
            sv == texts(content_sources@),
            target == resources_from(input, base@, mv, sv, 0),
            loaded_as(rs@, xs@, es, manifest@),
            forall|k: int| 0 <= k < es.len() ==> (#[trigger] es[k]).0 < i,
            match resources_from(input, base@, mv, sv, i as int) {
                Ok(rest) => target == Ok::<Seq<(int, Seq<u8>, Option<Seq<char>>)>, LoadFailure>(es + rest),
                Err(f) => target == Err::<Seq<(int, Seq<u8>, Option<Seq<char>>)>, LoadFailure>(f),
            },
        decreases manifest@.len() - i,
    {
        let item = &manifest[i];
        assert(mv[i as int] == item@);
        if crate::xhtml::path::is_external_reference(item.href.as_str()) {
            i = i + 1;
            continue;
        }
        let path = crate::epub::opf::resolve_href(base, item.href.as_str());
        let data = match read_zip_entry(&mut *archive, path.as_str()) {
            Ok(d) => d,
            Err(e) => {
                return Err(e);
            },
        };
        let is_source = crate::strings::texts_contain(content_sources, item.id.as_str());
        let (resource, source) = match load_resource_entry(item, data, is_source, manifest) {
            Ok(v) => v,
            Err(e) => {
                return Err(e);
            },
        };
        let ghost entry = (i as int, resource.data@, opt_text(source));
        let ghost before_es = es;
        let ghost before_rs = rs@;
        let ghost before_xs = xs@;
        rs.push(resource);
        xs.push(source);
        proof {
            es = es.push(entry);
            assert forall|k: int| 0 <= k < es.len() implies {
                let it = manifest@[(#[trigger] es[k]).0];
                &&& 0 <= es[k].0 < manifest@.len()
                &&& rs@[k].id@ == it.id@
                &&& rs@[k].href@ == it.href@
                &&& rs@[k].media_type@ == it.media_type@
                &&& texts(rs@[k].properties@) == texts(it.properties@)
                &&& rs@[k].data@ == es[k].1
                &&& opt_text(xs@[k]) == es[k].2
            } by {
                if k < before_es.len() {
                    assert(es[k] == before_es[k]);
                    assert(rs@[k] == before_rs[k]);
                    assert(xs@[k] == before_xs[k]);
                }
            }
            match resources_from(input, base@, mv, sv, i + 1) {
                Ok(rest) => {
                    assert(before_es + (seq![entry] + rest) =~= es + rest);
                },
                Err(f) => {},
            }
        }
        i = i + 1;
    }
    proof {
        assert(es + Seq::<(int, Seq<u8>, Option<Seq<char>>)>::empty() =~= es);
    }
    Ok((rs, xs))
}

// ---------------------------------------------------------------------------
// The content documents of the spine.

/// The XHTML source that the first `n` loaded resources keep for an id: that
/// of the last of them with the id and a source.
pub open spec fn last_source(rs: Seq<Resource>, xs: Seq<Option<String>>, id: Seq<char>, n: int) -> Option<Seq<char>>
    decreases n,
{
    if n <= 0 {
        None
    } else if n - 1 < rs.len() && n - 1 < xs.len() && rs[n - 1].id@ == id && xs[n - 1] is Some {
        opt_text(xs[n - 1])
    } else {
        last_source(rs, xs, id, n - 1)
    }
}

/// The XHTML source that the loaded resources keep for an id: a later
/// source of the id replaces an earlier one.
pub open spec fn kept_source(rs: Seq<Resource>, xs: Seq<Option<String>>, id: Seq<char>) -> Option<Seq<char>> {
    last_source(rs, xs, id, rs.len() as int)
}

/// The XHTML source kept for an id.
fn find_kept_source<'a>(resources: &[Resource], xhtml: &'a [Option<String>], id: &str) -> (r: Option<&'a String>)
    ensures
        match r {
            Some(s) => kept_source(resources@, xhtml@, id@) == Some(s@),
            None => kept_source(resources@, xhtml@, id@) is None,
        },
{
    let mut n: usize = resources.len();
    while n > 0
        invariant
            n <= resources@.len(),
            last_source(resources@, xhtml@, id@, n as int) == kept_source(resources@, xhtml@, id@),
        decreases n,
    {
        let k = n - 1;
        if k < xhtml.len() && crate::strings::str_eq(resources[k].id.as_str(), id) {
            match &xhtml[k] {
                Some(s) => {
                    return Some(s);
                },
                None => {},
            }
        }
        n = k;
    }
    None
}

/// A content document that the spine reads, as discovery finds it: the
/// spine item's idref, the href and media type of the manifest item it
/// names, the XHTML source kept for that item, the spine item's
/// properties, the document's position in the spine, and whether it is
/// laid out as fixed pages.
#[derive(Debug, Clone)]
pub struct SpineDocument {
    pub id: String,
    pub href: String,
    pub media_type: String,
    pub source_xhtml: String,
    pub source_properties: Vec<String>,
    pub source_spine_index: usize,
    pub pre_paginated: bool,
}

/// A spine document as mathematical values.
#[verifier::ext_equal]
pub struct SpineDocumentView {
    pub id: Seq<char>,
    pub href: Seq<char>,
    pub media_type: Seq<char>,
    pub source_xhtml: Seq<char>,
    pub source_properties: Seq<Seq<char>>,
    pub source_spine_index: int,
    pub pre_paginated: bool,
}

impl View for SpineDocument {
    type V = SpineDocumentView;

    open spec fn view(&self) -> SpineDocumentView {
        SpineDocumentView {
            id: self.id@,
            href: self.href@,
            media_type: self.media_type@,
            source_xhtml: self.source_xhtml@,
            source_properties: texts(self.source_properties@),
            source_spine_index: self.source_spine_index as int,
            pre_paginated: self.pre_paginated,
        }
    }
}

/// What the spine reads: its content documents and its reading order.
#[derive(Debug)]
pub struct DiscoveredContent {
    pub documents: Vec<SpineDocument>,
    pub reading_items: Vec<crate::book::ReadingOrderItem>,
}

/// The manifest item that a spine item names: the first with its idref.
pub open spec fn named_item(m: Seq<ManifestItemView>, s: SpineItemView) -> ManifestItemView {
    m[first_with_id(m, s.idref, 0)->0]
}

/// The reading-order entry of a spine item: its idref, the href and media
/// type of the manifest item it names, and whether it is linear.
pub open spec fn reading_entry(m: Seq<ManifestItemView>, s: SpineItemView) -> (Seq<char>, Seq<char>, Seq<char>, bool) {
    (s.idref, named_item(m, s).href, named_item(m, s).media_type, s.linear)
}

/// A reading-order item as mathematical values.
pub open spec fn reading_item_view(it: crate::book::ReadingOrderItem) -> (Seq<char>, Seq<char>, Seq<char>, bool) {
    (it.id@, it.href@, it.media_type@, it.linear)
}

/// The content documents of the first `n` spine items: one for each whose
/// named item has a kept XHTML source, in spine order.
pub open spec fn spine_documents(
    m: Seq<ManifestItemView>,
    spine: Seq<SpineItemView>,
    rs: Seq<Resource>,
    xs: Seq<Option<String>>,
    n: int,
) -> Seq<SpineDocumentView>
    decreases n,
{
    if n <= 0 {
        Seq::empty()
    } else {
        let s = spine[n - 1];
        let item = named_item(m, s);
        spine_documents(m, spine, rs, xs, n - 1) + match kept_source(rs, xs, item.id) {
            Some(src) => seq![
                SpineDocumentView {
                    id: s.idref,
                    href: item.href,
                    media_type: item.media_type,
                    source_xhtml: src,
                    source_properties: s.properties,
                    source_spine_index: n - 1,
                    pre_paginated: s.layout == crate::epub::opf::SpineLayout::PrePaginated,
                },
            ],
            None => Seq::empty(),
        }
    }
}

proof fn lemma_spine_sources_found(m: Seq<ManifestItemView>, spine: Seq<SpineItemView>, j: int, i: int)
    requires
        0 <= j <= i < spine.len(),
        spine_source_check(m, spine, j) is None,
    ensures
        first_with_id(m, spine[i].idref, 0) is Some,
    decreases i - j,
{
    if j < i {
        assert(first_with_id(m, spine[j].idref, 0) is Some);
        lemma_spine_sources_found(m, spine, j + 1, i);
    }
}

/// Discover what the spine reads. Every spine item must name a manifest
/// item that is a content document, else the EPUB is invalid or refused
/// as `spine_source_check` says. Then each spine item becomes a
/// reading-order entry, and each whose item has a kept XHTML source in the
/// loaded resources becomes a content document at its spine position.
pub fn discover_content(
    parsed: &ParsedOpf,
    resources: &[Resource],
    xhtml: &[Option<String>],
    index: &ManifestIdIndex,
) -> (r: Result<DiscoveredContent, Error>)
    requires
        index.indexes(manifest_views(parsed.manifest@)),
    ensures
        match spine_source_check(manifest_views(parsed.manifest@), parsed@.spine, 0) {
            Some(Refusal::Invalid(msg)) => r matches Err(Error::InvalidEpub(e)) && e@ == msg,
            Some(Refusal::Unsupported(msg)) => r matches Err(Error::UnsupportedEpub(e)) && e@ == msg,
            None => r matches Ok(d) && d.reading_items@.map_values(|it: crate::book::ReadingOrderItem| reading_item_view(it))
                == parsed@.spine.map_values(|s: SpineItemView| reading_entry(manifest_views(parsed.manifest@), s))
                && d.documents@.map_values(|x: SpineDocument| x@) == spine_documents(
                    manifest_views(parsed.manifest@),
                    parsed@.spine,
                    resources@,
                    xhtml@,
                    parsed@.spine.len() as int,
                ),
        },
{
    let ghost mv = manifest_views(parsed.manifest@);
    let ghost sv = parsed@.spine;
    match validate_spine_sources(parsed, index) {
        Ok(()) => {},
        Err(e) => {
            return Err(e);
        },
    }
    let mut reading_items: Vec<crate::book::ReadingOrderItem> = Vec::new();
    let mut documents: Vec<SpineDocument> = Vec::new();
    let m = parsed.spine.len();
    let mut j: usize = 0;
    while j < m
        invariant
            m == parsed.spine@.len(),
            j <= m,
            mv == manifest_views(parsed.manifest@),
            sv == parsed@.spine,
            sv.len() == m,
            index.indexes(mv),
            spine_source_check(mv, sv, 0) is None,
            reading_items@.len() == j,
            reading_items@.map_values(|it: crate::book::ReadingOrderItem| reading_item_view(it))
                == sv.take(j as int).map_values(|s: SpineItemView| reading_entry(mv, s)),
            documents@.map_values(|x: SpineDocument| x@) == spine_documents(mv, sv, resources@, xhtml@, j as int),
        decreases m - j,
    {
        let spine_item = &parsed.spine[j];
        assert(sv[j as int] == spine_item@);
        proof {
            lemma_spine_sources_found(mv, sv, 0, j as int);
            lemma_first_with_id(mv, spine_item.idref@, 0);
        }
        let item = match index.get(parsed.manifest.as_slice(), spine_item.idref.as_str()) {
            Some(item) => item,
            None => {
                return Err(Error::InvalidEpub(message2("spine references missing manifest item ", spine_item.idref.as_str())));
            },
        };
        let ghost k = first_with_id(mv, spine_item.idref@, 0)->0;
        assert(mv[k] == item@);
        assert(named_item(mv, sv[j as int]) == item@);
        let ghost before_items = reading_items@;
        reading_items.push(crate::book::ReadingOrderItem {
            id: spine_item.idref.clone(),
            href: item.href.clone(),
            media_type: item.media_type.clone(),
            linear: spine_item.linear,
        });
        proof {
            assert(sv.take(j + 1) =~= sv.take(j as int).push(sv[j as int]));
            assert(reading_item_view(reading_items@[j as int]) == reading_entry(mv, sv[j as int]));
            assert forall|i: int| 0 <= i < j + 1 implies reading_item_view(#[trigger] reading_items@[i]) == reading_entry(
                mv,
                sv.take(j + 1)[i],
            ) by {
                if i < j {
                    assert(reading_items@[i] == before_items[i]);
                    assert(before_items.map_values(|it: crate::book::ReadingOrderItem| reading_item_view(it))[i]
                        == sv.take(j as int).map_values(|s: SpineItemView| reading_entry(mv, s))[i]);
                }
            }
            assert(reading_items@.map_values(|it: crate::book::ReadingOrderItem| reading_item_view(it))
                =~= sv.take(j + 1).map_values(|s: SpineItemView| reading_entry(mv, s)));
        }
        let ghost before_docs = documents@;
        match find_kept_source(resources, xhtml, item.id.as_str()) {
            Some(source) => {
                let pre_paginated = match spine_item.layout {
                    crate::epub::opf::SpineLayout::PrePaginated => true,
                    crate::epub::opf::SpineLayout::Reflowable => false,
                };
                let doc = SpineDocument {
                    id: spine_item.idref.clone(),
                    href: item.href.clone(),
                    media_type: item.media_type.clone(),
                    source_xhtml: source.clone(),
                    source_properties: copy_strings(spine_item.properties.as_slice()),
                    source_spine_index: j,
                    pre_paginated,
                };
                documents.push(doc);
                proof {
                    assert(documents@ =~= before_docs.push(documents@[before_docs.len() as int]));
                    assert(documents@.map_values(|x: SpineDocument| x@) =~= spine_documents(
                        mv,
                        sv,
                        resources@,
                        xhtml@,
                        j + 1,
                    ));
                }
            },
            None => {
                assert(spine_documents(mv, sv, resources@, xhtml@, j + 1) =~= spine_documents(
                    mv,
                    sv,
                    resources@,
                    xhtml@,
                    j as int,
                ));
            },
        }
        j = j + 1;
    }
    assert(sv.take(m as int) =~= sv);
    Ok(DiscoveredContent { documents, reading_items })
}

/// The base id of the `k`-th inline stylesheet of the spine item `idref`.
pub open spec fn inline_style_base(idref: Seq<char>, k: int) -> Seq<char> {
    "__inline_style_"@ + idref + "_"@ + decimal(k as nat, 0)
}

/// `id` is the first of the collision candidates of `base` that `occupied`
/// does not hold.
pub open spec fn first_free_id(id: Seq<char>, base: Seq<char>, occupied: Seq<Seq<char>>) -> bool {
    &&& !occupied.contains(id)
    &&& exists|k: nat| {
        &&& id == collision_id(base, k)
        &&& forall|j: nat| j < k ==> occupied.contains(#[trigger] collision_id(base, j))
    }
}

/// Append a resource for each inline stylesheet of the spine item `idref`,
/// given as its href and its CSS text, in order: a `text/css` resource with
/// the one property `property`, whose id is the first free collision
/// candidate of `__inline_style_{idref}_{k}` among the occupied ids, which
/// it then joins.
pub fn append_inline_styles(
    resources: &mut Vec<Resource>,
    occupied_ids: &mut Vec<String>,
    idref: &str,
    styles: &[(String, String)],
    property: &str,
)
    ensures
        final(resources)@.len() == old(resources)@.len() + styles@.len(),
        final(resources)@.subrange(0, old(resources)@.len() as int) == old(resources)@,
        final(occupied_ids)@.len() == old(occupied_ids)@.len() + styles@.len(),
        final(occupied_ids)@.subrange(0, old(occupied_ids)@.len() as int) == old(occupied_ids)@,
        forall|k: int| 0 <= k < styles@.len() ==> {
            let res = #[trigger] final(resources)@[old(resources)@.len() + k];
            &&& res.id@ == final(occupied_ids)@[old(occupied_ids)@.len() + k]@
            &&& first_free_id(
                res.id@,
                inline_style_base(idref@, k),
                texts(final(occupied_ids)@.subrange(0, old(occupied_ids)@.len() + k)),
            )
            &&& res.href@ == styles@[k].0@
            &&& res.media_type@ == "text/css"@
            &&& texts(res.properties@) == seq![property@]
            &&& res.data@ == encode_utf8(styles@[k].1@)
        },
{
    let ghost r0 = resources@;
    let ghost o0 = occupied_ids@;
    let mut k: usize = 0;
    while k < styles.len()
        invariant
            k <= styles@.len(),
            resources@.len() == r0.len() + k,
            resources@.subrange(0, r0.len() as int) == r0,
            occupied_ids@.len() == o0.len() + k,
            occupied_ids@.subrange(0, o0.len() as int) == o0,
            forall|i: int| 0 <= i < k ==> {
                let res = #[trigger] resources@[r0.len() + i];
                &&& res.id@ == occupied_ids@[o0.len() + i]@
                &&& first_free_id(
                    res.id@,
                    inline_style_base(idref@, i),
                    texts(occupied_ids@.subrange(0, o0.len() + i)),
                )
                &&& res.href@ == styles@[i].0@
                &&& res.media_type@ == "text/css"@
                &&& texts(res.properties@) == seq![property@]
                &&& res.data@ == encode_utf8(styles@[i].1@)
            },
        decreases styles@.len() - k,
    {
        let mut base: Vec<char> = Vec::new();
        push_str_chars(&mut base, "__inline_style_");
        push_str_chars(&mut base, idref);
        base.push('_');
        let digits = crate::strings::decimal_chars(k, 0);
        crate::strings::push_chars(&mut base, digits.as_slice(), 0, digits.len());
        let base_id = string_from_chars(base.as_slice());
        proof {
            reveal_strlit("_");
        }
        assert(base_id@ =~= inline_style_base(idref@, k as int));
        let id = crate::epub::xhtml::unique_resource_id(base_id.as_str(), occupied_ids.as_slice());
        let ghost occ = occupied_ids@;
        let ghost rs = resources@;
        occupied_ids.push(id.clone());
        let mut properties: Vec<String> = Vec::new();
        properties.push(property.to_owned());
        let data = styles[k].1.as_str().as_bytes_vec();
        resources.push(Resource {
            id,
            href: styles[k].0.clone(),
            media_type: "text/css".to_owned(),
            properties,
            data,
        });
        proof {
            assert(occ =~= occupied_ids@.subrange(0, o0.len() + k));
            assert(texts(properties@) =~= seq![property@]);
            assert forall|i: int| 0 <= i < k + 1 implies {
                let res = #[trigger] resources@[r0.len() + i];
                &&& res.id@ == occupied_ids@[o0.len() + i]@
                &&& first_free_id(
                    res.id@,
                    inline_style_base(idref@, i),
                    texts(occupied_ids@.subrange(0, o0.len() + i)),
                )
                &&& res.href@ == styles@[i].0@
                &&& res.media_type@ == "text/css"@
                &&& texts(res.properties@) == seq![property@]
                &&& res.data@ == encode_utf8(styles@[i].1@)
            } by {
                if i < k {
                    assert(resources@[r0.len() + i] == rs[r0.len() + i]);
                    assert(occupied_ids@[o0.len() + i] == occ[o0.len() + i]);
                    assert(occupied_ids@.subrange(0, o0.len() + i) =~= occ.subrange(0, o0.len() + i));
                } else {
                    assert(occupied_ids@.subrange(0, o0.len() + i) =~= occ);
                }
            }
            assert(resources@.subrange(0, r0.len() as int) =~= rs.subrange(0, r0.len() as int));
            assert(occupied_ids@.subrange(0, o0.len() as int) =~= occ.subrange(0, o0.len() as int));
        }
        k = k + 1;
    }
}

/// The writing modes that the content documents' roots declare, in order,
/// or the message of the first document that does not read as XML.
pub open spec fn writing_modes_of(docs: Seq<SpineDocumentView>, n: int) -> Result<Seq<Option<WritingMode>>, Seq<char>>
    decreases n,
{
    if n <= 0 {
        Ok(Seq::empty())
    } else {
        match writing_modes_of(docs, n - 1) {
            Err(m) => Err(m),
            Ok(ms) => {
                let b = encode_utf8(docs[n - 1].source_xhtml);
                match root_modes_checked(b, 0, b.len(), (None, None)) {
                    Err(m) => Err(m),
                    Ok(x) => Ok(ms.push(root_mode_of(x))),
                }
            },
        }
    }
}

proof fn lemma_modes_err(docs: Seq<SpineDocumentView>, j: int, k: int)
    requires
        j <= k,
        writing_modes_of(docs, j) is Err,
    ensures
        writing_modes_of(docs, k) == writing_modes_of(docs, j),
    decreases k - j,
{
    if j < k {
        lemma_modes_err(docs, j, k - 1);
    }
}

/// The writing mode that the root of each discovered content document
/// declares, one per document in order; a document that does not read as
/// XML is an XML error.
pub fn discovered_writing_modes(d: &DiscoveredContent) -> (r: Result<Vec<Option<WritingMode>>, Error>)
    ensures
        match writing_modes_of(d.documents@.map_values(|x: SpineDocument| x@), d.documents@.len() as int) {
            Ok(ms) => r matches Ok(v) && v@ == ms,
            Err(m) => r matches Err(Error::Xml(e)) && e@ == m,
        },
{
    let ghost dv = d.documents@.map_values(|x: SpineDocument| x@);
    let mut modes: Vec<Option<WritingMode>> = Vec::new();
    let mut i: usize = 0;
    while i < d.documents.len()
        invariant
            i <= d.documents@.len(),
            dv == d.documents@.map_values(|x: SpineDocument| x@),
            writing_modes_of(dv, i as int) == Ok::<Seq<Option<WritingMode>>, Seq<char>>(modes@),
        decreases d.documents@.len() - i,
    {
        assert(dv[i as int].source_xhtml == d.documents@[i as int].source_xhtml@);
        match parse_document_root_writing_mode(d.documents[i].source_xhtml.as_str()) {
            Ok(w) => {
                modes.push(w);
            },
            Err(e) => {
                proof {
                    lemma_modes_err(dv, i + 1, dv.len() as int);
                }
                return Err(e);
            },
        }
        i = i + 1;
    }
    Ok(modes)
}

/// The ids of the manifest items that the spine reads as content: with no
/// fallbacks in the package model, the spine's idrefs, in order.
pub fn content_source_ids(parsed: &ParsedOpf) -> (r: Vec<String>)
    ensures
        texts(r@) == parsed@.spine.map_values(|s: SpineItemView| s.idref),
{
    let mut r: Vec<String> = Vec::new();
    let mut j: usize = 0;
    while j < parsed.spine.len()
        invariant
            j <= parsed.spine@.len(),
            texts(r@) == parsed@.spine.take(j as int).map_values(|s: SpineItemView| s.idref),
        decreases parsed.spine@.len() - j,
    {
        let ghost before = r@;
        r.push(parsed.spine[j].idref.clone());
        proof {
            assert(parsed@.spine[j as int] == parsed.spine@[j as int]@);
            assert(texts(r@) =~= texts(before).push(parsed.spine@[j as int].idref@));
            assert(texts(r@) =~= parsed@.spine.take(j + 1).map_values(|s: SpineItemView| s.idref));
        }
        j = j + 1;
    }
    assert(parsed@.spine.take(j as int) =~= parsed@.spine);
    r
}

/// The position of the last `/` below `j`, if any.
pub open spec fn last_slash_below(p: Seq<char>, j: int) -> Option<int>
    decreases j,
{
    if j <= 0 || j > p.len() {
        None
    } else if p[j - 1] == '/' {
        Some(j - 1)
    } else {
        last_slash_below(p, j - 1)
    }
}

/// The directory of the package document, against which manifest hrefs
/// resolve: the part of its path before the last `/`, empty when it has none.
pub open spec fn package_base_of(opf_path: Seq<char>) -> Seq<char> {
    match last_slash_below(opf_path, opf_path.len() as int) {
        Some(k) => opf_path.subrange(0, k),
        None => Seq::empty(),
    }
}

/// The directory of the package document.
pub fn package_base(opf_path: &str) -> (r: String)
    ensures
        r@ == package_base_of(opf_path@),
{
    let chars = str_chars(opf_path);
    let n = chars.len();
    let mut j = n;
    while j > 0 && chars[j - 1] != '/'
        invariant
            n == chars@.len(),
            chars@ == opf_path@,
            j <= n,
            last_slash_below(chars@, j as int) == last_slash_below(chars@, n as int),
        decreases j,
    {
        j = j - 1;
    }
    if j == 0 {
        return String::new();
    }
    let mut out: Vec<char> = Vec::new();
    crate::strings::push_chars(&mut out, chars.as_slice(), 0, j - 1);
    string_from_chars(out.as_slice())
}

// ---------------------------------------------------------------------------
// Navigation sources and the book.

/// The first manifest item from `i` on with the `nav` property, up to ASCII
/// case.
pub open spec fn first_nav(m: Seq<ManifestItemView>, i: int) -> Option<int>
    decreases m.len() - i,
{
    if i < 0 || i >= m.len() {
        None
    } else if has_text_ci(m[i].properties, "nav"@) {
        Some(i)
    } else {
        first_nav(m, i + 1)
    }
}

proof fn lemma_first_nav(m: Seq<ManifestItemView>, i: int)
    requires
        0 <= i,
    ensures
        first_nav(m, i) matches Some(k) ==> i <= k < m.len(),
    decreases m.len() - i,
{
    if i < m.len() && !has_text_ci(m[i].properties, "nav"@) {
        lemma_first_nav(m, i + 1);
    }
}

/// The navigation document that gives the visible table of contents.
#[derive(Debug, Clone, PartialEq, Eq)]
pub enum NavigationSource {
    /// The NCX at the path.
    Ncx(String),
    /// The EPUB 3 navigation document at the path.
    Nav(String),
}

/// Where the navigation of a package is read: the primary document, if
/// any, and the EPUB 3 navigation document that supplements an NCX.
#[derive(Debug, Clone)]
pub struct NavigationPlan {
    pub primary: Option<NavigationSource>,
    pub supplemental: Option<String>,
}

/// The archive path of a manifest item.
pub open spec fn item_path(base: Seq<char>, m: Seq<ManifestItemView>, k: int) -> Seq<char> {
    crate::epub::opf::resolved_href(base, m[k].href)
}

/// The navigation plan of a package whose manifest items resolve against
/// `base`: when the spine names an NCX, it is the primary document if the
/// manifest has it, and the first `nav` item supplements it; otherwise the
/// first `nav` item is the primary document.
pub open spec fn plan_holds(r: NavigationPlan, p: ParsedOpfView, base: Seq<char>) -> bool {
    let m = p.manifest;
    let nav = first_nav(m, 0);
    match p.ncx_id {
        Some(id) => {
            &&& match first_with_id(m, id, 0) {
                Some(k) => r.primary matches Some(NavigationSource::Ncx(path)) && path@ == item_path(base, m, k),
                None => r.primary is None,
            }
            &&& match nav {
                Some(k) => r.supplemental matches Some(path) && path@ == item_path(base, m, k),
                None => r.supplemental is None,
            }
        },
        None => {
            &&& match nav {
                Some(k) => r.primary matches Some(NavigationSource::Nav(path)) && path@ == item_path(base, m, k),
                None => r.primary is None,
            }
            &&& r.supplemental is None
        },
    }
}

/// The first `nav` item of a manifest.
fn find_nav_item(manifest: &[ManifestItem]) -> (r: Option<usize>)
    ensures
        match r {
            Some(k) => first_nav(manifest_views(manifest@), 0) == Some(k as int) && k < manifest@.len(),
            None => first_nav(manifest_views(manifest@), 0) is None,
        },
{
    let ghost mv = manifest_views(manifest@);
    proof {
        lemma_first_nav(mv, 0);
    }
    let mut i: usize = 0;
    while i < manifest.len()
        invariant
            i <= manifest@.len(),
            mv == manifest_views(manifest@),
            mv.len() == manifest@.len(),
            first_nav(mv, i as int) == first_nav(mv, 0),
        decreases manifest@.len() - i,
    {
        assert(mv[i as int] == manifest@[i as int]@);
        if has_property(&manifest[i], "nav") {
            return Some(i);
        }
        i = i + 1;
    }
    None
}

/// Plan where the navigation of the package is read, its manifest items
/// resolving against the package document's directory `base`.
pub fn navigation_plan(parsed: &ParsedOpf, index: &ManifestIdIndex, base: &str) -> (r: NavigationPlan)
    requires
        index.indexes(manifest_views(parsed.manifest@)),
    ensures
        plan_holds(r, parsed@, base@),
{
    let ghost mv = manifest_views(parsed.manifest@);
    assert(parsed@.manifest =~= mv);
    let nav = match find_nav_item(parsed.manifest.as_slice()) {
        Some(k) => {
            assert(mv[k as int] == parsed.manifest@[k as int]@);
            assert(first_nav(mv, 0) == Some(k as int));
            let path = crate::epub::opf::resolve_href(base, parsed.manifest[k].href.as_str());
            assert(path@ == item_path(base@, mv, k as int));
            Some(path)
        },
        None => None,
    };
    assert(match first_nav(mv, 0) {
        Some(k) => nav matches Some(path) && path@ == item_path(base@, mv, k),
        None => nav is None,
    });
    match &parsed.ncx_id {
        Some(id) => {
            assert(parsed@.ncx_id == Some(id@));
            let primary = match index.get(parsed.manifest.as_slice(), id.as_str()) {
                Some(item) => {
                    proof {
                        lemma_first_with_id(mv, id@, 0);
                        let k = first_with_id(mv, id@, 0)->0;
                        assert(mv[k] == item@);
                        assert(item_path(base@, mv, k) == crate::epub::opf::resolved_href(base@, item.href@));
                    }
                    Some(NavigationSource::Ncx(crate::epub::opf::resolve_href(base, item.href.as_str())))
                },
                None => None,
            };
            NavigationPlan { primary, supplemental: nav }
        },
        None => {
            let primary = match nav {
                Some(path) => Some(NavigationSource::Nav(path)),
                None => None,
            };
            assert(parsed@.ncx_id is None);
            NavigationPlan { primary, supplemental: None }
        },
    }
}

/// Merge the navigation read from the primary document with the EPUB 3
/// navigation document that supplements an NCX: the landmarks come from
/// the navigation document, and so do the table-of-contents items when the
/// primary document has none; the title stays the primary document's.
/// Without a supplement, the primary navigation is kept. Canonicalizing
/// the hrefs of either is not part of this merge.
pub fn merge_navigation(primary: Navigation, supplemental: Option<Navigation>) -> (r: Navigation)
    ensures
        match supplemental {
            None => r == primary,
            Some(nav) => {
                &&& r.title == primary.title
                &&& r.landmarks == nav.landmarks
                &&& r.items == (if primary.items@.len() == 0 {
                    nav.items
                } else {
                    primary.items
                })
            },
        },
{
    match supplemental {
        None => primary,
        Some(nav) => {
            let Navigation { title, items, landmarks: _ } = primary;
            let Navigation { title: _, items: nav_items, landmarks } = nav;
            let items = if items.len() == 0 {
                nav_items
            } else {
                items
            };
            Navigation { title, items, landmarks }
        },
    }
}

/// The rules of stylesheets, one sheet after the other.
pub open spec fn sheet_rules(sheets: Seq<StyleSheet>) -> Seq<CssRule>
    decreases sheets.len(),
{
    if sheets.len() == 0 {
        Seq::empty()
    } else {
        sheet_rules(sheets.drop_last()) + sheets.last().rules@
    }
}

/// The computed styles of every rule of the stylesheets, in order.
pub fn computed_styles_of(sheets: &[StyleSheet]) -> (r: Vec<ComputedStyle>)
    ensures
        r@.len() == sheet_rules(sheets@).len(),
        forall|k: int| 0 <= k < r@.len() ==> style_of(#[trigger] r@[k], sheet_rules(sheets@)[k]),
{
    let mut r: Vec<ComputedStyle> = Vec::new();
    let mut i: usize = 0;
    while i < sheets.len()
        invariant
            i <= sheets@.len(),
            r@.len() == sheet_rules(sheets@.take(i as int)).len(),
            forall|k: int| 0 <= k < r@.len() ==> style_of(#[trigger] r@[k], sheet_rules(sheets@.take(i as int))[k]),
        decreases sheets@.len() - i,
    {
        let mut more = sheets[i].computed_styles();
        let ghost before = r@;
        let ghost added = more@;
        r.append(&mut more);
        proof {
            assert(sheets@.take(i + 1).drop_last() =~= sheets@.take(i as int));
            assert(sheets@.take(i + 1).last() == sheets@[i as int]);
            let rules = sheet_rules(sheets@.take(i + 1));
            assert(rules == sheet_rules(sheets@.take(i as int)) + sheets@[i as int].rules@);
            assert forall|k: int| 0 <= k < r@.len() implies style_of(#[trigger] r@[k], rules[k]) by {
                if k < before.len() {
                    assert(r@[k] == before[k]);
                } else {
                    assert(r@[k] == added[k - before.len()]);
                }
            }
        }
        i = i + 1;
    }
    assert(sheets@.take(i as int) =~= sheets@);
    r
}

/// Assemble the book from what the package reading found: the package's
/// metadata, with the cover it names or, failing that, its first
/// `cover-image` item; the spine's reading order and page progression; the
/// navigation; the content documents; the resources; the stylesheets with
/// the computed style of each rule; and the layout inferred from the
/// package, the documents' root writing modes and those computed styles.
pub fn assemble_book(
    parsed: ParsedOpf,
    resources: Vec<Resource>,
    discovered: DiscoveredContent,
    content: Vec<ContentDocument>,
    sheets: Vec<StyleSheet>,
    navigation: Navigation,
    document_writing_modes: Vec<Option<WritingMode>>,
) -> (r: Book)
    ensures
        r.metadata@ == (MetadataView { cover: package_cover_id(parsed@), ..parsed@.metadata }),
        r.reading_order.items == discovered.reading_items,
        r.reading_order.page_progression == parsed.page_progression,
        r.navigation == navigation,
        r.content == content,
        r.resources.items == resources,
        r.styles.sheets == sheets,
        r.styles.computed@.len() == sheet_rules(sheets@).len(),
        forall|k: int| 0 <= k < r.styles.computed@.len() ==> style_of(#[trigger] r.styles.computed@[k], sheet_rules(sheets@)[k]),
        r.layout == inferred_layout(
            r.styles.computed@,
            parsed.page_progression,
            parsed.primary_writing_mode,
            document_writing_modes@,
        ),
{
    let computed = computed_styles_of(sheets.as_slice());
    let styles = Styles { sheets, computed };
    let layout = infer_layout(
        &styles,
        parsed.page_progression,
        parsed.primary_writing_mode,
        document_writing_modes.as_slice(),
    );
    let cover = package_cover(&parsed);
    let page_progression = parsed.page_progression;
    let mut metadata = parsed.metadata;
    metadata.cover = cover;
    Book {
        metadata,
        reading_order: ReadingOrder { items: discovered.reading_items, page_progression },
        navigation,
        content,
        resources: Resources { items: resources },
        layout,
        styles,
    }
}

// ---------------------------------------------------------------------------
// The cover of the package.

/// The first manifest item from `i` on with the `cover-image` property, up
/// to ASCII case.
pub open spec fn first_cover_image(m: Seq<ManifestItemView>, i: int) -> Option<int>
    decreases m.len() - i,
{
    if i < 0 || i >= m.len() {
        None
    } else if has_text_ci(m[i].properties, "cover-image"@) {
        Some(i)
    } else {
        first_cover_image(m, i + 1)
    }
}

/// The cover resource id of a package: the one its metadata declares, else
/// that of the first manifest item with the `cover-image` property.
pub open spec fn package_cover_id(p: ParsedOpfView) -> Option<Seq<char>> {
    match p.metadata.cover {
        Some(c) => Some(c),
        None => match first_cover_image(p.manifest, 0) {
            Some(k) => Some(p.manifest[k].id),
            None => None,
        },
    }
}

/// The cover resource id of the package.
pub fn package_cover(parsed: &ParsedOpf) -> (r: Option<String>)
    ensures
        opt_text(r) == package_cover_id(parsed@),
{
    match &parsed.metadata.cover {
        Some(c) => {
            return Some(c.clone());
        },
        None => {},
    }
    let ghost mv = manifest_views(parsed.manifest@);
    assert(parsed@.manifest =~= mv);
    let mut i: usize = 0;
    while i < parsed.manifest.len()
        invariant
            i <= parsed.manifest@.len(),
            mv == manifest_views(parsed.manifest@),
            parsed@.manifest == mv,
            parsed@.metadata.cover is None,
            first_cover_image(mv, i as int) == first_cover_image(mv, 0),
        decreases parsed.manifest@.len() - i,
    {
        assert(mv[i as int] == parsed.manifest@[i as int]@);
        if has_property(&parsed.manifest[i], "cover-image") {
            return Some(parsed.manifest[i].id.clone());
        }
        i = i + 1;
    }
    None
}

} // verus!
