//! Pieces of the normalization into the Kindle model: document paths, cover
//! link suppression, landmark kinds and the synthetic table of contents.

use vstd::prelude::*;
use vstd::string::StrSliceExecFns;
use crate::kf8::wire::bytes_to_vec;
use crate::book::layout::Layout;
use crate::book::{Book, ContentDocument, NavigationItem, NavigationLandmark, ReadingOrderItem};
use crate::book::metadata::Metadata;
use crate::kindle::ir::{KindleBook, KindleLandmark, KindleLayoutSemantic, KindleMetadata, KindleResource};
use crate::kindle::css::{css_projection, project_css_for_kindle};
use crate::strings::{lossy_text, opt_text, texts, trim_spec, trim_str, utf8_lossy};
use crate::book::resource::Resource;
use crate::kindle::ir::KindleSection;
use crate::strings::{decimal, decimal_chars, lemma_decimal_injective, lemma_pigeonhole};
use crate::kindle::ir::{KindleLayout, KindleNavigationItem};
use crate::strings::{
    is_unicode_ws, lower_chars, lower_eq, push_chars, push_str_chars, str_chars, string_from_chars,
    unicode_whitespace,
};
use crate::xhtml::path::{fragment_start, last_slash, normalize_path_lossy, normalize_spec};

verus! {

// ---------------------------------------------------------------------------
// Document paths.

/// The document a reference names: the part before any `#` or `?`,
/// normalized.
pub open spec fn document_path_spec(href: Seq<char>) -> Seq<char> {
    normalize_spec(href.subrange(0, fragment_start(href, 0)))
}

pub proof fn lemma_fragment_start(s: Seq<char>, i: int)
    requires
        0 <= i <= s.len(),
    ensures
        i <= fragment_start(s, i) <= s.len(),
    decreases s.len() - i,
{
    if i < s.len() && !(s[i] == '#' || s[i] == '?') {
        lemma_fragment_start(s, i + 1);
    }
}

/// The end of the document part of a reference: its first `#` or `?`.
fn fragment_end(href: &str) -> (r: usize)
    ensures
        r == fragment_start(href@, 0),
        r <= href@.len(),
{
    let n = href.unicode_len();
    let mut end: usize = 0;
    proof {
        lemma_fragment_start(href@, 0);
    }
    while end < n && href.get_char(end) != '#' && href.get_char(end) != '?'
        invariant
            n == href@.len(),
            end <= n,
            fragment_start(href@, end as int) == fragment_start(href@, 0),
        decreases n - end,
    {
        end = end + 1;
    }
    end
}

/// The document a reference names: the part before any `#` or `?`,
/// normalized.
pub fn document_path(href: &str) -> (r: String)
    ensures
        r@ == document_path_spec(href@),
{
    let end = fragment_end(href);
    normalize_path_lossy(href.substring_char(0, end))
}

/// The document that `target` names from the section `section_href`: the
/// section itself for a fragment-only reference.
pub open spec fn resolved_document(section_href: Seq<char>, target: Seq<char>) -> Seq<char> {
    let t = target.subrange(0, fragment_start(target, 0));
    if t.len() == 0 {
        document_path_spec(section_href)
    } else {
        let section = document_path_spec(section_href);
        let base = match last_slash(section, section.len() as int) {
            Some(k) => section.subrange(0, k),
            None => Seq::empty(),
        };
        document_path_spec(base + seq!['/'] + t)
    }
}

pub proof fn lemma_last_slash(s: Seq<char>, i: int)
    requires
        0 <= i <= s.len(),
    ensures
        last_slash(s, i) matches Some(k) ==> 0 <= k < i,
    decreases i,
{
    if i > 0 && s[i - 1] != '/' {
        lemma_last_slash(s, i - 1);
    }
}

/// The document that `target` names from the section `section_href`.
pub fn resolve_document_path(section_href: &str, target: &str) -> (r: String)
    ensures
        r@ == resolved_document(section_href@, target@),
{
    let end = fragment_end(target);
    if end == 0 {
        return document_path(section_href);
    }
    let section = document_path(section_href);
    let s = section.as_str();
    let n = s.unicode_len();
    let mut k = n;
    proof {
        lemma_last_slash(s@, n as int);
    }
    while k > 0 && s.get_char(k - 1) != '/'
        invariant
            n == s@.len(),
            k <= n,
            last_slash(s@, k as int) == last_slash(s@, n as int),
        decreases k,
    {
        k = k - 1;
    }
    let mut joined: Vec<char> = Vec::new();
    if k > 0 {
        push_str_chars(&mut joined, s.substring_char(0, k - 1));
    }
    joined.push('/');
    push_str_chars(&mut joined, target.substring_char(0, end));
    let text = string_from_chars(joined.as_slice());
    proof {
        let base = match last_slash(s@, n as int) {
            Some(j) => s@.subrange(0, j),
            None => Seq::empty(),
        };
        assert(joined@ =~= base + seq!['/'] + target@.subrange(0, end as int));
    }
    document_path(text.as_str())
}

// ---------------------------------------------------------------------------
// Landmarks and attributes.

/// A landmark kind that marks the start of the body matter.
pub open spec fn bodymatter_kind(kind: Seq<char>) -> bool {
    let l = lower_chars(kind);
    l == "text"@ || l == "body"@ || l == "bodymatter"@ || l == "start"@
}

/// Whether a landmark kind marks the start of the body matter.
pub fn is_bodymatter_landmark(kind: &str) -> (r: bool)
    ensures
        r == bodymatter_kind(kind@),
{
    lower_eq(kind, "text") || lower_eq(kind, "body") || lower_eq(kind, "bodymatter") || lower_eq(
        kind,
        "start",
    )
}

/// ASCII whitespace.
pub open spec fn attr_ws(c: char) -> bool {
    c == ' ' || c == '\t' || c == '\n' || c == '\x0C' || c == '\r'
}

/// ASCII whitespace skipped from `c`.
pub open spec fn attr_ws_end(s: Seq<char>, c: int) -> int
    decreases s.len() - c,
{
    if 0 <= c < s.len() && attr_ws(s[c]) {
        attr_ws_end(s, c + 1)
    } else {
        c
    }
}

/// The first position at or after `i` where `needle` stands up to ASCII
/// case.
pub open spec fn ci_find(s: Seq<char>, needle: Seq<char>, i: int) -> Option<int>
    decreases s.len() + 1 - i,
{
    if i < 0 || i + needle.len() > s.len() {
        None
    } else if lower_chars(s.subrange(i, i + needle.len())) == lower_chars(needle) {
        Some(i)
    } else {
        ci_find(s, needle, i + 1)
    }
}

/// The first position at or after `i` of the character `q`.
pub open spec fn char_pos(s: Seq<char>, q: char, i: int) -> Option<int>
    decreases s.len() - i,
{
    if i < 0 || i >= s.len() {
        None
    } else if s[i] == q {
        Some(i)
    } else {
        char_pos(s, q, i + 1)
    }
}

/// A whitespace-separated token of `s[i..]` equals `v` up to ASCII case.
pub open spec fn token_from(s: Seq<char>, i: int, v: Seq<char>) -> bool
    decreases s.len() - i,
{
    if i < 0 || i >= s.len() {
        false
    } else if is_unicode_ws(s[i]) {
        token_from(s, i + 1, v)
    } else {
        let e = token_end(s, i);
        proof {
            lemma_token_end(s, i);
        }
        lower_chars(s.subrange(i, e)) == lower_chars(v) || token_from(s, e, v)
    }
}

/// The end of the token that starts at `i`.
pub open spec fn token_end(s: Seq<char>, i: int) -> int
    decreases s.len() - i,
{
    if 0 <= i < s.len() && !is_unicode_ws(s[i]) {
        token_end(s, i + 1)
    } else {
        i
    }
}

pub proof fn lemma_token_end(s: Seq<char>, i: int)
    requires
        0 <= i < s.len(),
        !is_unicode_ws(s[i]),
    ensures
        i < token_end(s, i) <= s.len(),
    decreases s.len() - i,
{
    if i + 1 < s.len() && !is_unicode_ws(s[i + 1]) {
        lemma_token_end(s, i + 1);
    } else {
        assert(token_end(s, i + 1) == i + 1);
    }
}

/// The first `wanted` in the tag, up to ASCII case, is followed by `=` and a
/// quoted value of which one whitespace-separated token is `value` up to
/// ASCII case.
pub open spec fn attribute_token(tag: Seq<char>, wanted: Seq<char>, value: Seq<char>) -> bool {
    match ci_find(tag, wanted, 0) {
        None => false,
        Some(start) => {
            let c1 = attr_ws_end(tag, start + wanted.len());
            if !(0 <= c1 < tag.len() && tag[c1] == '=') {
                false
            } else {
                let c2 = attr_ws_end(tag, c1 + 1);
                if !(0 <= c2 < tag.len() && (tag[c2] == '"' || tag[c2] == '\'')) {
                    false
                } else {
                    match char_pos(tag, tag[c2], c2 + 1) {
                        None => false,
                        Some(e) => token_from(tag.subrange(c2 + 1, e), 0, value),
                    }
                }
            }
        },
    }
}

pub proof fn lemma_char_pos(s: Seq<char>, q: char, i: int)
    requires
        0 <= i,
    ensures
        char_pos(s, q, i) matches Some(k) ==> i <= k < s.len(),
    decreases s.len() - i,
{
    if i < s.len() && s[i] != q {
        lemma_char_pos(s, q, i + 1);
    }
}

pub proof fn lemma_attr_ws_end(s: Seq<char>, c: int)
    requires
        0 <= c,
    ensures
        c <= attr_ws_end(s, c),
        c <= s.len() ==> attr_ws_end(s, c) <= s.len(),
    decreases s.len() - c,
{
    if 0 <= c < s.len() && attr_ws(s[c]) {
        lemma_attr_ws_end(s, c + 1);
    }
}

pub proof fn lemma_ci_find(s: Seq<char>, needle: Seq<char>, i: int)
    requires
        0 <= i,
    ensures
        ci_find(s, needle, i) matches Some(k) ==> i <= k && k + needle.len() <= s.len(),
    decreases s.len() + 1 - i,
{
    if i + needle.len() <= s.len() && lower_chars(s.subrange(i, i + needle.len())) != lower_chars(
        needle,
    ) {
        lemma_ci_find(s, needle, i + 1);
    }
}

/// Whether `t[i..i + n.len()]` equals `n` up to ASCII case.
fn ci_matches_at(t: &[char], n: &[char], i: usize) -> (r: bool)
    requires
        i + n@.len() <= t@.len(),
    ensures
        r == (lower_chars(t@.subrange(i as int, i + n@.len())) == lower_chars(n@)),
{
    let len = t.len();
    let m = n.len();
    let mut j: usize = 0;
    while j < m
        invariant
            len == t@.len(),
            m == n@.len(),
            i + m <= t@.len(),
            j <= m,
            forall|k: int| 0 <= k < j ==> crate::strings::lower_char(t@[i + k])
                == crate::strings::lower_char(n@[k]),
        decreases m - j,
    {
        if crate::strings::to_lower_char(t[i + j]) != crate::strings::to_lower_char(n[j]) {
            assert(lower_chars(t@.subrange(i as int, i + m))[j as int] != lower_chars(n@)[j as int]);
            return false;
        }
        j = j + 1;
    }
    assert(lower_chars(t@.subrange(i as int, i + m)) =~= lower_chars(n@));
    true
}

/// The first position at or after `i` where `n` stands up to ASCII case.
fn ci_find_from(t: &[char], n: &[char], i: usize) -> (r: Option<usize>)
    ensures
        r == (match ci_find(t@, n@, i as int) {
            Some(k) => Some(k as usize),
            None => None::<usize>,
        }),
        r matches Some(k) ==> i <= k && k + n@.len() <= t@.len() && ci_find(t@, n@, i as int) == Some(
            k as int,
        ),
{
    proof {
        lemma_ci_find(t@, n@, i as int);
    }
    let len = t.len();
    let m = n.len();
    if m > len {
        return None;
    }
    if i > len - m {
        return None;
    }
    let mut k = i;
    loop
        invariant
            len == t@.len(),
            m == n@.len(),
            m <= len,
            i <= k <= len - m,
            ci_find(t@, n@, k as int) == ci_find(t@, n@, i as int),
        decreases len - k,
    {
        if ci_matches_at(t, n, k) {
            return Some(k);
        }
        if k == len - m {
            assert(ci_find(t@, n@, k + 1) is None);
            return None;
        }
        k = k + 1;
    }
}

/// Skip ASCII whitespace from `c`.
fn skip_attr_space(t: &[char], c: usize) -> (r: usize)
    ensures
        r == attr_ws_end(t@, c as int),
        c <= r,
        c <= t@.len() ==> r <= t@.len(),
{
    proof {
        lemma_attr_ws_end(t@, c as int);
    }
    let mut k = c;
    while k < t.len() && (t[k] == ' ' || t[k] == '\t' || t[k] == '\n' || t[k] == '\x0C' || t[k]
        == '\r')
        invariant
            c <= k,
            attr_ws_end(t@, k as int) == attr_ws_end(t@, c as int),
        decreases t@.len() - k,
    {
        k = k + 1;
    }
    k
}

/// Whether a whitespace-separated token of `s` equals `v` up to ASCII case.
pub fn has_token(s: &[char], v: &[char]) -> (r: bool)
    ensures
        r == token_from(s@, 0, v@),
{
    let n = s.len();
    let mut i: usize = 0;
    while i < n
        invariant
            n == s@.len(),
            i <= n,
            token_from(s@, i as int, v@) == token_from(s@, 0, v@),
        decreases n - i,
    {
        if unicode_whitespace(s[i]) {
            i = i + 1;
        } else {
            let mut e = i;
            proof {
                lemma_token_end(s@, i as int);
            }
            while e < n && !unicode_whitespace(s[e])
                invariant
                    n == s@.len(),
                    i <= e <= n,
                    token_end(s@, e as int) == token_end(s@, i as int),
                decreases n - e,
            {
                e = e + 1;
            }
            let token = &s[i..e];
            assert(token@ == s@.subrange(i as int, e as int));
            if v.len() == token.len() && ci_matches_at(token, v, 0) {
                assert(token@.subrange(0, v@.len() as int) =~= token@);
                return true;
            }
            proof {
                if v@.len() == token@.len() {
                    assert(token@.subrange(0, v@.len() as int) =~= token@);
                }
                assert(token_end(s@, e as int) == e);
                assert(lower_chars(s@.subrange(i as int, e as int)).len() == e - i);
                assert(lower_chars(v@).len() == v@.len());
                assert(lower_chars(s@.subrange(i as int, e as int)) != lower_chars(v@));
                assert(token_from(s@, i as int, v@) == token_from(s@, e as int, v@));
            }
            i = e;
        }
    }
    false
}

/// Whether the first `wanted` attribute name in the tag, up to ASCII case,
/// has a quoted value of which a whitespace-separated token is `value`.
pub fn has_attribute_token(tag: &str, wanted: &str, value: &str) -> (r: bool)
    ensures
        r == attribute_token(tag@, wanted@, value@),
{
    let t = str_chars(tag);
    let tl = t.len();
    let w = str_chars(wanted);
    let v = str_chars(value);
    let start = match ci_find_from(t.as_slice(), w.as_slice(), 0) {
        Some(s) => s,
        None => {
            return false;
        },
    };
    let c1 = skip_attr_space(t.as_slice(), start + w.len());
    if !(c1 < t.len() && t[c1] == '=') {
        return false;
    }
    let c2 = skip_attr_space(t.as_slice(), c1 + 1);
    if !(c2 < t.len() && (t[c2] == '"' || t[c2] == '\'')) {
        return false;
    }
    let quote = t[c2];
    let mut e = c2 + 1;
    proof {
        lemma_char_pos(t@, quote, c2 + 1);
    }
    while e < t.len() && t[e] != quote
        invariant
            c2 + 1 <= e,
            char_pos(t@, quote, e as int) == char_pos(t@, quote, c2 + 1),
        decreases t@.len() - e,
    {
        e = e + 1;
    }
    if e >= t.len() {
        return false;
    }
    has_token(&t.as_slice()[c2 + 1..e], v.as_slice())
}

// ---------------------------------------------------------------------------
// Cover links.

/// What a cover landmark link's target becomes.
pub open spec fn cover_marker() -> Seq<char> {
    "kindle:cover-landmark"@
}

/// The `>` that ends a tag, searching from `c` outside quotes.
pub open spec fn tag_close(s: Seq<char>, c: int, q: Option<char>) -> Option<int>
    decreases s.len() - c,
{
    if c < 0 || c >= s.len() {
        None
    } else {
        match q {
            Some(e) => tag_close(s, c + 1, if s[c] == e { None } else { q }),
            None => if s[c] == '"' || s[c] == '\'' {
                tag_close(s, c + 1, Some(s[c]))
            } else if s[c] == '>' {
                Some(c)
            } else {
                tag_close(s, c + 1, None)
            },
        }
    }
}

pub proof fn lemma_tag_close(s: Seq<char>, c: int, q: Option<char>)
    requires
        0 <= c,
    ensures
        tag_close(s, c, q) matches Some(t) ==> c <= t < s.len(),
    decreases s.len() - c,
{
    if c < s.len() {
        match q {
            Some(e) => lemma_tag_close(s, c + 1, if s[c] == e { None } else { q }),
            None => if s[c] == '"' || s[c] == '\'' {
                lemma_tag_close(s, c + 1, Some(s[c]));
            } else if s[c] != '>' {
                lemma_tag_close(s, c + 1, None);
            },
        }
    }
}

/// The end of a tag name from `c`: before whitespace, `/` or `>`, or at `te`.
pub open spec fn name_stop(s: Seq<char>, c: int, te: int) -> int
    decreases te - c,
{
    if 0 <= c < te && c < s.len() && !attr_ws(s[c]) && s[c] != '/' && s[c] != '>' {
        name_stop(s, c + 1, te)
    } else {
        c
    }
}

pub proof fn lemma_name_stop(s: Seq<char>, c: int, te: int)
    requires
        0 <= c <= te <= s.len(),
    ensures
        c <= name_stop(s, c, te) <= te,
    decreases te - c,
{
    if c < te && !attr_ws(s[c]) && s[c] != '/' && s[c] != '>' {
        lemma_name_stop(s, c + 1, te);
    }
}

/// The name of the tag `s[start..=te]` and whether it closes an element.
pub open spec fn tag_name_at(s: Seq<char>, start: int, te: int) -> Option<(int, int, bool)> {
    let closing = start + 1 < s.len() && s[start + 1] == '/';
    let c = if closing { start + 2 } else { start + 1 };
    if c >= te || c >= s.len() || s[c] == '!' || s[c] == '?' {
        None
    } else {
        let e = name_stop(s, c, te);
        if c < e {
            Some((c, e, closing))
        } else {
            None
        }
    }
}

/// The last `<` below `i`.
pub open spec fn last_lt(s: Seq<char>, i: int) -> Option<int>
    decreases i,
{
    if i <= 0 || i > s.len() {
        None
    } else if s[i - 1] == '<' {
        Some(i - 1)
    } else {
        last_lt(s, i - 1)
    }
}

pub proof fn lemma_last_lt(s: Seq<char>, i: int)
    requires
        0 <= i <= s.len(),
    ensures
        last_lt(s, i) matches Some(k) ==> 0 <= k < i && s[k] == '<',
    decreases i,
{
    if i > 0 && s[i - 1] != '<' {
        lemma_last_lt(s, i - 1);
    }
}

/// The nav elements open before `limit`, scanning tags from `c`: for each,
/// whether it is the landmarks navigation.
pub open spec fn nav_stack_from(s: Seq<char>, c: int, limit: int, stack: Seq<bool>) -> Seq<bool>
    decreases s.len() - c,
{
    match char_pos(s, '<', c) {
        None => stack,
        Some(start) => if start >= limit || c < 0 {
            stack
        } else {
            proof {
                lemma_char_pos(s, '<', c);
                lemma_tag_close(s, start + 1, None);
            }
            match tag_close(s, start + 1, None) {
                None => stack,
                Some(te) => {
                    let next = match tag_name_at(s, start, te) {
                        Some((ns, ne, closing)) => if lower_chars(s.subrange(ns, ne)) == "nav"@ {
                            if closing {
                                if stack.len() > 0 {
                                    stack.drop_last()
                                } else {
                                    stack
                                }
                            } else {
                                stack.push(
                                    attribute_token(
                                        s.subrange(start, te + 1),
                                        "epub:type"@,
                                        "landmarks"@,
                                    ),
                                )
                            }
                        } else {
                            stack
                        },
                        None => stack,
                    };
                    nav_stack_from(s, te + 1, limit, next)
                },
            }
        },
    }
}

/// The link whose target starts at `href_start` is a cover landmark: it is
/// an `a` element with `epub:type` `cover`, inside the landmarks navigation.
pub open spec fn cover_landmark(s: Seq<char>, href_start: int) -> bool {
    match last_lt(s, href_start) {
        None => false,
        Some(ts) => match tag_close(s, ts + 1, None) {
            None => false,
            Some(te) => match tag_name_at(s, ts, te) {
                None => false,
                Some((ns, ne, closing)) => !closing && lower_chars(s.subrange(ns, ne)) == "a"@
                    && attribute_token(s.subrange(ts, te + 1), "epub:type"@, "cover"@)
                    && nav_stack_from(s, 0, ts, Seq::empty()).contains(true),
            },
        },
    }
}

/// The `>` that ends the tag opened at `start`.
fn find_tag_close(s: &[char], start: usize) -> (r: Option<usize>)
    ensures
        r == (match tag_close(s@, start + 1, None) {
            Some(t) => Some(t as usize),
            None => None::<usize>,
        }),
        r matches Some(t) ==> start < t < s@.len() && tag_close(s@, start + 1, None) == Some(t as int),
{
    proof {
        lemma_tag_close(s@, start + 1, None);
    }
    let n = s.len();
    if start >= n {
        return None;
    }
    let mut c = start + 1;
    let mut quote: Option<char> = None;
    while c < n
        invariant
            n == s@.len(),
            start < c,
            tag_close(s@, c as int, quote) == tag_close(s@, start + 1, None),
        decreases n - c,
    {
        let ch = s[c];
        match quote {
            Some(e) => {
                if ch == e {
                    quote = None;
                }
            },
            None => {
                if ch == '"' || ch == '\'' {
                    quote = Some(ch);
                } else if ch == '>' {
                    return Some(c);
                }
            },
        }
        c = c + 1;
    }
    None
}

/// The name of the tag `s[start..=te]` and whether it closes an element.
fn find_tag_name(s: &[char], start: usize, te: usize) -> (r: Option<(usize, usize, bool)>)
    requires
        start < te < s@.len(),
    ensures
        r == (match tag_name_at(s@, start as int, te as int) {
            Some((a, e, c)) => Some((a as usize, e as usize, c)),
            None => None::<(usize, usize, bool)>,
        }),
        r matches Some((a, e, c)) ==> start < a < e <= te && tag_name_at(s@, start as int, te as int)
            == Some((a as int, e as int, c)),
{
    let n = s.len();
    let closing = start + 1 < n && s[start + 1] == '/';
    let c = if closing {
        start + 2
    } else {
        start + 1
    };
    if c >= te || c >= n || s[c] == '!' || s[c] == '?' {
        return None;
    }
    proof {
        lemma_name_stop(s@, c as int, te as int);
    }
    let mut e = c;
    while e < te && !(s[e] == ' ' || s[e] == '\t' || s[e] == '\n' || s[e] == '\x0C' || s[e] == '\r')
        && s[e] != '/' && s[e] != '>'
        invariant
            te < s@.len(),
            c <= e <= te,
            name_stop(s@, e as int, te as int) == name_stop(s@, c as int, te as int),
        decreases te - e,
    {
        e = e + 1;
    }
    if c < e {
        Some((c, e, closing))
    } else {
        None
    }
}

/// Whether `s[a..e]` is `name` up to ASCII case.
fn name_is(s: &[char], a: usize, e: usize, name: &str) -> (r: bool)
    requires
        a <= e <= s@.len(),
    ensures
        r == (lower_chars(s@.subrange(a as int, e as int)) == name@),
{
    let part = string_from_chars(&s[a..e]);
    lower_eq(part.as_str(), name)
}

/// Whether the link whose target starts at `href_start` is a cover
/// landmark: an `a` element with `epub:type` `cover` inside the landmarks
/// navigation.
pub fn is_cover_landmark(source: &[char], href_start: usize) -> (r: bool)
    requires
        href_start <= source@.len(),
    ensures
        r == cover_landmark(source@, href_start as int),
{
    let s = source;
    let n = s.len();
    proof {
        lemma_last_lt(s@, href_start as int);
    }
    let mut k = href_start;
    while k > 0 && s[k - 1] != '<'
        invariant
            k <= href_start <= n,
            n == s@.len(),
            last_lt(s@, k as int) == last_lt(s@, href_start as int),
        decreases k,
    {
        k = k - 1;
    }
    if k == 0 {
        return false;
    }
    let tag_start = k - 1;
    let tag_end = match find_tag_close(s, tag_start) {
        Some(t) => t,
        None => {
            return false;
        },
    };
    let (name_start, name_end, closing) = match find_tag_name(s, tag_start, tag_end) {
        Some(x) => x,
        None => {
            return false;
        },
    };
    let anchor = !closing && name_is(s, name_start, name_end, "a");
    if !anchor {
        return false;
    }
    let tag = string_from_chars(&s[tag_start..tag_end + 1]);
    if !has_attribute_token(tag.as_str(), "epub:type", "cover") {
        return false;
    }
    let mut cursor: usize = 0;
    let mut nav_stack: Vec<bool> = Vec::new();
    loop
        invariant
            n == s@.len(),
            tag_start < n,
            cursor <= n,
            nav_stack_from(s@, cursor as int, tag_start as int, nav_stack@) == nav_stack_from(
                s@,
                0,
                tag_start as int,
                Seq::empty(),
            ),
        ensures
            nav_stack@ == nav_stack_from(s@, 0, tag_start as int, Seq::empty()),
        decreases n - cursor,
    {
        proof {
            lemma_char_pos(s@, '<', cursor as int);
        }
        let mut p = cursor;
        while p < n && s[p] != '<'
            invariant
                n == s@.len(),
                cursor <= p <= n,
                char_pos(s@, '<', p as int) == char_pos(s@, '<', cursor as int),
            decreases n - p,
        {
            p = p + 1;
        }
        if p >= n || p >= tag_start {
            break;
        }
        let nav_start = p;
        let nav_end = match find_tag_close(s, nav_start) {
            Some(t) => t,
            None => {
                break;
            },
        };
        match find_tag_name(s, nav_start, nav_end) {
            Some((a, e, nav_closing)) => {
                if name_is(s, a, e, "nav") {
                    if nav_closing {
                        if nav_stack.len() > 0 {
                            let ghost before = nav_stack@;
                            nav_stack.pop();
                            assert(nav_stack@ =~= before.drop_last());
                        }
                    } else {
                        let nav_tag = string_from_chars(&s[nav_start..nav_end + 1]);
                        nav_stack.push(has_attribute_token(nav_tag.as_str(), "epub:type", "landmarks"));
                    }
                }
            },
            None => {},
        }
        cursor = nav_end + 1;
    }
    any_true(nav_stack.as_slice())
}

/// Whether any of the flags holds.
fn any_true(flags: &[bool]) -> (r: bool)
    ensures
        r == flags@.contains(true),
{
    let mut i: usize = 0;
    while i < flags.len()
        invariant
            i <= flags@.len(),
            forall|j: int| 0 <= j < i ==> !flags@[j],
        decreases flags@.len() - i,
    {
        if flags[i] {
            assert(flags@[i as int] == true);
            return true;
        }
        i = i + 1;
    }
    false
}

/// A character that continues an attribute name before `href`.
pub open spec fn name_char(c: char) -> bool {
    ('a' <= c <= 'z') || ('A' <= c <= 'Z') || ('0' <= c <= '9') || c == ':' || c == '-'
}

/// The output completed by the rest of the source.
pub open spec fn finish_links(s: Seq<char>, out: Option<Seq<char>>, oc: int) -> Option<Seq<char>> {
    match out {
        Some(o) => Some(o + s.subrange(oc, s.len() as int)),
        None => None,
    }
}

/// The source with its links to cover documents neutralized, from the
/// search position `search` on: `out` is the output so far, which exists
/// once a cover link was met, and `oc` where its copy of the source stands.
pub open spec fn neutralize_from(
    s: Seq<char>,
    section: Seq<char>,
    cover: Seq<Seq<char>>,
    search: int,
    out: Option<Seq<char>>,
    oc: int,
) -> Option<Seq<char>>
    decreases s.len() + 1 - search,
{
    if search < 0 {
        finish_links(s, out, oc)
    } else {
        match ci_find(s, "href"@, search) {
            None => finish_links(s, out, oc),
            Some(start) => {
                proof {
                    lemma_ci_find(s, "href"@, search);
                    reveal_strlit("href");
                }
                if start > 0 && name_char(s[start - 1]) {
                    neutralize_from(s, section, cover, start + 4, out, oc)
                } else {
                    let v1 = attr_ws_end(s, start + 4);
                    proof {
                        lemma_attr_ws_end(s, start + 4);
                    }
                    if !(v1 < s.len() && s[v1] == '=') {
                        neutralize_from(s, section, cover, start + 4, out, oc)
                    } else {
                        let v2 = attr_ws_end(s, v1 + 1);
                        proof {
                            lemma_attr_ws_end(s, v1 + 1);
                        }
                        if v2 >= s.len() {
                            finish_links(s, out, oc)
                        } else if !(s[v2] == '"' || s[v2] == '\'') {
                            neutralize_from(s, section, cover, v2, out, oc)
                        } else {
                            proof {
                                lemma_char_pos(s, s[v2], v2 + 1);
                            }
                            match char_pos(s, s[v2], v2 + 1) {
                                None => finish_links(s, out, oc),
                                Some(ce) => {
                                    let cs = v2 + 1;
                                    let link = cover.contains(
                                        resolved_document(section, s.subrange(cs, ce)),
                                    );
                                    let rep = if cover_landmark(s, cs) {
                                        cover_marker()
                                    } else {
                                        seq!['#']
                                    };
                                    match out {
                                        Some(o) => neutralize_from(
                                            s,
                                            section,
                                            cover,
                                            ce,
                                            Some(
                                                o + s.subrange(oc, cs) + (if link {
                                                    rep
                                                } else {
                                                    s.subrange(cs, ce)
                                                }),
                                            ),
                                            ce,
                                        ),
                                        None => if link {
                                            neutralize_from(
                                                s,
                                                section,
                                                cover,
                                                ce,
                                                Some(s.subrange(0, cs) + rep),
                                                ce,
                                            )
                                        } else {
                                            neutralize_from(s, section, cover, ce, None, oc)
                                        },
                                    }
                                },
                            }
                        }
                    }
                }
            },
        }
    }
}

/// The source with the targets of its links to cover documents replaced:
/// by the cover landmark marker inside the landmarks navigation, else by
/// `#`; `None` when nothing changes or there are no cover documents.
pub open spec fn neutralized(s: Seq<char>, section: Seq<char>, cover: Seq<Seq<char>>) -> Option<Seq<char>> {
    if cover.len() == 0 {
        None
    } else {
        neutralize_from(s, section, cover, 0, None, 0)
    }
}

/// The characters of an optional output.
pub open spec fn chars_view(o: Option<Vec<char>>) -> Option<Seq<char>> {
    match o {
        Some(v) => Some(v@),
        None => None,
    }
}

/// Whether `cover_hrefs` holds `path`.
fn holds_path(cover_hrefs: &[String], path: &str) -> (r: bool)
    ensures
        r == cover_hrefs@.map_values(|h: String| h@).contains(path@),
{
    let ghost views = cover_hrefs@.map_values(|h: String| h@);
    let mut i: usize = 0;
    while i < cover_hrefs.len()
        invariant
            i <= cover_hrefs@.len(),
            views == cover_hrefs@.map_values(|h: String| h@),
            forall|j: int| 0 <= j < i ==> views[j] != path@,
        decreases cover_hrefs@.len() - i,
    {
        if crate::strings::str_eq(cover_hrefs[i].as_str(), path) {
            assert(views[i as int] == path@);
            return true;
        }
        i = i + 1;
    }
    false
}

/// Neutralize the links of a section to cover documents: the target of a
/// cover landmark link becomes the cover landmark marker and any other
/// cover link becomes `#`. `None` when nothing changes.
pub fn neutralize_cover_links(source: &str, section_href: &str, cover_hrefs: &[String]) -> (r:
    Option<String>)
    ensures
        match neutralized(source@, section_href@, cover_hrefs@.map_values(|h: String| h@)) {
            Some(t) => r matches Some(x) && x@ == t,
            None => r is None,
        },
{
    let ghost cover = cover_hrefs@.map_values(|h: String| h@);
    if cover_hrefs.len() == 0 {
        return None;
    }
    let s = str_chars(source);
    let n = s.len();
    let href = str_chars("href");
    proof {
        reveal_strlit("href");
    }
    let mut output: Option<Vec<char>> = None;
    let mut output_cursor: usize = 0;
    let mut search_cursor: usize = 0;
    let ghost target = neutralize_from(s@, section_href@, cover, 0, None, 0);
    loop
        invariant
            n == s@.len(),
            s@ == source@,
            href@ == "href"@,
            href@.len() == 4,
            cover == cover_hrefs@.map_values(|h: String| h@),
            cover.len() > 0,
            target == neutralized(source@, section_href@, cover),
            search_cursor <= n + 1,
            output_cursor <= n,
            output is Some ==> output_cursor <= search_cursor,
            neutralize_from(s@, section_href@, cover, search_cursor as int, chars_view(output), output_cursor as int) == target,
        ensures
            output_cursor <= n,
            target == finish_links(s@, chars_view(output), output_cursor as int),
        decreases n + 1 - search_cursor,
    {
        let start = match ci_find_from(s.as_slice(), href.as_slice(), search_cursor) {
            Some(k) => k,
            None => {
                break;
            },
        };
        if start > 0 && (('a' <= s[start - 1] && s[start - 1] <= 'z') || ('A' <= s[start - 1] && s[start
            - 1] <= 'Z') || ('0' <= s[start - 1] && s[start - 1] <= '9') || s[start - 1] == ':'
            || s[start - 1] == '-') {
            search_cursor = start + 4;
            continue;
        }
        let v1 = skip_attr_space(s.as_slice(), start + 4);
        if !(v1 < n && s[v1] == '=') {
            search_cursor = start + 4;
            continue;
        }
        let v2 = skip_attr_space(s.as_slice(), v1 + 1);
        if v2 >= n {
            break;
        }
        let quote = s[v2];
        if !(quote == '"' || quote == '\'') {
            search_cursor = v2;
            continue;
        }
        proof {
            lemma_char_pos(s@, quote, v2 + 1);
        }
        let mut ce = v2 + 1;
        while ce < n && s[ce] != quote
            invariant
                n == s@.len(),
                v2 + 1 <= ce,
                char_pos(s@, quote, ce as int) == char_pos(s@, quote, v2 + 1),
            decreases n - ce,
        {
            ce = ce + 1;
        }
        if ce >= n {
            break;
        }
        let cs = v2 + 1;
        let ghost out_old = chars_view(output);
        let ghost oc_old = output_cursor as int;
        let ghost sc_old = search_cursor as int;
        assert(ci_find(s@, "href"@, sc_old) == Some(start as int));
        assert(char_pos(s@, quote, cs as int) == Some(ce as int));
        let content = string_from_chars(&s.as_slice()[cs..ce]);
        let resolved = resolve_document_path(section_href, content.as_str());
        let is_cover_link = holds_path(cover_hrefs, resolved.as_str());
        let landmark = is_cover_landmark(s.as_slice(), cs);
        match output {
            Some(mut o) => {
                push_chars(&mut o, s.as_slice(), output_cursor, cs);
                if is_cover_link {
                    if landmark {
                        push_str_chars(&mut o, "kindle:cover-landmark");
                    } else {
                        o.push('#');
                    }
                } else {
                    push_chars(&mut o, s.as_slice(), cs, ce);
                }
                output = Some(o);
                output_cursor = ce;
            },
            None => {
                if is_cover_link {
                    let mut o: Vec<char> = Vec::new();
                    push_chars(&mut o, s.as_slice(), 0, cs);
                    if landmark {
                        push_str_chars(&mut o, "kindle:cover-landmark");
                    } else {
                        o.push('#');
                    }
                    output = Some(o);
                    output_cursor = ce;
                }
            },
        }
        search_cursor = ce;
        proof {
            let link = cover.contains(resolved_document(section_href@, s@.subrange(cs as int, ce as int)));
            assert(link == is_cover_link);
            let rep = if cover_landmark(s@, cs as int) { cover_marker() } else { seq!['#'] };
            let new_out = chars_view(output);
            assert(new_out == match out_old {
                Some(o) => Some(o + s@.subrange(oc_old, cs as int) + (if link { rep } else { s@.subrange(cs as int, ce as int) })),
                None => if link { Some(s@.subrange(0, cs as int) + rep) } else { None },
            });
        }
    }
    match output {
        Some(mut o) => {
            push_chars(&mut o, s.as_slice(), output_cursor, n);
            Some(string_from_chars(o.as_slice()))
        },
        None => None,
    }
}

// ---------------------------------------------------------------------------
// The synthetic table of contents.

/// One character escaped for XHTML text, or for an attribute value.
pub open spec fn escape_char(c: char, attribute: bool) -> Seq<char> {
    if c == '&' {
        "&amp;"@
    } else if c == '<' {
        "&lt;"@
    } else if c == '>' {
        "&gt;"@
    } else if c == '"' && attribute {
        "&quot;"@
    } else {
        seq![c]
    }
}

/// Text escaped for XHTML.
pub open spec fn escaped(s: Seq<char>, attribute: bool) -> Seq<char>
    decreases s.len(),
{
    if s.len() == 0 {
        Seq::empty()
    } else {
        escaped(s.drop_last(), attribute) + escape_char(s.last(), attribute)
    }
}

/// Append `value` escaped for XHTML text or, with `attribute`, for a
/// double-quoted attribute value.
pub fn push_html_escaped(output: &mut Vec<char>, value: &str, attribute: bool)
    ensures
        final(output)@ == old(output)@ + escaped(value@, attribute),
{
    let chars = str_chars(value);
    let ghost start = output@;
    let mut i: usize = 0;
    while i < chars.len()
        invariant
            i <= chars@.len(),
            chars@ == value@,
            output@ == start + escaped(chars@.subrange(0, i as int), attribute),
        decreases chars@.len() - i,
    {
        let c = chars[i];
        let ghost before = output@;
        if c == '&' {
            push_str_chars(output, "&amp;");
        } else if c == '<' {
            push_str_chars(output, "&lt;");
        } else if c == '>' {
            push_str_chars(output, "&gt;");
        } else if c == '"' && attribute {
            push_str_chars(output, "&quot;");
        } else {
            output.push(c);
        }
        assert(chars@.subrange(0, i + 1).drop_last() =~= chars@.subrange(0, i as int));
        assert(output@ =~= start + escaped(chars@.subrange(0, i + 1), attribute));
        i = i + 1;
    }
    assert(chars@.subrange(0, i as int) =~= value@);
}

/// Append `value` escaped for XHTML text.
pub fn push_html_text(output: &mut Vec<char>, value: &str)
    ensures
        final(output)@ == old(output)@ + escaped(value@, false),
{
    push_html_escaped(output, value, false);
}

/// Append `value` escaped for a double-quoted XHTML attribute.
pub fn push_html_attribute(output: &mut Vec<char>, value: &str)
    ensures
        final(output)@ == old(output)@ + escaped(value@, true),
{
    push_html_escaped(output, value, true);
}

/// The list items of a table of contents.
pub open spec fn toc_items(items: Seq<KindleNavigationItem>) -> Seq<char>
    decreases items, 0nat,
{
    if items.len() == 0 {
        Seq::empty()
    } else {
        toc_items(items.drop_last()) + toc_item(items.last())
    }
}

/// One list item of a table of contents, with its children.
pub open spec fn toc_item(item: KindleNavigationItem) -> Seq<char>
    decreases item, 1nat,
{
    "<li>"@ + (if item.href@.len() == 0 {
        escaped(item.label@, false)
    } else {
        "<a href=\""@ + escaped(item.href@, true) + "\">"@ + escaped(item.label@, false) + "</a>"@
    }) + (if item.children@.len() > 0 {
        "<ol>"@ + toc_items(item.children@) + "</ol>"@
    } else {
        Seq::empty()
    }) + "</li>"@
}

/// Append the list items of a table of contents.
pub fn render_synthetic_toc_items(items: &[KindleNavigationItem], output: &mut Vec<char>)
    ensures
        final(output)@ == old(output)@ + toc_items(items@),
    decreases items@, 0nat,
{
    let ghost start = output@;
    let mut i: usize = 0;
    while i < items.len()
        invariant
            i <= items@.len(),
            output@ == start + toc_items(items@.subrange(0, i as int)),
        decreases items@.len() - i,
    {
        let item = &items[i];
        let ghost before = output@;
        push_str_chars(output, "<li>");
        if item.href.as_str().unicode_len() == 0 {
            push_html_text(output, item.label.as_str());
        } else {
            push_str_chars(output, "<a href=\"");
            push_html_attribute(output, item.href.as_str());
            push_str_chars(output, "\">");
            push_html_text(output, item.label.as_str());
            push_str_chars(output, "</a>");
        }
        if item.children.len() > 0 {
            push_str_chars(output, "<ol>");
            assert(decreases_to!(items@ => items@[i as int]));
            render_synthetic_toc_items(item.children.as_slice(), output);
            push_str_chars(output, "</ol>");
        }
        push_str_chars(output, "</li>");
        assert(items@.subrange(0, i + 1).drop_last() =~= items@.subrange(0, i as int));
        assert(items@.subrange(0, i + 1).last() == items@[i as int]);
        assert(toc_items(items@.subrange(0, i + 1)) == toc_items(items@.subrange(0, i as int))
            + toc_item(items@[i as int]));
        assert(output@ =~= before + toc_item(items@[i as int]));
        assert(output@ =~= start + toc_items(items@.subrange(0, i + 1)));
        i = i + 1;
    }
    assert(items@.subrange(0, i as int) =~= items@);
}

/// The XHTML document of a table of contents.
pub open spec fn toc_document(items: Seq<KindleNavigationItem>) -> Seq<char> {
    "<?xml version=\"1.0\" encoding=\"UTF-8\"?>\n<html xmlns=\"http://www.w3.org/1999/xhtml\" xmlns:epub=\"http://www.idpf.org/2007/ops\" class=\"hltr\">\n<head><title>目　次</title></head>\n<body class=\"p-toc\"><nav epub:type=\"toc\" id=\"toc\"><h1>目　次</h1><ol>"@
        + toc_items(items) + "</ol></nav></body></html>"@
}

/// Render a table of contents as an XHTML document.
pub fn render_synthetic_toc(items: &[KindleNavigationItem]) -> (r: String)
    ensures
        r@ == toc_document(items@),
{
    let mut output: Vec<char> = Vec::new();
    push_str_chars(&mut output, "<?xml version=\"1.0\" encoding=\"UTF-8\"?>\n<html xmlns=\"http://www.w3.org/1999/xhtml\" xmlns:epub=\"http://www.idpf.org/2007/ops\" class=\"hltr\">\n<head><title>目　次</title></head>\n<body class=\"p-toc\"><nav epub:type=\"toc\" id=\"toc\"><h1>目　次</h1><ol>");
    render_synthetic_toc_items(items, &mut output);
    push_str_chars(&mut output, "</ol></nav></body></html>");
    string_from_chars(output.as_slice())
}

// ---------------------------------------------------------------------------
// Layout.

impl From<Layout> for KindleLayout {
    fn from(layout: Layout) -> (r: Self) {
        KindleLayout {
            writing_mode: layout.writing_mode,
            page_progression: layout.page_progression,
            direction: layout.direction,
        }
    }
}

impl vstd::std_specs::convert::FromSpecImpl<Layout> for KindleLayout {
    open spec fn obeys_from_spec() -> bool {
        true
    }

    open spec fn from_spec(layout: Layout) -> Self {
        KindleLayout {
            writing_mode: layout.writing_mode,
            page_progression: layout.page_progression,
            direction: layout.direction,
        }
    }
}

// ---------------------------------------------------------------------------
// Pruning the navigation of cover documents.

/// A navigation entry as mathematical values.
pub struct NavigationItemView {
    pub label: Seq<char>,
    pub href: Seq<char>,
    pub children: Seq<NavigationItemView>,
}

/// The views of navigation entries.
pub open spec fn nav_views(items: Seq<NavigationItem>) -> Seq<NavigationItemView>
    decreases items, 0nat,
{
    if items.len() == 0 {
        Seq::empty()
    } else {
        nav_views(items.drop_last()).push(nav_view(items.last()))
    }
}

/// The view of a navigation entry.
pub open spec fn nav_view(item: NavigationItem) -> NavigationItemView
    decreases item, 1nat,
{
    NavigationItemView { label: item.label@, href: item.href@, children: nav_views(item.children@) }
}

/// The entries without those whose document is a cover: such an entry
/// gives way to its own children, pruned alike.
pub open spec fn pruned(items: Seq<NavigationItemView>, covers: Seq<Seq<char>>) -> Seq<NavigationItemView>
    decreases items, 0nat,
{
    if items.len() == 0 {
        Seq::empty()
    } else {
        pruned(items.drop_last(), covers) + pruned_one(items.last(), covers)
    }
}

/// One entry, pruned.
pub open spec fn pruned_one(item: NavigationItemView, covers: Seq<Seq<char>>) -> Seq<NavigationItemView>
    decreases item, 1nat,
{
    let children = pruned(item.children, covers);
    if covers.contains(document_path_spec(item.href)) {
        children
    } else {
        seq![NavigationItemView { label: item.label, href: item.href, children }]
    }
}

pub proof fn lemma_nav_views_append(a: Seq<NavigationItem>, b: Seq<NavigationItem>)
    ensures
        nav_views(a + b) == nav_views(a) + nav_views(b),
    decreases b.len(),
{
    if b.len() == 0 {
        assert(a + b =~= a);
        assert(nav_views(a) + nav_views(b) =~= nav_views(a));
    } else {
        lemma_nav_views_append(a, b.drop_last());
        assert((a + b).drop_last() =~= a + b.drop_last());
        assert((a + b).last() == b.last());
        assert(nav_views(a + b) == nav_views(a + b.drop_last()).push(nav_view(b.last())));
        assert(nav_views(a) + nav_views(b) =~= (nav_views(a) + nav_views(b.drop_last())).push(nav_view(b.last())));
    }
}

/// Drop the navigation entries that point at cover documents, keeping
/// their children in their place.
pub fn prune_navigation(items: &[NavigationItem], cover_hrefs: &[String]) -> (r: Vec<NavigationItem>)
    ensures
        nav_views(r@) == pruned(nav_views(items@), cover_hrefs@.map_values(|h: String| h@)),
    decreases items@, 0nat,
{
    let ghost covers = cover_hrefs@.map_values(|h: String| h@);
    let mut result: Vec<NavigationItem> = Vec::new();
    let mut i: usize = 0;
    while i < items.len()
        invariant
            i <= items@.len(),
            covers == cover_hrefs@.map_values(|h: String| h@),
            nav_views(result@) == pruned(nav_views(items@.subrange(0, i as int)), covers),
        decreases items@.len() - i,
    {
        let item = &items[i];
        assert(decreases_to!(items@ => items@[i as int]));
        let children = prune_navigation(item.children.as_slice(), cover_hrefs);
        let path = document_path(item.href.as_str());
        let ghost before = result@;
        proof {
            let s = items@.subrange(0, i + 1);
            assert(s.drop_last() =~= items@.subrange(0, i as int));
            assert(s.last() == items@[i as int]);
            assert(nav_views(s) == nav_views(items@.subrange(0, i as int)).push(nav_view(*item)));
            let v = nav_views(s);
            assert(v.drop_last() =~= nav_views(items@.subrange(0, i as int)));
            assert(v.last() == nav_view(*item));
            assert(pruned(v, covers) == pruned(v.drop_last(), covers) + pruned_one(v.last(), covers));
        }
        if holds_path(cover_hrefs, path.as_str()) {
            let mut rest = children;
            let ghost cs = rest@;
            result.append(&mut rest);
            proof {
                lemma_nav_views_append(before, cs);
            }
        } else {
            let node = NavigationItem { label: item.label.clone(), href: item.href.clone(), children };
            result.push(node);
            proof {
                assert(result@.drop_last() =~= before);
                assert(nav_views(result@) == nav_views(before).push(nav_view(node)));
                assert(nav_view(node).children == nav_views(children@));
            }
        }
        i = i + 1;
    }
    assert(items@.subrange(0, i as int) =~= items@);
    result
}

// ---------------------------------------------------------------------------
// The href of the synthetic table of contents.

/// The href tried for the synthetic table of contents after `k` taken ones:
/// `__kindle_toc.xhtml`, then `__kindle_toc-{k}.xhtml`.
pub open spec fn toc_href_candidate(k: nat) -> Seq<char> {
    if k == 0 {
        "__kindle_toc.xhtml"@
    } else {
        "__kindle_toc-"@ + decimal(k, 0) + ".xhtml"@
    }
}

/// Distinct counts give distinct candidate hrefs.
pub proof fn lemma_toc_hrefs_distinct(j: nat, k: nat)
    requires
        j < k,
    ensures
        toc_href_candidate(j) != toc_href_candidate(k),
{
    reveal_strlit("__kindle_toc.xhtml");
    reveal_strlit("__kindle_toc-");
    reveal_strlit(".xhtml");
    let b = toc_href_candidate(k);
    if j == 0 {
        assert(b[12] == '-');
        assert(toc_href_candidate(0)[12] == '.');
    } else if toc_href_candidate(j) == b {
        let a = toc_href_candidate(j);
        assert(a.subrange(13, a.len() - 6) =~= decimal(j, 0));
        assert(b.subrange(13, b.len() - 6) =~= decimal(k, 0));
        lemma_decimal_injective(j, k, 0);
    }
}

/// The first synthetic table-of-contents href from candidate `k` on that
/// `taken` does not hold.
pub open spec fn first_free_toc(taken: Seq<Seq<char>>, k: nat) -> Seq<char>
    decreases taken.len() - k,
{
    if k >= taken.len() || !taken.contains(toc_href_candidate(k)) {
        toc_href_candidate(k)
    } else {
        first_free_toc(taken, k + 1)
    }
}

/// The hrefs that sections and resources take.
pub open spec fn taken_hrefs(sections: Seq<KindleSection>, resources: Seq<Resource>) -> Seq<Seq<char>> {
    sections.map_values(|s: KindleSection| s.href@) + resources.map_values(|r: Resource| r.href@)
}

fn href_taken(sections: &[KindleSection], resources: &[Resource], href: &str) -> (r: bool)
    ensures
        r == taken_hrefs(sections@, resources@).contains(href@),
{
    let ghost t = taken_hrefs(sections@, resources@);
    let n = sections.len();
    let mut i: usize = 0;
    while i < n
        invariant
            n == sections@.len(),
            i <= n,
            t == taken_hrefs(sections@, resources@),
            forall|j: int| 0 <= j < i ==> t[j] != href@,
        decreases n - i,
    {
        if crate::strings::str_eq(sections[i].href.as_str(), href) {
            assert(t[i as int] == href@);
            return true;
        }
        i = i + 1;
    }
    let m = resources.len();
    let mut k: usize = 0;
    while k < m
        invariant
            n == sections@.len(),
            m == resources@.len(),
            k <= m,
            t == taken_hrefs(sections@, resources@),
            t.len() == n + m,
            forall|j: int| 0 <= j < n + k ==> t[j] != href@,
        decreases m - k,
    {
        if crate::strings::str_eq(resources[k].href.as_str(), href) {
            assert(t[n + k] == href@);
            return true;
        }
        k = k + 1;
    }
    false
}

/// The href of the synthetic table of contents: `__kindle_toc.xhtml`, or
/// the first `__kindle_toc-{k}.xhtml` that no section or resource takes.
pub fn synthetic_toc_href(sections: &[KindleSection], resources: &[Resource]) -> (r: String)
    requires
        sections@.len() + resources@.len() <= usize::MAX,
    ensures
        !taken_hrefs(sections@, resources@).contains(r@),
        exists|k: nat| {
            &&& r@ == toc_href_candidate(k)
            &&& forall|j: nat| j < k ==> taken_hrefs(sections@, resources@).contains(#[trigger] toc_href_candidate(j))
        },
        r@ == first_free_toc(taken_hrefs(sections@, resources@), 0),
{
    let ghost taken = taken_hrefs(sections@, resources@);
    let total = sections.len() + resources.len();
    assert(taken.len() == total);
    let mut k: usize = 0;
    let mut href = "__kindle_toc.xhtml".to_owned();
    loop
        invariant
            taken == taken_hrefs(sections@, resources@),
            taken.len() == total,
            k <= total,
            href@ == toc_href_candidate(k as nat),
            forall|j: nat| j < k ==> taken.contains(#[trigger] toc_href_candidate(j)),
            first_free_toc(taken, 0) == first_free_toc(taken, k as nat),
        decreases total - k,
    {
        if !href_taken(sections, resources, href.as_str()) {
            return href;
        }
        proof {
            let cands = Seq::new((k + 1) as nat, |j: int| toc_href_candidate(j as nat));
            assert forall|a: int, b: int| 0 <= a < cands.len() && 0 <= b < cands.len() && a != b implies cands[a]
                != cands[b] by {
                if a < b {
                    lemma_toc_hrefs_distinct(a as nat, b as nat);
                } else {
                    lemma_toc_hrefs_distinct(b as nat, a as nat);
                }
            }
            assert forall|j: int| 0 <= j < cands.len() implies taken.contains(#[trigger] cands[j]) by {
                if j < k {
                    assert(taken.contains(toc_href_candidate(j as nat)));
                }
            }
            lemma_pigeonhole(cands, taken);
        }
        k = k + 1;
        let mut chars: Vec<char> = Vec::new();
        push_str_chars(&mut chars, "__kindle_toc-");
        let digits = decimal_chars(k, 0);
        let mut t: usize = 0;
        let ghost head = chars@;
        while t < digits.len()
            invariant
                t <= digits@.len(),
                chars@ == head + digits@.subrange(0, t as int),
            decreases digits@.len() - t,
        {
            chars.push(digits[t]);
            t = t + 1;
            assert(chars@ =~= head + digits@.subrange(0, t as int));
        }
        assert(digits@.subrange(0, t as int) =~= digits@);
        push_str_chars(&mut chars, ".xhtml");
        href = string_from_chars(chars.as_slice());
    }
}

/// Whether no entry, at any depth, points at a cover document.
pub open spec fn cover_free(items: Seq<NavigationItemView>, covers: Seq<Seq<char>>) -> bool
    decreases items, 0nat,
{
    if items.len() == 0 {
        true
    } else {
        cover_free(items.drop_last(), covers) && cover_free_one(items.last(), covers)
    }
}

/// Whether an entry and its descendants point at no cover document.
pub open spec fn cover_free_one(item: NavigationItemView, covers: Seq<Seq<char>>) -> bool
    decreases item, 1nat,
{
    !covers.contains(document_path_spec(item.href)) && cover_free(item.children, covers)
}

proof fn lemma_cover_free_append(a: Seq<NavigationItemView>, b: Seq<NavigationItemView>, covers: Seq<Seq<char>>)
    ensures
        cover_free(a + b, covers) == (cover_free(a, covers) && cover_free(b, covers)),
    decreases b.len(),
{
    if b.len() == 0 {
        assert(a + b =~= a);
    } else {
        lemma_cover_free_append(a, b.drop_last(), covers);
        assert((a + b).drop_last() =~= a + b.drop_last());
        assert((a + b).last() == b.last());
    }
}

/// Pruning leaves no entry, at any depth, that points at a cover document.
pub proof fn lemma_pruned_cover_free(items: Seq<NavigationItemView>, covers: Seq<Seq<char>>)
    ensures
        cover_free(pruned(items, covers), covers),
    decreases items, 0nat,
{
    if items.len() > 0 {
        lemma_pruned_cover_free(items.drop_last(), covers);
        lemma_pruned_one_cover_free(items.last(), covers);
        lemma_cover_free_append(pruned(items.drop_last(), covers), pruned_one(items.last(), covers), covers);
    }
}

/// One pruned entry leaves no entry that points at a cover document.
pub proof fn lemma_pruned_one_cover_free(item: NavigationItemView, covers: Seq<Seq<char>>)
    ensures
        cover_free(pruned_one(item, covers), covers),
    decreases item, 1nat,
{
    lemma_pruned_cover_free(item.children, covers);
    let children = pruned(item.children, covers);
    if !covers.contains(document_path_spec(item.href)) {
        let node = NavigationItemView { label: item.label, href: item.href, children };
        let s = seq![node];
        assert(s.drop_last() =~= Seq::<NavigationItemView>::empty());
        assert(s.last() == node);
        assert(cover_free(s.drop_last(), covers));
        assert(cover_free_one(node, covers));
        assert(pruned_one(item, covers) == s);
        assert(cover_free(s, covers));
    }
}

/// Without cover documents, pruning keeps the navigation as it is.
pub proof fn lemma_pruned_without_covers(items: Seq<NavigationItemView>)
    ensures
        pruned(items, Seq::empty()) == items,
    decreases items, 0nat,
{
    if items.len() > 0 {
        lemma_pruned_without_covers(items.drop_last());
        lemma_pruned_one_without_covers(items.last());
        assert(items.drop_last().push(items.last()) =~= items);
        assert(pruned(items, Seq::empty()) =~= items.drop_last() + seq![items.last()]);
    }
}

/// Without cover documents, one entry is kept as it is.
pub proof fn lemma_pruned_one_without_covers(item: NavigationItemView)
    ensures
        pruned_one(item, Seq::empty()) == seq![item],
    decreases item, 1nat,
{
    lemma_pruned_without_covers(item.children);
    assert(!Seq::<Seq<char>>::empty().contains(document_path_spec(item.href)));
}

/// Escaped text holds no `<` or `>`, and, escaped for an attribute, no `"`.
pub proof fn lemma_escaped_has_no_delimiters(s: Seq<char>, attribute: bool)
    ensures
        forall|i: int| 0 <= i < escaped(s, attribute).len() ==> {
            let c = #[trigger] escaped(s, attribute)[i];
            &&& c != '<'
            &&& c != '>'
            &&& attribute ==> c != '"'
        },
    decreases s.len(),
{
    if s.len() > 0 {
        lemma_escaped_has_no_delimiters(s.drop_last(), attribute);
        let head = escaped(s.drop_last(), attribute);
        let tail = escape_char(s.last(), attribute);
        reveal_strlit("&amp;");
        reveal_strlit("&lt;");
        reveal_strlit("&gt;");
        reveal_strlit("&quot;");
        assert forall|i: int| 0 <= i < escaped(s, attribute).len() implies {
            let c = #[trigger] escaped(s, attribute)[i];
            &&& c != '<'
            &&& c != '>'
            &&& attribute ==> c != '"'
        } by {
            if i >= head.len() {
                assert(escaped(s, attribute)[i] == tail[i - head.len()]);
            } else {
                assert(escaped(s, attribute)[i] == head[i]);
            }
        }
    }
}

// ---------------------------------------------------------------------------
// The documents that are covers.

/// The document paths of the cover landmarks, in order, empty ones left out.
pub open spec fn landmark_cover_paths(ls: Seq<NavigationLandmark>) -> Seq<Seq<char>>
    decreases ls.len(),
{
    if ls.len() == 0 {
        Seq::empty()
    } else {
        let l = ls.last();
        let p = document_path_spec(l.href@);
        landmark_cover_paths(ls.drop_last()) + if lower_chars(l.kind@) == "cover"@ && p.len() > 0 {
            seq![p]
        } else {
            Seq::empty()
        }
    }
}

/// The document paths of the cover content documents, in order, empty ones
/// left out.
pub open spec fn content_cover_paths(cs: Seq<ContentDocument>) -> Seq<Seq<char>>
    decreases cs.len(),
{
    if cs.len() == 0 {
        Seq::empty()
    } else {
        let c = cs.last();
        let p = document_path_spec(c.href@);
        content_cover_paths(cs.drop_last()) + if c.is_cover && p.len() > 0 {
            seq![p]
        } else {
            Seq::empty()
        }
    }
}

/// The cover document paths of a book: those of its cover landmarks, then
/// those of its cover content documents.
pub open spec fn cover_paths(landmarks: Seq<NavigationLandmark>, content: Seq<ContentDocument>) -> Seq<Seq<char>> {
    landmark_cover_paths(landmarks) + content_cover_paths(content)
}

/// The document paths of the book's covers: cover landmarks and cover
/// content documents, without empty paths.
pub fn cover_document_hrefs(landmarks: &[NavigationLandmark], content: &[ContentDocument]) -> (r: Vec<String>)
    ensures
        texts(r@) == cover_paths(landmarks@, content@),
{
    let mut r: Vec<String> = Vec::new();
    let mut i: usize = 0;
    while i < landmarks.len()
        invariant
            i <= landmarks@.len(),
            texts(r@) == landmark_cover_paths(landmarks@.take(i as int)),
        decreases landmarks@.len() - i,
    {
        let ghost before = r@;
        proof {
            assert(landmarks@.take(i + 1).drop_last() =~= landmarks@.take(i as int));
        }
        if lower_eq(landmarks[i].kind.as_str(), "cover") {
            let p = document_path(landmarks[i].href.as_str());
            if p.unicode_len() > 0 {
                r.push(p);
            }
        }
        proof {
            assert(texts(r@) =~= landmark_cover_paths(landmarks@.take(i + 1)));
        }
        i = i + 1;
    }
    assert(landmarks@.take(i as int) =~= landmarks@);
    let ghost head = texts(r@);
    let mut k: usize = 0;
    while k < content.len()
        invariant
            k <= content@.len(),
            head == landmark_cover_paths(landmarks@),
            texts(r@) == head + content_cover_paths(content@.take(k as int)),
        decreases content@.len() - k,
    {
        let ghost before = r@;
        proof {
            assert(content@.take(k + 1).drop_last() =~= content@.take(k as int));
            assert(content@.take(k + 1).last() == content@[k as int]);
        }
        if content[k].is_cover {
            let p = document_path(content[k].href.as_str());
            if p.unicode_len() > 0 {
                r.push(p);
            }
        }
        proof {
            let c = content@[k as int];
            let q = document_path_spec(c.href@);
            let piece = if c.is_cover && q.len() > 0 { seq![q] } else { Seq::<Seq<char>>::empty() };
            assert(content_cover_paths(content@.take(k + 1)) == content_cover_paths(content@.take(k as int)) + piece);
            assert(texts(r@) =~= texts(before) + piece);
            assert(texts(r@) =~= head + content_cover_paths(content@.take(k + 1)));
        }
        k = k + 1;
    }
    assert(content@.take(k as int) =~= content@);
    r
}

/// Whether a content document is a cover: marked so, or at a cover path.
pub open spec fn cover_content(c: ContentDocument, covers: Seq<Seq<char>>) -> bool {
    c.is_cover || covers.contains(document_path_spec(c.href@))
}

/// Whether a reading-order entry is a cover: a cover content document has
/// its id, or its document is at a cover path.
pub open spec fn cover_entry(cs: Seq<ContentDocument>, covers: Seq<Seq<char>>, id: Seq<char>, href: Seq<char>) -> bool {
    (exists|k: int| 0 <= k < cs.len() && cs[k].id@ == id && #[trigger] cover_content(cs[k], covers))
        || covers.contains(document_path_spec(href))
}

/// Whether a reading-order entry is a cover.
pub fn is_cover_entry(content: &[ContentDocument], covers: &[String], id: &str, href: &str) -> (r: bool)
    ensures
        r == cover_entry(content@, texts(covers@), id@, href@),
{
    let ghost cv = texts(covers@);
    assert(cv == covers@.map_values(|h: String| h@));
    let p = document_path(href);
    if holds_path(covers, p.as_str()) {
        return true;
    }
    let mut k: usize = 0;
    while k < content.len()
        invariant
            k <= content@.len(),
            cv == texts(covers@),
            cv == covers@.map_values(|h: String| h@),
            forall|j: int| 0 <= j < k ==> !(content@[j].id@ == id@ && #[trigger] cover_content(content@[j], cv)),
        decreases content@.len() - k,
    {
        if crate::strings::str_eq(content[k].id.as_str(), id) {
            let covered = content[k].is_cover || holds_path(covers, document_path(content[k].href.as_str()).as_str());
            if covered {
                assert(cover_content(content@[k as int], cv));
                return true;
            }
        }
        k = k + 1;
    }
    false
}

// ---------------------------------------------------------------------------
// Navigation in the Kindle model.

/// The views of Kindle navigation entries.
pub open spec fn kindle_nav_views(items: Seq<KindleNavigationItem>) -> Seq<NavigationItemView>
    decreases items, 0nat,
{
    if items.len() == 0 {
        Seq::empty()
    } else {
        kindle_nav_views(items.drop_last()).push(kindle_nav_view(items.last()))
    }
}

/// The view of a Kindle navigation entry.
pub open spec fn kindle_nav_view(item: KindleNavigationItem) -> NavigationItemView
    decreases item, 1nat,
{
    NavigationItemView { label: item.label@, href: item.href@, children: kindle_nav_views(item.children@) }
}

/// The navigation entries as Kindle ones, with the same labels, hrefs and
/// children.
pub fn kindle_navigation(items: &[NavigationItem]) -> (r: Vec<KindleNavigationItem>)
    ensures
        kindle_nav_views(r@) == nav_views(items@),
    decreases items@, 0nat,
{
    let mut result: Vec<KindleNavigationItem> = Vec::new();
    let mut i: usize = 0;
    while i < items.len()
        invariant
            i <= items@.len(),
            kindle_nav_views(result@) == nav_views(items@.subrange(0, i as int)),
        decreases items@.len() - i,
    {
        let item = &items[i];
        assert(decreases_to!(items@ => items@[i as int]));
        let children = kindle_navigation(item.children.as_slice());
        let node = KindleNavigationItem { label: item.label.clone(), href: item.href.clone(), children };
        let ghost before = result@;
        result.push(node);
        proof {
            let s = items@.subrange(0, i + 1);
            assert(s.drop_last() =~= items@.subrange(0, i as int));
            assert(s.last() == items@[i as int]);
            assert(nav_views(s) == nav_views(items@.subrange(0, i as int)).push(nav_view(*item)));
            assert(result@.drop_last() =~= before);
            assert(kindle_nav_views(result@) == kindle_nav_views(before).push(kindle_nav_view(node)));
            assert(kindle_nav_view(node) == nav_view(*item));
        }
        i = i + 1;
    }
    assert(items@.subrange(0, i as int) =~= items@);
    result
}

// ---------------------------------------------------------------------------
// The sections of the reading order.

/// A section as mathematical values.
pub struct SectionView {
    pub id: Seq<char>,
    pub href: Seq<char>,
    pub source: Seq<char>,
    pub styles: Seq<Seq<char>>,
    pub linear: bool,
    pub layout: KindleLayoutSemantic,
}

/// The view of a section.
pub open spec fn section_view(s: KindleSection) -> SectionView {
    SectionView {
        id: s.id@,
        href: s.href@,
        source: s.source_xhtml@,
        styles: texts(s.referenced_styles@),
        linear: s.linear,
        layout: s.layout,
    }
}

/// The views of sections.
pub open spec fn section_views(ss: Seq<KindleSection>) -> Seq<SectionView> {
    Seq::new(ss.len(), |i: int| section_view(ss[i]))
}

/// The last content document below `k` with the id.
pub open spec fn last_content(cs: Seq<ContentDocument>, id: Seq<char>, k: int) -> Option<int>
    decreases k,
{
    if k <= 0 || k > cs.len() {
        None
    } else if cs[k - 1].id@ == id {
        Some(k - 1)
    } else {
        last_content(cs, id, k - 1)
    }
}

proof fn lemma_last_content(cs: Seq<ContentDocument>, id: Seq<char>, k: int)
    ensures
        last_content(cs, id, k) matches Some(j) ==> 0 <= j < k && j < cs.len() && cs[j].id@ == id,
    decreases k,
{
    if 0 < k <= cs.len() && cs[k - 1].id@ != id {
        lemma_last_content(cs, id, k - 1);
    }
}

/// Whether an earlier reading-order entry has the id of entry `j`: its
/// content document was taken then.
pub open spec fn earlier_id(items: Seq<ReadingOrderItem>, j: int) -> bool {
    exists|i: int| 0 <= i < j && #[trigger] items[i].id@ == items[j].id@
}

/// The source of a section: its cover links neutralized when the book has
/// covers.
pub open spec fn section_source(source: Seq<char>, href: Seq<char>, covers: Seq<Seq<char>>) -> Seq<char> {
    if covers.len() == 0 {
        source
    } else {
        match neutralized(source, href, covers) {
            Some(t) => t,
            None => source,
        }
    }
}

/// The section of reading-order entry `j`, if it has one: the last content
/// document with its id, unless an earlier entry took it, and no cover
/// unless a fixed-layout comic keeps its linear fixed-page cover.
pub open spec fn section_for(
    items: Seq<ReadingOrderItem>,
    cs: Seq<ContentDocument>,
    covers: Seq<Seq<char>>,
    keep_comic_cover: bool,
    j: int,
) -> Option<SectionView> {
    let item = items[j];
    if earlier_id(items, j) {
        None
    } else {
        match last_content(cs, item.id@, cs.len() as int) {
            None => None,
            Some(k) => {
                let c = cs[k];
                if cover_entry(cs, covers, item.id@, item.href@) && !(keep_comic_cover && item.linear
                    && c.pre_paginated) {
                    None
                } else {
                    Some(
                        SectionView {
                            id: item.id@,
                            href: item.href@,
                            source: section_source(c.source_xhtml@, item.href@, covers),
                            styles: texts(c.referenced_styles@),
                            linear: item.linear,
                            layout: if c.pre_paginated {
                                KindleLayoutSemantic::PrePaginated
                            } else {
                                KindleLayoutSemantic::Reflowable
                            },
                        },
                    )
                }
            },
        }
    }
}

/// The sections of the first `j` reading-order entries.
pub open spec fn sections_upto(
    items: Seq<ReadingOrderItem>,
    cs: Seq<ContentDocument>,
    covers: Seq<Seq<char>>,
    keep_comic_cover: bool,
    j: int,
) -> Seq<SectionView>
    decreases j,
{
    if j <= 0 {
        Seq::empty()
    } else {
        sections_upto(items, cs, covers, keep_comic_cover, j - 1) + match section_for(
            items,
            cs,
            covers,
            keep_comic_cover,
            j - 1,
        ) {
            Some(s) => seq![s],
            None => Seq::empty(),
        }
    }
}

/// Whether the book is a fixed-layout comic, which keeps its fixed-page
/// cover.
pub open spec fn comic_book(m: Metadata) -> bool {
    m.is_fixed_layout && match m.book_type {
        Some(t) => lower_chars(trim_spec(t@)) == "comic"@,
        None => false,
    }
}

/// The sections of the reading order.
pub fn reading_sections(
    items: &[ReadingOrderItem],
    content: &[ContentDocument],
    covers: &[String],
    keep_comic_cover: bool,
) -> (r: Vec<KindleSection>)
    ensures
        section_views(r@) == sections_upto(items@, content@, texts(covers@), keep_comic_cover, items@.len() as int),
{
    let ghost cv = texts(covers@);
    assert(cv == covers@.map_values(|h: String| h@));
    let mut sections: Vec<KindleSection> = Vec::new();
    let mut j: usize = 0;
    while j < items.len()
        invariant
            j <= items@.len(),
            cv == texts(covers@),
            cv == covers@.map_values(|h: String| h@),
            section_views(sections@) == sections_upto(items@, content@, cv, keep_comic_cover, j as int),
        decreases items@.len() - j,
    {
        let item = &items[j];
        let ghost before = sections@;
        let mut earlier = false;
        let mut i: usize = 0;
        while i < j
            invariant
                j < items@.len(),
                i <= j,
                item == &items@[j as int],
                earlier == exists|q: int| 0 <= q < i && #[trigger] items@[q].id@ == items@[j as int].id@,
            decreases j - i,
        {
            if crate::strings::str_eq(items[i].id.as_str(), item.id.as_str()) {
                earlier = true;
            }
            i = i + 1;
        }
        if !earlier {
            let mut found: Option<usize> = None;
            let mut k: usize = content.len();
            while k > 0 && found.is_none()
                invariant
                    k <= content@.len(),
                    found is None ==> last_content(content@, item.id@, k as int) == last_content(content@, item.id@, content@.len() as int),
                    found matches Some(f) ==> last_content(content@, item.id@, content@.len() as int) == Some(f as int) && f < content@.len(),
                decreases k + (if found is None { 1int } else { 0int }),
            {
                if crate::strings::str_eq(content[k - 1].id.as_str(), item.id.as_str()) {
                    found = Some(k - 1);
                } else {
                    k = k - 1;
                }
            }
            proof {
                lemma_last_content(content@, item.id@, content@.len() as int);
            }
            if let Some(f) = found {
                let c = &content[f];
                let cover = is_cover_entry(content, covers, item.id.as_str(), item.href.as_str());
                if !(cover && !(keep_comic_cover && item.linear && c.is_pre_paginated())) {
                    let source = if covers.len() == 0 {
                        c.source_xhtml.clone()
                    } else {
                        match neutralize_cover_links(c.source_xhtml.as_str(), item.href.as_str(), covers) {
                            Some(s) => s,
                            None => c.source_xhtml.clone(),
                        }
                    };
                    let layout = if c.is_pre_paginated() {
                        KindleLayoutSemantic::PrePaginated
                    } else {
                        KindleLayoutSemantic::Reflowable
                    };
                    let section = KindleSection {
                        id: item.id.clone(),
                        href: item.href.clone(),
                        source_xhtml: source,
                        referenced_styles: crate::epub::opf::copy_strings(c.referenced_styles.as_slice()),
                        linear: item.linear,
                        layout,
                    };
                    sections.push(section);
                    proof {
                        assert(section_views(sections@) =~= section_views(before).push(section_view(section)));
                    }
                }
            }
        }
        proof {
            assert(section_views(sections@) =~= sections_upto(items@, content@, cv, keep_comic_cover, j + 1));
        }
        j = j + 1;
    }
    sections
}

// ---------------------------------------------------------------------------
// The table of contents and the landmarks.

/// Whether a media type is XHTML or HTML.
pub open spec fn html_type(t: Seq<char>) -> bool {
    lower_chars(t) == "application/xhtml+xml"@ || lower_chars(t) == "text/html"@
}

/// Whether the properties hold `nav`, up to ASCII case.
pub open spec fn nav_property(props: Seq<String>) -> bool {
    exists|i: int| 0 <= i < props.len() && lower_chars(#[trigger] props[i]@) == "nav"@
}

/// The first XHTML or HTML resource from `i` on with the `nav` property.
pub open spec fn nav_resource_from(rs: Seq<Resource>, i: int) -> Option<int>
    decreases rs.len() - i,
{
    if i < 0 || i >= rs.len() {
        None
    } else if html_type(rs[i].media_type@) && nav_property(rs[i].properties@) {
        Some(i)
    } else {
        nav_resource_from(rs, i + 1)
    }
}

proof fn lemma_nav_resource_from(rs: Seq<Resource>, i: int)
    requires
        0 <= i,
    ensures
        nav_resource_from(rs, i) matches Some(k) ==> i <= k < rs.len(),
    decreases rs.len() - i,
{
    if i < rs.len() && !(html_type(rs[i].media_type@) && nav_property(rs[i].properties@)) {
        lemma_nav_resource_from(rs, i + 1);
    }
}

fn find_nav_resource(rs: &[Resource]) -> (r: Option<usize>)
    ensures
        match nav_resource_from(rs@, 0) {
            Some(k) => r == Some(k as usize),
            None => r is None,
        },
{
    let mut i: usize = 0;
    while i < rs.len()
        invariant
            i <= rs@.len(),
            nav_resource_from(rs@, i as int) == nav_resource_from(rs@, 0),
        decreases rs@.len() - i,
    {
        let r = &rs[i];
        let t = r.media_type.as_str();
        if lower_eq(t, "application/xhtml+xml") || lower_eq(t, "text/html") {
            let mut nav_found = false;
            let mut q: usize = 0;
            while q < r.properties.len() && !nav_found
                invariant
                    q <= r.properties@.len(),
                    nav_found ==> nav_property(r.properties@),
                    !nav_found ==> forall|p: int| 0 <= p < q ==> lower_chars(#[trigger] r.properties@[p]@) != "nav"@,
                decreases r.properties@.len() - q + (if nav_found { 0int } else { 1int }),
            {
                if lower_eq(r.properties[q].as_str(), "nav") {
                    nav_found = true;
                } else {
                    q = q + 1;
                }
            }
            if nav_found {
                return Some(i);
            }
        }
        i = i + 1;
    }
    None
}

/// The hrefs that sections (as views) and resources take.
pub open spec fn section_taken(secs: Seq<SectionView>, rs: Seq<Resource>) -> Seq<Seq<char>> {
    secs.map_values(|s: SectionView| s.href) + rs.map_values(|r: Resource| r.href@)
}

/// Whether a section has the id.
pub open spec fn has_section_id(secs: Seq<SectionView>, id: Seq<char>) -> bool {
    exists|i: int| 0 <= i < secs.len() && #[trigger] secs[i].id == id
}

/// The href of the table of contents: the nav resource's when it is a
/// section, none when it is not; without a nav resource, the synthetic
/// one when there is navigation.
pub open spec fn toc_href_of(rs: Seq<Resource>, secs: Seq<SectionView>, navigation_empty: bool) -> Option<Seq<char>> {
    match nav_resource_from(rs, 0) {
        Some(k) => if has_section_id(secs, rs[k].id@) {
            Some(rs[k].href@)
        } else {
            None
        },
        None => if navigation_empty {
            None
        } else {
            Some(first_free_toc(section_taken(secs, rs), 0))
        },
    }
}

/// The sections of the book: the reading order's, after a synthetic table
/// of contents when one is made.
pub open spec fn book_sections(
    rs: Seq<Resource>,
    secs: Seq<SectionView>,
    navigation: Seq<KindleNavigationItem>,
) -> Seq<SectionView> {
    if nav_resource_from(rs, 0) is None && navigation.len() > 0 {
        seq![
            SectionView {
                id: "__kindle_toc"@,
                href: first_free_toc(section_taken(secs, rs), 0),
                source: toc_document(navigation),
                styles: Seq::empty(),
                linear: true,
                layout: KindleLayoutSemantic::Reflowable,
            },
        ] + secs
    } else {
        secs
    }
}

/// A landmark as mathematical values.
pub struct LandmarkView {
    pub kind: Seq<char>,
    pub label: Seq<char>,
    pub href: Seq<char>,
}

/// The views of landmarks.
pub open spec fn landmark_views(ls: Seq<KindleLandmark>) -> Seq<LandmarkView> {
    Seq::new(ls.len(), |i: int| LandmarkView { kind: ls[i].kind@, label: ls[i].label@, href: ls[i].href@ })
}

/// The first linear section from `i` on that is not the table of contents
/// document.
pub open spec fn fallback_body(secs: Seq<SectionView>, toc: Option<Seq<char>>, i: int) -> Option<Seq<char>>
    decreases secs.len() - i,
{
    if i < 0 || i >= secs.len() {
        None
    } else if secs[i].linear && match toc {
        None => true,
        Some(h) => document_path_spec(secs[i].href) != document_path_spec(h),
    } {
        Some(secs[i].href)
    } else {
        fallback_body(secs, toc, i + 1)
    }
}

/// Whether the reading order had a cover at the document path, which is
/// then left out.
pub open spec fn omitted_cover(
    items: Seq<ReadingOrderItem>,
    cs: Seq<ContentDocument>,
    covers: Seq<Seq<char>>,
    p: Seq<char>,
) -> bool {
    p.len() > 0 && exists|j: int|
        0 <= j < items.len() && #[trigger] cover_entry(cs, covers, items[j].id@, items[j].href@)
            && document_path_spec(items[j].href@) == p
}

/// Whether a section is at the document path.
pub open spec fn section_at(secs: Seq<SectionView>, p: Seq<char>) -> bool {
    exists|i: int| 0 <= i < secs.len() && document_path_spec(#[trigger] secs[i].href) == p
}

/// The landmarks other than covers; a body-matter landmark that points at
/// a cover left out of the sections points at the fallback body instead.
pub open spec fn kept_landmarks(
    ls: Seq<NavigationLandmark>,
    items: Seq<ReadingOrderItem>,
    cs: Seq<ContentDocument>,
    covers: Seq<Seq<char>>,
    secs: Seq<SectionView>,
    fallback: Option<Seq<char>>,
) -> Seq<LandmarkView>
    decreases ls.len(),
{
    if ls.len() == 0 {
        Seq::empty()
    } else {
        let l = ls.last();
        let target = document_path_spec(l.href@);
        let href = if bodymatter_kind(l.kind@) && omitted_cover(items, cs, covers, target) && !section_at(secs, target)
            && fallback is Some {
            fallback->0
        } else {
            l.href@
        };
        kept_landmarks(ls.drop_last(), items, cs, covers, secs, fallback) + if lower_chars(l.kind@) == "cover"@ {
            Seq::empty()
        } else {
            seq![LandmarkView { kind: l.kind@, label: l.label@, href }]
        }
    }
}

/// The first linear section from `i` on whose href is not the table of
/// contents.
pub open spec fn first_body(secs: Seq<SectionView>, toc: Option<Seq<char>>, i: int) -> Option<Seq<char>>
    decreases secs.len() - i,
{
    if i < 0 || i >= secs.len() {
        None
    } else if secs[i].linear && Some(secs[i].href) != toc {
        Some(secs[i].href)
    } else {
        first_body(secs, toc, i + 1)
    }
}

/// The kept landmarks, with a `text` landmark at the first body section
/// when none marks the body matter.
pub open spec fn with_body_landmark(kept: Seq<LandmarkView>, secs: Seq<SectionView>, toc: Option<Seq<char>>) -> Seq<LandmarkView> {
    if exists|i: int| 0 <= i < kept.len() && bodymatter_kind(#[trigger] kept[i].kind) {
        kept
    } else {
        match first_body(secs, toc, 0) {
            Some(h) => kept.push(LandmarkView { kind: "text"@, label: "本文"@, href: h }),
            None => kept,
        }
    }
}

/// The landmarks, with a `toc` landmark when there is a table of contents
/// and no landmark has that kind.
pub open spec fn with_toc_landmark(ls: Seq<LandmarkView>, toc: Option<Seq<char>>) -> Seq<LandmarkView> {
    match toc {
        Some(h) => if exists|i: int| 0 <= i < ls.len() && lower_chars(#[trigger] ls[i].kind) == "toc"@ {
            ls
        } else {
            ls.push(LandmarkView { kind: "toc"@, label: "目次"@, href: h })
        },
        None => ls,
    }
}

/// The landmarks of the book: the kept ones, a `text` landmark at the
/// first body section when none marks the body matter, and a `toc`
/// landmark when there is a table of contents and none points at it.
pub open spec fn book_landmarks(kept: Seq<LandmarkView>, secs: Seq<SectionView>, toc: Option<Seq<char>>) -> Seq<LandmarkView> {
    with_toc_landmark(with_body_landmark(kept, secs, toc), toc)
}

/// What a resource carries into the Kindle book: stylesheets projected for
/// Kindle, other bytes as they are.
pub open spec fn kindle_data(r: Resource) -> Seq<u8> {
    if lower_chars(r.media_type@) == "text/css"@ {
        vstd::utf8::encode_utf8(css_projection(lossy_text(r.data@)))
    } else {
        r.data@
    }
}

fn omitted_cover_exec(items: &[ReadingOrderItem], content: &[ContentDocument], covers: &[String], p: &str) -> (r: bool)
    ensures
        r == omitted_cover(items@, content@, texts(covers@), p@),
{
    if p.unicode_len() == 0 {
        return false;
    }
    let mut j: usize = 0;
    while j < items.len()
        invariant
            j <= items@.len(),
            p@.len() > 0,
            forall|q: int| 0 <= q < j ==> !(#[trigger] cover_entry(content@, texts(covers@), items@[q].id@, items@[q].href@)
                && document_path_spec(items@[q].href@) == p@),
        decreases items@.len() - j,
    {
        if is_cover_entry(content, covers, items[j].id.as_str(), items[j].href.as_str()) {
            let d = document_path(items[j].href.as_str());
            if crate::strings::str_eq(d.as_str(), p) {
                return true;
            }
        }
        j = j + 1;
    }
    false
}

fn section_at_exec(sections: &[KindleSection], p: &str) -> (r: bool)
    ensures
        r == section_at(section_views(sections@), p@),
{
    let ghost sv = section_views(sections@);
    let mut i: usize = 0;
    while i < sections.len()
        invariant
            i <= sections@.len(),
            sv == section_views(sections@),
            forall|q: int| 0 <= q < i ==> document_path_spec(#[trigger] sv[q].href) != p@,
        decreases sections@.len() - i,
    {
        let d = document_path(sections[i].href.as_str());
        if crate::strings::str_eq(d.as_str(), p) {
            assert(document_path_spec(sv[i as int].href) == p@);
            return true;
        }
        i = i + 1;
    }
    false
}

/// The landmarks other than covers, a body-matter landmark at an omitted
/// cover moved to the fallback body.
pub fn keep_landmarks(
    landmarks: &[NavigationLandmark],
    items: &[ReadingOrderItem],
    content: &[ContentDocument],
    covers: &[String],
    sections: &[KindleSection],
    fallback: &Option<String>,
) -> (r: Vec<KindleLandmark>)
    ensures
        landmark_views(r@) == kept_landmarks(
            landmarks@,
            items@,
            content@,
            texts(covers@),
            section_views(sections@),
            opt_text(*fallback),
        ),
{
    let ghost cv = texts(covers@);
    let ghost sv = section_views(sections@);
    let ghost fb = opt_text(*fallback);
    let mut out: Vec<KindleLandmark> = Vec::new();
    let mut i: usize = 0;
    while i < landmarks.len()
        invariant
            i <= landmarks@.len(),
            cv == texts(covers@),
            sv == section_views(sections@),
            fb == opt_text(*fallback),
            landmark_views(out@) == kept_landmarks(landmarks@.take(i as int), items@, content@, cv, sv, fb),
        decreases landmarks@.len() - i,
    {
        let l = &landmarks[i];
        let ghost before = out@;
        proof {
            assert(landmarks@.take(i + 1).drop_last() =~= landmarks@.take(i as int));
            assert(landmarks@.take(i + 1).last() == *l);
        }
        if !lower_eq(l.kind.as_str(), "cover") {
            let target = document_path(l.href.as_str());
            let moved = is_bodymatter_landmark(l.kind.as_str()) && omitted_cover_exec(items, content, covers, target.as_str())
                && !section_at_exec(sections, target.as_str()) && fallback.is_some();
            let href = if moved {
                match fallback {
                    Some(f) => f.clone(),
                    None => l.href.clone(),
                }
            } else {
                l.href.clone()
            };
            let lm = KindleLandmark { kind: l.kind.clone(), label: l.label.clone(), href };
            out.push(lm);
            proof {
                assert(landmark_views(out@) =~= landmark_views(before).push(
                    LandmarkView { kind: lm.kind@, label: lm.label@, href: lm.href@ },
                ));
            }
        } else {
            assert(landmark_views(out@) =~= landmark_views(before) + Seq::<LandmarkView>::empty());
        }
        i = i + 1;
    }
    assert(landmarks@.take(i as int) =~= landmarks@);
    out
}

/// The landmarks of the book, with a `text` and a `toc` landmark added where
/// they are missing.
pub fn complete_landmarks(kept: Vec<KindleLandmark>, sections: &[KindleSection], toc: &Option<String>) -> (r: Vec<KindleLandmark>)
    ensures
        landmark_views(r@) == book_landmarks(landmark_views(kept@), section_views(sections@), opt_text(*toc)),
{
    let ghost kv = landmark_views(kept@);
    let ghost sv = section_views(sections@);
    let ghost tv = opt_text(*toc);
    let mut out = kept;
    let mut body = false;
    let mut i: usize = 0;
    while i < out.len()
        invariant
            kv == landmark_views(out@),
            i <= out@.len(),
            body == exists|q: int| 0 <= q < i && bodymatter_kind(#[trigger] kv[q].kind),
        decreases out@.len() - i,
    {
        if is_bodymatter_landmark(out[i].kind.as_str()) {
            assert(bodymatter_kind(kv[i as int].kind));
            body = true;
        }
        i = i + 1;
    }
    if !body {
        let mut k: usize = 0;
        let mut found: Option<usize> = None;
        proof {
            assert(first_body(sv, tv, 0) == first_body(sv, tv, 0));
        }
        while k < sections.len() && found.is_none()
            invariant
                k <= sections@.len(),
                sv == section_views(sections@),
                tv == opt_text(*toc),
                found is None ==> first_body(sv, tv, k as int) == first_body(sv, tv, 0),
                found matches Some(f) ==> f < sections@.len() && first_body(sv, tv, 0) == Some(sv[f as int].href),
            decreases sections@.len() - k + (if found is None { 1int } else { 0int }),
        {
            let s = &sections[k];
            let is_toc = match toc {
                Some(h) => crate::strings::str_eq(s.href.as_str(), h.as_str()),
                None => false,
            };
            assert(is_toc == (Some(sv[k as int].href) == tv));
            if s.linear && !is_toc {
                found = Some(k);
            } else {
                k = k + 1;
            }
        }
        if let Some(f) = found {
            let ghost before = out@;
            let lm = KindleLandmark { kind: "text".to_owned(), label: "本文".to_owned(), href: sections[f].href.clone() };
            out.push(lm);
            proof {
                assert(landmark_views(out@) =~= landmark_views(before).push(LandmarkView { kind: "text"@, label: "本文"@, href: sv[f as int].href }));
            }
        }
    }
    let ghost wb = landmark_views(out@);
    assert(wb == with_body_landmark(kv, sv, tv));
    if let Some(h) = toc {
        let mut has_toc = false;
        let mut q: usize = 0;
        while q < out.len()
            invariant
                wb == landmark_views(out@),
                q <= out@.len(),
                has_toc == exists|p: int| 0 <= p < q && lower_chars(#[trigger] wb[p].kind) == "toc"@,
            decreases out@.len() - q,
        {
            if lower_eq(out[q].kind.as_str(), "toc") {
                assert(lower_chars(wb[q as int].kind) == "toc"@);
                has_toc = true;
            }
            q = q + 1;
        }
        assert(tv == Some(h@));
        if !has_toc {
            let lm = KindleLandmark { kind: "toc".to_owned(), label: "目次".to_owned(), href: h.clone() };
            out.push(lm);
            proof {
                assert(landmark_views(out@) =~= wb.push(LandmarkView { kind: "toc"@, label: "目次"@, href: h@ }));
            }
        }
    }
    assert(kv == landmark_views(kept@));
    assert(landmark_views(out@) == book_landmarks(kv, sv, tv));
    out
}

// ---------------------------------------------------------------------------
// Normalizing a book.

proof fn lemma_sections_upto_len(
    items: Seq<ReadingOrderItem>,
    cs: Seq<ContentDocument>,
    covers: Seq<Seq<char>>,
    keep: bool,
    j: int,
)
    ensures
        sections_upto(items, cs, covers, keep, j).len() <= if j < 0 { 0 } else { j },
    decreases j,
{
    if j > 0 {
        lemma_sections_upto_len(items, cs, covers, keep, j - 1);
    }
}

/// Whether a Kindle resource carries a resource: the same id, href, media
/// type and properties, and its data as Kindle takes it.
pub open spec fn carries(k: KindleResource, r: Resource) -> bool {
    &&& k.id@ == r.id@
    &&& k.href@ == r.href@
    &&& k.media_type@ == r.media_type@
    &&& texts(k.properties@) == texts(r.properties@)
    &&& k.data@ == kindle_data(r)
}

/// The resources as Kindle takes them: stylesheets projected for Kindle.
pub fn kindle_resources(resources: &[Resource]) -> (r: Vec<KindleResource>)
    ensures
        r@.len() == resources@.len(),
        forall|i: int| 0 <= i < resources@.len() ==> carries(#[trigger] r@[i], resources@[i]),
{
    let mut out: Vec<KindleResource> = Vec::new();
    let mut i: usize = 0;
    while i < resources.len()
        invariant
            i <= resources@.len(),
            out@.len() == i,
            forall|q: int| 0 <= q < i ==> carries(#[trigger] out@[q], resources@[q]),
        decreases resources@.len() - i,
    {
        let res = &resources[i];
        let data = if lower_eq(res.media_type.as_str(), "text/css") {
            let text = utf8_lossy(res.data.as_slice());
            let projected = project_css_for_kindle(text.as_str());
            projected.as_str().as_bytes_vec()
        } else {
            bytes_to_vec(res.data.as_slice())
        };
        let k = KindleResource {
            id: res.id.clone(),
            href: res.href.clone(),
            media_type: res.media_type.clone(),
            properties: crate::epub::opf::copy_strings(res.properties.as_slice()),
            data,
        };
        out.push(k);
        i = i + 1;
    }
    out
}

fn fallback_body_exec(sections: &[KindleSection], toc: &Option<String>) -> (r: Option<String>)
    ensures
        opt_text(r) == fallback_body(section_views(sections@), opt_text(*toc), 0),
{
    let ghost sv = section_views(sections@);
    let ghost tv = opt_text(*toc);
    let toc_path = match toc {
        Some(h) => Some(document_path(h.as_str())),
        None => None,
    };
    let mut i: usize = 0;
    while i < sections.len()
        invariant
            i <= sections@.len(),
            sv == section_views(sections@),
            tv == opt_text(*toc),
            fallback_body(sv, tv, i as int) == fallback_body(sv, tv, 0),
            match toc_path {
                Some(p) => tv matches Some(h) && p@ == document_path_spec(h),
                None => tv is None,
            },
        decreases sections@.len() - i,
    {
        let s = &sections[i];
        let other = match &toc_path {
            None => true,
            Some(p) => !crate::strings::str_eq(document_path(s.href.as_str()).as_str(), p.as_str()),
        };
        if s.linear && other {
            return Some(s.href.clone());
        }
        i = i + 1;
    }
    None
}

/// Normalize the semantic book into the Kindle model the KF8 writer reads:
/// cover documents leave the sections (a fixed-layout comic keeps its
/// linear fixed-page cover) and the navigation, links to them are
/// neutralized, a synthetic table of contents is made when the book has
/// navigation but no nav document, the landmarks lose their covers and gain
/// `text` and `toc` ones where missing, and stylesheets are projected for
/// Kindle.
pub fn normalize(book: Book) -> (r: KindleBook)
    requires
        book.reading_order.items@.len() + book.resources.items@.len() < usize::MAX,
    ensures
        ({
            let covers = cover_paths(book.navigation.landmarks@, book.content@);
            let secs = sections_upto(
                book.reading_order.items@,
                book.content@,
                covers,
                comic_book(book.metadata),
                book.reading_order.items@.len() as int,
            );
            let toc = toc_href_of(book.resources.items@, secs, r.navigation@.len() == 0);
            let all = book_sections(book.resources.items@, secs, r.navigation@);
            &&& kindle_nav_views(r.navigation@) == pruned(nav_views(book.navigation.items@), covers)
            &&& section_views(r.sections@) == all
            &&& landmark_views(r.landmarks@) == book_landmarks(
                kept_landmarks(
                    book.navigation.landmarks@,
                    book.reading_order.items@,
                    book.content@,
                    covers,
                    all,
                    fallback_body(all, toc, 0),
                ),
                all,
                toc,
            )
        }),
        r.resources@.len() == book.resources.items@.len(),
        forall|i: int| 0 <= i < book.resources.items@.len() ==> carries(#[trigger] r.resources@[i], book.resources.items@[i]),
        r.metadata.title == book.metadata.title,
        r.metadata.creator == book.metadata.creator,
        r.metadata.language == book.metadata.language,
        r.metadata.identifier == book.metadata.identifier,
        r.metadata.publisher == book.metadata.publisher,
        r.metadata.description == book.metadata.description,
        r.metadata.cover_resource_id == book.metadata.cover,
        r.metadata.is_fixed_layout == book.metadata.is_fixed_layout,
        r.metadata.primary_writing_mode == book.metadata.primary_writing_mode,
        r.metadata.book_type == book.metadata.book_type,
        r.metadata.orientation == book.metadata.orientation,
        r.metadata.orientation_lock == book.metadata.orientation_lock,
        r.metadata.original_resolution == book.metadata.original_resolution,
        r.layout == (KindleLayout {
            writing_mode: book.layout.writing_mode,
            page_progression: book.layout.page_progression,
            direction: book.layout.direction,
        }),
{
    let ghost b = book;
    let covers = cover_document_hrefs(book.navigation.landmarks.as_slice(), book.content.as_slice());
    let ghost cv = texts(covers@);
    assert(cv == covers@.map_values(|h: String| h@));
    let keep = book.metadata.is_fixed_layout && match &book.metadata.book_type {
        Some(t) => lower_eq(trim_str(t.as_str()), "comic"),
        None => false,
    };
    let reading = reading_sections(
        book.reading_order.items.as_slice(),
        book.content.as_slice(),
        covers.as_slice(),
        keep,
    );
    let ghost secs = section_views(reading@);
    proof {
        lemma_sections_upto_len(b.reading_order.items@, b.content@, cv, keep, b.reading_order.items@.len() as int);
    }
    let pruned_items = prune_navigation(book.navigation.items.as_slice(), covers.as_slice());
    let navigation = kindle_navigation(pruned_items.as_slice());
    proof {
        lemma_kindle_nav_len(navigation@);
        lemma_nav_views_len(pruned_items@);
    }
    let rs = book.resources.items.as_slice();
    let mut sections = reading;
    proof {
        lemma_nav_resource_from(rs@, 0);
    }
    let toc_href: Option<String> = match find_nav_resource(rs) {
        Some(k) => {
            let mut found = false;
            let mut i: usize = 0;
            while i < sections.len()
                invariant
                    i <= sections@.len(),
                    k < rs@.len(),
                    secs == section_views(sections@),
                    found == exists|q: int| 0 <= q < i && #[trigger] secs[q].id == rs@[k as int].id@,
                decreases sections@.len() - i,
            {
                if crate::strings::str_eq(sections[i].id.as_str(), rs[k].id.as_str()) {
                    assert(secs[i as int].id == rs@[k as int].id@);
                    found = true;
                }
                i = i + 1;
            }
            if found {
                Some(rs[k].href.clone())
            } else {
                None
            }
        },
        None => {
            if navigation.len() == 0 {
                None
            } else {
                let href = synthetic_toc_href(sections.as_slice(), rs);
                assert(taken_hrefs(sections@, rs@) =~= section_taken(secs, rs@));
                let toc_section = KindleSection {
                    id: "__kindle_toc".to_owned(),
                    href: href.clone(),
                    source_xhtml: render_synthetic_toc(navigation.as_slice()),
                    referenced_styles: Vec::new(),
                    linear: true,
                    layout: KindleLayoutSemantic::Reflowable,
                };
                let ghost before = sections@;
                sections.insert(0, toc_section);
                proof {
                    assert(texts(toc_section.referenced_styles@) =~= Seq::<Seq<char>>::empty());
                    assert(section_views(sections@) =~= seq![section_view(toc_section)] + section_views(before));
                }
                Some(href)
            }
        },
    };
    let ghost all = section_views(sections@);
    let ghost toc = opt_text(toc_href);
    let fallback = fallback_body_exec(sections.as_slice(), &toc_href);
    let kept = keep_landmarks(
        book.navigation.landmarks.as_slice(),
        book.reading_order.items.as_slice(),
        book.content.as_slice(),
        covers.as_slice(),
        sections.as_slice(),
        &fallback,
    );
    let landmarks = complete_landmarks(kept, sections.as_slice(), &toc_href);
    proof {
        assert(secs == sections_upto(b.reading_order.items@, b.content@, cv, comic_book(b.metadata), b.reading_order.items@.len() as int));
        assert(kindle_nav_views(navigation@) == pruned(nav_views(b.navigation.items@), cv));
        assert(toc == toc_href_of(rs@, secs, navigation@.len() == 0));
        assert(all == book_sections(rs@, secs, navigation@));
        assert(landmark_views(landmarks@) == book_landmarks(
            kept_landmarks(b.navigation.landmarks@, b.reading_order.items@, b.content@, cv, all, fallback_body(all, toc, 0)),
            all,
            toc,
        ));
    }
    let resources = kindle_resources(rs);
    let metadata = book.metadata;
    let layout = book.layout;
    KindleBook {
        metadata: KindleMetadata {
            title: metadata.title,
            creator: metadata.creator,
            language: metadata.language,
            identifier: metadata.identifier,
            publisher: metadata.publisher,
            description: metadata.description,
            cover_resource_id: metadata.cover,
            is_fixed_layout: metadata.is_fixed_layout,
            primary_writing_mode: metadata.primary_writing_mode,
            book_type: metadata.book_type,
            orientation: metadata.orientation,
            orientation_lock: metadata.orientation_lock,
            original_resolution: metadata.original_resolution,
        },
        layout: KindleLayout {
            writing_mode: layout.writing_mode,
            page_progression: layout.page_progression,
            direction: layout.direction,
        },
        sections,
        navigation,
        landmarks,
        resources,
    }
}

proof fn lemma_kindle_nav_len(items: Seq<KindleNavigationItem>)
    ensures
        kindle_nav_views(items).len() == items.len(),
    decreases items.len(),
{
    if items.len() > 0 {
        lemma_kindle_nav_len(items.drop_last());
    }
}

proof fn lemma_nav_views_len(items: Seq<NavigationItem>)
    ensures
        nav_views(items).len() == items.len(),
    decreases items.len(),
{
    if items.len() > 0 {
        lemma_nav_views_len(items.drop_last());
    }
}


/// A landmark kind that names the start of the body matter, in any ASCII
/// case: `text` (the EPUB 2 guide's), `body`, `bodymatter` or `start`.
pub open spec fn names_body_start(kind: Seq<char>) -> bool {
    ||| lower_chars(kind) == "text"@
    ||| lower_chars(kind) == "body"@
    ||| lower_chars(kind) == "bodymatter"@
    ||| lower_chars(kind) == "start"@
}

/// A book whose kept landmarks already name the start of the body matter
/// gets no added `text` landmark.
pub proof fn lemma_body_start_kept(kept: Seq<LandmarkView>, secs: Seq<SectionView>, toc: Option<Seq<char>>, i: int)
    requires
        0 <= i < kept.len(),
        names_body_start(kept[i].kind),
    ensures
        with_body_landmark(kept, secs, toc) == kept,
{
    assert(bodymatter_kind(kept[i].kind));
}

/// A landmark that names the start of the body matter and points at a
/// cover document left out of the sections follows the body: when a
/// fallback body exists, it is kept, with its kind and label, pointing
/// there; the landmarks before it are kept as they are.
pub proof fn lemma_body_start_leaves_omitted_cover(
    ls: Seq<NavigationLandmark>,
    l: NavigationLandmark,
    items: Seq<ReadingOrderItem>,
    cs: Seq<ContentDocument>,
    covers: Seq<Seq<char>>,
    secs: Seq<SectionView>,
    fallback: Option<Seq<char>>,
)
    requires
        names_body_start(l.kind@),
        omitted_cover(items, cs, covers, document_path_spec(l.href@)),
        !section_at(secs, document_path_spec(l.href@)),
        fallback is Some,
    ensures
        kept_landmarks(ls.push(l), items, cs, covers, secs, fallback) == kept_landmarks(
            ls,
            items,
            cs,
            covers,
            secs,
            fallback,
        ).push(LandmarkView { kind: l.kind@, label: l.label@, href: fallback->0 }),
{
    reveal_strlit("cover");
    reveal_strlit("text");
    reveal_strlit("body");
    reveal_strlit("bodymatter");
    reveal_strlit("start");
    assert(ls.push(l).drop_last() =~= ls);
    assert(bodymatter_kind(l.kind@));
    let k = lower_chars(l.kind@);
    assert("cover"@.len() == 5 && "cover"@[0] == 'c');
    assert("start"@.len() == 5 && "start"@[0] == 's');
    assert("text"@.len() == 4 && "body"@.len() == 4 && "bodymatter"@.len() == 10);
    if k == "cover"@ {
        assert(k[0] == 'c');
        assert(false);
    }
    assert(kept_landmarks(ls.push(l), items, cs, covers, secs, fallback) =~= kept_landmarks(
        ls,
        items,
        cs,
        covers,
        secs,
        fallback,
    ) + seq![LandmarkView { kind: l.kind@, label: l.label@, href: fallback->0 }]);
}

} // verus!
