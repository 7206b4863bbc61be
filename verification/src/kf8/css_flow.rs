//! CSS flow references and the lexical pieces of CSS scanning.

use vstd::prelude::*;
use vstd::string::StringSliceAdditionalSpecFns;
use vstd::string::StrSliceExecFns;
use crate::kf8::format::{base32_text, to_base32, to_base32_fixed};
use crate::kf8::resource::{
    css_resource, font_resource, image_resource, is_binary_resource, is_font_resource,
    is_image_resource, text_resource,
};
use vstd::slice::slice_to_vec;
use vstd::utf8::{decode_utf8, encode_utf8, valid_utf8};
use crate::kindle::ir::KindleResource;
use crate::strings::str_eq;
use crate::xhtml::path::{
    external_spec, is_external_reference, normalize_path, normalize_spec, resolve_path, resolve_spec,
};
use crate::epub::css::{find_pair, find_pair_from, lemma_find_pair};
use crate::strings::{
    lower_char, lower_chars, push_chars, push_str_chars, str_chars, string_from_chars, to_lower_char,
    utf8_str,
};

verus! {

// ---------------------------------------------------------------------------
// Lexical pieces. Positions are character indices: every position the CSS
// scanners stop at follows an ASCII delimiter, so character positions walk
// exactly the characters that byte positions would.

/// The position after the `*/` that closes a comment, searching from `c`.
pub open spec fn comment_close(s: Seq<char>, c: int) -> Option<int> {
    match find_pair(s, '*', '/', c) {
        Some(k) => Some(k + 2),
        None => None,
    }
}

/// A comment opens at `c`.
pub open spec fn comment_at(s: Seq<char>, c: int) -> bool {
    0 <= c && c + 1 < s.len() && s[c] == '/' && s[c + 1] == '*'
}

/// The end of the comment that opens at `start`, if one opens there and
/// is closed.
pub open spec fn comment_end(s: Seq<char>, start: int) -> Option<int> {
    if comment_at(s, start) {
        comment_close(s, start + 2)
    } else {
        None
    }
}

pub proof fn lemma_comment_close(s: Seq<char>, c: int)
    requires
        0 <= c,
    ensures
        comment_close(s, c) matches Some(e) ==> c + 2 <= e <= s.len(),
{
    lemma_find_pair(s, '*', '/', c);
}

/// The position after the quote `q` that closes a string, searching from
/// `c`; a backslash escapes the character after it.
pub open spec fn string_close(s: Seq<char>, c: int, q: char) -> Option<int>
    decreases s.len() + 1 - c,
{
    if c < 0 || c >= s.len() {
        None
    } else if s[c] == q {
        Some(c + 1)
    } else if s[c] == '\\' {
        string_close(s, c + 2, q)
    } else {
        string_close(s, c + 1, q)
    }
}

pub proof fn lemma_string_close(s: Seq<char>, c: int, q: char)
    requires
        0 <= c,
    ensures
        string_close(s, c, q) matches Some(e) ==> c < e <= s.len(),
    decreases s.len() + 1 - c,
{
    if c < s.len() && s[c] != q {
        if s[c] == '\\' {
            lemma_string_close(s, c + 2, q);
        } else {
            lemma_string_close(s, c + 1, q);
        }
    }
}

/// A quoted string opens at `c`.
pub open spec fn quote_at(s: Seq<char>, c: int) -> bool {
    0 <= c < s.len() && (s[c] == '\'' || s[c] == '"')
}

/// The end of the quoted string that opens at `start`, if one opens there
/// and is closed.
pub open spec fn string_end(s: Seq<char>, start: int) -> Option<int> {
    if quote_at(s, start) {
        string_close(s, start + 1, s[start])
    } else {
        None
    }
}

/// The position after the `/* ... */` comment at `start`; `None` when no
/// comment opens there or it is not closed.
pub fn skip_css_comment(source: &[char], start: usize) -> (r: Option<usize>)
    ensures
        r == (match comment_end(source@, start as int) {
            Some(e) => Some(e as usize),
            None => None::<usize>,
        }),
        r matches Some(e) ==> start + 4 <= e <= source@.len(),
{
    let n = source.len();
    if start >= n || n - start < 2 || source[start] != '/' || source[start + 1] != '*' {
        return None;
    }
    proof {
        lemma_find_pair(source@, '*', '/', start + 2);
    }
    match find_pair_from(source, '*', '/', start + 2) {
        Some(k) => Some(k + 2),
        None => None,
    }
}

/// The position after the quoted string at `start`, backslash escapes
/// included; `None` when no string opens there or it is not closed.
pub fn skip_css_string(source: &[char], start: usize) -> (r: Option<usize>)
    ensures
        r == (match string_end(source@, start as int) {
            Some(e) => Some(e as usize),
            None => None::<usize>,
        }),
        r matches Some(e) ==> start + 2 <= e <= source@.len(),
{
    let n = source.len();
    if start >= n {
        return None;
    }
    let quote = source[start];
    if quote != '\'' && quote != '"' {
        return None;
    }
    let mut cursor = start + 1;
    proof {
        lemma_string_close(source@, cursor as int, quote);
    }
    while cursor < n
        invariant
            n == source@.len(),
            start < n,
            start < cursor,
            quote == source@[start as int],
            quote == '\'' || quote == '"',
            string_close(source@, cursor as int, quote) == string_close(source@, start + 1, quote),
            string_close(source@, start + 1, quote) matches Some(e) ==> start + 1 < e <= n,
        decreases n - cursor,
    {
        let c = source[cursor];
        if c == quote {
            return Some(cursor + 1);
        } else if c == '\\' {
            if n - cursor >= 2 {
                cursor = cursor + 2;
            } else {
                assert(string_close(source@, cursor + 2, quote) is None);
                return None;
            }
        } else {
            cursor = cursor + 1;
        }
    }
    None
}

/// ASCII whitespace, as `u8::is_ascii_whitespace` has it.
pub open spec fn css_ws(c: char) -> bool {
    c == ' ' || c == '\t' || c == '\n' || c == '\x0C' || c == '\r'
}

/// Whether `c` is ASCII whitespace.
pub fn is_css_ws(c: char) -> (r: bool)
    ensures
        r == css_ws(c),
{
    c == ' ' || c == '\t' || c == '\n' || c == '\x0C' || c == '\r'
}

/// ASCII whitespace skipped from `c`.
pub open spec fn ws_end(s: Seq<char>, c: int) -> int
    decreases s.len() - c,
{
    if 0 <= c < s.len() && css_ws(s[c]) {
        ws_end(s, c + 1)
    } else {
        c
    }
}

pub proof fn lemma_ws_end(s: Seq<char>, c: int)
    requires
        0 <= c,
    ensures
        c <= ws_end(s, c),
        c <= s.len() ==> ws_end(s, c) <= s.len(),
        ws_end(s, c) > c ==> ws_end(s, c) <= s.len(),
    decreases s.len() - c,
{
    if 0 <= c < s.len() && css_ws(s[c]) {
        lemma_ws_end(s, c + 1);
    }
}

/// Whitespace and comments skipped from `c`, and whether anything was
/// skipped; `None` for an unclosed comment.
pub open spec fn space_comments_from(s: Seq<char>, c: int, skipped: bool) -> Option<(int, bool)>
    decreases s.len() - c,
{
    if c < 0 {
        None
    } else {
        let w = ws_end(s, c);
        if comment_at(s, w) {
            match comment_close(s, w + 2) {
                None => None,
                Some(e) => {
                    proof {
                        lemma_ws_end(s, c);
                        lemma_comment_close(s, w + 2);
                    }
                    space_comments_from(s, e, true)
                },
            }
        } else {
            Some((w, skipped || w > c))
        }
    }
}

pub proof fn lemma_space_comments(s: Seq<char>, c: int, skipped: bool)
    requires
        0 <= c,
    ensures
        space_comments_from(s, c, skipped) matches Some((e, _)) ==> c <= e && (c <= s.len() ==> e
            <= s.len()),
    decreases s.len() - c,
{
    lemma_ws_end(s, c);
    let w = ws_end(s, c);
    if comment_at(s, w) {
        lemma_comment_close(s, w + 2);
        match comment_close(s, w + 2) {
            Some(e) => lemma_space_comments(s, e, true),
            None => {},
        }
    }
}

/// Skip whitespace and comments from `cursor`: the position reached and
/// whether anything was skipped; `None` for an unclosed comment.
pub fn skip_css_space_comments(source: &[char], cursor: usize) -> (r: Option<(usize, bool)>)
    ensures
        r == (match space_comments_from(source@, cursor as int, false) {
            Some((e, k)) => Some((e as usize, k)),
            None => None::<(usize, bool)>,
        }),
        r matches Some((e, _)) ==> cursor <= e && (cursor <= source@.len() ==> e <= source@.len()),
{
    let n = source.len();
    let ghost target = space_comments_from(source@, cursor as int, false);
    proof {
        lemma_space_comments(source@, cursor as int, false);
    }
    let mut c = cursor;
    let mut skipped = false;
    loop
        invariant
            n == source@.len(),
            target == space_comments_from(source@, cursor as int, false),
            target matches Some((e, _)) ==> cursor <= e && (cursor <= n ==> e <= n),
            cursor <= c,
            c > n ==> c == cursor,
            space_comments_from(source@, c as int, skipped) == target,
        decreases n + 1 - (if c <= n { c as int } else { n as int }),
    {
        let ghost c0 = c;
        let ghost s0 = skipped;
        proof {
            lemma_ws_end(source@, c as int);
        }
        while c < n && is_css_ws(source[c])
            invariant
                n == source@.len(),
                c0 <= c,
                c0 <= n ==> c <= n,
                c > n ==> c == c0,
                ws_end(source@, c as int) == ws_end(source@, c0 as int),
                skipped == (s0 || c > c0),
            decreases n - c,
        {
            c = c + 1;
            skipped = true;
        }
        assert(ws_end(source@, c as int) == c);
        if c < n && n - c > 1 && source[c] == '/' && source[c + 1] == '*' {
            skipped = true;
            match skip_css_comment(source, c) {
                Some(e) => {
                    proof {
                        lemma_ws_end(source@, c0 as int);
                        lemma_comment_close(source@, c + 2);
                        assert(space_comments_from(source@, c0 as int, s0) == space_comments_from(
                            source@,
                            e as int,
                            true,
                        ));
                    }
                    c = e;
                },
                None => {
                    return None;
                },
            }
        } else {
            return Some((c, skipped));
        }
    }
}

// ---------------------------------------------------------------------------
// Keywords and functions.

/// Whether a character is Unicode alphabetic or numeric, as
/// `char::is_alphanumeric` decides.
pub uninterp spec fn unicode_alphanumeric(c: char) -> bool;

/// `char::is_alphanumeric`. The contract names its result and states the
/// ASCII case that its documentation gives: ASCII letters and digits.
#[verifier::external_body]
fn is_alphanumeric(c: char) -> (r: bool)
    ensures
        r == unicode_alphanumeric(c),
        (c as u32) < 128 ==> (r == (('a' <= c <= 'z') || ('A' <= c <= 'Z') || ('0' <= c <= '9'))),
{
    c.is_alphanumeric()
}

/// A character that continues a CSS identifier.
pub open spec fn ident_char(c: char) -> bool {
    unicode_alphanumeric(c) || c == '_' || c == '-'
}

/// `keyword` stands at `start` up to ASCII case and is not followed by an
/// identifier character.
pub open spec fn keyword_at(s: Seq<char>, start: int, keyword: Seq<char>) -> bool {
    let end = start + keyword.len();
    &&& 0 <= start
    &&& end <= s.len()
    &&& lower_chars(s.subrange(start, end)) == lower_chars(keyword)
    &&& (end == s.len() || !ident_char(s[end]))
}

/// No identifier character stands right before `start`.
pub open spec fn boundary_before(s: Seq<char>, start: int) -> bool {
    start == 0 || !ident_char(s[start - 1])
}

/// The function name `name` stands at `start` as a whole identifier.
pub open spec fn function_at(s: Seq<char>, start: int, name: Seq<char>) -> bool {
    keyword_at(s, start, name) && boundary_before(s, start)
}

/// Whether `keyword` stands at `start` up to ASCII case, not followed by an
/// identifier character.
fn css_keyword_at(source: &[char], start: usize, keyword: &[char]) -> (r: bool)
    ensures
        r == keyword_at(source@, start as int, keyword@),
{
    let n = source.len();
    let k = keyword.len();
    if start > n || n - start < k {
        return false;
    }
    let end = start + k;
    let mut i: usize = 0;
    while i < k
        invariant
            n == source@.len(),
            k == keyword@.len(),
            end == start + k,
            end <= n,
            i <= k,
            forall|j: int| 0 <= j < i ==> lower_char(source@[start + j]) == lower_char(keyword@[j]),
        decreases k - i,
    {
        if to_lower_char(source[start + i]) != to_lower_char(keyword[i]) {
            assert(lower_chars(source@.subrange(start as int, end as int))[i as int] != lower_chars(
                keyword@,
            )[i as int]);
            return false;
        }
        i = i + 1;
    }
    assert(lower_chars(source@.subrange(start as int, end as int)) =~= lower_chars(keyword@));
    if end == n {
        return true;
    }
    let c = source[end];
    !is_alphanumeric(c) && c != '_' && c != '-'
}

/// Whether no identifier character stands right before `start`.
fn css_identifier_boundary_before(source: &[char], start: usize) -> (r: bool)
    requires
        start <= source@.len(),
    ensures
        r == boundary_before(source@, start as int),
{
    if start == 0 {
        return true;
    }
    let c = source[start - 1];
    !is_alphanumeric(c) && c != '_' && c != '-'
}

/// Whether the function name `name` stands at `start` as a whole
/// identifier: `myurl(` does not hold `url(`.
fn css_function_at(source: &[char], start: usize, name: &[char]) -> (r: bool)
    ensures
        r == function_at(source@, start as int, name@),
{
    if !css_keyword_at(source, start, name) {
        return false;
    }
    css_identifier_boundary_before(source, start)
}

// ---------------------------------------------------------------------------
// `url(...)` and `@import` spans.

/// A `url(...)`: where it starts, its target, the position after its `)`,
/// the quote around the target, and whether whitespace or comments around
/// the target must be kept.
#[derive(Debug, Clone, Copy)]
pub struct CssUrlSpan {
    pub start: usize,
    pub target_start: usize,
    pub target_end: usize,
    pub close_end: usize,
    pub quote: Option<char>,
    pub preserve_wrappers: bool,
}

/// The positions and flags of a `url(...)` span.
pub type UrlSpanView = (int, int, int, int, Option<char>, bool);

impl CssUrlSpan {
    /// The span as integers.
    pub open spec fn model(self) -> UrlSpanView {
        (
            self.start as int,
            self.target_start as int,
            self.target_end as int,
            self.close_end as int,
            self.quote,
            self.preserve_wrappers,
        )
    }
}

/// The end of an unquoted `url(` target: the first `)`, whitespace or
/// comment opening at or after `c`.
pub open spec fn url_target_end(s: Seq<char>, c: int) -> int
    decreases s.len() - c,
{
    if c < 0 || c >= s.len() {
        c
    } else if s[c] == ')' || css_ws(s[c]) || comment_at(s, c) {
        c
    } else {
        url_target_end(s, c + 1)
    }
}

pub proof fn lemma_url_target_end(s: Seq<char>, c: int)
    requires
        0 <= c <= s.len(),
    ensures
        c <= url_target_end(s, c) <= s.len(),
    decreases s.len() - c,
{
    if c < s.len() && !(s[c] == ')' || css_ws(s[c]) || comment_at(s, c)) {
        lemma_url_target_end(s, c + 1);
    }
}

/// The `)` closing a `url(` after `c`, once whitespace and comments are
/// skipped, with whether any were.
pub open spec fn url_close(s: Seq<char>, c: int) -> Option<(int, bool)> {
    match space_comments_from(s, c, false) {
        None => None,
        Some((close, trailing)) => if 0 <= close < s.len() && s[close] == ')' {
            Some((close, trailing))
        } else {
            None
        },
    }
}

/// The `url(...)` whose name starts at `start`.
pub open spec fn url_span(s: Seq<char>, start: int) -> Option<UrlSpanView> {
    let open = start + 3;
    if !(0 <= start && open < s.len() && s[open] == '(') {
        None
    } else {
        match space_comments_from(s, open + 1, false) {
            None => None,
            Some((cursor, leading)) => if quote_at(s, cursor) {
                match string_close(s, cursor + 1, s[cursor]) {
                    None => None,
                    Some(quote_end) => match url_close(s, quote_end) {
                        None => None,
                        Some((close, trailing)) => Some(
                            (start, cursor + 1, quote_end - 1, close + 1, Some(s[cursor]), leading
                                || trailing),
                        ),
                    },
                }
            } else {
                let target_end = url_target_end(s, cursor);
                if target_end == cursor {
                    None
                } else {
                    match url_close(s, target_end) {
                        None => None,
                        Some((close, trailing)) => Some(
                            (start, cursor, target_end, close + 1, None, leading || trailing),
                        ),
                    }
                }
            },
        }
    }
}

/// The quote delimiters of a span: one character each side when quoted.
pub open spec fn quote_width(sp: UrlSpanView) -> int {
    if sp.4 is Some {
        1
    } else {
        0
    }
}

/// A span's positions are ordered inside a source of `n` characters.
pub open spec fn url_span_ok(sp: UrlSpanView, n: int) -> bool {
    &&& 0 <= sp.0
    &&& sp.0 + 4 <= sp.1 - quote_width(sp)
    &&& sp.1 <= sp.2
    &&& sp.2 + quote_width(sp) < sp.3
    &&& sp.3 <= n
}

pub proof fn lemma_url_span(s: Seq<char>, start: int)
    ensures
        url_span(s, start) matches Some(sp) ==> sp.0 == start && url_span_ok(sp, s.len() as int),
{
    let open = start + 3;
    if 0 <= start && open < s.len() && s[open] == '(' {
        lemma_space_comments(s, open + 1, false);
        match space_comments_from(s, open + 1, false) {
            None => {},
            Some((cursor, _)) => {
                if quote_at(s, cursor) {
                    lemma_string_close(s, cursor + 1, s[cursor]);
                    match string_close(s, cursor + 1, s[cursor]) {
                        None => {},
                        Some(qe) => {
                            lemma_space_comments(s, qe, false);
                        },
                    }
                } else if cursor <= s.len() {
                    lemma_url_target_end(s, cursor);
                    lemma_space_comments(s, url_target_end(s, cursor), false);
                }
            },
        }
    }
}

/// Parse the `url(...)` whose name starts at `start`.
fn parse_css_url_span(source: &[char], start: usize) -> (r: Option<CssUrlSpan>)
    ensures
        match url_span(source@, start as int) {
            Some(sp) => r matches Some(x) && x.model() == sp,
            None => r is None,
        },
{
    proof {
        lemma_url_span(source@, start as int);
    }
    let n = source.len();
    if start >= n || n - start <= 3 {
        return None;
    }
    let open = start + 3;
    if source[open] != '(' {
        return None;
    }
    proof {
        lemma_space_comments(source@, open + 1, false);
    }
    let (cursor, leading) = match skip_css_space_comments(source, open + 1) {
        Some(x) => x,
        None => {
            return None;
        },
    };
    if cursor < n && (source[cursor] == '\'' || source[cursor] == '"') {
        proof {
            lemma_string_close(source@, cursor + 1, source@[cursor as int]);
        }
        let quote_end = match skip_css_string(source, cursor) {
            Some(e) => e,
            None => {
                return None;
            },
        };
        proof {
            lemma_space_comments(source@, quote_end as int, false);
        }
        let (close, trailing) = match skip_css_space_comments(source, quote_end) {
            Some(x) => x,
            None => {
                return None;
            },
        };
        if close >= n || source[close] != ')' {
            return None;
        }
        return Some(
            CssUrlSpan {
                start,
                target_start: cursor + 1,
                target_end: quote_end - 1,
                close_end: close + 1,
                quote: Some(source[cursor]),
                preserve_wrappers: leading || trailing,
            },
        );
    }
    let target_start = cursor;
    let mut c = cursor;
    proof {
        lemma_url_target_end(source@, cursor as int);
    }
    while c < n && source[c] != ')' && !is_css_ws(source[c]) && !(source[c] == '/' && n - c > 1
        && source[c + 1] == '*')
        invariant
            n == source@.len(),
            cursor <= c <= n,
            url_target_end(source@, c as int) == url_target_end(source@, cursor as int),
        decreases n - c,
    {
        c = c + 1;
    }
    let target_end = c;
    if target_end == target_start {
        return None;
    }
    proof {
        lemma_space_comments(source@, target_end as int, false);
    }
    let (close, trailing) = match skip_css_space_comments(source, target_end) {
        Some(x) => x,
        None => {
            return None;
        },
    };
    if close >= n || source[close] != ')' {
        return None;
    }
    Some(
        CssUrlSpan {
            start,
            target_start,
            target_end,
            close_end: close + 1,
            quote: None,
            preserve_wrappers: leading || trailing,
        },
    )
}

/// Where scanning goes on past a comment or string at `c`, or to the end
/// when it is not closed; `None` when neither opens at `c`.
pub open spec fn skip_token(s: Seq<char>, c: int) -> Option<int> {
    if comment_at(s, c) {
        Some(
            match comment_end(s, c) {
                Some(e) => e,
                None => s.len() as int,
            },
        )
    } else if quote_at(s, c) {
        Some(
            match string_end(s, c) {
                Some(e) => e,
                None => s.len() as int,
            },
        )
    } else {
        None
    }
}

pub proof fn lemma_skip_token(s: Seq<char>, c: int)
    requires
        0 <= c < s.len(),
    ensures
        skip_token(s, c) matches Some(e) ==> c < e <= s.len(),
{
    lemma_comment_close(s, c + 2);
    lemma_string_close(s, c + 1, s[c]);
}

/// The `url(...)` spans from `c` on, outside comments and strings.
pub open spec fn url_spans_from(s: Seq<char>, c: int) -> Seq<UrlSpanView>
    decreases s.len() - c,
{
    if c < 0 || c >= s.len() {
        Seq::empty()
    } else {
        proof {
            lemma_skip_token(s, c);
            lemma_url_span(s, c);
        }
        match skip_token(s, c) {
            Some(e) => url_spans_from(s, e),
            None => if function_at(s, c, "url"@) && c + 3 < s.len() && s[c + 3] == '(' && url_span(
                s,
                c,
            ) is Some {
                let sp = url_span(s, c)->0;
                seq![sp] + url_spans_from(s, sp.3)
            } else {
                url_spans_from(s, c + 1)
            },
        }
    }
}

/// The spans are ordered, from `c` on, inside a source of `n` characters.
pub open spec fn url_spans_ok(spans: Seq<UrlSpanView>, c: int, n: int) -> bool {
    &&& forall|i: int| 0 <= i < spans.len() ==> url_span_ok(#[trigger] spans[i], n)
    &&& spans.len() > 0 ==> c <= spans[0].0
    &&& forall|i: int| 0 < i < spans.len() ==> #[trigger] spans[i - 1].3 <= spans[i].0
}

pub proof fn lemma_url_spans(s: Seq<char>, c: int)
    requires
        0 <= c,
    ensures
        url_spans_ok(url_spans_from(s, c), c, s.len() as int),
    decreases s.len() - c,
{
    if c < s.len() {
        lemma_skip_token(s, c);
        lemma_url_span(s, c);
        match skip_token(s, c) {
            Some(e) => lemma_url_spans(s, e),
            None => if function_at(s, c, "url"@) && c + 3 < s.len() && s[c + 3] == '(' && url_span(
                s,
                c,
            ) is Some {
                let sp = url_span(s, c)->0;
                lemma_url_spans(s, sp.3);
                let rest = url_spans_from(s, sp.3);
                let all = seq![sp] + rest;
                assert(url_spans_from(s, c) == all);
                assert forall|i: int| 0 < i < all.len() implies #[trigger] all[i - 1].3 <= all[i].0 by {
                    if i > 1 {
                        assert(all[i - 1] == rest[i - 2]);
                        assert(all[i] == rest[i - 1]);
                    }
                }
                assert forall|i: int| 0 <= i < all.len() implies url_span_ok(#[trigger] all[i], s.len() as int) by {
                    if i > 0 {
                        assert(all[i] == rest[i - 1]);
                    }
                }
            } else {
                lemma_url_spans(s, c + 1);
            },
        }
    }
}

/// The `url(...)` spans of a stylesheet, outside comments and strings.
fn css_url_spans(source: &[char]) -> (r: Vec<CssUrlSpan>)
    ensures
        r@.map_values(|x: CssUrlSpan| x.model()) == url_spans_from(source@, 0),
{
    let n = source.len();
    let url = str_chars("url");
    let mut spans: Vec<CssUrlSpan> = Vec::new();
    let mut cursor: usize = 0;
    while cursor < n
        invariant
            n == source@.len(),
            url@ == "url"@,
            cursor <= n,
            spans@.map_values(|x: CssUrlSpan| x.model()) + url_spans_from(source@, cursor as int)
                == url_spans_from(source@, 0),
        decreases n - cursor,
    {
        let ghost before = spans@.map_values(|x: CssUrlSpan| x.model());
        proof {
            lemma_skip_token(source@, cursor as int);
            lemma_url_span(source@, cursor as int);
        }
        if source[cursor] == '/' && n - cursor > 1 && source[cursor + 1] == '*' {
            cursor = match skip_css_comment(source, cursor) {
                Some(e) => e,
                None => n,
            };
        } else if source[cursor] == '\'' || source[cursor] == '"' {
            cursor = match skip_css_string(source, cursor) {
                Some(e) => e,
                None => n,
            };
        } else {
            let mut taken = false;
            if css_function_at(source, cursor, url.as_slice()) && n - cursor > 3 && source[cursor
                + 3] == '(' {
                match parse_css_url_span(source, cursor) {
                    Some(span) => {
                        spans.push(span);
                        assert(spans@.map_values(|x: CssUrlSpan| x.model()) =~= before + seq![
                            span.model(),
                        ]);
                        cursor = span.close_end;
                        taken = true;
                    },
                    None => {},
                }
            }
            if !taken {
                cursor = cursor + 1;
            }
        }
    }
    spans
}

/// An `@import`: its target wrapper (a `url(...)` or a quoted string), the
/// target inside it, and where scanning goes on.
#[derive(Debug, Clone, Copy)]
pub struct CssImportSpan {
    pub wrapper_start: usize,
    pub wrapper_end: usize,
    pub target_start: usize,
    pub target_end: usize,
    pub scan_end: usize,
}

/// The positions of an `@import` span.
pub type ImportSpanView = (int, int, int, int, int);

impl CssImportSpan {
    /// The span as integers.
    pub open spec fn model(self) -> ImportSpanView {
        (
            self.wrapper_start as int,
            self.wrapper_end as int,
            self.target_start as int,
            self.target_end as int,
            self.scan_end as int,
        )
    }
}

/// The target of the `@import` whose keyword ends at `start`.
pub open spec fn import_span(s: Seq<char>, start: int) -> Option<ImportSpanView> {
    match space_comments_from(s, start, false) {
        None => None,
        Some((c, _)) => if function_at(s, c, "url"@) && 0 <= c + 3 < s.len() && s[c + 3] == '(' {
            match url_span(s, c) {
                None => None,
                Some(u) => Some((c, u.3, u.1, u.2, u.3)),
            }
        } else if quote_at(s, c) {
            match string_close(s, c + 1, s[c]) {
                None => None,
                Some(quote_end) => Some((c, quote_end, c + 1, quote_end - 1, quote_end)),
            }
        } else {
            None
        },
    }
}

/// An import span's positions are ordered inside a source of `n`
/// characters.
pub open spec fn import_span_ok(sp: ImportSpanView, n: int) -> bool {
    &&& 0 <= sp.0 < sp.2 <= sp.3 < sp.1 <= n
    &&& sp.4 == sp.1
}

pub proof fn lemma_import_span(s: Seq<char>, start: int)
    requires
        0 <= start,
    ensures
        import_span(s, start) matches Some(sp) ==> start <= sp.0 && import_span_ok(sp, s.len() as int),
{
    lemma_space_comments(s, start, false);
    match space_comments_from(s, start, false) {
        None => {},
        Some((c, _)) => {
            lemma_url_span(s, c);
            if quote_at(s, c) {
                lemma_string_close(s, c + 1, s[c]);
            }
        },
    }
}

/// The `@import` spans from `c` on, outside comments and strings.
pub open spec fn import_spans_from(s: Seq<char>, c: int) -> Seq<ImportSpanView>
    decreases s.len() - c,
{
    if c < 0 || c >= s.len() {
        Seq::empty()
    } else {
        proof {
            lemma_skip_token(s, c);
            lemma_import_span(s, c + "@import"@.len());
        }
        match skip_token(s, c) {
            Some(e) => import_spans_from(s, e),
            None => if keyword_at(s, c, "@import"@) && import_span(s, c + "@import"@.len()) is Some {
                let sp = import_span(s, c + "@import"@.len())->0;
                seq![sp] + import_spans_from(s, sp.4)
            } else {
                import_spans_from(s, c + 1)
            },
        }
    }
}

/// The import spans are ordered, from `c` on, inside a source of `n`
/// characters.
pub open spec fn import_spans_ok(spans: Seq<ImportSpanView>, c: int, n: int) -> bool {
    &&& forall|i: int| 0 <= i < spans.len() ==> import_span_ok(#[trigger] spans[i], n)
    &&& spans.len() > 0 ==> c <= spans[0].0
    &&& forall|i: int| 0 < i < spans.len() ==> #[trigger] spans[i - 1].1 <= spans[i].0
}

pub proof fn lemma_import_spans(s: Seq<char>, c: int)
    requires
        0 <= c,
    ensures
        import_spans_ok(import_spans_from(s, c), c, s.len() as int),
    decreases s.len() - c,
{
    if c < s.len() {
        lemma_skip_token(s, c);
        lemma_import_span(s, c + "@import"@.len());
        match skip_token(s, c) {
            Some(e) => lemma_import_spans(s, e),
            None => if keyword_at(s, c, "@import"@) && import_span(s, c + "@import"@.len()) is Some {
                let sp = import_span(s, c + "@import"@.len())->0;
                lemma_import_spans(s, sp.4);
                let rest = import_spans_from(s, sp.4);
                let all = seq![sp] + rest;
                assert(import_spans_from(s, c) == all);
                assert forall|i: int| 0 < i < all.len() implies #[trigger] all[i - 1].1 <= all[i].0 by {
                    if i > 1 {
                        assert(all[i - 1] == rest[i - 2]);
                        assert(all[i] == rest[i - 1]);
                    }
                }
                assert forall|i: int| 0 <= i < all.len() implies import_span_ok(#[trigger] all[i], s.len() as int) by {
                    if i > 0 {
                        assert(all[i] == rest[i - 1]);
                    }
                }
            } else {
                lemma_import_spans(s, c + 1);
            },
        }
    }
}

/// Parse the target of the `@import` whose keyword ends at `start`.
fn parse_css_import_span(source: &[char], start: usize) -> (r: Option<CssImportSpan>)
    ensures
        match import_span(source@, start as int) {
            Some(sp) => r matches Some(x) && x.model() == sp,
            None => r is None,
        },
{
    proof {
        lemma_space_comments(source@, start as int, false);
        lemma_import_span(source@, start as int);
    }
    let n = source.len();
    let (cursor, _) = match skip_css_space_comments(source, start) {
        Some(x) => x,
        None => {
            return None;
        },
    };
    proof {
        lemma_url_span(source@, cursor as int);
    }
    let url = str_chars("url");
    if css_function_at(source, cursor, url.as_slice()) && cursor < n && n - cursor > 3
        && source[cursor + 3] == '(' {
        let span = match parse_css_url_span(source, cursor) {
            Some(u) => u,
            None => {
                return None;
            },
        };
        return Some(
            CssImportSpan {
                wrapper_start: cursor,
                wrapper_end: span.close_end,
                target_start: span.target_start,
                target_end: span.target_end,
                scan_end: span.close_end,
            },
        );
    }
    if cursor >= n || !(source[cursor] == '\'' || source[cursor] == '"') {
        return None;
    }
    let quote_end = match skip_css_string(source, cursor) {
        Some(e) => e,
        None => {
            return None;
        },
    };
    Some(
        CssImportSpan {
            wrapper_start: cursor,
            wrapper_end: quote_end,
            target_start: cursor + 1,
            target_end: quote_end - 1,
            scan_end: quote_end,
        },
    )
}

/// The `@import` spans of a stylesheet, outside comments and strings.
fn css_import_spans(source: &[char]) -> (r: Vec<CssImportSpan>)
    ensures
        r@.map_values(|x: CssImportSpan| x.model()) == import_spans_from(source@, 0),
{
    let n = source.len();
    let keyword = str_chars("@import");
    let mut spans: Vec<CssImportSpan> = Vec::new();
    let mut cursor: usize = 0;
    while cursor < n
        invariant
            n == source@.len(),
            keyword@ == "@import"@,
            cursor <= n,
            spans@.map_values(|x: CssImportSpan| x.model()) + import_spans_from(
                source@,
                cursor as int,
            ) == import_spans_from(source@, 0),
        decreases n - cursor,
    {
        let ghost before = spans@.map_values(|x: CssImportSpan| x.model());
        proof {
            lemma_skip_token(source@, cursor as int);
            lemma_import_span(source@, cursor + "@import"@.len());
        }
        if source[cursor] == '/' && n - cursor > 1 && source[cursor + 1] == '*' {
            cursor = match skip_css_comment(source, cursor) {
                Some(e) => e,
                None => n,
            };
        } else if source[cursor] == '\'' || source[cursor] == '"' {
            cursor = match skip_css_string(source, cursor) {
                Some(e) => e,
                None => n,
            };
        } else {
            let mut taken = false;
            if css_keyword_at(source, cursor, keyword.as_slice()) {
                let after = cursor + keyword.len();
                match parse_css_import_span(source, after) {
                    Some(span) => {
                        spans.push(span);
                        assert(spans@.map_values(|x: CssImportSpan| x.model()) =~= before + seq![
                            span.model(),
                        ]);
                        cursor = span.scan_end;
                        taken = true;
                    },
                    None => {},
                }
            }
            if !taken {
                cursor = cursor + 1;
            }
        }
    }
    spans
}

// ---------------------------------------------------------------------------
// Flow references.

/// The characters of ASCII bytes.
pub open spec fn ascii_chars(b: Seq<u8>) -> Seq<char> {
    b.map_values(|x: u8| x as char)
}

/// Append the characters of ASCII bytes to `out`.
pub fn push_ascii(out: &mut Vec<char>, bytes: &[u8])
    requires
        forall|i: int| 0 <= i < bytes@.len() ==> bytes@[i] < 128,
    ensures
        final(out)@ == old(out)@ + ascii_chars(bytes@),
{
    let ghost start = out@;
    let mut i: usize = 0;
    while i < bytes.len()
        invariant
            i <= bytes@.len(),
            out@ == start + ascii_chars(bytes@.subrange(0, i as int)),
        decreases bytes@.len() - i,
    {
        let b = bytes[i];
        out.push(b as char);
        i = i + 1;
        assert(out@ =~= start + ascii_chars(bytes@.subrange(0, i as int)));
    }
    assert(bytes@.subrange(0, i as int) =~= bytes@);
}

/// `kindle:flow:NNNN?mime=text/css` for a CSS flow number.
pub open spec fn flow_reference(flow_number: u32) -> Seq<char> {
    "kindle:flow:"@ + ascii_chars(base32_text(flow_number as nat)) + "?mime=text/css"@
}

/// The reference to the CSS flow `flow_number`; the number has at most
/// four base-32 digits.
pub fn stylesheet_flow_reference(flow_number: u32) -> (r: String)
    requires
        base32_text(flow_number as nat).len() <= 4,
    ensures
        r@ == flow_reference(flow_number),
{
    let digits = match to_base32_fixed(flow_number, 4) {
        Ok(d) => d,
        Err(_) => {
            return String::new();
        },
    };
    proof {
        assert(digits@ == base32_text(flow_number as nat));
        crate::kf8::format::lemma_base32_text_ascii(flow_number as nat);
    }
    let mut out: Vec<char> = Vec::new();
    push_str_chars(&mut out, "kindle:flow:");
    push_ascii(&mut out, digits.as_slice());
    push_str_chars(&mut out, "?mime=text/css");
    string_from_chars(out.as_slice())
}

/// Position of the first stylesheet at or after `i` whose normalized href
/// is `resolved`.
pub open spec fn css_pos(rs: Seq<&KindleResource>, resolved: Seq<char>, i: int) -> Option<int>
    decreases rs.len() - i,
{
    if i < 0 || i >= rs.len() {
        None
    } else if normalize_spec(rs[i].href@).len() > 0 && normalize_spec(rs[i].href@) == resolved {
        Some(i)
    } else {
        css_pos(rs, resolved, i + 1)
    }
}

/// The CSS flow number, counted from one, of the stylesheet that `target`
/// names from `base_href`.
pub open spec fn flow_number_spec(base: Seq<char>, target: Seq<char>, rs: Seq<&KindleResource>) -> Option<u32> {
    match resolve_spec(base, target) {
        None => None,
        Some(resolved) => match css_pos(rs, resolved, 0) {
            None => None,
            Some(k) => if k + 1 <= u32::MAX {
                Some((k + 1) as u32)
            } else {
                None
            },
        },
    }
}

pub proof fn lemma_css_pos(rs: Seq<&KindleResource>, resolved: Seq<char>, i: int)
    requires
        0 <= i,
    ensures
        css_pos(rs, resolved, i) matches Some(k) ==> i <= k < rs.len(),
    decreases rs.len() - i,
{
    if i < rs.len() && !(normalize_spec(rs[i].href@).len() > 0 && normalize_spec(rs[i].href@) == resolved) {
        lemma_css_pos(rs, resolved, i + 1);
    }
}

/// The CSS flow number of the stylesheet that `target` names from `base_href`.
pub fn css_flow_number(base_href: &str, target: &str, css_resources: &[&KindleResource]) -> (r: Option<u32>)
    ensures
        r == flow_number_spec(base_href@, target@, css_resources@),
{
    let resolved = match resolve_path(base_href, target) {
        Some(p) => p,
        None => {
            return None;
        },
    };
    let n = css_resources.len();
    let mut i: usize = 0;
    proof {
        lemma_css_pos(css_resources@, resolved@, 0);
    }
    while i < n
        invariant
            n == css_resources@.len(),
            i <= n,
            resolve_spec(base_href@, target@) == Some(resolved@),
            css_pos(css_resources@, resolved@, i as int) == css_pos(css_resources@, resolved@, 0),
        decreases n - i,
    {
        let found = match normalize_path(css_resources[i].href.as_str()) {
            Some(href) => str_eq(href.as_str(), resolved.as_str()),
            None => false,
        };
        if found {
            if i >= u32::MAX as usize {
                return None;
            }
            return Some((i + 1) as u32);
        }
        i = i + 1;
    }
    None
}

// ---------------------------------------------------------------------------
// Imports and embedded resources.

/// The targets, from span `i` on, that name package resources.
pub open spec fn import_targets_from(s: Seq<char>, spans: Seq<ImportSpanView>, i: int) -> Seq<Seq<char>>
    decreases spans.len() - i,
{
    if i < 0 || i >= spans.len() {
        Seq::empty()
    } else {
        let t = s.subrange(spans[i].2, spans[i].3);
        (if external_spec(t) {
            Seq::empty()
        } else {
            seq![t]
        }) + import_targets_from(s, spans, i + 1)
    }
}

/// The package-local `@import` targets of a stylesheet, in source order.
pub open spec fn import_targets(s: Seq<char>) -> Seq<Seq<char>> {
    import_targets_from(s, import_spans_from(s, 0), 0)
}

/// The package-local `@import` targets of a stylesheet, in source order.
pub fn css_import_targets(source: &[char]) -> (r: Vec<String>)
    ensures
        r@.map_values(|x: String| x@) == import_targets(source@),
{
    let spans = css_import_spans(source);
    let ghost sv = spans@.map_values(|x: CssImportSpan| x.model());
    proof {
        lemma_import_spans(source@, 0);
    }
    let mut targets: Vec<String> = Vec::new();
    let mut i: usize = 0;
    while i < spans.len()
        invariant
            sv == spans@.map_values(|x: CssImportSpan| x.model()),
            sv == import_spans_from(source@, 0),
            import_spans_ok(sv, 0, source@.len() as int),
            i <= spans@.len(),
            targets@.map_values(|x: String| x@) + import_targets_from(source@, sv, i as int)
                == import_targets(source@),
        decreases spans@.len() - i,
    {
        let ghost before = targets@.map_values(|x: String| x@);
        let span = spans[i];
        assert(import_span_ok(sv[i as int], source@.len() as int));
        let target = string_from_chars(&source[span.target_start..span.target_end]);
        if !is_external_reference(target.as_str()) {
            targets.push(target);
        }
        assert(targets@.map_values(|x: String| x@) + import_targets_from(source@, sv, i + 1)
            =~= before + import_targets_from(source@, sv, i as int));
        i = i + 1;
    }
    targets
}

/// A resource that goes into the binary records.
pub open spec fn binary_resource(r: KindleResource) -> bool {
    !text_resource(r) && !css_resource(r)
}

/// The normalized resource href `h` names `resolved`: equal, or a suffix
/// of it after a `/`.
pub open spec fn href_matches(h: Seq<char>, resolved: Seq<char>) -> bool {
    h == resolved || (h.len() < resolved.len() && resolved.subrange(
        resolved.len() - h.len(),
        resolved.len() as int,
    ) == h && resolved[resolved.len() - h.len() - 1] == '/')
}

/// `kindle:embed:NNNN?mime=...` for an embed index and a media type.
pub open spec fn embed_text(index: nat, media_type: Seq<char>) -> Seq<char> {
    "kindle:embed:"@ + ascii_chars(base32_text(index)) + "?mime="@ + media_type
}

/// The embed reference of the first binary resource from `i` on whose
/// normalized href matches `resolved`; `bi` counts the binary resources
/// before `i`, and `first` is the binary index of the first image so far.
/// Images count from the first image; fonts before any image count from
/// the first binary resource; other resources before any image have none.
pub open spec fn embed_from(rs: Seq<KindleResource>, resolved: Seq<char>, i: int, bi: int, first: Option<int>) -> Option<Seq<char>>
    decreases rs.len() - i,
{
    if i < 0 || i >= rs.len() {
        None
    } else if !binary_resource(rs[i]) {
        embed_from(rs, resolved, i + 1, bi, first)
    } else {
        let f = if first is None && image_resource(rs[i]) {
            Some(bi)
        } else {
            first
        };
        let h = normalize_spec(rs[i].href@);
        if h.len() > 0 && href_matches(h, resolved) {
            let index = match f {
                Some(fi) => if bi >= fi {
                    Some(bi - fi + 1)
                } else {
                    None
                },
                None => if font_resource(rs[i]) {
                    Some(bi + 1)
                } else {
                    None
                },
            };
            match index {
                None => None,
                Some(k) => if 0 <= k <= u32::MAX {
                    Some(embed_text(k as nat, rs[i].media_type@))
                } else {
                    None
                },
            }
        } else {
            embed_from(rs, resolved, i + 1, bi + 1, f)
        }
    }
}

/// The `kindle:embed:` reference of the binary resource that `target`
/// names from `base_href`.
pub open spec fn embed_reference(base: Seq<char>, target: Seq<char>, rs: Seq<KindleResource>) -> Option<Seq<char>> {
    match resolve_spec(base, target) {
        None => None,
        Some(resolved) => embed_from(rs, resolved, 0, 0, None),
    }
}

/// Whether the normalized href `h` names `resolved`.
fn href_names(h: &[char], resolved: &[char]) -> (r: bool)
    ensures
        r == href_matches(h@, resolved@),
{
    let n = resolved.len();
    let m = h.len();
    if m == n {
        let mut i: usize = 0;
        while i < n
            invariant
                n == resolved@.len(),
                m == h@.len(),
                m == n,
                i <= n,
                forall|k: int| 0 <= k < i ==> h@[k] == resolved@[k],
            decreases n - i,
        {
            if h[i] != resolved[i] {
                return false;
            }
            i = i + 1;
        }
        assert(h@ =~= resolved@);
        return true;
    }
    if m > n || resolved[n - m - 1] != '/' {
        return false;
    }
    let mut i: usize = 0;
    while i < m
        invariant
            n == resolved@.len(),
            m == h@.len(),
            m < n,
            i <= m,
            forall|k: int| 0 <= k < i ==> resolved@[n - m + k] == h@[k],
        decreases m - i,
    {
        if resolved[n - m + i] != h[i] {
            assert(resolved@.subrange(n - m, n as int)[i as int] != h@[i as int]);
            return false;
        }
        i = i + 1;
    }
    assert(resolved@.subrange(n - m, n as int) =~= h@);
    true
}

/// The `kindle:embed:` reference of the binary resource that `target`
/// names from `base_href`, counted as KindleGen counts embedded resources.
pub fn resource_reference(base_href: &str, target: &str, resources: &[KindleResource]) -> (r:
    Option<String>)
    ensures
        match embed_reference(base_href@, target@, resources@) {
            Some(t) => r matches Some(v) && v@ == t,
            None => r is None,
        },
{
    let resolved = match resolve_path(base_href, target) {
        Some(p) => p,
        None => {
            return None;
        },
    };
    let resolved_chars = str_chars(resolved.as_str());
    let n = resources.len();
    let mut i: usize = 0;
    let mut binary_index: usize = 0;
    let mut first_image: Option<usize> = None;
    while i < n
        invariant
            n == resources@.len(),
            i <= n,
            binary_index <= i,
            first_image matches Some(f) ==> f <= binary_index,
            resolved_chars@ == resolved@,
            resolve_spec(base_href@, target@) == Some(resolved@),
            embed_from(resources@, resolved@, i as int, binary_index as int, match first_image {
                Some(f) => Some(f as int),
                None => None::<int>,
            }) == embed_reference(base_href@, target@, resources@),
        decreases n - i,
    {
        let resource = &resources[i];
        if is_binary_resource(resource) {
            if first_image.is_none() && is_image_resource(resource) {
                first_image = Some(binary_index);
            }
            let matches = match normalize_path(resource.href.as_str()) {
                Some(h) => href_names(str_chars(h.as_str()).as_slice(), resolved_chars.as_slice()),
                None => false,
            };
            if matches {
                let index = match first_image {
                    Some(f) => binary_index - f + 1,
                    None => {
                        if is_font_resource(resource) {
                            binary_index + 1
                        } else {
                            return None;
                        }
                    },
                };
                if index > u32::MAX as usize {
                    return None;
                }
                let digits = to_base32(index as u32);
                proof {
                    crate::kf8::format::lemma_base32_text_ascii(index as nat);
                }
                let mut out: Vec<char> = Vec::new();
                push_str_chars(&mut out, "kindle:embed:");
                push_ascii(&mut out, digits.as_slice());
                push_str_chars(&mut out, "?mime=");
                push_str_chars(&mut out, resource.media_type.as_str());
                return Some(string_from_chars(out.as_slice()));
            }
            binary_index = binary_index + 1;
        }
        i = i + 1;
    }
    None
}

/// The stylesheet with its local `@import` targets, from span `i` on,
/// written as CSS flow references; `cursor` is where the copy stands.
pub open spec fn imports_applied(s: Seq<char>, spans: Seq<ImportSpanView>, i: int, cursor: int, href: Seq<char>, css: Seq<&KindleResource>) -> Seq<char>
    decreases spans.len() - i,
{
    if i < 0 || i >= spans.len() {
        s.subrange(cursor, s.len() as int)
    } else {
        let sp = spans[i];
        match flow_number_spec(href, s.subrange(sp.2, sp.3), css) {
            None => imports_applied(s, spans, i + 1, cursor, href, css),
            Some(k) => s.subrange(cursor, sp.0) + "url("@ + flow_reference(k) + ")"@
                + imports_applied(s, spans, i + 1, sp.1, href, css),
        }
    }
}

/// The stylesheet with its local `@import` targets written as CSS flow
/// references; the `@import` rules themselves stay.
pub open spec fn imports_rewritten(s: Seq<char>, href: Seq<char>, css: Seq<&KindleResource>) -> Seq<char> {
    imports_applied(s, import_spans_from(s, 0), 0, 0, href, css)
}

/// Write the local `@import` targets of a stylesheet as CSS flow
/// references, `url(kindle:flow:NNNN?mime=text/css)`.
fn rewrite_css_imports(source: &[char], css_href: &str, css_resources: &[&KindleResource]) -> (r:
    Vec<char>)
    requires
        css_resources@.len() < 1048576,
    ensures
        r@ == imports_rewritten(source@, css_href@, css_resources@),
{
    let spans = css_import_spans(source);
    let ghost sv = spans@.map_values(|x: CssImportSpan| x.model());
    proof {
        lemma_import_spans(source@, 0);
    }
    let n = source.len();
    let mut out: Vec<char> = Vec::new();
    let mut cursor: usize = 0;
    let mut i: usize = 0;
    while i < spans.len()
        invariant
            n == source@.len(),
            css_resources@.len() < 1048576,
            sv == spans@.map_values(|x: CssImportSpan| x.model()),
            sv == import_spans_from(source@, 0),
            import_spans_ok(sv, 0, n as int),
            i <= spans@.len(),
            cursor <= n,
            i < spans@.len() ==> cursor <= sv[i as int].0,
            out@ + imports_applied(source@, sv, i as int, cursor as int, css_href@, css_resources@)
                == imports_rewritten(source@, css_href@, css_resources@),
        decreases spans@.len() - i,
    {
        let ghost before = out@;
        let ghost c0 = cursor;
        let span = spans[i];
        assert(import_span_ok(sv[i as int], n as int));
        if i + 1 < spans.len() {
            assert(sv[i + 1 - 1].1 <= sv[i + 1].0);
        }
        let target = string_from_chars(&source[span.target_start..span.target_end]);
        proof {
            lemma_css_pos(css_resources@, match resolve_spec(css_href@, target@) {
                Some(p) => p,
                None => Seq::empty(),
            }, 0);
        }
        match css_flow_number(css_href, target.as_str(), css_resources) {
            Some(flow_number) => {
                proof {
                    crate::kf8::format::lemma_base32_four_digits(flow_number as nat);
                }
                push_chars(&mut out, source, cursor, span.wrapper_start);
                push_str_chars(&mut out, "url(");
                let reference = stylesheet_flow_reference(flow_number);
                push_str_chars(&mut out, reference.as_str());
                push_str_chars(&mut out, ")");
                cursor = span.wrapper_end;
            },
            None => {},
        }
        assert(out@ + imports_applied(source@, sv, i + 1, cursor as int, css_href@, css_resources@)
            =~= before + imports_applied(source@, sv, i as int, c0 as int, css_href@, css_resources@));
        i = i + 1;
    }
    push_chars(&mut out, source, cursor, n);
    out
}

/// The stylesheet with its `url(...)` targets, from span `i` on, that name
/// embedded resources written as `kindle:embed:` references.
pub open spec fn urls_applied(s: Seq<char>, spans: Seq<UrlSpanView>, i: int, cursor: int, href: Seq<char>, rs: Seq<KindleResource>) -> Seq<char>
    decreases spans.len() - i,
{
    if i < 0 || i >= spans.len() {
        s.subrange(cursor, s.len() as int)
    } else {
        let sp = spans[i];
        let q = quote_width(sp);
        match embed_reference(href, s.subrange(sp.1, sp.2), rs) {
            None => urls_applied(s, spans, i + 1, cursor, href, rs),
            Some(r) => s.subrange(cursor, sp.0) + (if sp.5 {
                s.subrange(sp.0, sp.1 - q) + r + s.subrange(sp.2 + q, sp.3)
            } else {
                "url("@ + r + ")"@
            }) + urls_applied(s, spans, i + 1, sp.3, href, rs),
        }
    }
}

/// A stylesheet's bytes with its local imports written as flow references
/// and its resource URLs as embed references; bytes that are not UTF-8 are
/// kept as they are.
pub open spec fn assets_rewritten(bytes: Seq<u8>, href: Seq<char>, rs: Seq<KindleResource>, css: Seq<&KindleResource>) -> Seq<u8> {
    if !valid_utf8(bytes) {
        bytes
    } else {
        let t = imports_rewritten(decode_utf8(bytes), href, css);
        encode_utf8(urls_applied(t, url_spans_from(t, 0), 0, 0, href, rs))
    }
}

/// Rewrite a stylesheet for the CSS flow: local `@import` targets become
/// flow references and resource URLs become embed references. A URL that
/// names no embedded resource stays as written; with whitespace or
/// comments inside its `url(...)` only the target and its quotes change.
pub fn rewrite_css_assets(
    source: &[u8],
    css_href: &str,
    resources: &[KindleResource],
    css_resources: &[&KindleResource],
) -> (r: Vec<u8>)
    requires
        css_resources@.len() < 1048576,
    ensures
        r@ == assets_rewritten(source@, css_href@, resources@, css_resources@),
{
    let text = match utf8_str(source) {
        Some(t) => t,
        None => {
            return slice_to_vec(source);
        },
    };
    proof {
        vstd::utf8::encode_utf8_decode_utf8(text@);
    }
    let chars = str_chars(text);
    let rewritten = rewrite_css_imports(chars.as_slice(), css_href, css_resources);
    let s = rewritten.as_slice();
    let spans = css_url_spans(s);
    let ghost sv = spans@.map_values(|x: CssUrlSpan| x.model());
    proof {
        lemma_url_spans(s@, 0);
    }
    let n = s.len();
    let mut out: Vec<char> = Vec::new();
    let mut cursor: usize = 0;
    let mut i: usize = 0;
    while i < spans.len()
        invariant
            n == s@.len(),
            sv == spans@.map_values(|x: CssUrlSpan| x.model()),
            sv == url_spans_from(s@, 0),
            url_spans_ok(sv, 0, n as int),
            i <= spans@.len(),
            cursor <= n,
            i < spans@.len() ==> cursor <= sv[i as int].0,
            out@ + urls_applied(s@, sv, i as int, cursor as int, css_href@, resources@) == urls_applied(
                s@,
                sv,
                0,
                0,
                css_href@,
                resources@,
            ),
        decreases spans@.len() - i,
    {
        let ghost before = out@;
        let ghost c0 = cursor;
        let span = spans[i];
        assert(url_span_ok(sv[i as int], n as int));
        if i + 1 < spans.len() {
            assert(sv[i + 1 - 1].3 <= sv[i + 1].0);
        }
        let target = string_from_chars(&s[span.target_start..span.target_end]);
        match resource_reference(css_href, target.as_str(), resources) {
            Some(reference) => {
                push_chars(&mut out, s, cursor, span.start);
                if span.preserve_wrappers {
                    let quote_offset: usize = if span.quote.is_some() {
                        1
                    } else {
                        0
                    };
                    push_chars(&mut out, s, span.start, span.target_start - quote_offset);
                    push_str_chars(&mut out, reference.as_str());
                    push_chars(&mut out, s, span.target_end + quote_offset, span.close_end);
                } else {
                    push_str_chars(&mut out, "url(");
                    push_str_chars(&mut out, reference.as_str());
                    push_str_chars(&mut out, ")");
                }
                cursor = span.close_end;
            },
            None => {},
        }
        assert(out@ + urls_applied(s@, sv, i + 1, cursor as int, css_href@, resources@) =~= before
            + urls_applied(s@, sv, i as int, c0 as int, css_href@, resources@));
        i = i + 1;
    }
    push_chars(&mut out, s, cursor, n);
    let result = string_from_chars(out.as_slice());
    result.as_str().as_bytes_vec()
}

} // verus!
