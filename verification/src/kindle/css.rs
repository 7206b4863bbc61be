//! Project the AozoraEpub3 CSS subset observed in KindleGen output.
//!
//! This is a semantic stage: it only changes declarations in parsed CSS
//! blocks and does not resolve resources, imports, URLs or stylesheet scope.
//! `-epub-` properties become their `-webkit-` forms, and the `max-width` /
//! `max-height` declarations of AozoraEpub3's measure selectors are removed.

use vstd::prelude::*;
use crate::epub::css::{remove_comments, strip_comments};
use crate::kf8::css_flow::{
    comment_close, lemma_comment_close, lemma_string_close, skip_css_comment, skip_css_string,
    string_close,
};
use crate::strings::{
    find_char, find_char_from, lead_ws, lower_chars, lower_vec, push_chars, push_str_chars,
    str_chars, string_from_chars, trim_chars, trim_spec, unicode_whitespace, lemma_lead_ws,
    lemma_find_char, lemma_trail_ws, trail_ws, is_unicode_ws,
};

verus! {

// ---------------------------------------------------------------------------
// Lexical pieces.

/// Where scanning goes on after the character at `c`: past the comment or
/// string that starts there, or to `bound` when it is not closed.
pub open spec fn step(s: Seq<char>, c: int, bound: int) -> int {
    if s[c] == '/' && c + 1 < s.len() && s[c + 1] == '*' {
        match comment_close(s, c + 2) {
            Some(e) => e,
            None => bound,
        }
    } else if s[c] == '\'' || s[c] == '"' {
        match string_close(s, c + 1, s[c]) {
            Some(e) => e,
            None => bound,
        }
    } else {
        c + 1
    }
}

pub proof fn lemma_step(s: Seq<char>, c: int, bound: int)
    requires
        0 <= c < bound <= s.len(),
    ensures
        c < step(s, c, bound) <= s.len(),
{
    lemma_comment_close(s, c + 2);
    lemma_string_close(s, c + 1, s[c]);
}

/// [`step`]: the position after the character, comment or string at `c`.
fn next_position(s: &[char], c: usize, bound: usize) -> (r: usize)
    requires
        c < bound <= s@.len(),
    ensures
        r == step(s@, c as int, bound as int),
        c < r <= s@.len(),
{
    proof {
        lemma_step(s@, c as int, bound as int);
    }
    let ch = s[c];
    if ch == '/' && c + 1 < s.len() && s[c + 1] == '*' {
        match skip_css_comment(s, c) {
            Some(e) => e,
            None => bound,
        }
    } else if ch == '\'' || ch == '"' {
        match skip_css_string(s, c) {
            Some(e) => e,
            None => bound,
        }
    } else {
        c + 1
    }
}

// ---------------------------------------------------------------------------
// Blocks.

/// The first `{` at or after `c` and below `end`, outside comments and
/// strings.
pub open spec fn top_open(s: Seq<char>, c: int, end: int) -> Option<int>
    decreases s.len() - c,
{
    if c < 0 || c >= end || end > s.len() {
        None
    } else if s[c] == '{' {
        Some(c)
    } else {
        proof {
            lemma_step(s, c, end);
        }
        top_open(s, step(s, c, end), end)
    }
}

pub proof fn lemma_top_open(s: Seq<char>, c: int, end: int)
    requires
        0 <= c,
    ensures
        top_open(s, c, end) matches Some(o) ==> c <= o < end && s[o] == '{',
    decreases s.len() - c,
{
    if 0 <= c < end <= s.len() && s[c] != '{' {
        lemma_step(s, c, end);
        lemma_top_open(s, step(s, c, end), end);
    }
}

/// The `}` that closes the block open at depth `depth`, searching from `c`
/// below `end`.
pub open spec fn brace_close(s: Seq<char>, c: int, end: int, depth: int) -> Option<int>
    decreases s.len() - c,
{
    if c < 0 || c >= end || end > s.len() {
        None
    } else if s[c] == '{' {
        brace_close(s, c + 1, end, depth + 1)
    } else if s[c] == '}' {
        if depth <= 1 {
            Some(c)
        } else {
            brace_close(s, c + 1, end, depth - 1)
        }
    } else {
        proof {
            lemma_step(s, c, end);
        }
        brace_close(s, step(s, c, end), end, depth)
    }
}

pub proof fn lemma_brace_close(s: Seq<char>, c: int, end: int, depth: int)
    requires
        0 <= c,
    ensures
        brace_close(s, c, end, depth) matches Some(k) ==> c <= k < end && s[k] == '}',
    decreases s.len() - c,
{
    if 0 <= c < end <= s.len() {
        if s[c] == '{' {
            lemma_brace_close(s, c + 1, end, depth + 1);
        } else if s[c] == '}' {
            lemma_brace_close(s, c + 1, end, depth - 1);
        } else {
            lemma_step(s, c, end);
            lemma_brace_close(s, step(s, c, end), end, depth);
        }
    }
}

/// The first top-level `{` in `source[start..end]`.
fn find_top_level_open(source: &[char], start: usize, end: usize) -> (r: Option<usize>)
    requires
        end <= source@.len(),
    ensures
        r == (match top_open(source@, start as int, end as int) {
            Some(o) => Some(o as usize),
            None => None::<usize>,
        }),
        r matches Some(o) ==> start <= o < end && top_open(source@, start as int, end as int) == Some(
            o as int,
        ),
{
    proof {
        lemma_top_open(source@, start as int, end as int);
    }
    if start >= end {
        return None;
    }
    let mut cursor = start;
    while cursor < end
        invariant
            end <= source@.len(),
            start <= cursor <= source@.len(),
            top_open(source@, cursor as int, end as int) == top_open(
                source@,
                start as int,
                end as int,
            ),
        decreases source@.len() - cursor,
    {
        if source[cursor] == '{' {
            return Some(cursor);
        }
        cursor = next_position(source, cursor, end);
    }
    None
}

/// The `}` that closes the block opened at `open`, below `end`.
fn matching_brace(source: &[char], open: usize, end: usize) -> (r: Option<usize>)
    requires
        open < end <= source@.len(),
    ensures
        r == (match brace_close(source@, open + 1, end as int, 1) {
            Some(k) => Some(k as usize),
            None => None::<usize>,
        }),
        r matches Some(k) ==> open < k < end && brace_close(source@, open + 1, end as int, 1) == Some(
            k as int,
        ),
{
    proof {
        lemma_brace_close(source@, open + 1, end as int, 1);
    }
    let mut depth: usize = 1;
    let mut cursor = open + 1;
    while cursor < end
        invariant
            open < end <= source@.len(),
            open < cursor <= source@.len(),
            1 <= depth <= cursor - open,
            brace_close(source@, cursor as int, end as int, depth as int) == brace_close(
                source@,
                open + 1,
                end as int,
                1,
            ),
        decreases source@.len() - cursor,
    {
        let ch = source[cursor];
        if ch == '{' {
            depth = depth + 1;
            cursor = cursor + 1;
        } else if ch == '}' {
            if depth == 1 {
                return Some(cursor);
            }
            depth = depth - 1;
            cursor = cursor + 1;
        } else {
            cursor = next_position(source, cursor, end);
        }
    }
    None
}

// ---------------------------------------------------------------------------
// Measure selectors.

/// A character of a class name.
pub open spec fn class_char(c: char) -> bool {
    ('a' <= c <= 'z') || ('A' <= c <= 'Z') || ('0' <= c <= '9') || c == '_' || c == '-'
}

/// The end of the class name that starts at `i`.
pub open spec fn class_end(s: Seq<char>, i: int) -> int
    decreases s.len() - i,
{
    if 0 <= i < s.len() && class_char(s[i]) {
        class_end(s, i + 1)
    } else {
        i
    }
}

pub proof fn lemma_class_end(s: Seq<char>, i: int)
    requires
        0 <= i <= s.len(),
    ensures
        i <= class_end(s, i) <= s.len(),
    decreases s.len() - i,
{
    if i < s.len() && class_char(s[i]) {
        lemma_class_end(s, i + 1);
    }
}

/// `p` is a prefix of `s`.
pub open spec fn is_prefix(p: Seq<char>, s: Seq<char>) -> bool {
    p.len() <= s.len() && s.subrange(0, p.len() as int) == p
}

/// `s` occurs in `t`.
pub open spec fn has_sub(t: Seq<char>, s: Seq<char>) -> bool {
    exists|i: int| 0 <= i && i + s.len() <= t.len() && #[trigger] t.subrange(i, i + s.len()) == s
}

/// Every character is an ASCII digit.
pub open spec fn all_digits(s: Seq<char>) -> bool {
    forall|i: int| 0 <= i < s.len() ==> '0' <= #[trigger] s[i] <= '9'
}

/// A lowercase class name that AozoraEpub3 uses for a measure constraint.
pub open spec fn measure_class(c: Seq<char>) -> bool {
    c == "fit"@ || is_prefix("max-width-"@, c) || is_prefix("max-height-"@, c) || is_prefix(
        "max-measure-"@,
        c,
    ) || is_prefix("max-extent-"@, c) || is_prefix("max-size-"@, c) || (is_prefix("jzm"@, c)
        && all_digits(c.subrange("jzm"@.len() as int, c.len() as int)))
}

/// A measure class name occurs after a `.` at or after `c`.
pub open spec fn has_measure_class(s: Seq<char>, c: int) -> bool
    decreases s.len() - c,
{
    if c < 0 || c >= s.len() {
        false
    } else if s[c] != '.' {
        has_measure_class(s, c + 1)
    } else {
        let e = class_end(s, c + 1);
        proof {
            lemma_class_end(s, c + 1);
        }
        measure_class(lower_chars(s.subrange(c + 1, e))) || has_measure_class(s, e)
    }
}

/// The selector, its comments removed, names a measure class, or a
/// direction-qualified `span.img` image wrapper.
pub open spec fn measure_selector(selector: Seq<char>) -> bool {
    let t = strip_comments(selector);
    has_measure_class(t, 0) || (has_sub(t, "span.img"@) && (has_sub(t, ".vrtl"@) || has_sub(
        t,
        ".hltr"@,
    )))
}

/// Equality of two character sequences.
fn chars_eq(a: &[char], b: &[char]) -> (r: bool)
    ensures
        r == (a@ == b@),
{
    if a.len() != b.len() {
        return false;
    }
    let mut i: usize = 0;
    while i < a.len()
        invariant
            i <= a@.len(),
            a@.len() == b@.len(),
            forall|j: int| 0 <= j < i ==> a@[j] == b@[j],
        decreases a@.len() - i,
    {
        if a[i] != b[i] {
            return false;
        }
        i = i + 1;
    }
    assert(a@ =~= b@);
    true
}

/// `t[i..i + p.len()]` equals `p`.
fn matches_at(t: &[char], p: &[char], i: usize) -> (r: bool)
    requires
        i + p@.len() <= t@.len(),
    ensures
        r == (t@.subrange(i as int, i + p@.len()) == p@),
{
    let n = t.len();
    let m = p.len();
    let mut j: usize = 0;
    while j < m
        invariant
            n == t@.len(),
            m == p@.len(),
            i + m <= t@.len(),
            j <= m,
            forall|k: int| 0 <= k < j ==> t@[i + k] == p@[k],
        decreases m - j,
    {
        if t[i + j] != p[j] {
            assert(t@.subrange(i as int, i + m)[j as int] != p@[j as int]);
            return false;
        }
        j = j + 1;
    }
    assert(t@.subrange(i as int, i + m) =~= p@);
    true
}

/// `p` is a prefix of `s`.
fn starts_with_chars(s: &[char], p: &[char]) -> (r: bool)
    ensures
        r == is_prefix(p@, s@),
{
    if p.len() > s.len() {
        return false;
    }
    matches_at(s, p, 0)
}

/// `p` occurs in `t`.
fn contains_chars(t: &[char], p: &[char]) -> (r: bool)
    ensures
        r == has_sub(t@, p@),
{
    let n = t.len();
    let m = p.len();
    if m > n {
        return false;
    }
    let mut i: usize = 0;
    loop
        invariant
            n == t@.len(),
            m == p@.len(),
            m <= n,
            i <= n - m,
            forall|k: int| 0 <= k < i ==> #[trigger] t@.subrange(k, k + m) != p@,
        ensures
            forall|k: int| 0 <= k <= n - m ==> #[trigger] t@.subrange(k, k + m) != p@,
        decreases n - m - i,
    {
        if matches_at(t, p, i) {
            return true;
        }
        if i == n - m {
            break;
        }
        i = i + 1;
    }
    assert forall|k: int| 0 <= k && k + m <= n implies #[trigger] t@.subrange(k, k + m) != p@ by {}
    false
}

/// Whether a lowercase class name is a measure class.
fn is_measure_class(class: &[char]) -> (r: bool)
    ensures
        r == measure_class(class@),
{
    if chars_eq(class, str_chars("fit").as_slice()) || starts_with_chars(
        class,
        str_chars("max-width-").as_slice(),
    ) || starts_with_chars(class, str_chars("max-height-").as_slice()) || starts_with_chars(
        class,
        str_chars("max-measure-").as_slice(),
    ) || starts_with_chars(class, str_chars("max-extent-").as_slice()) || starts_with_chars(
        class,
        str_chars("max-size-").as_slice(),
    ) {
        return true;
    }
    let jzm = str_chars("jzm");
    if !starts_with_chars(class, jzm.as_slice()) {
        return false;
    }
    digits_from(class, jzm.len())
}

/// Every character of `v` from `from` on is an ASCII digit.
fn digits_from(v: &[char], from: usize) -> (r: bool)
    requires
        from <= v@.len(),
    ensures
        r == all_digits(v@.subrange(from as int, v@.len() as int)),
{
    let mut i = from;
    while i < v.len()
        invariant
            from <= i <= v@.len(),
            forall|k: int| from <= k < i ==> '0' <= #[trigger] v@[k] <= '9',
        decreases v@.len() - i,
    {
        let c = v[i];
        if !('0' <= c && c <= '9') {
            assert(v@.subrange(from as int, v@.len() as int)[i - from] == c);
            return false;
        }
        i = i + 1;
    }
    assert forall|k: int| 0 <= k < v@.len() - from implies '0' <= #[trigger] v@.subrange(
        from as int,
        v@.len() as int,
    )[k] <= '9' by {
        assert(v@.subrange(from as int, v@.len() as int)[k] == v@[from + k]);
    }
    true
}

/// Whether a selector is one of AozoraEpub3's measure selectors, whose
/// `max-width` and `max-height` declarations are removed. Comments in the
/// selector are not selector context.
fn is_aozora_measure_selector(selector: &[char]) -> (r: bool)
    ensures
        r == measure_selector(selector@),
{
    let t = remove_comments(selector);
    let n = t.len();
    let mut cursor: usize = 0;
    while cursor < n
        invariant
            n == t@.len(),
            t@ == strip_comments(selector@),
            cursor <= n,
            has_measure_class(t@, cursor as int) == has_measure_class(t@, 0),
        decreases n - cursor,
    {
        if t[cursor] != '.' {
            cursor = cursor + 1;
        } else {
            let start = cursor + 1;
            let mut end = start;
            proof {
                lemma_class_end(t@, start as int);
            }
            while end < n && (('a' <= t[end] && t[end] <= 'z') || ('A' <= t[end] && t[end] <= 'Z')
                || ('0' <= t[end] && t[end] <= '9') || t[end] == '_' || t[end] == '-')
                invariant
                    n == t@.len(),
                    start <= end <= n,
                    class_end(t@, end as int) == class_end(t@, start as int),
                decreases n - end,
            {
                end = end + 1;
            }
            let word = &t.as_slice()[start..end];
            assert(word@ == t@.subrange(start as int, end as int));
            let class = lower_vec(word);
            if is_measure_class(class.as_slice()) {
                assert(class_end(t@, start as int) == end);
                assert(class@ == lower_chars(t@.subrange(start as int, end as int)));
                assert(has_measure_class(t@, cursor as int));
                return true;
            }
            cursor = end;
        }
    }
    contains_chars(t.as_slice(), str_chars("span.img").as_slice()) && (contains_chars(
        t.as_slice(),
        str_chars(".vrtl").as_slice(),
    ) || contains_chars(t.as_slice(), str_chars(".hltr").as_slice()))
}

// ---------------------------------------------------------------------------
// Declarations.

/// ASCII whitespace, as `char::is_ascii_whitespace` has it.
pub open spec fn ascii_ws(c: char) -> bool {
    c == ' ' || c == '\t' || c == '\n' || c == '\x0C' || c == '\r'
}

/// The first character at or after `i` that is not ASCII whitespace.
pub open spec fn non_ws(s: Seq<char>, i: int) -> int
    decreases s.len() - i,
{
    if 0 <= i < s.len() && ascii_ws(s[i]) {
        non_ws(s, i + 1)
    } else {
        i
    }
}

pub proof fn lemma_non_ws(s: Seq<char>, i: int)
    requires
        0 <= i <= s.len(),
    ensures
        i <= non_ws(s, i) <= s.len(),
    decreases s.len() - i,
{
    if i < s.len() && ascii_ws(s[i]) {
        lemma_non_ws(s, i + 1);
    }
}

/// The projection of one declaration: the property, trimmed and lowercased,
/// decides. Measure declarations of a measure selector are removed but their
/// leading whitespace and comments stay; `-epub-` properties become
/// `-webkit-` ones; anything else is kept as it is.
pub open spec fn project_declaration(d: Seq<char>, remove_measure: bool) -> Seq<char> {
    let ps = non_ws(d, 0);
    let pe = match find_char(d, ':', ps) {
        Some(k) => k,
        None => ps,
    };
    if ps == pe {
        d
    } else {
        let property = lower_chars(trim_spec(d.subrange(ps, pe)));
        let head = d.subrange(0, ps);
        let tail = d.subrange(pe, d.len() as int);
        if remove_measure && (property == "max-width"@ || property == "max-height"@) {
            head
        } else if property == "-epub-writing-mode"@ {
            head + "-webkit-writing-mode"@ + tail
        } else if property == "-epub-text-combine"@ {
            head + "-webkit-text-combine"@ + tail
        } else if is_prefix("-epub-text-emphasis-"@, property) {
            head + "-webkit-text-emphasis-"@ + property.subrange(
                "-epub-text-emphasis-"@.len() as int,
                property.len() as int,
            ) + tail
        } else {
            d
        }
    }
}

/// The projected declarations of a block body: the `;`-separated pieces,
/// `;` outside comments and strings, each projected, from the piece that
/// starts at `seg` with the scan at `c`.
pub open spec fn declarations_from(b: Seq<char>, seg: int, c: int, remove_measure: bool) -> Seq<char>
    decreases b.len() - c,
{
    if !(0 <= seg <= c) {
        Seq::empty()
    } else if c >= b.len() {
        project_declaration(b.subrange(seg, b.len() as int), remove_measure)
    } else if b[c] == ';' {
        project_declaration(b.subrange(seg, c), remove_measure) + seq![';']
            + declarations_from(b, c + 1, c + 1, remove_measure)
    } else {
        proof {
            lemma_step(b, c, b.len() as int);
        }
        declarations_from(b, seg, step(b, c, b.len() as int), remove_measure)
    }
}

/// Append the projection of one declaration.
fn append_declaration(result: &mut Vec<char>, declaration: &[char], remove_measure: bool)
    ensures
        final(result)@ == old(result)@ + project_declaration(declaration@, remove_measure),
{
    let d = declaration;
    let n = d.len();
    let mut ps: usize = 0;
    proof {
        lemma_non_ws(d@, 0);
    }
    while ps < n && (d[ps] == ' ' || d[ps] == '\t' || d[ps] == '\n' || d[ps] == '\x0C' || d[ps]
        == '\r')
        invariant
            n == d@.len(),
            ps <= n,
            non_ws(d@, ps as int) == non_ws(d@, 0),
        decreases n - ps,
    {
        ps = ps + 1;
    }
    let pe = match find_char_from(d, ':', ps) {
        Some(k) => k,
        None => ps,
    };
    if ps == pe {
        push_chars(result, d, 0, n);
        assert(d@.subrange(0, n as int) =~= d@);
        return;
    }
    let property = lower_vec(trim_chars(&d[ps..pe]).as_slice());
    let ghost head = d@.subrange(0, ps as int);
    let ghost tail = d@.subrange(pe as int, n as int);
    if remove_measure && (chars_eq(property.as_slice(), str_chars("max-width").as_slice())
        || chars_eq(property.as_slice(), str_chars("max-height").as_slice())) {
        push_chars(result, d, 0, ps);
        return;
    }
    if chars_eq(property.as_slice(), str_chars("-epub-writing-mode").as_slice()) {
        push_chars(result, d, 0, ps);
        push_str_chars(result, "-webkit-writing-mode");
        push_chars(result, d, pe, n);
        return;
    }
    if chars_eq(property.as_slice(), str_chars("-epub-text-combine").as_slice()) {
        push_chars(result, d, 0, ps);
        push_str_chars(result, "-webkit-text-combine");
        push_chars(result, d, pe, n);
        return;
    }
    let emphasis = str_chars("-epub-text-emphasis-");
    if starts_with_chars(property.as_slice(), emphasis.as_slice()) {
        push_chars(result, d, 0, ps);
        push_str_chars(result, "-webkit-text-emphasis-");
        push_chars(result, property.as_slice(), emphasis.len(), property.len());
        push_chars(result, d, pe, n);
        return;
    }
    push_chars(result, d, 0, n);
    assert(d@.subrange(0, n as int) =~= d@);
}

/// Append the projected declarations of a block body whose prelude is
/// `selector`.
fn project_declarations(result: &mut Vec<char>, source: &[char], selector: &[char])
    ensures
        final(result)@ == old(result)@ + declarations_from(source@, 0, 0, measure_selector(selector@)),
{
    let remove_measure = is_aozora_measure_selector(selector);
    let n = source.len();
    let mut segment_start: usize = 0;
    let mut cursor: usize = 0;
    let ghost start = old(result)@;
    while cursor < n
        invariant
            n == source@.len(),
            segment_start <= cursor <= n,
            remove_measure == measure_selector(selector@),
            result@ + declarations_from(source@, segment_start as int, cursor as int, remove_measure)
                == start + declarations_from(source@, 0, 0, remove_measure),
        decreases n - cursor,
    {
        if source[cursor] == ';' {
            let ghost before = result@;
            let ghost old_seg = segment_start;
            let ghost old_cur = cursor;
            append_declaration(result, &source[segment_start..cursor], remove_measure);
            result.push(';');
            cursor = cursor + 1;
            segment_start = cursor;
            assert(result@ + declarations_from(
                source@,
                segment_start as int,
                cursor as int,
                remove_measure,
            ) =~= before + declarations_from(
                source@,
                old_seg as int,
                old_cur as int,
                remove_measure,
            ));
        } else {
            cursor = next_position(source, cursor, n);
        }
    }
    append_declaration(result, &source[segment_start..n], remove_measure);
}

// ---------------------------------------------------------------------------
// Stylesheets.

/// The part of a block prelude after its last `;`.
pub open spec fn after_last_semicolon(p: Seq<char>, j: int) -> Seq<char>
    decreases j,
{
    if j <= 0 || j > p.len() {
        p
    } else if p[j - 1] == ';' {
        p.subrange(j, p.len() as int)
    } else {
        after_last_semicolon(p, j - 1)
    }
}

/// After its last statement separator, the prelude starts with an at-rule.
pub open spec fn at_rule_prelude(p: Seq<char>) -> bool {
    let b = after_last_semicolon(p, p.len() as int);
    let k = lead_ws(b, 0);
    0 <= k < b.len() && b[k] == '@'
}

/// The projection of `s[start..end]`: text outside blocks is kept, at-rule
/// blocks and blocks holding blocks are projected recursively, and the
/// declarations of other blocks are projected.
pub open spec fn project_range(s: Seq<char>, start: int, end: int) -> Seq<char>
    decreases end - start,
{
    if !(0 <= start <= end <= s.len()) {
        Seq::empty()
    } else {
        match top_open(s, start, end) {
            None => s.subrange(start, end),
            Some(open) => match brace_close(s, open + 1, end, 1) {
                None => s.subrange(start, end),
                Some(close) => {
                    proof {
                        lemma_top_open(s, start, end);
                        lemma_brace_close(s, open + 1, end, 1);
                    }
                    let prelude = s.subrange(start, open);
                    let inner = if at_rule_prelude(prelude) || top_open(s, open + 1, close) is Some {
                        project_range(s, open + 1, close)
                    } else {
                        declarations_from(
                            s.subrange(open + 1, close),
                            0,
                            0,
                            measure_selector(prelude),
                        )
                    };
                    prelude + seq!['{'] + inner + seq!['}'] + project_range(s, close + 1, end)
                },
            },
        }
    }
}

/// The projection of a whole stylesheet.
pub open spec fn css_projection(s: Seq<char>) -> Seq<char> {
    project_range(s, 0, s.len() as int)
}

/// Whether a prelude starts an at-rule after its last `;`.
fn is_at_rule_prelude(prelude: &[char]) -> (r: bool)
    ensures
        r == at_rule_prelude(prelude@),
{
    let n = prelude.len();
    let mut j = n;
    while j > 0 && prelude[j - 1] != ';'
        invariant
            n == prelude@.len(),
            j <= n,
            after_last_semicolon(prelude@, j as int) == after_last_semicolon(prelude@, n as int),
        decreases j,
    {
        j = j - 1;
    }
    let mut k = j;
    let ghost b = after_last_semicolon(prelude@, n as int);
    assert(b =~= prelude@.subrange(j as int, n as int));
    proof {
        lemma_lead_ws(b, 0);
    }
    while k < n && unicode_whitespace(prelude[k])
        invariant
            n == prelude@.len(),
            j <= k <= n,
            b == prelude@.subrange(j as int, n as int),
            lead_ws(b, k - j) == lead_ws(b, 0),
        decreases n - k,
    {
        k = k + 1;
    }
    k < n && prelude[k] == '@'
}

/// Append the projection of `source[start..end]`.
fn project_css_range(result: &mut Vec<char>, source: &[char], start: usize, end: usize)
    requires
        start <= end <= source@.len(),
    ensures
        final(result)@ == old(result)@ + project_range(source@, start as int, end as int),
    decreases end - start,
{
    let open = match find_top_level_open(source, start, end) {
        Some(open) => open,
        None => {
            push_chars(result, source, start, end);
            return;
        },
    };
    let close = match matching_brace(source, open, end) {
        Some(close) => close,
        None => {
            push_chars(result, source, start, end);
            return;
        },
    };
    let ghost before = result@;
    let prelude = &source[start..open];
    push_chars(result, source, start, open);
    result.push('{');
    if is_at_rule_prelude(prelude) || find_top_level_open(source, open + 1, close).is_some() {
        project_css_range(result, source, open + 1, close);
    } else {
        project_declarations(result, &source[open + 1..close], prelude);
    }
    result.push('}');
    project_css_range(result, source, close + 1, end);
    assert(result@ =~= before + project_range(source@, start as int, end as int));
}

/// Project a stylesheet for Kindle: `-epub-writing-mode`,
/// `-epub-text-combine` and `-epub-text-emphasis-*` become their `-webkit-`
/// forms, and AozoraEpub3's measure selectors lose their `max-width` and
/// `max-height` declarations. Everything else is kept byte for byte.
pub fn project_css_for_kindle(source: &str) -> (r: String)
    ensures
        r@ == css_projection(source@),
{
    let chars = str_chars(source);
    let mut result: Vec<char> = Vec::new();
    project_css_range(&mut result, chars.as_slice(), 0, chars.len());
    assert(result@ =~= css_projection(source@));
    string_from_chars(result.as_slice())
}

// ---------------------------------------------------------------------------
// Stylesheets the projection leaves alone.

/// Whether `s` holds the lowercase `p` up to ASCII case.
pub open spec fn contains_ci(s: Seq<char>, p: Seq<char>) -> bool {
    exists|i: int| 0 <= i && i + p.len() <= s.len() && #[trigger] lower_chars(s.subrange(i, i + p.len())) == p
}

/// Whether a stylesheet mentions nothing the projection rewrites: no
/// `-epub-`, `max-width` or `max-height`, in any ASCII case.
pub open spec fn projection_free(s: Seq<char>) -> bool {
    !contains_ci(s, "-epub-"@) && !contains_ci(s, "max-width"@) && !contains_ci(s, "max-height"@)
}

proof fn lemma_contains_sub(s: Seq<char>, x: int, y: int, p: Seq<char>)
    requires
        0 <= x <= y <= s.len(),
        contains_ci(s.subrange(x, y), p),
    ensures
        contains_ci(s, p),
{
    let u = s.subrange(x, y);
    let i = choose|i: int| 0 <= i && i + p.len() <= u.len() && #[trigger] lower_chars(u.subrange(i, i + p.len())) == p;
    assert(u.subrange(i, i + p.len()) =~= s.subrange(x + i, x + i + p.len()));
    assert(lower_chars(s.subrange(x + i, x + i + p.len())) == p);
}

proof fn lemma_free_sub(s: Seq<char>, x: int, y: int)
    requires
        0 <= x <= y <= s.len(),
        projection_free(s),
    ensures
        projection_free(s.subrange(x, y)),
{
    if contains_ci(s.subrange(x, y), "-epub-"@) {
        lemma_contains_sub(s, x, y, "-epub-"@);
    }
    if contains_ci(s.subrange(x, y), "max-width"@) {
        lemma_contains_sub(s, x, y, "max-width"@);
    }
    if contains_ci(s.subrange(x, y), "max-height"@) {
        lemma_contains_sub(s, x, y, "max-height"@);
    }
}

/// A lowered slice of `d` that starts with the lowercase `p` shows `p` in `d`.
proof fn lemma_prefix_shows(d: Seq<char>, a: int, b: int, p: Seq<char>)
    requires
        0 <= a <= b <= d.len(),
        p.len() <= b - a,
        lower_chars(d.subrange(a, b)).subrange(0, p.len() as int) == p,
    ensures
        contains_ci(d, p),
{
    assert(lower_chars(d.subrange(a, b)).subrange(0, p.len() as int) =~= lower_chars(d.subrange(a, a + p.len())));
    assert(lower_chars(d.subrange(a, a + p.len())) == p);
}

proof fn lemma_declaration_kept(d: Seq<char>, remove_measure: bool)
    requires
        projection_free(d),
    ensures
        project_declaration(d, remove_measure) == d,
{
    let ps = non_ws(d, 0);
    lemma_non_ws(d, 0);
    lemma_find_char(d, ':', ps);
    let pe = match find_char(d, ':', ps) {
        Some(k) => k,
        None => ps,
    };
    if ps != pe {
        let x = d.subrange(ps, pe);
        let a = lead_ws(x, 0);
        lemma_lead_ws(x, 0);
        let b = trail_ws(x, a, x.len() as int);
        lemma_trail_ws(x, a, x.len() as int);
        assert(trim_spec(x) =~= d.subrange(ps + a, ps + b));
        let property = lower_chars(d.subrange(ps + a, ps + b));
        reveal_strlit("-epub-");
        reveal_strlit("max-width");
        reveal_strlit("max-height");
        reveal_strlit("-epub-writing-mode");
        reveal_strlit("-epub-text-combine");
        reveal_strlit("-epub-text-emphasis-");
        if property == "max-width"@ {
            assert(property.subrange(0, property.len() as int) =~= property);
            lemma_prefix_shows(d, ps + a, ps + b, "max-width"@);
        }
        if property == "max-height"@ {
            assert(property.subrange(0, property.len() as int) =~= property);
            lemma_prefix_shows(d, ps + a, ps + b, "max-height"@);
        }
        if property == "-epub-writing-mode"@ {
            assert("-epub-writing-mode"@.subrange(0, 6) =~= "-epub-"@);
            lemma_prefix_shows(d, ps + a, ps + b, "-epub-"@);
        }
        if property == "-epub-text-combine"@ {
            assert("-epub-text-combine"@.subrange(0, 6) =~= "-epub-"@);
            lemma_prefix_shows(d, ps + a, ps + b, "-epub-"@);
        }
        if is_prefix("-epub-text-emphasis-"@, property) {
            assert(property.subrange(0, 6) =~= "-epub-text-emphasis-"@.subrange(0, 6));
            assert("-epub-text-emphasis-"@.subrange(0, 6) =~= "-epub-"@);
            lemma_prefix_shows(d, ps + a, ps + b, "-epub-"@);
        }
    }
}

proof fn lemma_declarations_kept(b: Seq<char>, seg: int, c: int, remove_measure: bool)
    requires
        projection_free(b),
        0 <= seg <= c <= b.len(),
    ensures
        declarations_from(b, seg, c, remove_measure) == b.subrange(seg, b.len() as int),
    decreases b.len() - c,
{
    if c >= b.len() {
        lemma_free_sub(b, seg, b.len() as int);
        lemma_declaration_kept(b.subrange(seg, b.len() as int), remove_measure);
    } else if b[c] == ';' {
        lemma_free_sub(b, seg, c);
        lemma_declaration_kept(b.subrange(seg, c), remove_measure);
        lemma_declarations_kept(b, c + 1, c + 1, remove_measure);
        assert(b.subrange(seg, c) + seq![';'] + b.subrange(c + 1, b.len() as int) =~= b.subrange(seg, b.len() as int));
    } else {
        lemma_step(b, c, b.len() as int);
        lemma_declarations_kept(b, seg, step(b, c, b.len() as int), remove_measure);
    }
}

proof fn lemma_range_kept(s: Seq<char>, start: int, end: int)
    requires
        projection_free(s),
        0 <= start <= end <= s.len(),
    ensures
        project_range(s, start, end) == s.subrange(start, end),
    decreases end - start,
{
    lemma_top_open(s, start, end);
    if let Some(open) = top_open(s, start, end) {
        lemma_brace_close(s, open + 1, end, 1);
        if let Some(close) = brace_close(s, open + 1, end, 1) {
            let prelude = s.subrange(start, open);
            if at_rule_prelude(prelude) || top_open(s, open + 1, close) is Some {
                lemma_range_kept(s, open + 1, close);
            } else {
                lemma_free_sub(s, open + 1, close);
                lemma_declarations_kept(s.subrange(open + 1, close), 0, 0, measure_selector(prelude));
                assert(s.subrange(open + 1, close).subrange(0, (close - open - 1) as int) =~= s.subrange(open + 1, close));
            }
            lemma_range_kept(s, close + 1, end);
            assert(prelude + seq!['{'] + s.subrange(open + 1, close) + seq!['}'] + s.subrange(close + 1, end)
                =~= s.subrange(start, end));
        }
    }
}

/// A stylesheet that mentions no `-epub-` text and no `max-width` or
/// `max-height`, in any ASCII case, comes out of the projection unchanged.
pub proof fn lemma_projection_keeps_plain_css(s: Seq<char>)
    requires
        projection_free(s),
    ensures
        css_projection(s) == s,
{
    lemma_range_kept(s, 0, s.len() as int);
    assert(s.subrange(0, s.len() as int) =~= s);
}


// ---------------------------------------------------------------------------
// Projecting a declaration twice.

proof fn lemma_non_ws_run(s: Seq<char>, i: int)
    requires
        0 <= i <= s.len(),
    ensures
        forall|j: int| i <= j < non_ws(s, i) ==> ascii_ws(#[trigger] s[j]),
        non_ws(s, i) < s.len() ==> !ascii_ws(s[non_ws(s, i)]),
    decreases s.len() - i,
{
    if i < s.len() && ascii_ws(s[i]) {
        lemma_non_ws_run(s, i + 1);
    }
}

proof fn lemma_non_ws_after_run(x: Seq<char>, k: int, i: int)
    requires
        0 <= i <= k <= x.len(),
        forall|j: int| i <= j < k ==> ascii_ws(#[trigger] x[j]),
        k < x.len() ==> !ascii_ws(x[k]),
    ensures
        non_ws(x, i) == k,
    decreases k - i,
{
    if i < k {
        lemma_non_ws_after_run(x, k, i + 1);
    }
}

proof fn lemma_colon_first(s: Seq<char>, i: int)
    requires
        0 <= i,
    ensures
        find_char(s, ':', i) matches Some(k) ==> forall|j: int| i <= j < k ==> #[trigger] s[j] != ':',
    decreases s.len() - i,
{
    if i < s.len() && s[i] != ':' {
        lemma_colon_first(s, i + 1);
    }
}

proof fn lemma_colon_at(x: Seq<char>, k: int, i: int)
    requires
        0 <= i <= k < x.len(),
        forall|j: int| i <= j < k ==> #[trigger] x[j] != ':',
        x[k] == ':',
    ensures
        find_char(x, ':', i) == Some(k),
    decreases k - i,
{
    if i < k {
        lemma_colon_at(x, k, i + 1);
    }
}

proof fn lemma_trail_keeps(s: Seq<char>, lo: int, j: int, m: int)
    requires
        0 <= lo <= m < j <= s.len(),
        !is_unicode_ws(s[m]),
    ensures
        trail_ws(s, lo, j) > m,
    decreases j - lo,
{
    if j - 1 > m {
        lemma_trail_keeps(s, lo, j - 1, m);
    }
}

/// A property name that starts `-w` is none that the projection rewrites
/// or removes, so a declaration with it projects to itself.
proof fn lemma_webkit_declaration_kept(head: Seq<char>, name: Seq<char>, tail: Seq<char>, remove_measure: bool)
    requires
        forall|j: int| 0 <= j < head.len() ==> ascii_ws(#[trigger] head[j]),
        name.len() >= 2,
        name[0] == '-',
        name[1] == 'w',
        forall|j: int| 0 <= j < name.len() ==> #[trigger] name[j] != ':',
        tail.len() > 0,
        tail[0] == ':',
    ensures
        project_declaration(head + name + tail, remove_measure) == head + name + tail,
{
    let x = head + name + tail;
    let ps = head.len() as int;
    let pe = ps + name.len();
    assert(x[ps] == name[0]);
    lemma_non_ws_after_run(x, ps, 0);
    assert forall|j: int| ps <= j < pe implies #[trigger] x[j] != ':' by {
        assert(x[j] == name[j - ps]);
    }
    assert(x[pe] == tail[0]);
    lemma_colon_at(x, pe, ps);
    let n = x.subrange(ps, pe);
    assert(n =~= name);
    assert(lead_ws(n, 0) == 0);
    assert(n[1] == 'w');
    assert(!is_unicode_ws(n[1]));
    lemma_trail_keeps(n, 0, n.len() as int, 1);
    lemma_trail_ws(n, 0, n.len() as int);
    let t = trim_spec(n);
    assert(t =~= n.subrange(0, trail_ws(n, 0, n.len() as int)));
    assert(t.len() >= 2 && t[1] == 'w');
    let property = lower_chars(t);
    assert(property[1] == 'w');
    reveal_strlit("max-width");
    reveal_strlit("max-height");
    reveal_strlit("-epub-writing-mode");
    reveal_strlit("-epub-text-combine");
    reveal_strlit("-epub-text-emphasis-");
    assert(property != "max-width"@ && property != "max-height"@);
    assert(property != "-epub-writing-mode"@ && property != "-epub-text-combine"@);
    assert(!is_prefix("-epub-text-emphasis-"@, property)) by {
        if is_prefix("-epub-text-emphasis-"@, property) {
            assert(property.subrange(0, 20)[1] == property[1]);
        }
    }
}

/// Projecting a declaration a second time changes nothing: a removed
/// measure declaration leaves only whitespace, and a rewritten `-epub-`
/// property becomes a `-webkit-` one, which the projection keeps.
pub proof fn lemma_declaration_projection_idempotent(d: Seq<char>, remove_measure: bool)
    ensures
        project_declaration(project_declaration(d, remove_measure), remove_measure) == project_declaration(
            d,
            remove_measure,
        ),
{
    let ps = non_ws(d, 0);
    lemma_non_ws(d, 0);
    lemma_non_ws_run(d, 0);
    lemma_find_char(d, ':', ps);
    lemma_colon_first(d, ps);
    let pe = match find_char(d, ':', ps) {
        Some(k) => k,
        None => ps,
    };
    if ps == pe {
        return;
    }
    let raw = d.subrange(ps, pe);
    let a = lead_ws(raw, 0);
    lemma_lead_ws(raw, 0);
    lemma_trail_ws(raw, a, raw.len() as int);
    let property = lower_chars(trim_spec(raw));
    let head = d.subrange(0, ps);
    let tail = d.subrange(pe, d.len() as int);
    assert(tail.len() > 0 && tail[0] == ':');
    assert forall|j: int| 0 <= j < head.len() implies ascii_ws(#[trigger] head[j]) by {
        assert(head[j] == d[j]);
    }
    assert forall|j: int| 0 <= j < property.len() implies #[trigger] property[j] != ':' by {
        assert(trim_spec(raw)[j] == d[ps + a + j]);
    }
    reveal_strlit("-webkit-writing-mode");
    reveal_strlit("-webkit-text-combine");
    reveal_strlit("-webkit-text-emphasis-");
    reveal_strlit("-epub-text-emphasis-");
    if remove_measure && (property == "max-width"@ || property == "max-height"@) {
        lemma_non_ws_after_run(head, head.len() as int, 0);
    } else if property == "-epub-writing-mode"@ {
        lemma_webkit_declaration_kept(head, "-webkit-writing-mode"@, tail, remove_measure);
    } else if property == "-epub-text-combine"@ {
        lemma_webkit_declaration_kept(head, "-webkit-text-combine"@, tail, remove_measure);
    } else if is_prefix("-epub-text-emphasis-"@, property) {
        let suffix = property.subrange("-epub-text-emphasis-"@.len() as int, property.len() as int);
        let name = "-webkit-text-emphasis-"@ + suffix;
        assert forall|j: int| 0 <= j < name.len() implies #[trigger] name[j] != ':' by {
            if j >= 22 {
                assert(name[j] == property[j - 2]);
            }
        }
        lemma_webkit_declaration_kept(head, name, tail, remove_measure);
        assert(head + "-webkit-text-emphasis-"@ + suffix + tail =~= head + name + tail);
    }
}


// ---------------------------------------------------------------------------
// AozoraEpub3's measure selectors.

proof fn lemma_class_end_before(s: Seq<char>, j: int, i: int)
    requires
        0 <= j <= i < s.len(),
        !class_char(s[i]),
    ensures
        class_end(s, j) <= i,
    decreases i - j,
{
    if j < i && class_char(s[j]) {
        lemma_class_end_before(s, j + 1, i);
    }
}

proof fn lemma_dot_reached(s: Seq<char>, c: int, i: int)
    requires
        0 <= c <= i < s.len(),
        s[i] == '.',
        measure_class(lower_chars(s.subrange(i + 1, class_end(s, i + 1)))),
    ensures
        has_measure_class(s, c),
    decreases i - c,
{
    if c < i {
        if s[c] != '.' {
            lemma_dot_reached(s, c + 1, i);
        } else {
            lemma_class_end(s, c + 1);
            lemma_class_end_before(s, c + 1, i);
            let e = class_end(s, c + 1);
            if !measure_class(lower_chars(s.subrange(c + 1, e))) {
                lemma_dot_reached(s, e, i);
            }
        }
    }
}

/// AozoraEpub3's measure classes: a selector whose text, comments aside,
/// holds a class `fit`, `max-width-…`, `max-height-…`, `max-measure-…`,
/// `max-extent-…`, `max-size-…` or `jzm` followed by digits, in any ASCII
/// case, is a measure selector, so that the projection removes the
/// `max-width` and `max-height` declarations of its blocks.
pub proof fn lemma_aozora_measure_classes(selector: Seq<char>, i: int)
    requires
        0 <= i < strip_comments(selector).len(),
        strip_comments(selector)[i] == '.',
        ({
            let t = strip_comments(selector);
            let c = lower_chars(t.subrange(i + 1, class_end(t, i + 1)));
            ||| c == "fit"@
            ||| is_prefix("max-width-"@, c)
            ||| is_prefix("max-height-"@, c)
            ||| is_prefix("max-measure-"@, c)
            ||| is_prefix("max-extent-"@, c)
            ||| is_prefix("max-size-"@, c)
            ||| (is_prefix("jzm"@, c) && forall|k: int| 3 <= k < c.len() ==> '0' <= #[trigger] c[k] <= '9')
        }),
    ensures
        measure_selector(selector),
{
    let t = strip_comments(selector);
    lemma_class_end(t, i + 1);
    let c = lower_chars(t.subrange(i + 1, class_end(t, i + 1)));
    reveal_strlit("jzm");
    if is_prefix("jzm"@, c) && forall|k: int| 3 <= k < c.len() ==> '0' <= #[trigger] c[k] <= '9' {
        assert forall|k: int| 0 <= k < c.subrange(3, c.len() as int).len() implies '0' <= #[trigger] c.subrange(
            3,
            c.len() as int,
        )[k] <= '9' by {
            assert(c.subrange(3, c.len() as int)[k] == c[k + 3]);
        }
    }
    lemma_dot_reached(t, 0, i);
}

/// AozoraEpub3's image wrappers: a selector whose text, comments aside,
/// holds `span.img` together with a direction class `.vrtl` or `.hltr` is
/// a measure selector, so that the projection removes the `max-width` and
/// `max-height` declarations of its blocks.
pub proof fn lemma_aozora_image_wrappers(selector: Seq<char>)
    requires
        has_sub(strip_comments(selector), "span.img"@),
        has_sub(strip_comments(selector), ".vrtl"@) || has_sub(strip_comments(selector), ".hltr"@),
    ensures
        measure_selector(selector),
{
}

} // verus!
