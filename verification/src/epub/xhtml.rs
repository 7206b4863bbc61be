//! XHTML raw-text scanning and writing-mode inference for EPUB documents.

use vstd::prelude::*;
use vstd::string::StringSliceAdditionalSpecFns;
use crate::book::layout::{Direction, Layout, PageProgression, WritingMode};
use crate::book::style::{ComputedStyle, Styles};
use crate::strings::{
    decimal, decimal_chars, lemma_decimal_injective, lemma_pigeonhole, texts, texts_contain,
    opt_text, char_range, find_char, find_char_from, is_unicode_ws, lead_ws, lemma_find_char,
    lemma_trail_ws, lower_chars, lower_eq, lower_vec, push_str_chars, trail_ws, str_chars,
    string_from_chars, trim_chars, trim_spec, trim_str, unicode_whitespace, utf8_str,
};
use crate::xhtml::scan::{
    RawScan, adv, advance_char, ascii_ci_eq, at, byte_local_name_is, byte_tag_end,
    byte_tag_name_range, lemma_ascii_boundary, lemma_raw_scan, lemma_tag_end_from,
    lemma_tag_name_range, lemma_utf8_slice, local_name_is, raw_scan, scan_raw_text,
    str_eq_ignore_ascii_case, tag_end, tag_name_range, ascii_bytes_eq_ignore_case,
};
use crate::kf8::css_flow::{css_ws, is_css_ws};
use crate::kindle::normalize::{has_token, lemma_token_end, token_end, token_from};
use crate::xhtml::path::{
    external_spec, is_external_reference, normalize_path_lossy, normalize_spec, resolve_path,
    resolve_spec,
};
use crate::epub::opf::{
    ManifestItem, ManifestItemView, attr, attr_value, local_name, local_name_of, manifest_views,
    some_and, unending_xml,
};
use crate::xml::{
    ResolvedXmlEvents, XmlEvent, XmlEventView, XmlEvents, XmlTag, XmlTagView, name_text, resolved_event_at,
    xml_event_at,
};
use crate::error::Error;
use vstd::utf8::{decode_utf8, encode_utf8};

verus! {

/// The closing tag of the raw-text element `name` at or after `start`: its
/// `<` and its `>`. Quoted strings and comments are skipped, `//` comments
/// only in scripts; `None` when the source ends first or a closing tag never
/// ends.
pub open spec fn closing_tag_spec(b: Seq<u8>, start: int, name: Seq<u8>) -> Option<(int, int)> {
    match raw_scan(
        b,
        start,
        None,
        false,
        false,
        false,
        ascii_ci_eq(name, "script".spec_bytes()),
        name,
        true,
    ) {
        RawScan::Found(a, e) => Some((a as int, e as int)),
        _ => None,
    }
}

/// Find the closing tag of the raw-text element `name` from `start`.
pub fn closing_tag(source: &str, start: usize, name: &str) -> (r: Option<(usize, usize)>)
    ensures
        r == (match closing_tag_spec(source.spec_bytes(), start as int, name.spec_bytes()) {
            Some((a, e)) => Some((a as usize, e as usize)),
            None => None::<(usize, usize)>,
        }),
        r matches Some((a, e)) ==> e < source.spec_bytes().len() && e < usize::MAX,
{
    let script = str_eq_ignore_ascii_case(name, "script");
    let bytes = source.as_bytes();
    let n = bytes.len();
    match scan_raw_text(bytes, start, name.as_bytes(), script, true) {
        RawScan::Found(a, e) => Some((a, e)),
        _ => None,
    }
}

/// The byte after the closing tag of the raw-text element `name` whose start
/// tag ends at `tag_end`.
pub fn raw_text_end(source: &str, tag_end: usize, name: &str) -> (r: Option<usize>)
    requires
        tag_end < usize::MAX,
    ensures
        r == (match closing_tag_spec(source.spec_bytes(), tag_end + 1, name.spec_bytes()) {
            Some((_, e)) => Some((e + 1) as usize),
            None => None::<usize>,
        }),
{
    match closing_tag(source, tag_end + 1, name) {
        Some((_, end)) => Some(end + 1),
        None => None,
    }
}

/// The position after the character at `cursor`, or the end of the source.
pub fn advance_raw_text_char(source: &str, cursor: usize) -> (r: usize)
    ensures
        r == adv(source.spec_bytes(), cursor as int),
{
    advance_char(source, cursor)
}

// ---------------------------------------------------------------------------
// Writing modes.

/// Index of a writing mode in the order horizontal, vertical-rl, vertical-lr.
pub open spec fn mode_index(m: WritingMode) -> int {
    match m {
        WritingMode::HorizontalTb => 0,
        WritingMode::VerticalRl => 1,
        WritingMode::VerticalLr => 2,
    }
}

/// Index of a writing mode.
pub fn writing_mode_index(writing_mode: WritingMode) -> (r: usize)
    ensures
        r == mode_index(writing_mode),
{
    match writing_mode {
        WritingMode::HorizontalTb => 0,
        WritingMode::VerticalRl => 1,
        WritingMode::VerticalLr => 2,
    }
}

/// Number of documents among the first `n` declaring the mode with index `k`.
pub open spec fn mode_count(modes: Seq<Option<WritingMode>>, n: int, k: int) -> int
    decreases n,
{
    if n <= 0 || n > modes.len() {
        0
    } else {
        mode_count(modes, n - 1, k) + match modes[n - 1] {
            Some(m) => if mode_index(m) == k { 1int } else { 0int },
            None => 0int,
        }
    }
}

proof fn lemma_mode_count(modes: Seq<Option<WritingMode>>, n: int, k: int)
    requires
        0 <= n <= modes.len(),
    ensures
        0 <= mode_count(modes, n, k) <= n,
    decreases n,
{
    if n > 0 {
        lemma_mode_count(modes, n - 1, k);
    }
}

/// The writing mode declared by strictly more documents than each other
/// mode, if any document declares one.
pub open spec fn dominant_spec(modes: Seq<Option<WritingMode>>) -> Option<WritingMode> {
    let c0 = mode_count(modes, modes.len() as int, 0);
    let c1 = mode_count(modes, modes.len() as int, 1);
    let c2 = mode_count(modes, modes.len() as int, 2);
    if c0 > c1 && c0 > c2 {
        Some(WritingMode::HorizontalTb)
    } else if c1 > c0 && c1 > c2 {
        Some(WritingMode::VerticalRl)
    } else if c2 > c0 && c2 > c1 {
        Some(WritingMode::VerticalLr)
    } else {
        None
    }
}

/// The writing mode that a strict plurality of documents declare.
pub fn dominant_writing_mode(document_writing_modes: &[Option<WritingMode>]) -> (r: Option<
    WritingMode,
>)
    ensures
        r == dominant_spec(document_writing_modes@),
{
    let ghost modes = document_writing_modes@;
    let n = document_writing_modes.len();
    let mut counts: Vec<usize> = Vec::new();
    counts.push(0);
    counts.push(0);
    counts.push(0);
    let mut i: usize = 0;
    while i < n
        invariant
            n == modes.len(),
            modes == document_writing_modes@,
            i <= n,
            counts@.len() == 3,
            forall|k: int| 0 <= k < 3 ==> #[trigger] counts@[k] == mode_count(modes, i as int, k),
        decreases n - i,
    {
        proof {
            lemma_mode_count(modes, i as int, 0);
            lemma_mode_count(modes, i as int, 1);
            lemma_mode_count(modes, i as int, 2);
        }
        match document_writing_modes[i] {
            Some(m) => {
                let k = writing_mode_index(m);
                let c = counts[k];
                counts.set(k, c + 1);
            },
            None => {},
        }
        i = i + 1;
    }
    let c0 = counts[0];
    let c1 = counts[1];
    let c2 = counts[2];
    let max = if c0 >= c1 && c0 >= c2 {
        c0
    } else if c1 >= c2 {
        c1
    } else {
        c2
    };
    let ties = (if c0 == max { 1usize } else { 0 }) + (if c1 == max { 1usize } else { 0 }) + (if c2
        == max { 1usize } else { 0 });
    if max == 0 || ties != 1 {
        return None;
    }
    if c0 == max {
        Some(WritingMode::HorizontalTb)
    } else if c1 == max {
        Some(WritingMode::VerticalRl)
    } else {
        Some(WritingMode::VerticalLr)
    }
}

proof fn lemma_count_unanimous(modes: Seq<Option<WritingMode>>, m: WritingMode, n: int, k: int)
    requires
        0 <= n <= modes.len(),
        forall|i: int| 0 <= i < modes.len() && (#[trigger] modes[i]) is Some ==> modes[i] == Some(m),
    ensures
        k != mode_index(m) ==> mode_count(modes, n, k) == 0,
        k == mode_index(m) && (exists|i: int| 0 <= i < n && #[trigger] modes[i] == Some(m)) ==> mode_count(
            modes,
            n,
            k,
        ) >= 1,
    decreases n,
{
    if n > 0 {
        lemma_count_unanimous(modes, m, n - 1, k);
        lemma_mode_count(modes, n - 1, k);
        if k == mode_index(m) && (exists|i: int| 0 <= i < n && #[trigger] modes[i] == Some(m)) {
            if modes[n - 1] != Some(m) {
                let i = choose|i: int| 0 <= i < n && #[trigger] modes[i] == Some(m);
                assert(i < n - 1);
            }
        }
    }
}

/// When every document that declares a writing mode declares the same one,
/// and one does, that mode is dominant.
pub proof fn lemma_dominant_unanimous(modes: Seq<Option<WritingMode>>, m: WritingMode)
    requires
        exists|i: int| 0 <= i < modes.len() && #[trigger] modes[i] == Some(m),
        forall|i: int| 0 <= i < modes.len() && (#[trigger] modes[i]) is Some ==> modes[i] == Some(m),
    ensures
        dominant_spec(modes) == Some(m),
{
    let n = modes.len() as int;
    lemma_count_unanimous(modes, m, n, 0);
    lemma_count_unanimous(modes, m, n, 1);
    lemma_count_unanimous(modes, m, n, 2);
}

// ---------------------------------------------------------------------------
// Layout inference.

/// The writing mode that a CSS value names, trimmed and up to ASCII case.
pub open spec fn parsed_writing_mode(v: Seq<char>) -> Option<WritingMode> {
    let t = lower_chars(trim_spec(v));
    if t == "horizontal-tb"@ || t == "horizontal-lr"@ {
        Some(WritingMode::HorizontalTb)
    } else if t == "vertical-rl"@ {
        Some(WritingMode::VerticalRl)
    } else if t == "vertical-lr"@ {
        Some(WritingMode::VerticalLr)
    } else {
        None
    }
}

/// The writing mode that a CSS value names.
pub fn parse_writing_mode(value: &str) -> (r: Option<WritingMode>)
    ensures
        r == parsed_writing_mode(value@),
{
    let t = trim_str(value);
    if lower_eq(t, "horizontal-tb") || lower_eq(t, "horizontal-lr") {
        Some(WritingMode::HorizontalTb)
    } else if lower_eq(t, "vertical-rl") {
        Some(WritingMode::VerticalRl)
    } else if lower_eq(t, "vertical-lr") {
        Some(WritingMode::VerticalLr)
    } else {
        None
    }
}

/// A lowercase selector, trimmed and non-empty, that selects the root
/// element only: `html`, or `html` followed by a class, id, pseudo-class or
/// attribute qualifier with no combinator or whitespace.
pub open spec fn root_only_piece(l: Seq<char>) -> bool {
    &&& l.len() >= 4
    &&& l.subrange(0, 4) == "html"@
    &&& {
        let r = l.subrange(4, l.len() as int);
        r.len() == 0 || ((r[0] == '.' || r[0] == '#' || r[0] == ':' || r[0] == '[') && forall|i: int|
            0 <= i < r.len() ==> !(is_unicode_ws(#[trigger] r[i]) || r[i] == '>' || r[i] == '+'
                || r[i] == '~'))
    }
}

/// Over the comma-separated selectors from `pos` on: whether any is
/// non-empty, and whether all non-empty ones are root-only.
pub open spec fn root_only_from(s: Seq<char>, pos: int) -> (bool, bool)
    decreases s.len() - pos,
{
    if pos < 0 || pos > s.len() {
        (false, true)
    } else {
        let end = match find_char(s, ',', pos) {
            Some(k) => k,
            None => s.len() as int,
        };
        proof {
            lemma_find_char(s, ',', pos);
        }
        let t = trim_spec(s.subrange(pos, end));
        let rest = if end < s.len() {
            root_only_from(s, end + 1)
        } else {
            (false, true)
        };
        if t.len() == 0 {
            rest
        } else {
            (true, root_only_piece(lower_chars(t)) && rest.1)
        }
    }
}

/// Every selector of the list selects the root element only.
pub open spec fn root_only(selector: Seq<char>) -> bool {
    root_only_from(selector, 0).0 && root_only_from(selector, 0).1
}

/// Whether a lowercase, trimmed, non-empty selector selects the root only.
fn is_root_only_piece(l: &[char]) -> (r: bool)
    ensures
        r == root_only_piece(l@),
{
    let n = l.len();
    if n < 4 || l[0] != 'h' || l[1] != 't' || l[2] != 'm' || l[3] != 'l' {
        proof {
            reveal_strlit("html");
            if n >= 4 {
                assert(l@.subrange(0, 4)[0] == l@[0]);
                assert(l@.subrange(0, 4)[1] == l@[1]);
                assert(l@.subrange(0, 4)[2] == l@[2]);
                assert(l@.subrange(0, 4)[3] == l@[3]);
            }
        }
        return false;
    }
    proof {
        reveal_strlit("html");
        assert(l@.subrange(0, 4) =~= "html"@);
    }
    if n == 4 {
        return true;
    }
    let first = l[4];
    if !(first == '.' || first == '#' || first == ':' || first == '[') {
        return false;
    }
    let ghost r = l@.subrange(4, n as int);
    let mut i: usize = 4;
    while i < n
        invariant
            n == l@.len(),
            4 <= i <= n,
            r == l@.subrange(4, n as int),
            forall|k: int| 0 <= k < i - 4 ==> !(is_unicode_ws(#[trigger] r[k]) || r[k] == '>' || r[k]
                == '+' || r[k] == '~'),
        decreases n - i,
    {
        let c = l[i];
        if unicode_whitespace(c) || c == '>' || c == '+' || c == '~' {
            assert(r[i - 4] == c);
            return false;
        }
        i = i + 1;
    }
    true
}

/// Whether a selector list selects the root element only: every non-empty
/// selector is `html` with at most a qualifier, and there is at least one.
pub fn selector_is_root_only(selector: &str) -> (r: bool)
    ensures
        r == root_only(selector@),
{
    let s = str_chars(selector);
    let n = s.len();
    let mut has_selector = false;
    let mut all_root_only = true;
    let mut pos: usize = 0;
    loop
        invariant
            n == s@.len(),
            s@ == selector@,
            pos <= n,
            (has_selector || root_only_from(s@, pos as int).0) == root_only_from(s@, 0).0,
            (all_root_only && root_only_from(s@, pos as int).1) == root_only_from(s@, 0).1,
        decreases n - pos,
    {
        let end = match find_char_from(s.as_slice(), ',', pos) {
            Some(k) => k,
            None => n,
        };
        let piece = trim_chars(&s.as_slice()[pos..end]);
        if piece.len() > 0 {
            has_selector = true;
            let lowered = lower_vec(piece.as_slice());
            all_root_only = all_root_only && is_root_only_piece(lowered.as_slice());
        }
        if end == n {
            return has_selector && all_root_only;
        }
        pos = end + 1;
    }
}

/// The first writing mode among the computed styles from `i` on,
/// skipping root-only selectors when `skip_root` holds.
pub open spec fn first_writing_mode(cs: Seq<ComputedStyle>, i: int, skip_root: bool) -> Option<WritingMode>
    decreases cs.len() - i,
{
    if i < 0 || i >= cs.len() {
        None
    } else if cs[i].writing_mode is Some && !(skip_root && root_only(cs[i].selector@)) {
        cs[i].writing_mode
    } else {
        first_writing_mode(cs, i + 1, skip_root)
    }
}

/// The first direction among the computed styles from `i` on, skipping
/// root-only selectors when `skip_root` holds.
pub open spec fn first_direction(cs: Seq<ComputedStyle>, i: int, skip_root: bool) -> Option<Direction>
    decreases cs.len() - i,
{
    if i < 0 || i >= cs.len() {
        None
    } else if cs[i].direction is Some && !(skip_root && root_only(cs[i].selector@)) {
        cs[i].direction
    } else {
        first_direction(cs, i + 1, skip_root)
    }
}

/// The writing mode the stylesheets give: the first one of a rule that is
/// not root-only, else the first one of any rule, else horizontal.
pub open spec fn css_writing_mode(cs: Seq<ComputedStyle>) -> WritingMode {
    match first_writing_mode(cs, 0, true) {
        Some(w) => w,
        None => match first_writing_mode(cs, 0, false) {
            Some(w) => w,
            None => WritingMode::HorizontalTb,
        },
    }
}

/// The first writing mode of the computed styles, skipping root-only
/// selectors when `skip_root` holds.
fn find_writing_mode(computed: &[ComputedStyle], skip_root: bool) -> (r: Option<WritingMode>)
    ensures
        r == first_writing_mode(computed@, 0, skip_root),
{
    let mut i: usize = 0;
    while i < computed.len()
        invariant
            i <= computed@.len(),
            first_writing_mode(computed@, i as int, skip_root) == first_writing_mode(computed@, 0, skip_root),
        decreases computed@.len() - i,
    {
        let style = &computed[i];
        if style.writing_mode.is_some() && !(skip_root && selector_is_root_only(style.selector.as_str())) {
            return style.writing_mode;
        }
        i = i + 1;
    }
    None
}

/// The first direction of the computed styles, skipping root-only
/// selectors when `skip_root` holds.
fn find_direction(computed: &[ComputedStyle], skip_root: bool) -> (r: Option<Direction>)
    ensures
        r == first_direction(computed@, 0, skip_root),
{
    let mut i: usize = 0;
    while i < computed.len()
        invariant
            i <= computed@.len(),
            first_direction(computed@, i as int, skip_root) == first_direction(computed@, 0, skip_root),
        decreases computed@.len() - i,
    {
        let style = &computed[i];
        if style.direction.is_some() && !(skip_root && selector_is_root_only(style.selector.as_str())) {
            return style.direction;
        }
        i = i + 1;
    }
    None
}

/// The writing mode the stylesheets give. A nested `.vrtl` rule describes
/// the body context even when a document also has an `html.hltr` rule, so
/// root-only selectors only serve as a fallback.
pub fn css_fallback_writing_mode(styles: &Styles) -> (r: WritingMode)
    ensures
        r == css_writing_mode(styles.computed@),
{
    match find_writing_mode(styles.computed.as_slice(), true) {
        Some(w) => w,
        None => match find_writing_mode(styles.computed.as_slice(), false) {
            Some(w) => w,
            None => WritingMode::HorizontalTb,
        },
    }
}

/// The layout of a book: the page progression as given; the writing mode
/// from the package metadata, else the documents' dominant one, else the
/// stylesheets'; the direction of the first rule that is not root-only,
/// else of any rule, else the default.
pub open spec fn inferred_layout(
    cs: Seq<ComputedStyle>,
    page_progression: PageProgression,
    primary: Option<WritingMode>,
    modes: Seq<Option<WritingMode>>,
) -> Layout {
    Layout {
        writing_mode: match primary {
            Some(w) => w,
            None => match dominant_spec(modes) {
                Some(w) => w,
                None => css_writing_mode(cs),
            },
        },
        page_progression,
        direction: match first_direction(cs, 0, true) {
            Some(d) => d,
            None => match first_direction(cs, 0, false) {
                Some(d) => d,
                None => Direction::Default,
            },
        },
    }
}

/// Infer the book layout from its metadata, documents and stylesheets.
pub fn infer_layout(
    styles: &Styles,
    page_progression: PageProgression,
    primary_writing_mode: Option<WritingMode>,
    document_writing_modes: &[Option<WritingMode>],
) -> (r: Layout)
    ensures
        r == inferred_layout(styles.computed@, page_progression, primary_writing_mode, document_writing_modes@),
{
    let writing_mode = match primary_writing_mode {
        Some(w) => w,
        None => match dominant_writing_mode(document_writing_modes) {
            Some(w) => w,
            None => css_fallback_writing_mode(styles),
        },
    };
    let direction = match find_direction(styles.computed.as_slice(), true) {
        Some(d) => d,
        None => match find_direction(styles.computed.as_slice(), false) {
            Some(d) => d,
            None => Direction::Default,
        },
    };
    Layout { writing_mode, page_progression, direction }
}

// ---------------------------------------------------------------------------
// Attributes of a raw tag. A tag `<...>` is read as characters: its bytes
// lie between two ASCII delimiters of valid UTF-8 text.

/// Skip ASCII whitespace from `c`, staying before `te`.
pub open spec fn tag_ws_end(t: Seq<char>, c: int, te: int) -> int
    decreases te - c,
{
    if 0 <= c < te && c < t.len() && css_ws(t[c]) {
        tag_ws_end(t, c + 1, te)
    } else {
        c
    }
}

/// The end of a name from `c`: before whitespace, `/` or `>`, and before
/// `=` when `stop_eq`, or at `te`.
pub open spec fn tag_word_end(t: Seq<char>, c: int, te: int, stop_eq: bool) -> int
    decreases te - c,
{
    if 0 <= c < te && c < t.len() && !css_ws(t[c]) && t[c] != '/' && t[c] != '>' && !(stop_eq
        && t[c] == '=') {
        tag_word_end(t, c + 1, te, stop_eq)
    } else {
        c
    }
}

/// The end of the text from `c`: before whitespace, and before `/` when
/// `stop_slash`, or at `te`.
pub open spec fn tag_text_end(t: Seq<char>, c: int, te: int, stop_slash: bool) -> int
    decreases te - c,
{
    if 0 <= c < te && c < t.len() && !css_ws(t[c]) && !(stop_slash && t[c] == '/') {
        tag_text_end(t, c + 1, te, stop_slash)
    } else {
        c
    }
}

pub proof fn lemma_tag_scans(t: Seq<char>, c: int, te: int)
    requires
        0 <= c <= te <= t.len(),
    ensures
        c <= tag_ws_end(t, c, te) <= te,
        c <= tag_word_end(t, c, te, true) <= te,
        c <= tag_word_end(t, c, te, false) <= te,
        c <= tag_text_end(t, c, te, true) <= te,
        c <= tag_text_end(t, c, te, false) <= te,
        find_char(t.subrange(0, te), '"', c) matches Some(k) ==> c <= k < te,
        find_char(t.subrange(0, te), '\'', c) matches Some(k) ==> c <= k < te,
    decreases te - c,
{
    lemma_find_char(t.subrange(0, te), '"', c);
    lemma_find_char(t.subrange(0, te), '\'', c);
    if c < te {
        lemma_tag_scans(t, c + 1, te);
    }
}

/// The end of the name of the tag `t` (its `<` first, its `>` last):
/// after `<`, an optional `/` and whitespace; `None` for a declaration, a
/// processing instruction or an empty name.
pub open spec fn tag_name_end(t: Seq<char>) -> Option<int> {
    let te = t.len() - 1;
    let c1 = if 1 < t.len() && t[1] == '/' { 2 } else { 1 };
    let c2 = tag_ws_end(t, c1, te);
    if c2 >= te || t[c2] == '!' || t[c2] == '?' {
        None
    } else {
        let e = tag_word_end(t, c2, te, false);
        if c2 < e {
            Some(e)
        } else {
            None
        }
    }
}

/// The scan of a tag's attributes from `c` for the attribute `wanted`: the
/// range of its value, or the message of a malformed attribute. A repeated
/// `style` attribute is an error; otherwise the last one counts.
pub open spec fn attr_scan(
    t: Seq<char>,
    c: int,
    wanted: Seq<char>,
    is_style: bool,
    found: Option<(int, int)>,
) -> Result<Option<(int, int)>, Seq<char>>
    decreases t.len() - c,
{
    let te = t.len() - 1;
    if c < 0 || c >= te {
        Ok(found)
    } else {
        let c1 = tag_ws_end(t, c, te);
        proof {
            lemma_tag_scans(t, c, te);
        }
        if c1 >= te || t[c1] == '/' {
            Ok(found)
        } else {
            let ne = tag_word_end(t, c1, te, true);
            proof {
                lemma_tag_scans(t, c1, te);
            }
            if ne == c1 {
                attr_scan(t, c1 + 1, wanted, is_style, found)
            } else {
                let matched = lower_chars(t.subrange(c1, ne)) == lower_chars(wanted);
                let c2 = tag_ws_end(t, ne, te);
                proof {
                    lemma_tag_scans(t, ne, te);
                    lemma_tag_scans(t, c2, te);
                }
                if !(c2 < te && t[c2] == '=') {
                    if matched {
                        Err("XHTML "@ + wanted + " attribute has no value"@)
                    } else {
                        attr_scan(t, tag_text_end(t, c2, te, true), wanted, is_style, found)
                    }
                } else {
                    let c4 = tag_ws_end(t, c2 + 1, te);
                    proof {
                        lemma_tag_scans(t, c2 + 1, te);
                        lemma_tag_scans(t, c4, te);
                    }
                    if c4 < te && (t[c4] == '"' || t[c4] == '\'') {
                        proof {
                            lemma_tag_scans(t, c4 + 1, te);
                        }
                        match find_char(t.subrange(0, te), t[c4], c4 + 1) {
                            None => Err("XHTML attribute has an unterminated quoted value"@),
                            Some(ve) => if matched && found is Some && is_style {
                                Err("XHTML element has duplicate style attributes"@)
                            } else {
                                attr_scan(
                                    t,
                                    ve + 1,
                                    wanted,
                                    is_style,
                                    if matched {
                                        Some((c4 + 1, ve))
                                    } else {
                                        found
                                    },
                                )
                            },
                        }
                    } else {
                        let ve = tag_text_end(t, c4, te, false);
                        if matched && found is Some && is_style {
                            Err("XHTML element has duplicate style attributes"@)
                        } else {
                            attr_scan(
                                t,
                                ve,
                                wanted,
                                is_style,
                                if matched {
                                    Some((c4, ve))
                                } else {
                                    found
                                },
                            )
                        }
                    }
                }
            }
        }
    }
}

/// The value of the attribute `wanted` of the tag `t`, or the message of a
/// malformed tag or attribute.
pub open spec fn tag_attr(t: Seq<char>, wanted: Seq<char>) -> Result<Option<Seq<char>>, Seq<char>> {
    match tag_name_end(t) {
        None => Err("malformed XHTML tag attributes"@),
        Some(name_end) => match attr_scan(t, name_end, wanted, lower_chars(wanted) == "style"@, None) {
            Err(m) => Err(m),
            Ok(None) => Ok(None),
            Ok(Some((a, e))) => Ok(Some(t.subrange(a, e))),
        },
    }
}

/// The characters of the tag `source[start..=tag_end]`.
pub open spec fn tag_text(b: Seq<u8>, start: int, tag_end: int) -> Seq<char> {
    decode_utf8(b.subrange(start, tag_end + 1))
}

/// Skip ASCII whitespace from `c`, staying before `te`.
fn skip_tag_ws(t: &[char], c: usize, te: usize) -> (r: usize)
    requires
        c <= te <= t@.len(),
    ensures
        r == tag_ws_end(t@, c as int, te as int),
        c <= r <= te,
{
    proof {
        lemma_tag_scans(t@, c as int, te as int);
    }
    let mut k = c;
    while k < te && is_css_ws(t[k])
        invariant
            c <= k <= te,
            te <= t@.len(),
            tag_ws_end(t@, k as int, te as int) == tag_ws_end(t@, c as int, te as int),
        decreases te - k,
    {
        k = k + 1;
    }
    k
}

/// [`tag_word_end`].
fn tag_word(t: &[char], c: usize, te: usize, stop_eq: bool) -> (r: usize)
    requires
        c <= te <= t@.len(),
    ensures
        r == tag_word_end(t@, c as int, te as int, stop_eq),
        c <= r <= te,
{
    proof {
        lemma_tag_scans(t@, c as int, te as int);
    }
    let mut k = c;
    while k < te && !is_css_ws(t[k]) && t[k] != '/' && t[k] != '>' && !(stop_eq && t[k] == '=')
        invariant
            c <= k <= te,
            te <= t@.len(),
            tag_word_end(t@, k as int, te as int, stop_eq) == tag_word_end(t@, c as int, te as int, stop_eq),
        decreases te - k,
    {
        k = k + 1;
    }
    k
}

/// [`tag_text_end`].
fn tag_text_until(t: &[char], c: usize, te: usize, stop_slash: bool) -> (r: usize)
    requires
        c <= te <= t@.len(),
    ensures
        r == tag_text_end(t@, c as int, te as int, stop_slash),
        c <= r <= te,
{
    proof {
        lemma_tag_scans(t@, c as int, te as int);
    }
    let mut k = c;
    while k < te && !is_css_ws(t[k]) && !(stop_slash && t[k] == '/')
        invariant
            c <= k <= te,
            te <= t@.len(),
            tag_text_end(t@, k as int, te as int, stop_slash) == tag_text_end(t@, c as int, te as int, stop_slash),
        decreases te - k,
    {
        k = k + 1;
    }
    k
}

/// The characters of the tag `source[start..=tag_end]`, whose first byte
/// is `<` and last byte `>`.
fn tag_chars(source: &str, start: usize, tag_end: usize) -> (r: Vec<char>)
    requires
        start < tag_end < source.spec_bytes().len(),
        source.spec_bytes()[start as int] == 60,
        source.spec_bytes()[tag_end as int] == 62,
    ensures
        r@ == tag_text(source.spec_bytes(), start as int, tag_end as int),
        r@.len() >= 1,
{
    let bytes = source.as_bytes();
    let n = bytes.len();
    proof {
        vstd::utf8::encode_utf8_valid_utf8(source@);
        lemma_ascii_boundary(bytes@, start as int);
        lemma_ascii_boundary(bytes@, tag_end as int);
        lemma_utf8_slice(bytes@, start as int, tag_end + 1);
    }
    let slice = &bytes[start..tag_end + 1];
    assert(tag_end + 1 <= n);
    match utf8_str(slice) {
        Some(text) => {
            proof {
                vstd::utf8::encode_utf8_decode_utf8(text@);
                if text@.len() == 0 {
                    assert(encode_utf8(text@).len() == 0);
                }
            }
            str_chars(text)
        },
        None => Vec::new(),
    }
}

/// The value of the attribute `wanted` of the raw tag `source[start..=tag_end]`;
/// names are compared up to ASCII case. A value-less `wanted` attribute, an
/// unterminated quote and a repeated `style` attribute are errors.
pub fn tag_attribute(source: &str, start: usize, tag_end: usize, wanted: &str) -> (r: Result<
    Option<String>,
    Error,
>)
    requires
        start < tag_end < source.spec_bytes().len(),
        source.spec_bytes()[start as int] == 60,
        source.spec_bytes()[tag_end as int] == 62,
    ensures
        match tag_attr(tag_text(source.spec_bytes(), start as int, tag_end as int), wanted@) {
            Ok(None) => r matches Ok(None),
            Ok(Some(v)) => r matches Ok(Some(x)) && x@ == v,
            Err(m) => r matches Err(Error::InvalidXhtmlCss(mm)) && mm@ == m,
        },
{
    let t = tag_chars(source, start, tag_end);
    let n = t.len();
    let te = n - 1;
    let ghost ts = t@;
    let c1: usize = if 1 < n && t[1] == '/' {
        2
    } else {
        1
    };
    if c1 > te {
        return Err(Error::InvalidXhtmlCss("malformed XHTML tag attributes".to_owned()));
    }
    let c2 = skip_tag_ws(t.as_slice(), c1, te);
    if c2 >= te || t[c2] == '!' || t[c2] == '?' {
        return Err(Error::InvalidXhtmlCss("malformed XHTML tag attributes".to_owned()));
    }
    let name_end = tag_word(t.as_slice(), c2, te, false);
    if name_end == c2 {
        return Err(Error::InvalidXhtmlCss("malformed XHTML tag attributes".to_owned()));
    }
    let wanted_chars = str_chars(wanted);
    let wanted_lower = lower_vec(wanted_chars.as_slice());
    let is_style = chars_equal(wanted_lower.as_slice(), str_chars("style").as_slice());
    let ghost target = attr_scan(ts, name_end as int, wanted@, is_style, None);
    let mut cursor = name_end;
    let mut result: Option<(usize, usize)> = None;
    while cursor < te
        invariant
            ts == t@,
            ts == tag_text(source.spec_bytes(), start as int, tag_end as int),
            tag_name_end(ts) == Some(name_end as int),
            n == ts.len(),
            te == n - 1,
            cursor <= n,
            wanted_chars@ == wanted@,
            wanted_lower@ == lower_chars(wanted@),
            is_style == (lower_chars(wanted@) == "style"@),
            target == attr_scan(ts, name_end as int, wanted@, is_style, None),
            attr_scan(ts, cursor as int, wanted@, is_style, match result {
                Some((a, e)) => Some((a as int, e as int)),
                None => None::<(int, int)>,
            }) == target,
            result matches Some((a, e)) ==> a <= e <= n,
        ensures
            target == Ok::<Option<(int, int)>, Seq<char>>(match result {
                Some((a, e)) => Some((a as int, e as int)),
                None => None::<(int, int)>,
            }),
            result matches Some((a, e)) ==> a <= e <= n,
        decreases n - cursor,
    {
        let c1 = skip_tag_ws(t.as_slice(), cursor, te);
        if c1 >= te || t[c1] == '/' {
            break;
        }
        let ne = tag_word(t.as_slice(), c1, te, true);
        if ne == c1 {
            cursor = c1 + 1;
        } else {
            let name = lower_vec(&t.as_slice()[c1..ne]);
            let matched = chars_equal(name.as_slice(), wanted_lower.as_slice());
            let c2 = skip_tag_ws(t.as_slice(), ne, te);
            if !(c2 < te && t[c2] == '=') {
                if matched {
                    let mut text: Vec<char> = Vec::new();
                    push_str_chars(&mut text, "XHTML ");
                    push_str_chars(&mut text, wanted);
                    push_str_chars(&mut text, " attribute has no value");
                    return Err(Error::InvalidXhtmlCss(string_from_chars(text.as_slice())));
                }
                cursor = tag_text_until(t.as_slice(), c2, te, true);
            } else {
                let c4 = skip_tag_ws(t.as_slice(), c2 + 1, te);
                if c4 < te && (t[c4] == '"' || t[c4] == '\'') {
                    let quote = t[c4];
                    let ghost head = ts.subrange(0, te as int);
                    proof {
                        lemma_find_char(head, quote, c4 + 1);
                    }
                    let mut k = c4 + 1;
                    while k < te && t[k] != quote
                        invariant
                            ts == t@,
                            te < ts.len(),
                            head == ts.subrange(0, te as int),
                            c4 + 1 <= k,
                            find_char(head, quote, k as int) == find_char(head, quote, c4 + 1),
                        decreases te - k,
                    {
                        k = k + 1;
                    }
                    if k >= te {
                        return Err(
                            Error::InvalidXhtmlCss(
                                "XHTML attribute has an unterminated quoted value".to_owned(),
                            ),
                        );
                    }
                    if matched {
                        if result.is_some() && is_style {
                            return Err(
                                Error::InvalidXhtmlCss(
                                    "XHTML element has duplicate style attributes".to_owned(),
                                ),
                            );
                        }
                        result = Some((c4 + 1, k));
                    }
                    cursor = k + 1;
                } else {
                    let ve = tag_text_until(t.as_slice(), c4, te, false);
                    if matched {
                        if result.is_some() && is_style {
                            return Err(
                                Error::InvalidXhtmlCss(
                                    "XHTML element has duplicate style attributes".to_owned(),
                                ),
                            );
                        }
                        result = Some((c4, ve));
                    }
                    cursor = ve;
                }
            }
        }
    }
    match result {
        Some((a, e)) => Ok(Some(string_from_chars(&t.as_slice()[a..e]))),
        None => Ok(None),
    }
}

/// Equality of two character sequences.
fn chars_equal(a: &[char], b: &[char]) -> (r: bool)
    ensures
        r == (a@ == b@),
{
    if a.len() != b.len() {
        return false;
    }
    let mut i: usize = 0;
    while i < a.len()
        invariant
            i <= a@.len(),
            a@.len() == b@.len(),
            forall|j: int| 0 <= j < i ==> a@[j] == b@[j],
        decreases a@.len() - i,
    {
        if a[i] != b[i] {
            return false;
        }
        i = i + 1;
    }
    assert(a@ =~= b@);
    true
}

// ---------------------------------------------------------------------------
// Scripting and media boundaries.

/// The messages of the scripting and media boundaries.
pub open spec fn form_message() -> Seq<char> {
    "G2-24/G8 scripting boundary: HTML form in spine content is unsupported"@
}

pub open spec fn external_script_message() -> Seq<char> {
    "G2-24/G8 scripting boundary: external script reference in spine content is unsupported"@
}

pub open spec fn inline_script_message() -> Seq<char> {
    "G2-24/G8 scripting boundary: inline script in spine content is unsupported"@
}

/// A check's outcome: `(true, m)` stands for an unsupported-EPUB error and
/// `(false, m)` for malformed XHTML, both with the message `m`.
pub open spec fn outcome_is(r: Result<(), Error>, s: Result<(), (bool, Seq<char>)>) -> bool {
    match s {
        Ok(()) => r is Ok,
        Err((true, m)) => r matches Err(Error::UnsupportedEpub(mm)) && mm@ == m,
        Err((false, m)) => r matches Err(Error::InvalidXhtmlCss(mm)) && mm@ == m,
    }
}

/// A `type` that marks a script element as an inert data block: non-empty
/// once trimmed, and not a JavaScript or module type.
pub open spec fn data_block(script_type: Option<Seq<char>>) -> bool {
    match script_type {
        None => false,
        Some(v) => {
            let t = trim_spec(v);
            let l = lower_chars(t);
            t.len() > 0 && !(l == "text/javascript"@ || l == "application/javascript"@ || l
                == "text/ecmascript"@ || l == "application/ecmascript"@ || l == "module"@)
        },
    }
}

/// Whether a script's `type` makes it an inert data block.
pub fn is_script_data_block(script_type: Option<&str>) -> (r: bool)
    ensures
        r == data_block(match script_type {
            Some(s) => Some(s@),
            None => None::<Seq<char>>,
        }),
{
    let value = match script_type {
        Some(v) => trim_str(v),
        None => {
            return false;
        },
    };
    if value.unicode_len() == 0 {
        return false;
    }
    !(lower_eq(value, "text/javascript") || lower_eq(value, "application/javascript") || lower_eq(
        value,
        "text/ecmascript",
    ) || lower_eq(value, "application/ecmascript") || lower_eq(value, "module"))
}

/// The check of a script tag: an external reference and a script that is
/// not a data block are unsupported; malformed attributes are reported.
pub open spec fn script_check(t: Seq<char>) -> Result<(), (bool, Seq<char>)> {
    match tag_attr(t, "src"@) {
        Err(m) => Err((false, m)),
        Ok(Some(_)) => Err((true, external_script_message())),
        Ok(None) => match tag_attr(t, "href"@) {
            Err(m) => Err((false, m)),
            Ok(Some(_)) => Err((true, external_script_message())),
            Ok(None) => match tag_attr(t, "xlink:href"@) {
                Err(m) => Err((false, m)),
                Ok(Some(_)) => Err((true, external_script_message())),
                Ok(None) => match tag_attr(t, "type"@) {
                    Err(m) => Err((false, m)),
                    Ok(ty) => if data_block(ty) {
                        Ok(())
                    } else {
                        Err((true, inline_script_message()))
                    },
                },
            },
        },
    }
}

/// The tag ends with `/>`, whitespace before the `>` aside.
pub open spec fn self_closing(t: Seq<char>) -> bool {
    let p = t.subrange(0, t.len() - 1);
    let k = trail_ws(p, 0, p.len() as int);
    k > 0 && p[k - 1] == '/'
}

/// Check a script tag `source[start..=tag_end]`.
fn check_script_tag(source: &str, start: usize, tag_end: usize) -> (r: Result<(), Error>)
    requires
        start < tag_end < source.spec_bytes().len(),
        source.spec_bytes()[start as int] == 60,
        source.spec_bytes()[tag_end as int] == 62,
    ensures
        outcome_is(r, script_check(tag_text(source.spec_bytes(), start as int, tag_end as int))),
{
    let ghost t = tag_text(source.spec_bytes(), start as int, tag_end as int);
    let src = match tag_attribute(source, start, tag_end, "src") {
        Ok(v) => v,
        Err(e) => {
            return Err(e);
        },
    };
    if src.is_some() {
        return Err(Error::UnsupportedEpub("G2-24/G8 scripting boundary: external script reference in spine content is unsupported".to_owned()));
    }
    let href = match tag_attribute(source, start, tag_end, "href") {
        Ok(v) => v,
        Err(e) => {
            return Err(e);
        },
    };
    if href.is_some() {
        return Err(Error::UnsupportedEpub("G2-24/G8 scripting boundary: external script reference in spine content is unsupported".to_owned()));
    }
    let xlink = match tag_attribute(source, start, tag_end, "xlink:href") {
        Ok(v) => v,
        Err(e) => {
            return Err(e);
        },
    };
    if xlink.is_some() {
        return Err(Error::UnsupportedEpub("G2-24/G8 scripting boundary: external script reference in spine content is unsupported".to_owned()));
    }
    let script_type = match tag_attribute(source, start, tag_end, "type") {
        Ok(v) => v,
        Err(e) => {
            return Err(e);
        },
    };
    let data = match &script_type {
        Some(v) => is_script_data_block(Some(v.as_str())),
        None => is_script_data_block(None),
    };
    if !data {
        return Err(Error::UnsupportedEpub("G2-24/G8 scripting boundary: inline script in spine content is unsupported".to_owned()));
    }
    Ok(())
}

/// Whether the tag `source[start..=tag_end]` is self-closing.
fn is_self_closing(source: &str, start: usize, tag_end: usize) -> (r: bool)
    requires
        start < tag_end < source.spec_bytes().len(),
        source.spec_bytes()[start as int] == 60,
        source.spec_bytes()[tag_end as int] == 62,
    ensures
        r == self_closing(tag_text(source.spec_bytes(), start as int, tag_end as int)),
{
    let t = tag_chars(source, start, tag_end);
    let e = t.len() - 1;
    let ghost p = t@.subrange(0, e as int);
    proof {
        lemma_trail_ws(p, 0, e as int);
    }
    let mut k = e;
    while k > 0 && unicode_whitespace(t[k - 1])
        invariant
            e == t@.len() - 1,
            p == t@.subrange(0, e as int),
            k <= e,
            trail_ws(p, 0, k as int) == trail_ws(p, 0, e as int),
        decreases k,
    {
        k = k - 1;
    }
    k > 0 && t[k - 1] == '/'
}

/// The position of the first byte `x` at or after `c`.
pub open spec fn byte_pos(b: Seq<u8>, x: u8, c: int) -> Option<int>
    decreases b.len() - c,
{
    if c < 0 || c >= b.len() {
        None
    } else if b[c] == x {
        Some(c)
    } else {
        byte_pos(b, x, c + 1)
    }
}

pub proof fn lemma_byte_pos(b: Seq<u8>, x: u8, c: int)
    requires
        0 <= c,
    ensures
        byte_pos(b, x, c) matches Some(k) ==> c <= k < b.len() && b[k] == x,
    decreases b.len() - c,
{
    if c < b.len() && b[c] != x {
        lemma_byte_pos(b, x, c + 1);
    }
}

/// The position of the first byte `x` at or after `c`.
fn find_byte_from(bytes: &[u8], x: u8, c: usize) -> (r: Option<usize>)
    ensures
        r == (match byte_pos(bytes@, x, c as int) {
            Some(k) => Some(k as usize),
            None => None::<usize>,
        }),
        r matches Some(k) ==> c <= k < bytes@.len() && bytes@[k as int] == x && byte_pos(
            bytes@,
            x,
            c as int,
        ) == Some(k as int),
{
    proof {
        lemma_byte_pos(bytes@, x, c as int);
    }
    let mut k = c;
    while k < bytes.len()
        invariant
            c <= k,
            byte_pos(bytes@, x, k as int) == byte_pos(bytes@, x, c as int),
        decreases bytes@.len() - k,
    {
        if bytes[k] == x {
            return Some(k);
        }
        k = k + 1;
    }
    None
}

/// `<!--` opens at `s`.
pub open spec fn comment_open_at(b: Seq<u8>, s: int) -> bool {
    at(b, s) == Some(60u8) && at(b, s + 1) == Some(33u8) && at(b, s + 2) == Some(45u8) && at(b, s + 3)
        == Some(45u8)
}

/// The position of the first `-->` at or after `c`.
pub open spec fn comment_close_pos(b: Seq<u8>, c: int) -> Option<int>
    decreases b.len() - c,
{
    if c < 0 || c + 2 >= b.len() {
        None
    } else if b[c] == 45 && b[c + 1] == 45 && b[c + 2] == 62 {
        Some(c)
    } else {
        comment_close_pos(b, c + 1)
    }
}

pub proof fn lemma_comment_close_pos(b: Seq<u8>, c: int)
    requires
        0 <= c,
    ensures
        comment_close_pos(b, c) matches Some(k) ==> c <= k && k + 3 <= b.len(),
    decreases b.len() - c,
{
    if c + 2 < b.len() && !(b[c] == 45 && b[c + 1] == 45 && b[c + 2] == 62) {
        lemma_comment_close_pos(b, c + 1);
    }
}

/// Where scanning goes on after the HTML comment opened at `start`.
pub open spec fn html_comment_end(b: Seq<u8>, start: int) -> int {
    match comment_close_pos(b, start + 4) {
        Some(k) => k + 3,
        None => b.len() as int,
    }
}

/// [`html_comment_end`].
fn skip_html_comment(bytes: &[u8], start: usize) -> (r: usize)
    requires
        start + 4 <= bytes@.len(),
    ensures
        r == html_comment_end(bytes@, start as int),
        start + 4 <= r <= bytes@.len(),
{
    let n = bytes.len();
    proof {
        lemma_comment_close_pos(bytes@, start + 4);
    }
    let mut k = start + 4;
    while k < n && n - k > 2
        invariant
            n == bytes@.len(),
            start + 4 <= k,
            comment_close_pos(bytes@, k as int) == comment_close_pos(bytes@, start + 4),
        decreases n - k,
    {
        if bytes[k] == 45 && bytes[k + 1] == 45 && bytes[k + 2] == 62 {
            return k + 3;
        }
        k = k + 1;
    }
    n
}

/// Where scanning goes on after the script tag `b[start..=te]`: after the
/// tag when it closes itself, else after the script's closing tag, or at
/// the end when there is none.
pub open spec fn script_resume(b: Seq<u8>, start: int, te: int) -> int {
    if self_closing(tag_text(b, start, te)) {
        te + 1
    } else {
        match closing_tag_spec(b, te + 1, "script".spec_bytes()) {
            Some((_, e)) => e + 1,
            None => b.len() as int,
        }
    }
}

pub proof fn lemma_script_resume(b: Seq<u8>, start: int, te: int)
    requires
        b.len() <= usize::MAX,
        0 <= te < b.len(),
    ensures
        te < script_resume(b, start, te) <= b.len(),
{
    lemma_raw_scan(
        b,
        te + 1,
        None,
        false,
        false,
        false,
        ascii_ci_eq("script".spec_bytes(), "script".spec_bytes()),
        "script".spec_bytes(),
        true,
    );
}

/// The scripting check of a document from `c` on.
pub open spec fn scripting_from(b: Seq<u8>, c: int) -> Result<(), (bool, Seq<char>)>
    decreases b.len() - c,
    when b.len() <= usize::MAX
{
    if c < 0 || c >= b.len() {
        Ok(())
    } else {
        proof {
            lemma_byte_pos(b, 60, c);
        }
        match byte_pos(b, 60, c) {
            None => Ok(()),
            Some(start) => if comment_open_at(b, start) {
                proof {
                    lemma_comment_close_pos(b, start + 4);
                }
                scripting_from(b, html_comment_end(b, start))
            } else {
                proof {
                    lemma_tag_end_from(b, start + 1, None);
                }
                match tag_end(b, start) {
                    None => Ok(()),
                    Some(te) => match tag_name_range(b, start, te, true) {
                        None => scripting_from(b, te + 1),
                        Some((ns, ne, closing)) => if closing {
                            scripting_from(b, te + 1)
                        } else if local_name_is(b.subrange(ns, ne), "form".spec_bytes()) {
                            Err((true, form_message()))
                        } else if local_name_is(b.subrange(ns, ne), "script".spec_bytes()) {
                            match script_check(tag_text(b, start, te)) {
                                Err(e) => Err(e),
                                Ok(()) => {
                                    proof {
                                        lemma_script_resume(b, start, te);
                                    }
                                    scripting_from(b, script_resume(b, start, te))
                                },
                            }
                        } else {
                            scripting_from(b, te + 1)
                        },
                    },
                }
            },
        }
    }
}

/// Reject executable scripting and forms in spine content: a form, a script
/// with an external reference, and a script that is not an inert data block
/// are unsupported. Comments are skipped, and so is the text of a script
/// that passes.
pub fn reject_scripting(source: &str) -> (r: Result<(), Error>)
    ensures
        outcome_is(r, scripting_from(source.spec_bytes(), 0)),
{
    let bytes = source.as_bytes();
    let n = bytes.len();
    let ghost b = bytes@;
    let mut cursor: usize = 0;
    while cursor < n
        invariant
            b == bytes@,
            b == source.spec_bytes(),
            n == b.len(),
            scripting_from(b, cursor as int) == scripting_from(b, 0),
        ensures
            scripting_from(b, 0) is Ok,
        decreases n - cursor,
    {
        let start = match find_byte_from(bytes, 60, cursor) {
            Some(s) => s,
            None => {
                break;
            },
        };
        if n - start >= 4 && bytes[start + 1] == 33 && bytes[start + 2] == 45 && bytes[start + 3] == 45 {
            cursor = skip_html_comment(bytes, start);
            continue;
        }
        proof {
            lemma_tag_end_from(b, start + 1, None);
        }
        let tag_end = match byte_tag_end(bytes, start) {
            Some(t) => t,
            None => {
                break;
            },
        };
        assert(crate::xhtml::scan::tag_end(b, start as int) == Some(tag_end as int));
        proof {
            lemma_tag_name_range(b, start as int, tag_end as int, true);
        }
        match byte_tag_name_range(bytes, start, tag_end, true) {
            None => {
                cursor = tag_end + 1;
            },
            Some((name_start, name_end, closing)) => {
                assert(tag_name_range(b, start as int, tag_end as int, true) == Some(
                    (name_start as int, name_end as int, closing),
                ));
                if closing {
                    cursor = tag_end + 1;
                } else if byte_local_name_is(bytes, name_start, name_end, "form".as_bytes()) {
                    return Err(Error::UnsupportedEpub("G2-24/G8 scripting boundary: HTML form in spine content is unsupported".to_owned()));
                } else if byte_local_name_is(bytes, name_start, name_end, "script".as_bytes()) {
                    match check_script_tag(source, start, tag_end) {
                        Ok(()) => {},
                        Err(e) => {
                            return Err(e);
                        },
                    }
                    proof {
                        lemma_script_resume(b, start as int, tag_end as int);
                    }
                    cursor = if is_self_closing(source, start, tag_end) {
                        tag_end + 1
                    } else {
                        match raw_text_end(source, tag_end, "script") {
                            Some(e) => e,
                            None => n,
                        }
                    };
                } else {
                    cursor = tag_end + 1;
                }
            },
        }
    }
    Ok(())
}

/// The messages of the media boundary.
pub open spec fn audio_message() -> Seq<char> {
    "G6-23/G6-25 media boundary: audio playback in spine content is unsupported"@
}

pub open spec fn video_message() -> Seq<char> {
    "G6-24/G6-25 media boundary: video playback in spine content is unsupported"@
}

/// Where scanning goes on after the raw-text element whose tag is
/// `b[start..=te]` and whose name is `b[ns..ne]`.
pub open spec fn raw_resume(b: Seq<u8>, te: int, name: Seq<u8>) -> int {
    match closing_tag_spec(b, te + 1, name) {
        Some((_, e)) => e + 1,
        None => b.len() as int,
    }
}

pub proof fn lemma_raw_resume(b: Seq<u8>, te: int, name: Seq<u8>)
    requires
        b.len() <= usize::MAX,
        0 <= te < b.len(),
    ensures
        te < raw_resume(b, te, name) <= b.len(),
        closing_tag_spec(b, te + 1, name) matches Some((a, e)) ==> te < a < e < b.len(),
{
    lemma_raw_scan(b, te + 1, None, false, false, false, ascii_ci_eq(name, "script".spec_bytes()), name, true);
}

/// The media check of a document from `c` on.
pub open spec fn media_from(b: Seq<u8>, c: int) -> Result<(), (bool, Seq<char>)>
    decreases b.len() - c,
    when b.len() <= usize::MAX
{
    if c < 0 || c >= b.len() {
        Ok(())
    } else {
        proof {
            lemma_byte_pos(b, 60, c);
        }
        match byte_pos(b, 60, c) {
            None => Ok(()),
            Some(start) => if comment_open_at(b, start) {
                proof {
                    lemma_comment_close_pos(b, start + 4);
                }
                media_from(b, html_comment_end(b, start))
            } else {
                proof {
                    lemma_tag_end_from(b, start + 1, None);
                }
                match tag_end(b, start) {
                    None => Ok(()),
                    Some(te) => match tag_name_range(b, start, te, true) {
                        None => media_from(b, te + 1),
                        Some((ns, ne, closing)) => {
                            let name = b.subrange(ns, ne);
                            if !closing && local_name_is(name, "audio".spec_bytes()) {
                                Err((true, audio_message()))
                            } else if !closing && local_name_is(name, "video".spec_bytes()) {
                                Err((true, video_message()))
                            } else if !closing && (local_name_is(name, "script".spec_bytes())
                                || local_name_is(name, "style".spec_bytes())) && !self_closing(
                                tag_text(b, start, te),
                            ) {
                                proof {
                                    lemma_raw_resume(b, te, name);
                                }
                                media_from(b, raw_resume(b, te, name))
                            } else {
                                media_from(b, te + 1)
                            }
                        },
                    },
                }
            },
        }
    }
}

/// Where scanning goes on after the raw text of the element named
/// `bytes[name_start..name_end]` whose tag ends at `tag_end`.
fn skip_raw_text(bytes: &[u8], tag_end: usize, name_start: usize, name_end: usize) -> (r: usize)
    requires
        tag_end < bytes@.len(),
        name_start <= name_end <= bytes@.len(),
    ensures
        r == raw_resume(bytes@, tag_end as int, bytes@.subrange(name_start as int, name_end as int)),
        tag_end < r <= bytes@.len(),
{
    let n = bytes.len();
    let name = &bytes[name_start..name_end];
    proof {
        lemma_raw_resume(bytes@, tag_end as int, name@);
    }
    let script = ascii_bytes_eq_ignore_case(name, "script".as_bytes());
    match scan_raw_text(bytes, tag_end + 1, name, script, true) {
        RawScan::Found(_, e) => e + 1,
        _ => n,
    }
}

/// Reject audio and video playback in spine content. The elements, not the
/// manifest, decide, so unused media resources stay packageable.
pub fn reject_media_playback(source: &str) -> (r: Result<(), Error>)
    ensures
        outcome_is(r, media_from(source.spec_bytes(), 0)),
{
    let bytes = source.as_bytes();
    let n = bytes.len();
    let ghost b = bytes@;
    let mut cursor: usize = 0;
    while cursor < n
        invariant
            b == bytes@,
            b == source.spec_bytes(),
            n == b.len(),
            media_from(b, cursor as int) == media_from(b, 0),
        ensures
            media_from(b, 0) is Ok,
        decreases n - cursor,
    {
        let start = match find_byte_from(bytes, 60, cursor) {
            Some(s) => s,
            None => {
                break;
            },
        };
        if n - start >= 4 && bytes[start + 1] == 33 && bytes[start + 2] == 45 && bytes[start + 3] == 45 {
            cursor = skip_html_comment(bytes, start);
            continue;
        }
        proof {
            lemma_tag_end_from(b, start + 1, None);
        }
        let tag_end = match byte_tag_end(bytes, start) {
            Some(t) => t,
            None => {
                break;
            },
        };
        assert(crate::xhtml::scan::tag_end(b, start as int) == Some(tag_end as int));
        proof {
            lemma_tag_name_range(b, start as int, tag_end as int, true);
        }
        match byte_tag_name_range(bytes, start, tag_end, true) {
            None => {
                cursor = tag_end + 1;
            },
            Some((name_start, name_end, closing)) => {
                assert(tag_name_range(b, start as int, tag_end as int, true) == Some(
                    (name_start as int, name_end as int, closing),
                ));
                if !closing && byte_local_name_is(bytes, name_start, name_end, "audio".as_bytes()) {
                    return Err(Error::UnsupportedEpub("G6-23/G6-25 media boundary: audio playback in spine content is unsupported".to_owned()));
                }
                if !closing && byte_local_name_is(bytes, name_start, name_end, "video".as_bytes()) {
                    return Err(Error::UnsupportedEpub("G6-24/G6-25 media boundary: video playback in spine content is unsupported".to_owned()));
                }
                if !closing && (byte_local_name_is(bytes, name_start, name_end, "script".as_bytes())
                    || byte_local_name_is(bytes, name_start, name_end, "style".as_bytes()))
                    && !is_self_closing(source, start, tag_end) {
                    cursor = skip_raw_text(bytes, tag_end, name_start, name_end);
                } else {
                    cursor = tag_end + 1;
                }
            },
        }
    }
    Ok(())
}

/// The next tag from `c` on, comments skipped: its `<`, its `>`, its name
/// and whether it closes an element.
pub open spec fn next_tag(b: Seq<u8>, c: int) -> Option<(int, int, int, int, bool)>
    decreases b.len() - c,
{
    if c < 0 || c >= b.len() {
        None
    } else {
        proof {
            lemma_byte_pos(b, 60, c);
        }
        match byte_pos(b, 60, c) {
            None => None,
            Some(start) => if comment_open_at(b, start) {
                proof {
                    lemma_comment_close_pos(b, start + 4);
                }
                next_tag(b, html_comment_end(b, start))
            } else {
                proof {
                    lemma_tag_end_from(b, start + 1, None);
                }
                match tag_end(b, start) {
                    None => None,
                    Some(te) => match tag_name_range(b, start, te, true) {
                        None => next_tag(b, te + 1),
                        Some((ns, ne, closing)) => Some((start, te, ns, ne, closing)),
                    },
                }
            },
        }
    }
}

pub proof fn lemma_next_tag(b: Seq<u8>, c: int)
    requires
        0 <= c,
    ensures
        next_tag(b, c) matches Some((s, te, ns, ne, _)) ==> c <= s < ns < ne <= b.len() && s < te
            < b.len() && b[s] == 60 && b[te] == 62,
    decreases b.len() - c,
{
    if c < b.len() {
        lemma_byte_pos(b, 60, c);
        match byte_pos(b, 60, c) {
            None => {},
            Some(start) => if comment_open_at(b, start) {
                lemma_comment_close_pos(b, start + 4);
                lemma_next_tag(b, html_comment_end(b, start));
            } else {
                lemma_tag_end_from(b, start + 1, None);
                match tag_end(b, start) {
                    None => {},
                    Some(te) => {
                        lemma_tag_name_range(b, start, te, true);
                        match tag_name_range(b, start, te, true) {
                            None => lemma_next_tag(b, te + 1),
                            Some(_) => {},
                        }
                    },
                }
            },
        }
    }
}

/// A tag found by the raw scan: its `<` and `>`, its name's byte range,
/// whether it closes an element and whether it closes itself.
#[derive(Debug, Clone, Copy)]
pub struct RawScanTag {
    pub start: usize,
    pub end: usize,
    pub name_start: usize,
    pub name_end: usize,
    pub closing: bool,
    pub self_closing: bool,
}

/// The next tag from `*cursor` on, comments skipped; the cursor only moves
/// forward.
pub fn next_raw_scan_tag(source: &str, cursor: &mut usize) -> (r: Option<RawScanTag>)
    ensures
        match next_tag(source.spec_bytes(), *old(cursor) as int) {
            None => r is None,
            Some((s, te, ns, ne, closing)) => r matches Some(t) && t.start == s && t.end == te
                && t.name_start == ns && t.name_end == ne && t.closing == closing && t.self_closing
                == self_closing(tag_text(source.spec_bytes(), s, te)),
        },
        *old(cursor) <= *final(cursor),
        *final(cursor) <= source.spec_bytes().len() || *final(cursor) == *old(cursor),
{
    let bytes = source.as_bytes();
    let n = bytes.len();
    let ghost b = bytes@;
    let ghost c0 = *old(cursor) as int;
    proof {
        lemma_next_tag(b, c0);
    }
    while *cursor < n
        invariant
            b == bytes@,
            b == source.spec_bytes(),
            n == b.len(),
            c0 == *old(cursor) as int,
            c0 <= *cursor,
            *cursor <= n || *cursor == c0,
            next_tag(b, *cursor as int) == next_tag(b, c0),
        ensures
            next_tag(b, c0) is None,
            c0 <= *cursor,
            *cursor <= n || *cursor == c0,
        decreases n - *cursor,
    {
        let c = *cursor;
        let start = match find_byte_from(bytes, 60, c) {
            Some(s) => s,
            None => {
                return None;
            },
        };
        if n - start >= 4 && bytes[start + 1] == 33 && bytes[start + 2] == 45 && bytes[start + 3] == 45 {
            *cursor = skip_html_comment(bytes, start);
            continue;
        }
        proof {
            lemma_tag_end_from(b, start + 1, None);
        }
        let tag_end = match byte_tag_end(bytes, start) {
            Some(t) => t,
            None => {
                return None;
            },
        };
        assert(crate::xhtml::scan::tag_end(b, start as int) == Some(tag_end as int));
        proof {
            lemma_tag_name_range(b, start as int, tag_end as int, true);
        }
        match byte_tag_name_range(bytes, start, tag_end, true) {
            None => {
                *cursor = tag_end + 1;
            },
            Some((name_start, name_end, closing)) => {
                assert(tag_name_range(b, start as int, tag_end as int, true) == Some(
                    (name_start as int, name_end as int, closing),
                ));
                let self_closing = is_self_closing(source, start, tag_end);
                return Some(
                    RawScanTag { start, end: tag_end, name_start, name_end, closing, self_closing },
                );
            },
        }
    }
    None
}

/// The first byte `x` at or after `c` and below `be`.
pub open spec fn byte_pos_below(b: Seq<u8>, x: u8, c: int, be: int) -> Option<int>
    decreases be - c,
{
    if c < 0 || c >= be || c >= b.len() {
        None
    } else if b[c] == x {
        Some(c)
    } else {
        byte_pos_below(b, x, c + 1, be)
    }
}

pub proof fn lemma_byte_pos_below(b: Seq<u8>, x: u8, c: int, be: int)
    requires
        0 <= c,
    ensures
        byte_pos_below(b, x, c, be) matches Some(k) ==> c <= k < be && k < b.len() && b[k] == x,
    decreases be - c,
{
    if c < be && c < b.len() && b[c] != x {
        lemma_byte_pos_below(b, x, c + 1, be);
    }
}

/// The scripting check of a style element's text `b[c..be]`. It stops with
/// the position where scanning must go on when a comment, tag or script
/// runs past the end of the text.
pub open spec fn style_body_from(b: Seq<u8>, c: int, be: int) -> Result<Option<int>, (bool, Seq<char>)>
    decreases b.len() - c,
    when b.len() <= usize::MAX
{
    if c < 0 || c >= be || be > b.len() {
        Ok(None)
    } else {
        proof {
            lemma_byte_pos_below(b, 60, c, be);
        }
        match byte_pos_below(b, 60, c, be) {
            None => Ok(None),
            Some(start) => if comment_open_at(b, start) {
                proof {
                    lemma_comment_close_pos(b, start + 4);
                }
                let k = html_comment_end(b, start);
                if k > be {
                    Ok(Some(k))
                } else {
                    style_body_from(b, k, be)
                }
            } else {
                proof {
                    lemma_tag_end_from(b, start + 1, None);
                }
                match tag_end(b, start) {
                    None => Ok(Some(b.len() as int)),
                    Some(te) => match tag_name_range(b, start, te, true) {
                        None => if te + 1 > be {
                            Ok(Some(te + 1))
                        } else {
                            style_body_from(b, te + 1, be)
                        },
                        Some((ns, ne, closing)) => if closing {
                            if te + 1 > be {
                                Ok(Some(te + 1))
                            } else {
                                style_body_from(b, te + 1, be)
                            }
                        } else if local_name_is(b.subrange(ns, ne), "form".spec_bytes()) {
                            Err((true, form_message()))
                        } else if local_name_is(b.subrange(ns, ne), "script".spec_bytes()) {
                            match script_check(tag_text(b, start, te)) {
                                Err(e) => Err(e),
                                Ok(()) => {
                                    proof {
                                        lemma_script_resume(b, start, te);
                                    }
                                    let k = script_resume(b, start, te);
                                    if k > be {
                                        Ok(Some(k))
                                    } else {
                                        style_body_from(b, k, be)
                                    }
                                },
                            }
                        } else if te + 1 > be {
                            Ok(Some(te + 1))
                        } else {
                            style_body_from(b, te + 1, be)
                        },
                    },
                }
            },
        }
    }
}

/// The first byte `x` at or after `c` and below `be`.
fn find_byte_below(bytes: &[u8], x: u8, c: usize, be: usize) -> (r: Option<usize>)
    requires
        be <= bytes@.len(),
    ensures
        r == (match byte_pos_below(bytes@, x, c as int, be as int) {
            Some(k) => Some(k as usize),
            None => None::<usize>,
        }),
        r matches Some(k) ==> c <= k < be && bytes@[k as int] == x && byte_pos_below(
            bytes@,
            x,
            c as int,
            be as int,
        ) == Some(k as int),
{
    proof {
        lemma_byte_pos_below(bytes@, x, c as int, be as int);
    }
    let mut k = c;
    while k < be
        invariant
            be <= bytes@.len(),
            c <= k,
            byte_pos_below(bytes@, x, k as int, be as int) == byte_pos_below(bytes@, x, c as int, be as int),
        decreases be - k,
    {
        if bytes[k] == x {
            return Some(k);
        }
        k = k + 1;
    }
    None
}

/// The result of a style-text check as the library reports it.
pub open spec fn style_outcome_is(r: Result<Option<usize>, Error>, s: Result<Option<int>, (bool, Seq<char>)>) -> bool {
    match s {
        Ok(None) => r matches Ok(None),
        Ok(Some(k)) => r matches Ok(Some(x)) && x == k,
        Err((true, m)) => r matches Err(Error::UnsupportedEpub(mm)) && mm@ == m,
        Err((false, m)) => r matches Err(Error::InvalidXhtmlCss(mm)) && mm@ == m,
    }
}

/// Check the text of a style element, `source[body_start..body_end]`, for
/// forms and scripts; where a comment, tag or script runs past the text,
/// the position after it.
pub fn scan_scripting_style_body(source: &str, body_start: usize, body_end: usize) -> (r: Result<
    Option<usize>,
    Error,
>)
    requires
        body_start <= body_end <= source.spec_bytes().len(),
    ensures
        style_outcome_is(r, style_body_from(source.spec_bytes(), body_start as int, body_end as int)),
{
    let bytes = source.as_bytes();
    let n = bytes.len();
    let ghost b = bytes@;
    let mut cursor = body_start;
    while cursor < body_end
        invariant
            b == bytes@,
            b == source.spec_bytes(),
            n == b.len(),
            body_end <= n,
            style_body_from(b, cursor as int, body_end as int) == style_body_from(
                b,
                body_start as int,
                body_end as int,
            ),
        ensures
            style_body_from(b, body_start as int, body_end as int) == Ok::<Option<int>, (bool, Seq<char>)>(None),
        decreases n - cursor,
    {
        let start = match find_byte_below(bytes, 60, cursor, body_end) {
            Some(s) => s,
            None => {
                return Ok(None);
            },
        };
        if n - start >= 4 && bytes[start + 1] == 33 && bytes[start + 2] == 45 && bytes[start + 3] == 45 {
            let ghost c_old = cursor as int;
            cursor = skip_html_comment(bytes, start);
            assert(comment_open_at(b, start as int));
            assert(style_body_from(b, c_old, body_end as int) == (if cursor > body_end {
                Ok(Some(cursor as int))
            } else {
                style_body_from(b, cursor as int, body_end as int)
            }));
            if cursor > body_end {
                return Ok(Some(cursor));
            }
            continue;
        }
        proof {
            lemma_tag_end_from(b, start + 1, None);
        }
        let tag_end = match byte_tag_end(bytes, start) {
            Some(t) => t,
            None => {
                return Ok(Some(n));
            },
        };
        assert(crate::xhtml::scan::tag_end(b, start as int) == Some(tag_end as int));
        proof {
            lemma_tag_name_range(b, start as int, tag_end as int, true);
        }
        match byte_tag_name_range(bytes, start, tag_end, true) {
            None => {
                cursor = tag_end + 1;
            },
            Some((name_start, name_end, closing)) => {
                assert(tag_name_range(b, start as int, tag_end as int, true) == Some(
                    (name_start as int, name_end as int, closing),
                ));
                if closing {
                    cursor = tag_end + 1;
                } else if byte_local_name_is(bytes, name_start, name_end, "form".as_bytes()) {
                    return Err(Error::UnsupportedEpub("G2-24/G8 scripting boundary: HTML form in spine content is unsupported".to_owned()));
                } else if byte_local_name_is(bytes, name_start, name_end, "script".as_bytes()) {
                    match check_script_tag(source, start, tag_end) {
                        Ok(()) => {},
                        Err(e) => {
                            return Err(e);
                        },
                    }
                    proof {
                        lemma_script_resume(b, start as int, tag_end as int);
                    }
                    cursor = if is_self_closing(source, start, tag_end) {
                        tag_end + 1
                    } else {
                        match raw_text_end(source, tag_end, "script") {
                            Some(e) => e,
                            None => n,
                        }
                    };
                } else {
                    cursor = tag_end + 1;
                }
            },
        }
        if cursor > body_end {
            return Ok(Some(cursor));
        }
    }
    Ok(None)
}

/// The media element met first.
#[derive(Debug, Clone, Copy, PartialEq, Eq)]
pub enum MediaViolation {
    Audio,
    Video,
}

/// The scripting and media checks of a document from `c` on, the scripting
/// check suspended before `skip`, with the first media element met so far
/// (`true` for audio): the first media element met, or the first scripting
/// violation.
pub open spec fn boundaries_from(b: Seq<u8>, c: int, skip: int, media: Option<bool>) -> Result<Option<bool>, (bool, Seq<char>)>
    decreases b.len() - c,
    when b.len() <= usize::MAX
{
    if c < 0 {
        Ok(media)
    } else {
        proof {
            lemma_next_tag(b, c);
        }
        match next_tag(b, c) {
            None => Ok(media),
            Some((s, te, ns, ne, closing)) => {
                let name = b.subrange(ns, ne);
                let active = s >= skip;
                let t = tag_text(b, s, te);
                if active && !closing && local_name_is(name, "form".spec_bytes()) {
                    Err((true, form_message()))
                } else {
                    let m = if media is Some {
                        media
                    } else if !closing && local_name_is(name, "audio".spec_bytes()) {
                        Some(true)
                    } else if !closing && local_name_is(name, "video".spec_bytes()) {
                        Some(false)
                    } else {
                        None
                    };
                    if !closing && local_name_is(name, "script".spec_bytes()) {
                        proof {
                            lemma_script_resume(b, s, te);
                        }
                        if active && script_check(t) is Err {
                            Err(script_check(t)->Err_0)
                        } else {
                            boundaries_from(b, script_resume(b, s, te), skip, m)
                        }
                    } else if !closing && local_name_is(name, "style".spec_bytes()) && !self_closing(t) {
                        proof {
                            lemma_raw_resume(b, te, "style".spec_bytes());
                        }
                        let body_end = match closing_tag_spec(b, te + 1, "style".spec_bytes()) {
                            Some((a, _)) => a,
                            None => b.len() as int,
                        };
                        let raw_end = raw_resume(b, te, "style".spec_bytes());
                        let body_start = if active || skip <= te + 1 {
                            te + 1
                        } else {
                            skip
                        };
                        if body_start < body_end {
                            match style_body_from(b, body_start, body_end) {
                                Err(e) => Err(e),
                                Ok(None) => boundaries_from(b, raw_end, skip, m),
                                Ok(Some(k)) => boundaries_from(b, raw_end, k, m),
                            }
                        } else {
                            boundaries_from(b, raw_end, skip, m)
                        }
                    } else {
                        boundaries_from(b, te + 1, skip, m)
                    }
                }
            },
        }
    }
}

/// The scripting and media checks of a document: a scripting violation
/// first, else the first media element met.
pub open spec fn scripting_media_check(b: Seq<u8>) -> Result<(), (bool, Seq<char>)> {
    match boundaries_from(b, 0, 0, None) {
        Err(e) => Err(e),
        Ok(Some(true)) => Err((true, audio_message())),
        Ok(Some(false)) => Err((true, video_message())),
        Ok(None) => Ok(()),
    }
}

/// The media element a violation names: `true` for audio.
pub open spec fn media_model(m: Option<MediaViolation>) -> Option<bool> {
    match m {
        Some(MediaViolation::Audio) => Some(true),
        Some(MediaViolation::Video) => Some(false),
        None => None,
    }
}

/// Run the scripting and media checks in one raw scan. Scripting takes
/// precedence over media playback, even when the media element comes first.
/// Media checks skip the text of styles and scripts; the text of a style is
/// scanned for scripting as a standalone check would scan it.
#[verifier::spinoff_prover]
#[verifier::rlimit(80)]
pub fn reject_scripting_and_media_playback(source: &str) -> (r: Result<(), Error>)
    ensures
        outcome_is(r, scripting_media_check(source.spec_bytes())),
{
    let bytes = source.as_bytes();
    let n = bytes.len();
    let ghost b = bytes@;
    let mut cursor: usize = 0;
    let mut scripting_skip_until: usize = 0;
    let mut media_violation: Option<MediaViolation> = None;
    loop
        invariant_except_break
            boundaries_from(b, cursor as int, scripting_skip_until as int, media_model(media_violation))
                == boundaries_from(b, 0, 0, None),
        invariant
            b == bytes@,
            b == source.spec_bytes(),
            n == b.len(),
            cursor <= n,
        ensures
            boundaries_from(b, 0, 0, None) == Ok::<Option<bool>, (bool, Seq<char>)>(media_model(media_violation)),
        decreases n - cursor,
    {
        let ghost c_old = cursor as int;
        proof {
            lemma_next_tag(b, c_old);
        }
        let tag = match next_raw_scan_tag(source, &mut cursor) {
            Some(t) => t,
            None => {
                break;
            },
        };
        let start = tag.start;
        let tag_end = tag.end;
        let ns = tag.name_start;
        let ne = tag.name_end;
        let scripting_active = start >= scripting_skip_until;
        if scripting_active && !tag.closing && byte_local_name_is(bytes, ns, ne, "form".as_bytes()) {
            return Err(Error::UnsupportedEpub("G2-24/G8 scripting boundary: HTML form in spine content is unsupported".to_owned()));
        }
        if media_violation.is_none() {
            if !tag.closing && byte_local_name_is(bytes, ns, ne, "audio".as_bytes()) {
                media_violation = Some(MediaViolation::Audio);
            } else if !tag.closing && byte_local_name_is(bytes, ns, ne, "video".as_bytes()) {
                media_violation = Some(MediaViolation::Video);
            }
        }
        if !tag.closing && byte_local_name_is(bytes, ns, ne, "script".as_bytes()) {
            if scripting_active {
                match check_script_tag(source, start, tag_end) {
                    Ok(()) => {},
                    Err(e) => {
                        return Err(e);
                    },
                }
            }
            proof {
                lemma_script_resume(b, start as int, tag_end as int);
            }
            cursor = if tag.self_closing {
                tag_end + 1
            } else {
                match raw_text_end(source, tag_end, "script") {
                    Some(e) => e,
                    None => n,
                }
            };
        } else if !tag.closing && byte_local_name_is(bytes, ns, ne, "style".as_bytes())
            && !tag.self_closing {
            proof {
                lemma_raw_resume(b, tag_end as int, "style".spec_bytes());
            }
            let (style_body_end, style_raw_end) = match closing_tag(source, tag_end + 1, "style") {
                Some((a, e)) => (a, e + 1),
                None => (n, n),
            };
            let scripting_body_start = if scripting_active || scripting_skip_until <= tag_end + 1 {
                tag_end + 1
            } else {
                scripting_skip_until
            };
            if scripting_body_start < style_body_end {
                match scan_scripting_style_body(source, scripting_body_start, style_body_end) {
                    Err(e) => {
                        return Err(e);
                    },
                    Ok(Some(skip_until)) => {
                        scripting_skip_until = skip_until;
                    },
                    Ok(None) => {},
                }
            }
            cursor = style_raw_end;
        } else {
            cursor = tag_end + 1;
        }
    }
    match media_violation {
        Some(MediaViolation::Audio) => Err(Error::UnsupportedEpub("G6-23/G6-25 media boundary: audio playback in spine content is unsupported".to_owned())),
        Some(MediaViolation::Video) => Err(Error::UnsupportedEpub("G6-24/G6-25 media boundary: video playback in spine content is unsupported".to_owned())),
        None => Ok(()),
    }
}

// ---------------------------------------------------------------------------
// Attribute values.

/// A `rel` value names a stylesheet: one of its whitespace-separated tokens
/// is `stylesheet` up to ASCII case.
pub fn is_stylesheet_rel(value: &str) -> (r: bool)
    ensures
        r == token_from(value@, 0, "stylesheet"@),
{
    has_token(str_chars(value).as_slice(), str_chars("stylesheet").as_slice())
}

/// The trimmed value of the first `;`-separated declaration from `pos` on
/// whose trimmed name is exactly `property`.
pub open spec fn style_value_from(s: Seq<char>, pos: int, property: Seq<char>) -> Option<Seq<char>>
    decreases s.len() - pos,
{
    if pos < 0 || pos > s.len() {
        None
    } else {
        let end = match find_char(s, ';', pos) {
            Some(k) => k,
            None => s.len() as int,
        };
        proof {
            lemma_find_char(s, ';', pos);
        }
        let part = s.subrange(pos, end);
        let here = match find_char(part, ':', 0) {
            Some(c) => if trim_spec(part.subrange(0, c)) == property {
                Some(trim_spec(part.subrange(c + 1, part.len() as int)))
            } else {
                None
            },
            None => None,
        };
        if here is Some {
            here
        } else if end < s.len() {
            style_value_from(s, end + 1, property)
        } else {
            None
        }
    }
}

/// The value of `property` in an inline style.
pub fn style_value(style: &str, property: &str) -> (r: Option<String>)
    ensures
        match style_value_from(style@, 0, property@) {
            Some(v) => r matches Some(x) && x@ == v,
            None => r is None,
        },
{
    let s = str_chars(style);
    let p = str_chars(property);
    let n = s.len();
    let mut pos: usize = 0;
    loop
        invariant
            n == s@.len(),
            s@ == style@,
            p@ == property@,
            pos <= n,
            style_value_from(s@, pos as int, p@) == style_value_from(s@, 0, p@),
        decreases n - pos,
    {
        let end = match find_char_from(s.as_slice(), ';', pos) {
            Some(k) => k,
            None => n,
        };
        let part = char_range(s.as_slice(), pos, end);
        match find_char_from(part.as_slice(), ':', 0) {
            Some(c) => {
                proof {
                    lemma_find_char(part@, ':', 0);
                }
                let name = trim_chars(&part.as_slice()[0..c]);
                if chars_equal(name.as_slice(), p.as_slice()) {
                    let value = trim_chars(&part.as_slice()[c + 1..part.len()]);
                    return Some(string_from_chars(value.as_slice()));
                }
            },
            None => {},
        }
        if end == n {
            return None;
        }
        pos = end + 1;
    }
}

/// The writing mode that a class token names, up to ASCII case.
pub open spec fn class_mode(token: Seq<char>) -> Option<WritingMode> {
    let l = lower_chars(token);
    if l == "hltr"@ {
        Some(WritingMode::HorizontalTb)
    } else if l == "vrtl"@ {
        Some(WritingMode::VerticalRl)
    } else if l == "vltr"@ {
        Some(WritingMode::VerticalLr)
    } else {
        None
    }
}

/// The writing mode of the first class token from `i` on that names one.
pub open spec fn class_tokens_mode(s: Seq<char>, i: int) -> Option<WritingMode>
    decreases s.len() - i,
{
    if i < 0 || i >= s.len() {
        None
    } else if is_unicode_ws(s[i]) {
        class_tokens_mode(s, i + 1)
    } else {
        let e = token_end(s, i);
        proof {
            lemma_token_end(s, i);
        }
        if class_mode(s.subrange(i, e)) is Some {
            class_mode(s.subrange(i, e))
        } else {
            class_tokens_mode(s, e)
        }
    }
}

/// The writing mode of a root element from its `style` and `class`
/// attributes: the first of `writing-mode`, `-webkit-writing-mode` and
/// `-epub-writing-mode` in the lowercased style, if it names one, else the
/// first class token that names one.
pub open spec fn root_writing_mode(style: Option<Seq<char>>, class: Option<Seq<char>>) -> Option<WritingMode> {
    let st = match style {
        Some(v) => lower_chars(v),
        None => Seq::empty(),
    };
    let declared = match style_value_from(st, 0, "writing-mode"@) {
        Some(v) => Some(v),
        None => match style_value_from(st, 0, "-webkit-writing-mode"@) {
            Some(v) => Some(v),
            None => style_value_from(st, 0, "-epub-writing-mode"@),
        },
    };
    let parsed = match declared {
        Some(v) => parsed_writing_mode(v),
        None => None,
    };
    if parsed is Some {
        parsed
    } else {
        match class {
            Some(c) => class_tokens_mode(c, 0),
            None => None,
        }
    }
}

/// The writing mode of a root element from its `style` and `class`
/// attribute values.
pub fn style_class_writing_mode(style: Option<&str>, class: Option<&str>) -> (r: Option<WritingMode>)
    ensures
        r == root_writing_mode(
            match style {
                Some(v) => Some(v@),
                None => None::<Seq<char>>,
            },
            match class {
                Some(v) => Some(v@),
                None => None::<Seq<char>>,
            },
        ),
{
    let lowered = match style {
        Some(v) => string_from_chars(lower_vec(str_chars(v).as_slice()).as_slice()),
        None => String::new(),
    };
    let declared = match style_value(lowered.as_str(), "writing-mode") {
        Some(v) => Some(v),
        None => match style_value(lowered.as_str(), "-webkit-writing-mode") {
            Some(v) => Some(v),
            None => style_value(lowered.as_str(), "-epub-writing-mode"),
        },
    };
    let parsed = match &declared {
        Some(v) => parse_writing_mode(v.as_str()),
        None => None,
    };
    if parsed.is_some() {
        return parsed;
    }
    let cls = match class {
        Some(c) => c,
        None => {
            return None;
        },
    };
    let ghost target = root_writing_mode(
        match style {
            Some(v) => Some(v@),
            None => None::<Seq<char>>,
        },
        Some(cls@),
    );
    assert(target == class_tokens_mode(cls@, 0));
    let s = str_chars(cls);
    let n = s.len();
    let mut i: usize = 0;
    while i < n
        invariant
            n == s@.len(),
            s@ == cls@,
            target == root_writing_mode(
                match style {
                    Some(v) => Some(v@),
                    None => None::<Seq<char>>,
                },
                match class {
                    Some(v) => Some(v@),
                    None => None::<Seq<char>>,
                },
            ),
            i <= n,
            class_tokens_mode(s@, i as int) == target,
        decreases n - i,
    {
        if unicode_whitespace(s[i]) {
            i = i + 1;
        } else {
            let mut e = i;
            proof {
                lemma_token_end(s@, i as int);
            }
            while e < n && !unicode_whitespace(s[e])
                invariant
                    n == s@.len(),
                    i <= e <= n,
                    token_end(s@, e as int) == token_end(s@, i as int),
                decreases n - e,
            {
                e = e + 1;
            }
            let token = string_from_chars(&s.as_slice()[i..e]);
            let t = token.as_str();
            assert(e == token_end(s@, i as int));
            assert(t@ == s@.subrange(i as int, e as int));
            assert(class_tokens_mode(s@, i as int) == if class_mode(t@) is Some {
                class_mode(t@)
            } else {
                class_tokens_mode(s@, e as int)
            });
            let hltr = lower_eq(t, "hltr");
            let vrtl = lower_eq(t, "vrtl");
            let vltr = lower_eq(t, "vltr");
            assert(class_mode(t@) == if hltr {
                Some(WritingMode::HorizontalTb)
            } else if vrtl {
                Some(WritingMode::VerticalRl)
            } else if vltr {
                Some(WritingMode::VerticalLr)
            } else {
                None
            });
            if hltr {
                return Some(WritingMode::HorizontalTb);
            } else if vrtl {
                return Some(WritingMode::VerticalRl);
            } else if vltr {
                return Some(WritingMode::VerticalLr);
            }
            i = e;
        }
    }
    None
}

/// The part of `t` after its last `:`.
pub open spec fn after_last_colon(t: Seq<char>, j: int) -> Seq<char>
    decreases j,
{
    if j <= 0 || j > t.len() {
        t
    } else if t[j - 1] == ':' {
        t.subrange(j, t.len() as int)
    } else {
        after_last_colon(t, j - 1)
    }
}

/// A whitespace-separated token from `i` on whose part after its last `:`
/// is `primary-writing-mode` up to ASCII case.
pub open spec fn primary_token_from(s: Seq<char>, i: int) -> bool
    decreases s.len() - i,
{
    if i < 0 || i >= s.len() {
        false
    } else if is_unicode_ws(s[i]) {
        primary_token_from(s, i + 1)
    } else {
        let e = token_end(s, i);
        proof {
            lemma_token_end(s, i);
        }
        let t = s.subrange(i, e);
        lower_chars(after_last_colon(t, t.len() as int)) == "primary-writing-mode"@ || primary_token_from(s, e)
    }
}

/// Whether an attribute value has a `primary-writing-mode` token.
fn names_primary_writing_mode(value: &str) -> (r: bool)
    ensures
        r == primary_token_from(value@, 0),
{
    let s = str_chars(value);
    let n = s.len();
    let mut i: usize = 0;
    while i < n
        invariant
            n == s@.len(),
            s@ == value@,
            i <= n,
            primary_token_from(s@, i as int) == primary_token_from(s@, 0),
        decreases n - i,
    {
        if unicode_whitespace(s[i]) {
            i = i + 1;
        } else {
            let mut e = i;
            proof {
                lemma_token_end(s@, i as int);
            }
            while e < n && !unicode_whitespace(s[e])
                invariant
                    n == s@.len(),
                    i <= e <= n,
                    token_end(s@, e as int) == token_end(s@, i as int),
                decreases n - e,
            {
                e = e + 1;
            }
            let ghost t = s@.subrange(i as int, e as int);
            let mut k = e;
            while k > i && s[k - 1] != ':'
                invariant
                    i <= k <= e,
                    e <= n,
                    n == s@.len(),
                    t == s@.subrange(i as int, e as int),
                    after_last_colon(t, k - i) == after_last_colon(t, t.len() as int),
                decreases k,
            {
                assert(t[k - i - 1] == s@[k - 1]);
                k = k - 1;
            }
            proof {
                if k > i {
                    assert(t[k - i - 1] == s@[k - 1]);
                    assert(t.subrange(k - i, t.len() as int) =~= s@.subrange(k as int, e as int));
                }
            }
            let local = string_from_chars(&s.as_slice()[k..e]);
            if lower_eq(local.as_str(), "primary-writing-mode") {
                return true;
            }
            i = e;
        }
    }
    false
}

/// Whether a `meta` element declares the primary writing mode: its
/// `property` or `name` attribute has a `primary-writing-mode` token,
/// prefixes aside.
pub fn primary_writing_mode_attributes(property: Option<&str>, name: Option<&str>) -> (r: bool)
    ensures
        r == ((match property {
            Some(v) => primary_token_from(v@, 0),
            None => false,
        }) || (match name {
            Some(v) => primary_token_from(v@, 0),
            None => false,
        })),
{
    let by_property = match property {
        Some(v) => names_primary_writing_mode(v),
        None => false,
    };
    if by_property {
        return true;
    }
    match name {
        Some(v) => names_primary_writing_mode(v),
        None => false,
    }
}

/// A media type that an `object` element can project: an image, a font, or
/// a content document or stylesheet.
pub open spec fn object_projectable(media_type: Seq<char>) -> bool {
    let l = lower_chars(media_type);
    is_prefix_chars("image/"@, l) || is_prefix_chars("font/"@, l) || l == "application/font-sfnt"@ || l
        == "application/vnd.ms-opentype"@ || l == "application/x-font-opentype"@ || l
        == "application/x-font-ttf"@ || l == "application/xhtml+xml"@ || l == "text/html"@ || l
        == "text/css"@
}

/// `p` is a prefix of `s`.
pub open spec fn is_prefix_chars(p: Seq<char>, s: Seq<char>) -> bool {
    p.len() <= s.len() && s.subrange(0, p.len() as int) == p
}

/// Whether `p` is a prefix of `s`.
fn starts_with_seq(s: &[char], p: &[char]) -> (r: bool)
    ensures
        r == is_prefix_chars(p@, s@),
{
    if p.len() > s.len() {
        return false;
    }
    let r = chars_equal(&s[0..p.len()], p);
    r
}

/// Whether an `object` element can project a resource of this media type.
pub fn is_object_projectable_media_type(media_type: &str) -> (r: bool)
    ensures
        r == object_projectable(media_type@),
{
    let l = lower_vec(str_chars(media_type).as_slice());
    let text = string_from_chars(l.as_slice());
    let t = text.as_str();
    starts_with_seq(l.as_slice(), str_chars("image/").as_slice()) || starts_with_seq(
        l.as_slice(),
        str_chars("font/").as_slice(),
    ) || crate::strings::str_eq(t, "application/font-sfnt") || crate::strings::str_eq(
        t,
        "application/vnd.ms-opentype",
    ) || crate::strings::str_eq(t, "application/x-font-opentype") || crate::strings::str_eq(
        t,
        "application/x-font-ttf",
    ) || crate::strings::str_eq(t, "application/xhtml+xml") || crate::strings::str_eq(t, "text/html")
        || crate::strings::str_eq(t, "text/css")
}

/// A `srcset` candidate starts with `data:` up to ASCII case once leading
/// whitespace is trimmed.
pub open spec fn data_url_start(c: Seq<char>) -> bool {
    let k = lead_ws(c, 0);
    k + 5 <= c.len() && lower_chars(c.subrange(k, k + 5)) == "data:"@
}

/// The first whitespace-separated token of a candidate, its surrounding
/// quotes trimmed, names a package resource.
pub open spec fn candidate_local(c: Seq<char>) -> bool {
    let a = lead_ws(c, 0);
    if a >= c.len() {
        false
    } else {
        let e = token_end(c, a);
        let t = c.subrange(a, e);
        let ta = quote_lead(t, 0);
        let tb = quote_trail(t, ta, t.len() as int);
        let target = t.subrange(ta, tb);
        target.len() > 0 && !external_spec(target)
    }
}

/// Leading quotes of `t` skipped from `i`.
pub open spec fn quote_lead(t: Seq<char>, i: int) -> int
    decreases t.len() - i,
{
    if 0 <= i < t.len() && (t[i] == '\'' || t[i] == '"') {
        quote_lead(t, i + 1)
    } else {
        i
    }
}

/// Trailing quotes of `t[lo..j]` skipped.
pub open spec fn quote_trail(t: Seq<char>, lo: int, j: int) -> int
    decreases j - lo,
{
    if lo < j <= t.len() && (t[j - 1] == '\'' || t[j - 1] == '"') {
        quote_trail(t, lo, j - 1)
    } else {
        j
    }
}

/// The `srcset` candidates from the one that starts at `cs`, scanning at
/// `i`: a comma ends a candidate unless it is inside a `data:` URL target,
/// which ends at whitespace.
pub open spec fn srcset_from(s: Seq<char>, cs: int, i: int, data: bool, complete: bool) -> bool
    decreases s.len() - i,
{
    if i < 0 || i >= s.len() || cs < 0 || cs > i {
        candidate_local(s.subrange(cs, s.len() as int))
    } else {
        let complete2 = complete || (data && css_ws(s[i]));
        if s[i] == ',' && (!data || complete2) {
            if candidate_local(s.subrange(cs, i)) {
                true
            } else {
                let d = data_url_start(s.subrange(i + 1, s.len() as int));
                srcset_from(s, i + 1, i + 1, d, !d)
            }
        } else {
            srcset_from(s, cs, i + 1, data, complete2)
        }
    }
}

/// A `srcset` has a candidate that names a package resource.
pub open spec fn srcset_local(s: Seq<char>) -> bool {
    let d = data_url_start(s);
    srcset_from(s, 0, 0, d, !d)
}

/// Whether a candidate starts with a `data:` URL.
pub fn starts_with_data_url(candidate: &[char]) -> (r: bool)
    ensures
        r == data_url_start(candidate@),
{
    let n = candidate.len();
    let mut k: usize = 0;
    proof {
        crate::strings::lemma_lead_ws(candidate@, 0);
    }
    while k < n && unicode_whitespace(candidate[k])
        invariant
            n == candidate@.len(),
            k <= n,
            lead_ws(candidate@, k as int) == lead_ws(candidate@, 0),
        decreases n - k,
    {
        k = k + 1;
    }
    if n - k < 5 {
        return false;
    }
    let head = lower_vec(&candidate[k..k + 5]);
    chars_equal(head.as_slice(), str_chars("data:").as_slice())
}

/// Whether a `srcset` candidate names a package resource.
pub fn srcset_candidate_is_package_local(candidate: &[char]) -> (r: bool)
    ensures
        r == candidate_local(candidate@),
{
    let c = candidate;
    let n = c.len();
    let mut a: usize = 0;
    proof {
        crate::strings::lemma_lead_ws(c@, 0);
    }
    while a < n && unicode_whitespace(c[a])
        invariant
            n == c@.len(),
            a <= n,
            lead_ws(c@, a as int) == lead_ws(c@, 0),
        decreases n - a,
    {
        a = a + 1;
    }
    if a >= n {
        return false;
    }
    let mut e = a;
    proof {
        lemma_token_end(c@, a as int);
    }
    while e < n && !unicode_whitespace(c[e])
        invariant
            n == c@.len(),
            a <= e <= n,
            token_end(c@, e as int) == token_end(c@, a as int),
        decreases n - e,
    {
        e = e + 1;
    }
    let t = &c[a..e];
    let ghost tv = c@.subrange(a as int, e as int);
    assert(t@ == tv);
    let m = t.len();
    let mut ta: usize = 0;
    while ta < m && (t[ta] == '\'' || t[ta] == '"')
        invariant
            m == t@.len(),
            ta <= m,
            quote_lead(t@, ta as int) == quote_lead(t@, 0),
        decreases m - ta,
    {
        ta = ta + 1;
    }
    let mut tb: usize = m;
    while tb > ta && (t[tb - 1] == '\'' || t[tb - 1] == '"')
        invariant
            m == t@.len(),
            ta <= tb <= m,
            quote_trail(t@, ta as int, tb as int) == quote_trail(t@, ta as int, m as int),
        decreases tb,
    {
        tb = tb - 1;
    }
    if tb == ta {
        return false;
    }
    let target = string_from_chars(&t[ta..tb]);
    !is_external_reference(target.as_str())
}

/// Whether a `srcset` has a candidate that names a package resource.
pub fn srcset_has_package_local_candidate(srcset: &str) -> (r: bool)
    ensures
        r == srcset_local(srcset@),
{
    let s = str_chars(srcset);
    let n = s.len();
    let mut candidate_start: usize = 0;
    let mut data_url_target = starts_with_data_url(s.as_slice());
    let mut target_complete = !data_url_target;
    let mut i: usize = 0;
    assert(s@.subrange(0, n as int) =~= s@);
    while i < n
        invariant
            n == s@.len(),
            s@ == srcset@,
            candidate_start <= i <= n,
            srcset_from(s@, candidate_start as int, i as int, data_url_target, target_complete)
                == srcset_local(srcset@),
        decreases n - i,
    {
        let c = s[i];
        if data_url_target && !target_complete && (c == ' ' || c == '\t' || c == '\n' || c == '\x0C'
            || c == '\r') {
            target_complete = true;
        }
        if c == ',' && (!data_url_target || target_complete) {
            if srcset_candidate_is_package_local(&s.as_slice()[candidate_start..i]) {
                return true;
            }
            candidate_start = i + 1;
            data_url_target = starts_with_data_url(&s.as_slice()[candidate_start..n]);
            target_complete = !data_url_target;
        }
        i = i + 1;
    }
    srcset_candidate_is_package_local(&s.as_slice()[candidate_start..n])
}

// ---------------------------------------------------------------------------
// Checks on the XML events of a content document.

/// The text of an optional string, borrowed.
fn opt_str(o: &Option<String>) -> (r: Option<&str>)
    ensures
        opt_text(*o) == match r {
            Some(v) => Some(v@),
            None => None::<Seq<char>>,
        },
{
    match o {
        Some(v) => Some(v.as_str()),
        None => None,
    }
}

/// The writing mode that a tag's `style` and `class` attributes declare.
pub open spec fn tag_writing_mode(tag: XmlTagView) -> Option<WritingMode> {
    root_writing_mode(attr_value(tag, "style"@), attr_value(tag, "class"@))
}

/// The writing mode that a root element's `style` and `class` attributes
/// declare.
pub fn root_attribute_writing_mode(tag: &XmlTag) -> (r: Option<WritingMode>)
    ensures
        r == tag_writing_mode(tag@),
{
    let style = attr(tag, "style");
    let class = attr(tag, "class");
    style_class_writing_mode(opt_str(&style), opt_str(&class))
}

/// Whether a `meta` tag declares the primary writing mode.
pub open spec fn tag_primary_meta(tag: XmlTagView) -> bool {
    some_and(attr_value(tag, "property"@), |p: Seq<char>| primary_token_from(p, 0)) || some_and(
        attr_value(tag, "name"@),
        |n: Seq<char>| primary_token_from(n, 0),
    )
}

/// Whether a `meta` tag declares the primary writing mode: its `property`
/// or `name` attribute has a `primary-writing-mode` token, prefixes aside.
pub fn is_primary_writing_mode_meta(tag: &XmlTag) -> (r: bool)
    ensures
        r == tag_primary_meta(tag@),
{
    let property = attr(tag, "property");
    let name = attr(tag, "name");
    primary_writing_mode_attributes(opt_str(&property), opt_str(&name))
}

/// The root writing modes (`html`, `body`) after a tag: the first `html`
/// and the first `body` tag each give theirs.
pub open spec fn root_modes_tag(modes: (Option<WritingMode>, Option<WritingMode>), tag: XmlTagView) -> (
    Option<WritingMode>,
    Option<WritingMode>,
) {
    let n = lower_chars(local_name_of(tag.name));
    if n == "html"@ && modes.0 is None {
        (tag_writing_mode(tag), modes.1)
    } else if n == "body"@ && modes.1 is None {
        (modes.0, tag_writing_mode(tag))
    } else {
        modes
    }
}

/// The root writing modes after an event.
pub open spec fn root_modes_after(modes: (Option<WritingMode>, Option<WritingMode>), event: XmlEventView) -> (
    Option<WritingMode>,
    Option<WritingMode>,
) {
    match event {
        XmlEventView::Start(tag) => root_modes_tag(modes, tag),
        XmlEventView::Empty(tag) => root_modes_tag(modes, tag),
        _ => modes,
    }
}

/// The root writing modes after an event.
pub fn root_modes_step(html: Option<WritingMode>, body: Option<WritingMode>, event: &XmlEvent) -> (r: (
    Option<WritingMode>,
    Option<WritingMode>,
))
    ensures
        r == root_modes_after((html, body), event@),
{
    let tag = match event {
        XmlEvent::Start(tag) => tag,
        XmlEvent::Empty(tag) => tag,
        _ => {
            return (html, body);
        },
    };
    let name = local_name(tag.name.as_slice());
    if str_eq_lit(name.as_str(), "html") && html.is_none() {
        (root_attribute_writing_mode(tag), body)
    } else if str_eq_lit(name.as_str(), "body") && body.is_none() {
        (html, root_attribute_writing_mode(tag))
    } else {
        (html, body)
    }
}

fn str_eq_lit(a: &str, b: &str) -> (r: bool)
    ensures
        r == (a@ == b@),
{
    crate::strings::str_eq(a, b)
}

/// The root writing modes (`html`, `body`) that the events from the
/// `index`-th on leave, with at most `budget` more events before the end;
/// none when the document does not read as XML.
pub open spec fn root_modes_read(input: Seq<u8>, index: nat, budget: nat, modes: (
    Option<WritingMode>,
    Option<WritingMode>,
)) -> Option<(Option<WritingMode>, Option<WritingMode>)>
    decreases budget,
{
    match xml_event_at(input, false, index) {
        Err(_) => None,
        Ok(XmlEventView::Eof) => Some(modes),
        Ok(e) => if budget == 0 {
            None
        } else {
            root_modes_read(input, index + 1, (budget - 1) as nat, root_modes_after(modes, e))
        },
    }
}

/// The writing mode that a content document's root declares: that of its
/// first `html` tag, else that of its first `body` tag; none when the
/// document does not read as XML.
pub fn document_root_writing_mode(source: &str) -> (r: Option<WritingMode>)
    ensures
        r == match root_modes_read(source.spec_bytes(), 0, source.spec_bytes().len(), (None, None)) {
            Some((html, body)) => if html is Some {
                html
            } else {
                body
            },
            None => None,
        },
{
    let bytes = source.as_bytes();
    let mut events = XmlEvents::new(bytes, false);
    let mut html: Option<WritingMode> = None;
    let mut body: Option<WritingMode> = None;
    let mut budget = bytes.len();
    loop
        invariant_except_break
            root_modes_read(bytes@, events.count(), budget as nat, (html, body)) == root_modes_read(
                bytes@,
                0,
                bytes@.len(),
                (None, None),
            ),
        invariant
            events.input() == bytes@,
            bytes@ == source.spec_bytes(),
            !events.trims(),
            budget <= bytes@.len(),
        ensures
            root_modes_read(bytes@, 0, bytes@.len(), (None, None)) == Some((html, body)),
        decreases budget,
    {
        let event = match events.next() {
            Ok(e) => e,
            Err(_) => {
                return None;
            },
        };
        if let XmlEvent::Eof = event {
            break;
        }
        let (h, b) = root_modes_step(html, body, &event);
        html = h;
        body = b;
        if budget == 0 {
            return None;
        }
        budget = budget - 1;
    }
    match html {
        Some(m) => Some(m),
        None => body,
    }
}

/// The root writing modes (`html`, `body`) that the events from the
/// `index`-th on leave, with at most `budget` more events before the end,
/// or the message of the XML error the read stops at.
pub open spec fn root_modes_checked(input: Seq<u8>, index: nat, budget: nat, modes: (
    Option<WritingMode>,
    Option<WritingMode>,
)) -> Result<(Option<WritingMode>, Option<WritingMode>), Seq<char>>
    decreases budget,
{
    match xml_event_at(input, false, index) {
        Err(m) => Err(m),
        Ok(XmlEventView::Eof) => Ok(modes),
        Ok(e) => if budget == 0 {
            Err(unending_xml())
        } else {
            root_modes_checked(input, index + 1, (budget - 1) as nat, root_modes_after(modes, e))
        },
    }
}

/// The writing mode of the root modes: the `html` tag's, else the `body` tag's.
pub open spec fn root_mode_of(modes: (Option<WritingMode>, Option<WritingMode>)) -> Option<WritingMode> {
    if modes.0 is Some {
        modes.0
    } else {
        modes.1
    }
}

/// Read a content document as XML for the writing mode its root declares:
/// that of its first `html` tag, else that of its first `body` tag. A
/// document that does not read as XML is an XML error.
pub fn parse_document_root_writing_mode(source: &str) -> (r: Result<Option<WritingMode>, Error>)
    ensures
        match root_modes_checked(source.spec_bytes(), 0, source.spec_bytes().len(), (None, None)) {
            Ok(m) => r matches Ok(w) && w == root_mode_of(m),
            Err(msg) => r matches Err(Error::Xml(e)) && e@ == msg,
        },
{
    let bytes = source.as_bytes();
    let mut events = XmlEvents::new(bytes, false);
    let mut html: Option<WritingMode> = None;
    let mut body: Option<WritingMode> = None;
    let mut budget = bytes.len();
    loop
        invariant_except_break
            root_modes_checked(bytes@, events.count(), budget as nat, (html, body)) == root_modes_checked(
                bytes@,
                0,
                bytes@.len(),
                (None, None),
            ),
        invariant
            events.input() == bytes@,
            bytes@ == source.spec_bytes(),
            !events.trims(),
            budget <= bytes@.len(),
        ensures
            root_modes_checked(bytes@, 0, bytes@.len(), (None, None)) == Ok::<
                (Option<WritingMode>, Option<WritingMode>),
                Seq<char>,
            >((html, body)),
        decreases budget,
    {
        let event = match events.next() {
            Ok(e) => e,
            Err(m) => {
                return Err(Error::Xml(m));
            },
        };
        if let XmlEvent::Eof = event {
            break;
        }
        let (h, b) = root_modes_step(html, body, &event);
        html = h;
        body = b;
        if budget == 0 {
            return Err(Error::Xml("XML reader reported more events than its input has bytes".to_owned()));
        }
        budget = budget - 1;
    }
    Ok(
        match html {
            Some(m) => Some(m),
            None => body,
        },
    )
}

/// The bytes of a qualified name after its first `:`, the whole name when
/// it has none.
pub open spec fn after_first_colon(name: Seq<u8>, i: int) -> Seq<u8>
    decreases name.len() - i,
{
    if i < 0 || i >= name.len() {
        name
    } else if name[i] == 58u8 {
        name.subrange(i + 1, name.len() as int)
    } else {
        after_first_colon(name, i + 1)
    }
}

/// The MathML namespace.
pub open spec fn mathml_namespace() -> Seq<char> {
    "http://www.w3.org/1998/Math/MathML"@
}

/// Whether an event is a start or empty `math` tag bound to the MathML
/// namespace.
pub open spec fn mathml_event(namespace: Option<Seq<u8>>, event: XmlEventView) -> bool {
    let tag_is_math = |tag: XmlTagView| name_text(after_first_colon(tag.name, 0)) == "math"@;
    let bound = match namespace {
        Some(uri) => name_text(uri) == mathml_namespace(),
        None => false,
    };
    match event {
        XmlEventView::Start(tag) => bound && tag_is_math(tag),
        XmlEventView::Empty(tag) => bound && tag_is_math(tag),
        _ => false,
    }
}

fn bytes_text(b: &[u8]) -> (r: Vec<char>)
    ensures
        r@ == name_text(b@),
{
    match crate::strings::utf8_str(b) {
        Some(s) => {
            proof {
                vstd::utf8::encode_utf8_decode_utf8(s@);
            }
            str_chars(s)
        },
        None => Vec::new(),
    }
}

fn chars_is(a: &[char], lit: &str) -> (r: bool)
    ensures
        r == (a@ == lit@),
{
    let s = string_from_chars(a);
    crate::strings::str_eq(s.as_str(), lit)
}

/// Whether an event is a start or empty `math` tag in the MathML
/// namespace.
pub fn is_mathml_event(namespace: Option<&[u8]>, event: &XmlEvent) -> (r: bool)
    ensures
        r == mathml_event(
            match namespace {
                Some(u) => Some(u@),
                None => None::<Seq<u8>>,
            },
            event@,
        ),
{
    let tag = match event {
        XmlEvent::Start(tag) => tag,
        XmlEvent::Empty(tag) => tag,
        _ => {
            return false;
        },
    };
    let uri = match namespace {
        Some(u) => u,
        None => {
            return false;
        },
    };
    if !chars_is(bytes_text(uri).as_slice(), "http://www.w3.org/1998/Math/MathML") {
        return false;
    }
    let name = tag.name.as_slice();
    let n = name.len();
    let mut i: usize = 0;
    while i < n && name[i] != 58u8
        invariant
            n == name@.len(),
            i <= n,
            after_first_colon(name@, i as int) == after_first_colon(name@, 0),
        decreases n - i,
    {
        i = i + 1;
    }
    let local = if i < n {
        &name[i + 1..n]
    } else {
        name
    };
    assert(local@ == after_first_colon(name@, 0));
    chars_is(bytes_text(local).as_slice(), "math")
}

/// What a check of a document's events comes to.
pub enum ScanOutcome {
    /// The document passes.
    Pass,
    /// The message of an XML error.
    Xml(Seq<char>),
    /// The message of an unsupported construct.
    Refused(Seq<char>),
}

/// Whether a check's result is the outcome.
pub open spec fn scan_result(r: Result<(), Error>, o: ScanOutcome) -> bool {
    match o {
        ScanOutcome::Pass => r is Ok,
        ScanOutcome::Xml(m) => r matches Err(Error::Xml(e)) && e@ == m,
        ScanOutcome::Refused(m) => r matches Err(Error::UnsupportedEpub(e)) && e@ == m,
    }
}

/// The MathML check over the resolved events from the `index`-th on, with
/// at most `budget` more events before the end.
pub open spec fn mathml_read(input: Seq<u8>, index: nat, budget: nat) -> ScanOutcome
    decreases budget,
{
    match resolved_event_at(input, index) {
        Err(m) => ScanOutcome::Xml(m),
        Ok((_, XmlEventView::Eof)) => ScanOutcome::Pass,
        Ok((ns, e)) => if mathml_event(ns, e) {
            ScanOutcome::Refused(mathml_message())
        } else if budget == 0 {
            ScanOutcome::Xml(unending_xml())
        } else {
            mathml_read(input, index + 1, (budget - 1) as nat)
        },
    }
}

/// The message of a document with MathML.
pub open spec fn mathml_message() -> Seq<char> {
    "MathML is unsupported by the KF8 projection"@
}

/// Reject MathML: a `math` element in the MathML namespace is
/// unsupported; a document that does not read as XML is an XML error.
pub fn reject_mathml(source: &str) -> (r: Result<(), Error>)
    ensures
        scan_result(r, mathml_read(source.spec_bytes(), 0, source.spec_bytes().len())),
{
    let bytes = source.as_bytes();
    let mut events = ResolvedXmlEvents::new(bytes);
    let mut budget = bytes.len();
    loop
        invariant_except_break
            mathml_read(bytes@, events.count(), budget as nat) == mathml_read(bytes@, 0, bytes@.len()),
        invariant
            events.input() == bytes@,
            bytes@ == source.spec_bytes(),
            budget <= bytes@.len(),
        ensures
            mathml_read(bytes@, 0, bytes@.len()) == ScanOutcome::Pass,
        decreases budget,
    {
        let (namespace, event) = match events.next() {
            Ok(pair) => pair,
            Err(m) => {
                return Err(Error::Xml(m));
            },
        };
        if let XmlEvent::Eof = event {
            break;
        }
        let ns = match &namespace {
            Some(u) => Some(u.as_slice()),
            None => None,
        };
        if is_mathml_event(ns, &event) {
            return Err(Error::UnsupportedEpub("MathML is unsupported by the KF8 projection".to_owned()));
        }
        if budget == 0 {
            return Err(Error::Xml("XML reader reported more events than its input has bytes".to_owned()));
        }
        budget = budget - 1;
    }
    Ok(())
}

/// Whether a tag is an `img` or `source` whose `srcset` has a
/// package-local candidate.
pub open spec fn tag_srcset_violation(tag: XmlTagView) -> bool {
    let n = lower_chars(local_name_of(tag.name));
    (n == "img"@ || n == "source"@) && some_and(attr_value(tag, "srcset"@), |v: Seq<char>| srcset_local(v))
}

/// Whether an event is a start or empty tag with an unsupported `srcset`.
pub open spec fn srcset_event(event: XmlEventView) -> bool {
    match event {
        XmlEventView::Start(tag) => tag_srcset_violation(tag),
        XmlEventView::Empty(tag) => tag_srcset_violation(tag),
        _ => false,
    }
}

/// Whether an event is an `img` or `source` tag whose `srcset` has a
/// package-local candidate.
pub fn is_srcset_violation(event: &XmlEvent) -> (r: bool)
    ensures
        r == srcset_event(event@),
{
    let tag = match event {
        XmlEvent::Start(tag) => tag,
        XmlEvent::Empty(tag) => tag,
        _ => {
            return false;
        },
    };
    let name = local_name(tag.name.as_slice());
    if !(str_eq_lit(name.as_str(), "img") || str_eq_lit(name.as_str(), "source")) {
        return false;
    }
    match attr(tag, "srcset") {
        Some(v) => srcset_has_package_local_candidate(v.as_str()),
        None => false,
    }
}

/// The message of an unsupported `srcset`.
pub open spec fn srcset_message() -> Seq<char> {
    "G3-19 picture/source srcset with package-local candidate is unsupported by the KF8 projection"@
}

/// The `srcset` check over the events from the `index`-th on, with at most
/// `budget` more events before the end.
pub open spec fn srcset_read(input: Seq<u8>, index: nat, budget: nat) -> ScanOutcome
    decreases budget,
{
    match xml_event_at(input, false, index) {
        Err(m) => ScanOutcome::Xml(m),
        Ok(XmlEventView::Eof) => ScanOutcome::Pass,
        Ok(e) => if srcset_event(e) {
            ScanOutcome::Refused(srcset_message())
        } else if budget == 0 {
            ScanOutcome::Xml(unending_xml())
        } else {
            srcset_read(input, index + 1, (budget - 1) as nat)
        },
    }
}

/// Reject `img` and `source` tags whose `srcset` has a package-local
/// candidate.
pub fn reject_unsupported_srcset(source: &str) -> (r: Result<(), Error>)
    ensures
        scan_result(r, srcset_read(source.spec_bytes(), 0, source.spec_bytes().len())),
{
    let bytes = source.as_bytes();
    let mut events = XmlEvents::new(bytes, false);
    let mut budget = bytes.len();
    loop
        invariant_except_break
            srcset_read(bytes@, events.count(), budget as nat) == srcset_read(bytes@, 0, bytes@.len()),
        invariant
            events.input() == bytes@,
            bytes@ == source.spec_bytes(),
            !events.trims(),
            budget <= bytes@.len(),
        ensures
            srcset_read(bytes@, 0, bytes@.len()) == ScanOutcome::Pass,
        decreases budget,
    {
        let event = match events.next() {
            Ok(e) => e,
            Err(m) => {
                return Err(Error::Xml(m));
            },
        };
        if let XmlEvent::Eof = event {
            break;
        }
        if is_srcset_violation(&event) {
            return Err(Error::UnsupportedEpub(
                "G3-19 picture/source srcset with package-local candidate is unsupported by the KF8 projection".to_owned(),
            ));
        }
        if budget == 0 {
            return Err(Error::Xml("XML reader reported more events than its input has bytes".to_owned()));
        }
        budget = budget - 1;
    }
    Ok(())
}

/// The index of the first manifest item from `i` on whose normalized href
/// is `path`.
pub open spec fn manifest_item_at(manifest: Seq<ManifestItemView>, path: Seq<char>, i: int) -> Option<int>
    decreases manifest.len() - i,
{
    if i < 0 || i >= manifest.len() {
        None
    } else if normalize_spec(manifest[i].href) == path {
        Some(i)
    } else {
        manifest_item_at(manifest, path, i + 1)
    }
}

pub proof fn lemma_manifest_item_at(manifest: Seq<ManifestItemView>, path: Seq<char>, i: int)
    requires
        0 <= i,
    ensures
        manifest_item_at(manifest, path, i) matches Some(k) ==> i <= k < manifest.len(),
    decreases manifest.len() - i,
{
    if i < manifest.len() && normalize_spec(manifest[i].href) != path {
        lemma_manifest_item_at(manifest, path, i + 1);
    }
}

/// The id of the manifest item that a tag's `object` target is, when that
/// item's media type has no KF8 projection.
pub open spec fn tag_object_violation(tag: XmlTagView, document_href: Seq<char>, manifest: Seq<ManifestItemView>) -> Option<
    Seq<char>,
> {
    if lower_chars(local_name_of(tag.name)) == "object"@ {
        match attr_value(tag, "data"@) {
            Some(target) => match resolve_spec(document_href, target) {
                Some(resolved) => match manifest_item_at(manifest, resolved, 0) {
                    Some(k) => if object_projectable(manifest[k].media_type) {
                        None
                    } else {
                        Some(manifest[k].id)
                    },
                    None => None,
                },
                None => None,
            },
            None => None,
        }
    } else {
        None
    }
}

/// The unsupported object target of an event, by its manifest id.
pub open spec fn object_event(event: XmlEventView, document_href: Seq<char>, manifest: Seq<ManifestItemView>) -> Option<
    Seq<char>,
> {
    match event {
        XmlEventView::Start(tag) => tag_object_violation(tag, document_href, manifest),
        XmlEventView::Empty(tag) => tag_object_violation(tag, document_href, manifest),
        _ => None,
    }
}

/// The manifest id of an `object` tag's target when that target's media
/// type has no KF8 projection.
pub fn object_violation(event: &XmlEvent, document_href: &str, manifest: &[ManifestItem]) -> (r: Option<String>)
    ensures
        opt_text(r) == object_event(event@, document_href@, manifest_views(manifest@)),
{
    let ghost mv = manifest_views(manifest@);
    let tag = match event {
        XmlEvent::Start(tag) => tag,
        XmlEvent::Empty(tag) => tag,
        _ => {
            return None;
        },
    };
    let name = local_name(tag.name.as_slice());
    if !str_eq_lit(name.as_str(), "object") {
        return None;
    }
    let target = match attr(tag, "data") {
        Some(t) => t,
        None => {
            return None;
        },
    };
    let resolved = match resolve_path(document_href, target.as_str()) {
        Some(p) => p,
        None => {
            return None;
        },
    };
    let n = manifest.len();
    let mut i: usize = 0;
    proof {
        lemma_manifest_item_at(mv, resolved@, 0);
    }
    assert(object_event(event@, document_href@, mv) == match manifest_item_at(mv, resolved@, 0) {
        Some(k) => if object_projectable(mv[k].media_type) {
            None
        } else {
            Some(mv[k].id)
        },
        None => None,
    });
    while i < n
        invariant
            n == manifest@.len(),
            mv == manifest_views(manifest@),
            object_event(event@, document_href@, mv) == match manifest_item_at(mv, resolved@, 0) {
                Some(k) => if object_projectable(mv[k].media_type) {
                    None
                } else {
                    Some(mv[k].id)
                },
                None => None,
            },
            i <= n,
            manifest_item_at(mv, resolved@, i as int) == manifest_item_at(mv, resolved@, 0),
        decreases n - i,
    {
        let item = &manifest[i];
        assert(mv[i as int] == item@);
        let path = normalize_path_lossy(item.href.as_str());
        if str_eq_lit(path.as_str(), resolved.as_str()) {
            if is_object_projectable_media_type(item.media_type.as_str()) {
                return None;
            }
            return Some(item.id.clone());
        }
        i = i + 1;
    }
    None
}

/// The message of an object target without KF8 projection.
pub open spec fn object_message(id: Seq<char>) -> Seq<char> {
    "G6-22 generic non-image object resource "@ + id + " is unsupported by the KF8 projection"@
}

/// The message of an object target without KF8 projection.
pub fn object_violation_message(id: &str) -> (r: String)
    ensures
        r@ == object_message(id@),
{
    let mut out: Vec<char> = Vec::new();
    push_str_chars(&mut out, "G6-22 generic non-image object resource ");
    push_str_chars(&mut out, id);
    push_str_chars(&mut out, " is unsupported by the KF8 projection");
    string_from_chars(out.as_slice())
}

/// The object check over the events from the `index`-th on, with at most
/// `budget` more events before the end.
pub open spec fn object_read(input: Seq<u8>, document_href: Seq<char>, manifest: Seq<ManifestItemView>, index: nat, budget: nat) -> ScanOutcome
    decreases budget,
{
    match xml_event_at(input, false, index) {
        Err(m) => ScanOutcome::Xml(m),
        Ok(XmlEventView::Eof) => ScanOutcome::Pass,
        Ok(e) => match object_event(e, document_href, manifest) {
            Some(id) => ScanOutcome::Refused(object_message(id)),
            None => if budget == 0 {
                ScanOutcome::Xml(unending_xml())
            } else {
                object_read(input, document_href, manifest, index + 1, (budget - 1) as nat)
            },
        },
    }
}

/// The `srcset` and object checks in one pass over the events from the
/// `index`-th on, with at most `budget` more events before the end and
/// `object` the first object violation so far: a `srcset` violation ends
/// the pass, an object violation is reported at the end.
pub open spec fn srcset_object_read(
    input: Seq<u8>,
    document_href: Seq<char>,
    manifest: Seq<ManifestItemView>,
    index: nat,
    budget: nat,
    object: Option<Seq<char>>,
) -> ScanOutcome
    decreases budget,
{
    match xml_event_at(input, false, index) {
        Err(m) => ScanOutcome::Xml(m),
        Ok(XmlEventView::Eof) => match object {
            Some(id) => ScanOutcome::Refused(object_message(id)),
            None => ScanOutcome::Pass,
        },
        Ok(e) => if srcset_event(e) {
            ScanOutcome::Refused(srcset_message())
        } else if budget == 0 {
            ScanOutcome::Xml(unending_xml())
        } else {
            srcset_object_read(
                input,
                document_href,
                manifest,
                index + 1,
                (budget - 1) as nat,
                if object is None {
                    object_event(e, document_href, manifest)
                } else {
                    object
                },
            )
        },
    }
}

/// Reject `object` tags whose package target has a media type without KF8
/// projection.
pub fn reject_unsupported_generic_object(source: &str, document_href: &str, manifest: &[ManifestItem]) -> (r: Result<
    (),
    Error,
>)
    ensures
        scan_result(
            r,
            object_read(source.spec_bytes(), document_href@, manifest_views(manifest@), 0, source.spec_bytes().len()),
        ),
{
    let bytes = source.as_bytes();
    let mut events = XmlEvents::new(bytes, false);
    let mut budget = bytes.len();
    loop
        invariant_except_break
            object_read(bytes@, document_href@, manifest_views(manifest@), events.count(), budget as nat)
                == object_read(bytes@, document_href@, manifest_views(manifest@), 0, bytes@.len()),
        invariant
            events.input() == bytes@,
            bytes@ == source.spec_bytes(),
            !events.trims(),
            budget <= bytes@.len(),
        ensures
            object_read(bytes@, document_href@, manifest_views(manifest@), 0, bytes@.len()) == ScanOutcome::Pass,
        decreases budget,
    {
        let event = match events.next() {
            Ok(e) => e,
            Err(m) => {
                return Err(Error::Xml(m));
            },
        };
        if let XmlEvent::Eof = event {
            break;
        }
        if let Some(id) = object_violation(&event, document_href, manifest) {
            return Err(Error::UnsupportedEpub(object_violation_message(id.as_str())));
        }
        if budget == 0 {
            return Err(Error::Xml("XML reader reported more events than its input has bytes".to_owned()));
        }
        budget = budget - 1;
    }
    Ok(())
}

/// Reject unsupported `srcset` candidates and object targets in one pass:
/// a `srcset` violation ends the pass at once, an object violation is
/// reported at the end of the input, the first one.
pub fn reject_unsupported_srcset_and_generic_object(source: &str, document_href: &str, manifest: &[ManifestItem]) -> (r: Result<
    (),
    Error,
>)
    ensures
        scan_result(
            r,
            srcset_object_read(
                source.spec_bytes(),
                document_href@,
                manifest_views(manifest@),
                0,
                source.spec_bytes().len(),
                None,
            ),
        ),
{
    let bytes = source.as_bytes();
    let mut events = XmlEvents::new(bytes, false);
    let mut budget = bytes.len();
    let mut object: Option<String> = None;
    loop
        invariant_except_break
            srcset_object_read(bytes@, document_href@, manifest_views(manifest@), events.count(), budget as nat, opt_text(object))
                == srcset_object_read(bytes@, document_href@, manifest_views(manifest@), 0, bytes@.len(), None),
        invariant
            events.input() == bytes@,
            bytes@ == source.spec_bytes(),
            !events.trims(),
            budget <= bytes@.len(),
        ensures
            srcset_object_read(bytes@, document_href@, manifest_views(manifest@), 0, bytes@.len(), None) == match opt_text(object) {
                Some(id) => ScanOutcome::Refused(object_message(id)),
                None => ScanOutcome::Pass,
            },
        decreases budget,
    {
        let event = match events.next() {
            Ok(e) => e,
            Err(m) => {
                return Err(Error::Xml(m));
            },
        };
        if let XmlEvent::Eof = event {
            break;
        }
        if is_srcset_violation(&event) {
            return Err(Error::UnsupportedEpub(
                "G3-19 picture/source srcset with package-local candidate is unsupported by the KF8 projection".to_owned(),
            ));
        }
        if object.is_none() {
            object = object_violation(&event, document_href, manifest);
        }
        if budget == 0 {
            return Err(Error::Xml("XML reader reported more events than its input has bytes".to_owned()));
        }
        budget = budget - 1;
    }
    match object {
        Some(id) => Err(Error::UnsupportedEpub(object_violation_message(id.as_str()))),
        None => Ok(()),
    }
}

// ---------------------------------------------------------------------------
// Resource ids.

/// The resource id tried after `k` collisions: the base id, then
/// `{base}-collision-{k:04}`.
pub open spec fn collision_id(base: Seq<char>, k: nat) -> Seq<char> {
    if k == 0 {
        base
    } else {
        base + "-collision-"@ + decimal(k, 4)
    }
}

/// Distinct collision counts give distinct ids.
pub proof fn lemma_collision_ids_distinct(base: Seq<char>, j: nat, k: nat)
    requires
        j < k,
    ensures
        collision_id(base, j) != collision_id(base, k),
{
    reveal_strlit("-collision-");
    let p = base + "-collision-"@;
    if j == 0 {
        assert(collision_id(base, k).len() > base.len());
    } else if collision_id(base, j) == collision_id(base, k) {
        let a = collision_id(base, j);
        let b = collision_id(base, k);
        assert(a.subrange(p.len() as int, a.len() as int) =~= decimal(j, 4));
        assert(b.subrange(p.len() as int, b.len() as int) =~= decimal(k, 4));
        lemma_decimal_injective(j, k, 4);
    }
}

/// A resource id that no occupied id takes: the base id, or the first
/// `{base}-collision-{k:04}` that is free.
pub fn unique_resource_id(base_id: &str, occupied_ids: &[String]) -> (r: String)
    ensures
        !texts(occupied_ids@).contains(r@),
        exists|k: nat| {
            &&& r@ == collision_id(base_id@, k)
            &&& forall|j: nat| j < k ==> texts(occupied_ids@).contains(#[trigger] collision_id(base_id@, j))
        },
{
    let ghost occupied = texts(occupied_ids@);
    let mut k: usize = 0;
    let mut id = base_id.to_owned();
    loop
        invariant
            occupied == texts(occupied_ids@),
            occupied.len() == occupied_ids.len(),
            k <= occupied.len(),
            id@ == collision_id(base_id@, k as nat),
            forall|j: nat| j < k ==> occupied.contains(#[trigger] collision_id(base_id@, j)),
        decreases occupied.len() - k,
    {
        if !texts_contain(occupied_ids, id.as_str()) {
            return id;
        }
        proof {
            let cands = Seq::new((k + 1) as nat, |j: int| collision_id(base_id@, j as nat));
            assert forall|a: int, b: int| 0 <= a < cands.len() && 0 <= b < cands.len() && a != b implies cands[a]
                != cands[b] by {
                if a < b {
                    lemma_collision_ids_distinct(base_id@, a as nat, b as nat);
                } else {
                    lemma_collision_ids_distinct(base_id@, b as nat, a as nat);
                }
            }
            assert forall|j: int| 0 <= j < cands.len() implies occupied.contains(#[trigger] cands[j]) by {
                if j < k {
                    assert(occupied.contains(collision_id(base_id@, j as nat)));
                }
            }
            lemma_pigeonhole(cands, occupied);
        }
        k = k + 1;
        let mut chars = str_chars(base_id);
        push_str_chars(&mut chars, "-collision-");
        let digits = decimal_chars(k, 4);
        let mut t: usize = 0;
        let ghost head = chars@;
        while t < digits.len()
            invariant
                t <= digits@.len(),
                chars@ == head + digits@.subrange(0, t as int),
            decreases digits@.len() - t,
        {
            chars.push(digits[t]);
            t = t + 1;
            assert(chars@ =~= head + digits@.subrange(0, t as int));
        }
        assert(digits@.subrange(0, t as int) =~= digits@);
        id = string_from_chars(chars.as_slice());
    }
}


// ---------------------------------------------------------------------------
// The stylesheet inputs of a document.

/// What the stylesheet discovery of a document reads.
#[derive(Debug, Clone, PartialEq, Eq)]
pub enum StyleInput {
    /// The value of a `style` attribute.
    Attribute(String),
    /// The text of a `style` element.
    Element(String),
    /// The href of a stylesheet `link`, the first time the document links it.
    Link(String),
}

/// A stylesheet input as mathematical values.
pub enum StyleInputView {
    Attribute(Seq<char>),
    Element(Seq<char>),
    Link(Seq<char>),
}

impl View for StyleInput {
    type V = StyleInputView;

    open spec fn view(&self) -> StyleInputView {
        match self {
            StyleInput::Attribute(v) => StyleInputView::Attribute(v@),
            StyleInput::Element(v) => StyleInputView::Element(v@),
            StyleInput::Link(v) => StyleInputView::Link(v@),
        }
    }
}

/// The message of a tag that does not end.
pub open spec fn css_scan_message() -> Seq<char> {
    "malformed XHTML tag while scanning CSS resources"@
}

/// The message of a `style` element that is never closed.
pub open spec fn unclosed_style_message() -> Seq<char> {
    "inline style element has no closing tag"@
}

/// Inputs found before a scan's rest.
pub open spec fn inputs_then(
    a: Seq<StyleInputView>,
    rest: (Seq<StyleInputView>, Option<Seq<char>>),
) -> (Seq<StyleInputView>, Option<Seq<char>>) {
    (a + rest.0, rest.1)
}

/// The text of the bytes `b[from..to]`.
pub open spec fn byte_text(b: Seq<u8>, from: int, to: int) -> Seq<char> {
    decode_utf8(b.subrange(from, to))
}

/// What the start tag `b[start..=te]`, named `b[ns..ne]`, gives the
/// stylesheet discovery, `seen` holding the hrefs of the stylesheet links
/// met before: the value of its `style` attribute; for a `style` element,
/// its text; for a `link` whose `rel` names a stylesheet, its href the
/// first time. Then where the scan goes on, with the hrefs seen by then, or
/// the message it stops with: after a script's text, after a `style`
/// element's closing tag, else after the tag.
pub open spec fn tag_step(b: Seq<u8>, start: int, te: int, ns: int, ne: int, seen: Seq<Seq<char>>) -> (
    Seq<StyleInputView>,
    Result<(int, Seq<Seq<char>>), Seq<char>>,
) {
    let t = tag_text(b, start, te);
    let name = b.subrange(ns, ne);
    match tag_attr(t, "style"@) {
        Err(m) => (Seq::empty(), Err(m)),
        Ok(attr) => {
            let a = match attr {
                Some(v) => seq![StyleInputView::Attribute(v)],
                None => Seq::empty(),
            };
            if local_name_is(name, "script".spec_bytes()) {
                (a, Ok((script_resume(b, start, te), seen)))
            } else if local_name_is(name, "style".spec_bytes()) {
                if self_closing(t) {
                    (a, Ok((te + 1, seen)))
                } else {
                    match closing_tag_spec(b, te + 1, "style".spec_bytes()) {
                        None => (a, Err(unclosed_style_message())),
                        Some((cs, ce)) => (
                            a.push(StyleInputView::Element(byte_text(b, te + 1, cs))),
                            Ok((ce + 1, seen)),
                        ),
                    }
                }
            } else if local_name_is(name, "link".spec_bytes()) {
                match tag_attr(t, "rel"@) {
                    Err(m) => (a, Err(m)),
                    Ok(Some(rel)) => if token_from(rel, 0, "stylesheet"@) {
                        match tag_attr(t, "href"@) {
                            Err(m) => (a, Err(m)),
                            Ok(Some(h)) => if seen.contains(h) {
                                (a, Ok((te + 1, seen)))
                            } else {
                                (a.push(StyleInputView::Link(h)), Ok((te + 1, seen.push(h))))
                            },
                            Ok(None) => (a, Ok((te + 1, seen))),
                        }
                    } else {
                        (a, Ok((te + 1, seen)))
                    },
                    Ok(None) => (a, Ok((te + 1, seen))),
                }
            } else {
                (a, Ok((te + 1, seen)))
            }
        },
    }
}

pub proof fn lemma_tag_step(b: Seq<u8>, start: int, te: int, ns: int, ne: int, seen: Seq<Seq<char>>)
    requires
        b.len() <= usize::MAX,
        0 <= te < b.len(),
    ensures
        tag_step(b, start, te, ns, ne, seen).1 matches Ok((c, _)) ==> te < c <= b.len(),
{
    lemma_script_resume(b, start, te);
    lemma_raw_scan(
        b,
        te + 1,
        None,
        false,
        false,
        false,
        ascii_ci_eq("style".spec_bytes(), "script".spec_bytes()),
        "style".spec_bytes(),
        true,
    );
}

/// The stylesheet inputs of a document from `c` on, `seen` holding the hrefs
/// of the stylesheet links met before, and the message of the error where
/// the scan stops, if any. Comments are skipped, and so are closing tags;
/// each start tag gives what `tag_step` says. A tag that does not end stops
/// the scan.
pub open spec fn style_inputs_from(b: Seq<u8>, c: int, seen: Seq<Seq<char>>) -> (
    Seq<StyleInputView>,
    Option<Seq<char>>,
)
    decreases b.len() - c,
    when b.len() <= usize::MAX
{
    if c < 0 || c >= b.len() {
        (Seq::empty(), None)
    } else {
        proof {
            lemma_byte_pos(b, 60, c);
        }
        match byte_pos(b, 60, c) {
            None => (Seq::empty(), None),
            Some(start) => if comment_open_at(b, start) {
                proof {
                    lemma_comment_close_pos(b, start + 4);
                }
                style_inputs_from(b, html_comment_end(b, start), seen)
            } else {
                proof {
                    lemma_tag_end_from(b, start + 1, None);
                }
                match tag_end(b, start) {
                    None => (Seq::empty(), Some(css_scan_message())),
                    Some(te) => match tag_name_range(b, start, te, false) {
                        None => style_inputs_from(b, te + 1, seen),
                        Some((ns, ne, closing)) => if closing {
                            style_inputs_from(b, te + 1, seen)
                        } else {
                            proof {
                                lemma_tag_step(b, start, te, ns, ne, seen);
                            }
                            let step = tag_step(b, start, te, ns, ne, seen);
                            match step.1 {
                                Err(m) => (step.0, Some(m)),
                                Ok((c2, s2)) => inputs_then(step.0, style_inputs_from(b, c2, s2)),
                            }
                        },
                    },
                }
            },
        }
    }
}

/// What a start tag gives the stylesheet discovery, as `tag_step` says; a
/// newly seen href comes back with where the scan goes on.
fn style_tag_step(source: &str, start: usize, tag_end: usize, name_start: usize, name_end: usize, seen: &[String]) -> (r: (
    Vec<StyleInput>,
    Result<(usize, Option<String>), Error>,
))
    requires
        start < name_start <= name_end <= source.spec_bytes().len(),
        start < tag_end < source.spec_bytes().len(),
        source.spec_bytes()[start as int] == 60,
        source.spec_bytes()[tag_end as int] == 62,
    ensures
        r.0@.map_values(|x: StyleInput| x@) == tag_step(
            source.spec_bytes(),
            start as int,
            tag_end as int,
            name_start as int,
            name_end as int,
            texts(seen@),
        ).0,
        match tag_step(
            source.spec_bytes(),
            start as int,
            tag_end as int,
            name_start as int,
            name_end as int,
            texts(seen@),
        ).1 {
            Ok((c, s)) => r.1 matches Ok((c2, added)) && c2 == c && s == (match added {
                Some(h) => texts(seen@).push(h@),
                None => texts(seen@),
            }),
            Err(m) => r.1 matches Err(Error::InvalidXhtmlCss(e)) && e@ == m,
        },
{
    let bytes = source.as_bytes();
    let n = bytes.len();
    let ghost b = bytes@;
    let ghost sv = texts(seen@);
    let ghost t = tag_text(b, start as int, tag_end as int);
    let mut out: Vec<StyleInput> = Vec::new();
    let attr = match tag_attribute(source, start, tag_end, "style") {
        Ok(v) => v,
        Err(e) => {
            assert(out@.map_values(|x: StyleInput| x@) =~= Seq::<StyleInputView>::empty());
            return (out, Err(e));
        },
    };
    match attr {
        Some(v) => {
            out.push(StyleInput::Attribute(v));
        },
        None => {},
    }
    let ghost a = match tag_attr(t, "style"@) {
        Ok(Some(v)) => seq![StyleInputView::Attribute(v)],
        _ => Seq::<StyleInputView>::empty(),
    };
    assert(out@.map_values(|x: StyleInput| x@) =~= a);
    if byte_local_name_is(bytes, name_start, name_end, "script".as_bytes()) {
        proof {
            lemma_script_resume(b, start as int, tag_end as int);
        }
        let next = if is_self_closing(source, start, tag_end) {
            tag_end + 1
        } else {
            match raw_text_end(source, tag_end, "script") {
                Some(e) => e,
                None => n,
            }
        };
        assert(next == script_resume(b, start as int, tag_end as int));
        return (out, Ok((next, None)));
    }
    if byte_local_name_is(bytes, name_start, name_end, "style".as_bytes()) {
        if is_self_closing(source, start, tag_end) {
            return (out, Ok((tag_end + 1, None)));
        }
        proof {
            lemma_raw_scan(
                b,
                tag_end + 1,
                None,
                false,
                false,
                false,
                ascii_ci_eq("style".spec_bytes(), "script".spec_bytes()),
                "style".spec_bytes(),
                true,
            );
        }
        return match closing_tag(source, tag_end + 1, "style") {
            None => (out, Err(Error::InvalidXhtmlCss("inline style element has no closing tag".to_owned()))),
            Some((close_start, close_end)) => {
                let body = source_text(source, tag_end + 1, close_start);
                out.push(StyleInput::Element(body));
                assert(out@.map_values(|x: StyleInput| x@) =~= a.push(
                    StyleInputView::Element(byte_text(b, tag_end + 1, close_start as int)),
                ));
                (out, Ok((close_end + 1, None)))
            },
        };
    }
    if byte_local_name_is(bytes, name_start, name_end, "link".as_bytes()) {
        let rel = match tag_attribute(source, start, tag_end, "rel") {
            Ok(v) => v,
            Err(e) => {
                return (out, Err(e));
            },
        };
        let stylesheet = match &rel {
            Some(v) => is_stylesheet_rel(v.as_str()),
            None => false,
        };
        if stylesheet {
            let href = match tag_attribute(source, start, tag_end, "href") {
                Ok(v) => v,
                Err(e) => {
                    return (out, Err(e));
                },
            };
            match href {
                Some(h) => {
                    if !crate::strings::texts_contain(seen, h.as_str()) {
                        let added = h.clone();
                        out.push(StyleInput::Link(h));
                        assert(out@.map_values(|x: StyleInput| x@) =~= a.push(StyleInputView::Link(added@)));
                        return (out, Ok((tag_end + 1, Some(added))));
                    }
                },
                None => {},
            }
        }
    }
    (out, Ok((tag_end + 1, None)))
}

/// The text of `source[from..to]`, where the bytes before `from` and at `to`
/// are ASCII.
fn source_text(source: &str, from: usize, to: usize) -> (r: String)
    requires
        0 < from <= to < source.spec_bytes().len(),
        source.spec_bytes()[from - 1] < 0x80,
        source.spec_bytes()[to as int] < 0x80,
    ensures
        r@ == byte_text(source.spec_bytes(), from as int, to as int),
{
    let bytes = source.as_bytes();
    proof {
        vstd::utf8::encode_utf8_valid_utf8(source@);
        lemma_ascii_boundary(bytes@, from - 1);
        lemma_ascii_boundary(bytes@, to as int);
        lemma_utf8_slice(bytes@, from as int, to as int);
    }
    let slice = &bytes[from..to];
    assert(slice@ == bytes@.subrange(from as int, to as int));
    match utf8_str(slice) {
        Some(text) => {
            proof {
                vstd::utf8::encode_utf8_decode_utf8(text@);
            }
            text.to_owned()
        },
        None => String::new(),
    }
}

/// The stylesheet inputs of a document in source order, as
/// `style_inputs_from` says, and where the scan stopped: `Ok` at the end of
/// the document, else the error. The inputs found before an error are kept,
/// so that each can be checked in the order the document gives it.
#[verifier::spinoff_prover]
#[verifier::rlimit(40)]
pub fn document_style_inputs(source: &str) -> (r: (Vec<StyleInput>, Result<(), Error>))
    ensures
        r.0@.map_values(|x: StyleInput| x@) == style_inputs_from(source.spec_bytes(), 0, Seq::empty()).0,
        match style_inputs_from(source.spec_bytes(), 0, Seq::empty()).1 {
            None => r.1 is Ok,
            Some(m) => r.1 matches Err(Error::InvalidXhtmlCss(e)) && e@ == m,
        },
{
    let bytes = source.as_bytes();
    let n = bytes.len();
    let ghost b = bytes@;
    let ghost target = style_inputs_from(b, 0, Seq::empty());
    let mut out: Vec<StyleInput> = Vec::new();
    let mut seen: Vec<String> = Vec::new();
    let mut cursor: usize = 0;
    assert(texts(seen@) =~= Seq::<Seq<char>>::empty());
    assert(out@.map_values(|x: StyleInput| x@) =~= Seq::<StyleInputView>::empty());
    assert(inputs_then(Seq::<StyleInputView>::empty(), target) == target) by {
        assert(Seq::<StyleInputView>::empty() + target.0 =~= target.0);
    }
    while cursor < n
        invariant
            b == bytes@,
            b == source.spec_bytes(),
            n == b.len(),
            target == style_inputs_from(b, 0, Seq::empty()),
            inputs_then(out@.map_values(|x: StyleInput| x@), style_inputs_from(b, cursor as int, texts(seen@)))
                == target,
        ensures
            out@.map_values(|x: StyleInput| x@) == target.0,
            target.1 is None,
        decreases n - cursor,
    {
        let ghost so_far = out@.map_values(|x: StyleInput| x@);
        let ghost sv = texts(seen@);
        let start = match find_byte_from(bytes, 60, cursor) {
            Some(s) => s,
            None => {
                assert(style_inputs_from(b, cursor as int, sv) == (Seq::<StyleInputView>::empty(), None::<Seq<char>>));
                assert(so_far + Seq::<StyleInputView>::empty() =~= so_far);
                break;
            },
        };
        if n - start >= 4 && bytes[start + 1] == 33 && bytes[start + 2] == 45 && bytes[start + 3] == 45 {
            cursor = skip_html_comment(bytes, start);
            continue;
        }
        proof {
            lemma_tag_end_from(b, start + 1, None);
        }
        let tag_end = match byte_tag_end(bytes, start) {
            Some(t) => t,
            None => {
                assert(so_far + Seq::<StyleInputView>::empty() =~= so_far);
                return (out, Err(Error::InvalidXhtmlCss("malformed XHTML tag while scanning CSS resources".to_owned())));
            },
        };
        assert(crate::xhtml::scan::tag_end(b, start as int) == Some(tag_end as int));
        proof {
            lemma_tag_name_range(b, start as int, tag_end as int, false);
        }
        let (name_start, name_end, closing) = match byte_tag_name_range(bytes, start, tag_end, false) {
            None => {
                cursor = tag_end + 1;
                continue;
            },
            Some(v) => v,
        };
        if closing {
            cursor = tag_end + 1;
            continue;
        }
        proof {
            lemma_tag_step(b, start as int, tag_end as int, name_start as int, name_end as int, sv);
        }
        let (mut items, next) = style_tag_step(source, start, tag_end, name_start, name_end, seen.as_slice());
        let ghost step = tag_step(b, start as int, tag_end as int, name_start as int, name_end as int, sv);
        out.append(&mut items);
        assert(out@.map_values(|x: StyleInput| x@) =~= so_far + step.0);
        match next {
            Err(e) => {
                return (out, Err(e));
            },
            Ok((c2, added)) => {
                match added {
                    Some(h) => {
                        seen.push(h);
                        assert(texts(seen@) =~= step.1->Ok_0.1);
                    },
                    None => {},
                }
                assert(so_far + step.0 + style_inputs_from(b, c2 as int, texts(seen@)).0 =~= so_far + (step.0
                    + style_inputs_from(b, c2 as int, texts(seen@)).0));
                cursor = c2;
            },
        }
    }
    (out, Ok(()))
}


/// A script type that names JavaScript: trimmed and in any ASCII case,
/// one of the JavaScript MIME types or `module`.
pub open spec fn javascript_type(ty: Seq<char>) -> bool {
    let l = lower_chars(trim_spec(ty));
    ||| l == "text/javascript"@
    ||| l == "application/javascript"@
    ||| l == "text/ecmascript"@
    ||| l == "application/ecmascript"@
    ||| l == "module"@
}

/// A script of a JavaScript type is never an inert data block; a script
/// with a non-empty type of any other kind is one; a script without a
/// type, or with an empty one, is not.
pub proof fn lemma_script_data_blocks(ty: Seq<char>)
    ensures
        javascript_type(ty) ==> !data_block(Some(ty)),
        !javascript_type(ty) && trim_spec(ty).len() > 0 ==> data_block(Some(ty)),
        trim_spec(ty).len() == 0 ==> !data_block(Some(ty)),
        !data_block(None),
{
}

/// An inline script tag (no `src`, `href` or `xlink:href`) whose type
/// names JavaScript fails the scripting check as an inline script.
pub proof fn lemma_inline_javascript_refused(t: Seq<char>, ty: Seq<char>)
    requires
        tag_attr(t, "src"@) == Ok::<Option<Seq<char>>, Seq<char>>(None),
        tag_attr(t, "href"@) == Ok::<Option<Seq<char>>, Seq<char>>(None),
        tag_attr(t, "xlink:href"@) == Ok::<Option<Seq<char>>, Seq<char>>(None),
        tag_attr(t, "type"@) == Ok::<Option<Seq<char>>, Seq<char>>(Some(ty)),
        javascript_type(ty),
    ensures
        script_check(t) == Err::<(), (bool, Seq<char>)>((true, inline_script_message())),
{
}

} // verus!
