//! The viewport declaration of fixed-layout content documents.
//!
//! A viewport `meta` must carry one `name` and one `content` attribute,
//! and its content must give `width` and `height`, once each, as positive
//! numbers or device dimensions. Whether a dimension token is a positive
//! finite number is a floating-point question; the caller answers it for
//! each token and the rest is decided here.

use vstd::prelude::*;
use vstd::string::StringSliceAdditionalSpecFns;
use crate::epub::opf::{attr, attr_value, local_name_of, local_name_ref, ws_tokens, split_whitespace};
use crate::error::Error;
use crate::strings::{lower_chars, lower_eq, push_str_chars, str_chars, string_from_chars, texts};
use crate::xml::{XmlAttributeView, XmlEvent, XmlEventView, XmlEvents, XmlTag, XmlTagView, xml_event_at};
use crate::strings::{opt_text, trim_spec, trim_str};

verus! {

/// The message of a viewport declaration the projection refuses.
pub open spec fn viewport_message(detail: Seq<char>) -> Seq<char> {
    "unsupported fixed-page viewport: "@ + detail
}

/// The error of a refused viewport declaration.
fn viewport_error(detail: &str) -> (e: Error)
    ensures
        e matches Error::UnsupportedEpub(m) && m@ == viewport_message(detail@),
{
    let mut m: Vec<char> = Vec::new();
    push_str_chars(&mut m, "unsupported fixed-page viewport: ");
    push_str_chars(&mut m, detail);
    Error::UnsupportedEpub(string_from_chars(m.as_slice()))
}

/// Whether the attribute's local name is `name` up to ASCII case.
pub open spec fn named(a: XmlAttributeView, name: Seq<char>) -> bool {
    lower_chars(local_name_of(a.key)) == lower_chars(name)
}

/// The number of well-formed attributes from `i` on named `name`.
pub open spec fn named_count(attrs: Seq<Option<XmlAttributeView>>, name: Seq<char>, i: int) -> nat
    decreases attrs.len() - i,
{
    if i < 0 || i >= attrs.len() {
        0
    } else {
        (match attrs[i] {
            Some(a) => if named(a, name) { 1nat } else { 0nat },
            None => 0nat,
        }) + named_count(attrs, name, i + 1)
    }
}

/// The value of the first well-formed attribute from `i` on named `name`:
/// `None` when there is none, `Some(None)` when its value does not unescape.
pub open spec fn first_named(attrs: Seq<Option<XmlAttributeView>>, name: Seq<char>, i: int) -> Option<Option<Seq<char>>>
    decreases attrs.len() - i,
{
    if i < 0 || i >= attrs.len() {
        None
    } else {
        match attrs[i] {
            Some(a) => if named(a, name) { Some(a.value) } else { first_named(attrs, name, i + 1) },
            None => first_named(attrs, name, i + 1),
        }
    }
}

/// What the attributes of a viewport `meta` give: its content, or the
/// message of what is wrong with them.
pub open spec fn viewport_content_of(tag: XmlTagView) -> Result<Seq<char>, Seq<char>> {
    if named_count(tag.attributes, "name"@, 0) != 1 {
        Err("viewport must have exactly one name attribute"@)
    } else {
        match first_named(tag.attributes, "content"@, 0) {
            Some(Some(c)) => if named_count(tag.attributes, "content"@, 0) != 1 {
                Err("viewport must have exactly one content attribute"@)
            } else {
                Ok(c)
            },
            _ => Err("viewport must have exactly one content attribute"@),
        }
    }
}

/// Count the attributes named `name` and find the first one's value.
fn scan_named(tag: &XmlTag, name: &str) -> (r: (usize, Option<Option<String>>))
    ensures
        r.0 == named_count(tag@.attributes, name@, 0),
        match r.1 {
            None => first_named(tag@.attributes, name@, 0) is None,
            Some(None) => first_named(tag@.attributes, name@, 0) == Some(None::<Seq<char>>),
            Some(Some(v)) => first_named(tag@.attributes, name@, 0) == Some(Some(v@)),
        },
{
    let ghost attrs = tag@.attributes;
    let wanted = str_chars(name);
    let n = tag.attributes.len();
    let mut count: usize = 0;
    let mut first: Option<Option<String>> = None;
    let mut i: usize = n;
    while i > 0
        invariant
            attrs == tag@.attributes,
            wanted@ == name@,
            n == attrs.len(),
            i <= n,
            count == named_count(attrs, name@, i as int),
            count <= n - i,
            match first {
                None => first_named(attrs, name@, i as int) is None,
                Some(None) => first_named(attrs, name@, i as int) == Some(None::<Seq<char>>),
                Some(Some(v)) => first_named(attrs, name@, i as int) == Some(Some(v@)),
            },
        decreases i,
    {
        i = i - 1;
        assert(attrs[i as int] == crate::xml::attribute_view(tag.attributes@[i as int]));
        match &tag.attributes[i] {
            Some(a) => {
                let local = local_name_ref(a.key.as_slice());
                let lw = crate::strings::lower_vec(wanted.as_slice());
                let ll = crate::strings::lower_vec(str_chars(local.as_str()).as_slice());
                assert(attrs[i as int] == Some(a@));
                assert(lw@ == lower_chars(name@));
                assert(local@ == local_name_of(a.key@));
                assert(ll@ == lower_chars(local_name_of(a@.key)));
                assert(named(a@, name@) == (ll@ == lw@));
                if chars_equal(ll.as_slice(), lw.as_slice()) {
                    count = count + 1;
                    first = Some(match &a.value {
                        Some(v) => Some(v.clone()),
                        None => None,
                    });
                }
            },
            None => {},
        }
    }
    (count, first)
}

fn chars_equal(a: &[char], b: &[char]) -> (r: bool)
    ensures
        r == (a@ == b@),
{
    if a.len() != b.len() {
        return false;
    }
    let mut i: usize = 0;
    while i < a.len()
        invariant
            i <= a@.len(),
            a@.len() == b@.len(),
            forall|j: int| 0 <= j < i ==> a@[j] == b@[j],
        decreases a@.len() - i,
    {
        if a[i] != b[i] {
            return false;
        }
        i = i + 1;
    }
    assert(a@ =~= b@);
    true
}

/// The content of a viewport `meta`: it must have exactly one `name` and
/// exactly one `content` attribute, the first `content` value unescaping.
pub fn viewport_content(tag: &XmlTag) -> (r: Result<String, Error>)
    ensures
        match viewport_content_of(tag@) {
            Ok(c) => r matches Ok(s) && s@ == c,
            Err(m) => r matches Err(Error::UnsupportedEpub(e)) && e@ == viewport_message(m),
        },
{
    let (names, _) = scan_named(tag, "name");
    if names != 1 {
        return Err(viewport_error("viewport must have exactly one name attribute"));
    }
    let (contents, first) = scan_named(tag, "content");
    match first {
        Some(Some(c)) => {
            if contents != 1 {
                return Err(viewport_error("viewport must have exactly one content attribute"));
            }
            Ok(c)
        },
        _ => Err(viewport_error("viewport must have exactly one content attribute")),
    }
}

/// Whether `c` is ASCII whitespace.
pub open spec fn ascii_ws(c: char) -> bool {
    c == ' ' || c == '\t' || c == '\n' || c == '\x0C' || c == '\r'
}

/// What one character of viewport content becomes before splitting: `=`
/// stands apart, commas, semicolons and ASCII whitespace separate.
pub open spec fn viewport_piece(c: char) -> Seq<char> {
    if c == '=' {
        seq![' ', '=', ' ']
    } else if c == ',' || c == ';' || ascii_ws(c) {
        seq![' ']
    } else {
        seq![c]
    }
}

/// Viewport content with its separators normalized.
pub open spec fn viewport_normalized(s: Seq<char>) -> Seq<char>
    decreases s.len(),
{
    if s.len() == 0 {
        Seq::empty()
    } else {
        viewport_normalized(s.drop_last()) + viewport_piece(s.last())
    }
}

/// The tokens of viewport content: `key`, `=`, `value`, repeated.
pub fn viewport_tokens(content: &str) -> (r: Vec<String>)
    ensures
        texts(r@) == ws_tokens(viewport_normalized(content@), 0),
{
    let chars = str_chars(content);
    let mut out: Vec<char> = Vec::new();
    let mut i: usize = 0;
    while i < chars.len()
        invariant
            chars@ == content@,
            i <= chars@.len(),
            out@ == viewport_normalized(chars@.take(i as int)),
        decreases chars@.len() - i,
    {
        let c = chars[i];
        let ghost before = out@;
        if c == '=' {
            out.push(' ');
            out.push('=');
            out.push(' ');
        } else if c == ',' || c == ';' || c == ' ' || c == '\t' || c == '\n' || c == '\x0C' || c == '\r' {
            out.push(' ');
        } else {
            out.push(c);
        }
        proof {
            assert(chars@.take(i + 1).drop_last() =~= chars@.take(i as int));
            assert(out@ =~= before + viewport_piece(c));
        }
        i = i + 1;
    }
    assert(chars@.take(i as int) =~= content@);
    let normalized = string_from_chars(out.as_slice());
    split_whitespace(normalized.as_str())
}

/// The message of a malformed dimension token.
pub open spec fn malformed_token() -> Seq<char> {
    "viewport content has a malformed dimension token"@
}

/// Whether a lowercased key and value give a valid dimension, `positive`
/// telling whether the value is a positive finite number.
pub open spec fn valid_dimension(key: Seq<char>, value: Seq<char>, positive: bool) -> bool {
    (key == "width"@ && value == "device-width"@) || (key == "height"@ && value == "device-height"@) || positive
}

/// The first problem of the `key = value` triples from triple `k` on, with
/// `width` and `height` seen so far as given.
pub open spec fn viewport_triples(tokens: Seq<Seq<char>>, positive: Seq<bool>, k: int, width: bool, height: bool) -> Option<Seq<char>>
    decreases tokens.len() - 3 * k,
{
    if k < 0 || 3 * k + 3 > tokens.len() {
        if !width || !height {
            Some("viewport must provide both width and height dimensions"@)
        } else {
            None
        }
    } else {
        let key = lower_chars(tokens[3 * k]);
        let value = lower_chars(tokens[3 * k + 2]);
        if tokens[3 * k + 1] != "="@ || key.len() == 0 || value.len() == 0 {
            Some(malformed_token())
        } else if key == "width"@ || key == "height"@ {
            if !valid_dimension(key, value, positive[3 * k + 2]) {
                Some("viewport dimensions must be positive numbers or device dimensions"@)
            } else if (key == "width"@ && width) || (key == "height"@ && height) {
                Some("viewport dimensions must not be duplicated"@)
            } else {
                viewport_triples(tokens, positive, k + 1, width || key == "width"@, height || key == "height"@)
            }
        } else {
            viewport_triples(tokens, positive, k + 1, width, height)
        }
    }
}

/// The first problem of viewport tokens, if any.
pub open spec fn viewport_failure(tokens: Seq<Seq<char>>, positive: Seq<bool>) -> Option<Seq<char>> {
    if tokens.len() == 0 || tokens.len() % 3 != 0 {
        Some(malformed_token())
    } else {
        viewport_triples(tokens, positive, 0, false, false)
    }
}

/// Check the `key = value` triples of viewport content: both `width` and
/// `height` must be given, once each, as device dimensions or positive
/// numbers. `positive[i]` tells whether token `i`, ASCII-lowercased, parses
/// as a positive finite `f64`.
pub fn validate_viewport_tokens(tokens: &[String], positive: &[bool]) -> (r: Result<(), Error>)
    requires
        positive@.len() == tokens@.len(),
    ensures
        match viewport_failure(texts(tokens@), positive@) {
            None => r is Ok,
            Some(m) => r matches Err(Error::UnsupportedEpub(e)) && e@ == viewport_message(m),
        },
{
    let ghost tv = texts(tokens@);
    let n = tokens.len();
    if n == 0 || n % 3 != 0 {
        return Err(viewport_error("viewport content has a malformed dimension token"));
    }
    let mut width = false;
    let mut height = false;
    let mut k: usize = 0;
    while k < n / 3
        invariant
            tv == texts(tokens@),
            n == tokens@.len(),
            n == positive@.len(),
            n % 3 == 0,
            k <= n / 3,
            viewport_triples(tv, positive@, k as int, width, height) == viewport_triples(tv, positive@, 0, false, false),
        decreases n / 3 - k,
    {
        let ghost k0 = k as int;
        let ghost w0 = width;
        let ghost h0 = height;
        assert(3 * k + 3 <= n) by (nonlinear_arith)
            requires
                k < n / 3,
                n % 3 == 0,
        ;
        let a = 3 * k;
        let key = tokens[a].as_str();
        let eq = tokens[a + 1].as_str();
        let value = tokens[a + 2].as_str();
        proof {
            assert(tv[a as int] == key@);
            assert(tv[a + 1] == eq@);
            assert(tv[a + 2] == value@);
        }
        if !crate::strings::str_eq(eq, "=") || key.unicode_len() == 0 || value.unicode_len() == 0 {
            return Err(viewport_error("viewport content has a malformed dimension token"));
        }
        let is_width = lower_eq(key, "width");
        let is_height = lower_eq(key, "height");
        proof {
            let sk = lower_chars(tv[a as int]);
            assert(is_width == (sk == "width"@));
            assert(is_height == (sk == "height"@));
            assert(3 * (k as int) + 2 == a + 2);
        }
        if is_width || is_height {
            let valid = (is_width && lower_eq(value, "device-width")) || (is_height && lower_eq(value, "device-height"))
                || positive[a + 2];
            if !valid {
                return Err(viewport_error("viewport dimensions must be positive numbers or device dimensions"));
            }
            if (is_width && width) || (is_height && height) {
                return Err(viewport_error("viewport dimensions must not be duplicated"));
            }
            if is_width {
                width = true;
            } else {
                height = true;
            }
        }
        proof {
            let sk = lower_chars(tv[a as int]);
            let sv = lower_chars(tv[a + 2]);
            assert(sv.len() == value@.len());
            assert(sk.len() == key@.len());
            reveal_strlit("width");
            reveal_strlit("height");
            assert("width"@ != "height"@) by {
                assert("width"@.len() != "height"@.len());
            }
            assert(!(k0 < 0 || 3 * k0 + 3 > tv.len()));
            assert(tv[3 * k0 + 1] == "="@);
            assert(sk == lower_chars(tv[3 * k0]));
            assert(sv == lower_chars(tv[3 * k0 + 2]));
            assert(sk.len() != 0 && sv.len() != 0);
            assert(viewport_triples(tv, positive@, k0, w0, h0) == viewport_triples(tv, positive@, k0 + 1, width, height));
        }
        k = k + 1;
    }
    if !width || !height {
        return Err(viewport_error("viewport must provide both width and height dimensions"));
    }
    Ok(())
}

// ---------------------------------------------------------------------------
// Finding the viewport declarations of a document.

/// Whether a tag is a viewport `meta`: its local name is `meta` and its
/// `name` attribute is `viewport`, up to ASCII case and surrounding
/// whitespace.
pub open spec fn viewport_tag(tag: XmlTagView) -> bool {
    lower_chars(local_name_of(tag.name)) == "meta"@ && match attr_value(tag, "name"@) {
        Some(v) => lower_chars(trim_spec(v)) == "viewport"@,
        None => false,
    }
}

/// The next viewport `meta` from event `index` on, with the number of
/// events read once it is found; none at the end of the input; or the
/// message of the XML error. At most `budget` events more are read.
pub open spec fn viewport_next(input: Seq<u8>, index: nat, budget: nat) -> Result<Option<(XmlTagView, nat)>, Seq<char>>
    decreases budget,
{
    match xml_event_at(input, false, index) {
        Err(m) => Err(m),
        Ok(XmlEventView::Eof) => Ok(None),
        Ok(XmlEventView::Start(tag)) if viewport_tag(tag) => Ok(Some((tag, index + 1))),
        Ok(XmlEventView::Empty(tag)) if viewport_tag(tag) => Ok(Some((tag, index + 1))),
        Ok(_) => if budget == 0 {
            Err("XML reader reported more events than its input has bytes"@)
        } else {
            viewport_next(input, index + 1, (budget - 1) as nat)
        },
    }
}

fn is_viewport_tag(tag: &XmlTag) -> (r: bool)
    ensures
        r == viewport_tag(tag@),
{
    if !lower_eq(local_name_ref(tag.name.as_slice()).as_str(), "meta") {
        return false;
    }
    match attr(tag, "name") {
        Some(v) => lower_eq(trim_str(v.as_str()), "viewport"),
        None => false,
    }
}

/// A scan for the viewport declarations of a document: its events, read
/// without text trimming, and how many more may be read.
pub struct ViewportScan<'a> {
    events: XmlEvents<'a>,
    budget: usize,
}

impl<'a> ViewportScan<'a> {
    /// The bytes of the document.
    pub closed spec fn input(&self) -> Seq<u8> {
        self.events.input()
    }

    /// How many events have been read.
    pub closed spec fn count(&self) -> nat {
        self.events.count()
    }

    /// How many more events may be read.
    pub closed spec fn budget(&self) -> nat {
        self.budget as nat
    }

    /// Whether the events are read without text trimming.
    pub closed spec fn wf(&self) -> bool {
        !self.events.trims()
    }

    /// A scan of the document from its start, as many events allowed as it
    /// has bytes.
    pub fn new(source: &'a str) -> (r: ViewportScan<'a>)
        ensures
            r.wf(),
            r.input() == source.spec_bytes(),
            r.count() == 0,
            r.budget() == source.spec_bytes().len(),
    {
        let bytes = source.as_bytes();
        ViewportScan { events: XmlEvents::new(bytes, false), budget: bytes.len() }
    }

    /// Read on to the next viewport `meta`: the tag, or none at the end of
    /// the document; a document that does not read as XML is an XML error.
    pub fn next_tag(&mut self) -> (r: Result<Option<XmlTag>, Error>)
        requires
            old(self).wf(),
        ensures
            final(self).wf(),
            final(self).input() == old(self).input(),
            match viewport_next(old(self).input(), old(self).count(), old(self).budget()) {
                Err(m) => r matches Err(Error::Xml(e)) && e@ == m,
                Ok(None) => r matches Ok(None),
                Ok(Some((tag, n))) => r matches Ok(Some(x)) && x@ == tag && final(self).count() == n
                    && final(self).budget() <= old(self).budget(),
            },
    {
        let ghost input = self.events.input();
        let ghost c0 = self.events.count();
        let ghost b0 = self.budget as nat;
        let ghost start = viewport_next(input, c0, b0);
        loop
            invariant
                self.events.input() == input,
                input == old(self).input(),
                c0 == old(self).count(),
                b0 == old(self).budget(),
                start == viewport_next(old(self).input(), old(self).count(), old(self).budget()),
                !self.events.trims(),
                viewport_next(input, self.events.count(), self.budget as nat) == start,
                self.budget <= b0,
            decreases self.budget,
        {
            let event = match self.events.next() {
                Ok(e) => e,
                Err(m) => {
                    return Err(Error::Xml(m));
                },
            };
            match event {
                XmlEvent::Eof => {
                    return Ok(None);
                },
                XmlEvent::Start(tag) => {
                    if is_viewport_tag(&tag) {
                        return Ok(Some(tag));
                    }
                },
                XmlEvent::Empty(tag) => {
                    if is_viewport_tag(&tag) {
                        return Ok(Some(tag));
                    }
                },
                _ => {},
            }
            if self.budget == 0 {
                return Err(Error::Xml("XML reader reported more events than its input has bytes".to_owned()));
            }
            self.budget = self.budget - 1;
        }
    }
}

} // verus!
