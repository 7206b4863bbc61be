//! The package document: manifest, spine, metadata and the package-level
//! layout declarations, read from the OPF's XML events.

use vstd::prelude::*;
use vstd::string::StringSliceAdditionalSpecFns;
use vstd::utf8::encode_utf8_decode_utf8;
use crate::book::layout::{PageProgression, WritingMode};
use crate::book::metadata::{Metadata, MetadataView, empty_metadata, new_metadata};
use crate::epub::xhtml::{
    after_last_colon, parse_writing_mode, parsed_writing_mode, primary_token_from,
};
use crate::error::Error;
use crate::kindle::normalize::{lemma_token_end, token_end, token_from};
use crate::strings::{
    is_unicode_ws, lower_chars, lower_eq, lower_vec, opt_text, push_str_chars, str_chars, str_eq,
    string_from_chars, texts, trim_spec, trim_str, unicode_whitespace, utf8_str,
};
use crate::xhtml::path::{normalize_path_lossy, normalize_spec, resolve_path, resolve_spec};
use crate::xml::{
    XmlAttribute, XmlAttributeView, XmlEvent, XmlEventView, XmlEvents, XmlTag, XmlTagView, attribute_view,
    name_text, xml_event_at,
};

verus! {

// ---------------------------------------------------------------------------
// The package model.

/// A manifest `item`.
#[derive(Debug, Clone)]
pub struct ManifestItem {
    pub id: String,
    pub href: String,
    pub media_type: String,
    pub properties: Vec<String>,
}

/// A manifest item as mathematical values.
#[verifier::ext_equal]
pub struct ManifestItemView {
    pub id: Seq<char>,
    pub href: Seq<char>,
    pub media_type: Seq<char>,
    pub properties: Seq<Seq<char>>,
}

impl View for ManifestItem {
    type V = ManifestItemView;

    open spec fn view(&self) -> ManifestItemView {
        ManifestItemView {
            id: self.id@,
            href: self.href@,
            media_type: self.media_type@,
            properties: texts(self.properties@),
        }
    }
}

/// The rendition layout of a spine item.
#[derive(Debug, Clone, Copy, PartialEq, Eq, Default)]
pub enum SpineLayout {
    #[default]
    Reflowable,
    PrePaginated,
}

/// A spine `itemref`.
#[derive(Debug, Clone)]
pub struct SpineItem {
    pub idref: String,
    pub linear: bool,
    pub properties: Vec<String>,
    pub layout: SpineLayout,
}

/// A spine item as mathematical values.
#[verifier::ext_equal]
pub struct SpineItemView {
    pub idref: Seq<char>,
    pub linear: bool,
    pub properties: Seq<Seq<char>>,
    pub layout: SpineLayout,
}

impl View for SpineItem {
    type V = SpineItemView;

    open spec fn view(&self) -> SpineItemView {
        SpineItemView {
            idref: self.idref@,
            linear: self.linear,
            properties: texts(self.properties@),
            layout: self.layout,
        }
    }
}

/// What the package document declares.
#[derive(Debug)]
pub struct ParsedOpf {
    pub metadata: Metadata,
    pub manifest: Vec<ManifestItem>,
    pub spine: Vec<SpineItem>,
    pub publication_layout: Option<SpineLayout>,
    pub page_progression: PageProgression,
    pub primary_writing_mode: Option<WritingMode>,
    pub ncx_id: Option<String>,
}

/// The package declarations as mathematical values.
#[verifier::ext_equal]
pub struct ParsedOpfView {
    pub metadata: MetadataView,
    pub manifest: Seq<ManifestItemView>,
    pub spine: Seq<SpineItemView>,
    pub publication_layout: Option<SpineLayout>,
    pub page_progression: PageProgression,
    pub primary_writing_mode: Option<WritingMode>,
    pub ncx_id: Option<Seq<char>>,
}

impl View for ParsedOpf {
    type V = ParsedOpfView;

    open spec fn view(&self) -> ParsedOpfView {
        ParsedOpfView {
            metadata: self.metadata@,
            manifest: self.manifest@.map_values(|m: ManifestItem| m@),
            spine: self.spine@.map_values(|s: SpineItem| s@),
            publication_layout: self.publication_layout,
            page_progression: self.page_progression,
            primary_writing_mode: self.primary_writing_mode,
            ncx_id: opt_text(self.ncx_id),
        }
    }
}

/// The views of manifest items.
pub open spec fn manifest_views(manifest: Seq<ManifestItem>) -> Seq<ManifestItemView> {
    manifest.map_values(|m: ManifestItem| m@)
}

/// A package that declares nothing yet.
pub open spec fn empty_opf() -> ParsedOpfView {
    ParsedOpfView {
        metadata: empty_metadata(),
        manifest: Seq::empty(),
        spine: Seq::empty(),
        publication_layout: None,
        page_progression: PageProgression::Default,
        primary_writing_mode: None,
        ncx_id: None,
    }
}

/// A package that declares nothing yet.
pub fn new_parsed_opf() -> (r: ParsedOpf)
    ensures
        r@ == empty_opf(),
{
    let r = ParsedOpf {
        metadata: new_metadata(),
        manifest: Vec::new(),
        spine: Vec::new(),
        publication_layout: None,
        page_progression: PageProgression::Default,
        primary_writing_mode: None,
        ncx_id: None,
    };
    assert(r@.manifest =~= Seq::<ManifestItemView>::empty());
    assert(r@.spine =~= Seq::<SpineItemView>::empty());
    r
}

// ---------------------------------------------------------------------------
// Names, attributes and tokens.

/// The local part of a qualified name: its text after the last `:`, or
/// the empty text when the name is not UTF-8.
pub open spec fn local_name_of(name: Seq<u8>) -> Seq<char> {
    let t = name_text(name);
    after_last_colon(t, t.len() as int)
}

/// The characters of a name's bytes, none when they are not UTF-8.
fn name_chars(name: &[u8]) -> (r: Vec<char>)
    ensures
        r@ == name_text(name@),
{
    match utf8_str(name) {
        Some(s) => {
            proof {
                encode_utf8_decode_utf8(s@);
            }
            str_chars(s)
        },
        None => Vec::new(),
    }
}

/// The local part of a qualified name.
pub fn local_name_ref(name: &[u8]) -> (r: String)
    ensures
        r@ == local_name_of(name@),
{
    let t = name_chars(name);
    let n = t.len();
    let mut k = n;
    while k > 0 && t[k - 1] != ':'
        invariant
            k <= n,
            n == t@.len(),
            after_last_colon(t@, k as int) == after_last_colon(t@, n as int),
        decreases k,
    {
        k = k - 1;
    }
    let r = string_from_chars(&t.as_slice()[k..n]);
    proof {
        if k == 0 {
            assert(t@.subrange(0, n as int) =~= t@);
        }
    }
    r
}

/// The local part of a qualified name, in ASCII lowercase.
pub fn local_name(name: &[u8]) -> (r: String)
    ensures
        r@ == lower_chars(local_name_of(name@)),
{
    let local = local_name_ref(name);
    let chars = str_chars(local.as_str());
    string_from_chars(lower_vec(chars.as_slice()).as_slice())
}

/// The value of the first attribute from `i` on whose lowercased local
/// name is `wanted` and whose value unescapes.
pub open spec fn attr_from(attributes: Seq<Option<XmlAttributeView>>, i: int, wanted: Seq<char>) -> Option<Seq<char>>
    decreases attributes.len() - i,
{
    if i < 0 || i >= attributes.len() {
        None
    } else {
        match attributes[i] {
            Some(a) => if lower_chars(local_name_of(a.key)) == wanted && a.value is Some {
                Some(a.value.unwrap())
            } else {
                attr_from(attributes, i + 1, wanted)
            },
            None => attr_from(attributes, i + 1, wanted),
        }
    }
}

/// The value of a tag's attribute.
pub open spec fn attr_value(tag: XmlTagView, wanted: Seq<char>) -> Option<Seq<char>> {
    attr_from(tag.attributes, 0, wanted)
}

/// The value of the tag's attribute whose lowercased local name is
/// `wanted`: the first such attribute whose value unescapes.
pub fn attr(tag: &XmlTag, wanted: &str) -> (r: Option<String>)
    ensures
        opt_text(r) == attr_value(tag@, wanted@),
{
    let n = tag.attributes.len();
    let mut i: usize = 0;
    while i < n
        invariant
            n == tag.attributes@.len(),
            i <= n,
            attr_from(tag@.attributes, i as int, wanted@) == attr_value(tag@, wanted@),
        decreases n - i,
    {
        assert(tag@.attributes[i as int] == attribute_view(tag.attributes@[i as int]));
        match &tag.attributes[i] {
            Some(a) => {
                let local = local_name(a.key.as_slice());
                if str_eq(local.as_str(), wanted) {
                    match &a.value {
                        Some(v) => {
                            return Some(v.clone());
                        },
                        None => {},
                    }
                }
            },
            None => {},
        }
        i = i + 1;
    }
    None
}

/// The whitespace-separated tokens of `s` from `i` on.
pub open spec fn ws_tokens(s: Seq<char>, i: int) -> Seq<Seq<char>>
    decreases s.len() - i,
{
    if i < 0 || i >= s.len() {
        Seq::empty()
    } else if is_unicode_ws(s[i]) {
        ws_tokens(s, i + 1)
    } else {
        let e = token_end(s, i);
        proof {
            lemma_token_end(s, i);
        }
        seq![s.subrange(i, e)] + ws_tokens(s, e)
    }
}

/// The whitespace-separated tokens of `s`.
pub fn split_whitespace(s: &str) -> (r: Vec<String>)
    ensures
        texts(r@) == ws_tokens(s@, 0),
{
    let chars = str_chars(s);
    let n = chars.len();
    let mut out: Vec<String> = Vec::new();
    let mut i: usize = 0;
    while i < n
        invariant
            n == chars@.len(),
            chars@ == s@,
            i <= n,
            texts(out@) + ws_tokens(chars@, i as int) == ws_tokens(chars@, 0),
        decreases n - i,
    {
        if unicode_whitespace(chars[i]) {
            i = i + 1;
        } else {
            let mut e = i;
            proof {
                lemma_token_end(chars@, i as int);
            }
            while e < n && !unicode_whitespace(chars[e])
                invariant
                    n == chars@.len(),
                    i <= e <= n,
                    token_end(chars@, e as int) == token_end(chars@, i as int),
                decreases n - e,
            {
                e = e + 1;
            }
            let token = string_from_chars(&chars.as_slice()[i..e]);
            let ghost before = out@;
            out.push(token);
            proof {
                assert(texts(out@) =~= texts(before).push(token@));
                assert(ws_tokens(chars@, i as int) == seq![chars@.subrange(i as int, e as int)] + ws_tokens(chars@, e as int));
                assert(texts(before) + ws_tokens(chars@, i as int) =~= texts(out@) + ws_tokens(chars@, e as int));
            }
            i = e;
        }
    }
    proof {
        assert(texts(out@) + ws_tokens(chars@, n as int) =~= texts(out@));
    }
    out
}

// ---------------------------------------------------------------------------
// Spine layouts and properties.

/// The layout that the first `rendition:layout-*` property from `i` on
/// names, up to ASCII case.
pub open spec fn itemref_layout(properties: Seq<Seq<char>>, i: int) -> Option<SpineLayout>
    decreases properties.len() - i,
{
    if i < 0 || i >= properties.len() {
        None
    } else if lower_chars(properties[i]) == "rendition:layout-pre-paginated"@ {
        Some(SpineLayout::PrePaginated)
    } else if lower_chars(properties[i]) == "rendition:layout-reflowable"@ {
        Some(SpineLayout::Reflowable)
    } else {
        itemref_layout(properties, i + 1)
    }
}

impl SpineLayout {
    /// The layout that an itemref's first `rendition:layout-*` property names.
    pub fn from_itemref_properties(properties: &[String]) -> (r: Option<SpineLayout>)
        ensures
            r == itemref_layout(texts(properties@), 0),
    {
        let n = properties.len();
        let mut i: usize = 0;
        while i < n
            invariant
                n == properties@.len(),
                i <= n,
                itemref_layout(texts(properties@), i as int) == itemref_layout(texts(properties@), 0),
            decreases n - i,
        {
            let p = properties[i].as_str();
            assert(texts(properties@)[i as int] == p@);
            if lower_eq(p, "rendition:layout-pre-paginated") {
                return Some(SpineLayout::PrePaginated);
            } else if lower_eq(p, "rendition:layout-reflowable") {
                return Some(SpineLayout::Reflowable);
            }
            i = i + 1;
        }
        None
    }
}

/// Whether one of the texts equals `wanted` up to ASCII case.
pub open spec fn has_text_ci(texts: Seq<Seq<char>>, wanted: Seq<char>) -> bool {
    exists|i: int| 0 <= i < texts.len() && lower_chars(#[trigger] texts[i]) == lower_chars(wanted)
}

fn lower_equal(a: &str, b: &str) -> (r: bool)
    ensures
        r == (lower_chars(a@) == lower_chars(b@)),
{
    let la = lower_vec(str_chars(a).as_slice());
    let lb = lower_vec(str_chars(b).as_slice());
    let n = la.len();
    if n != lb.len() {
        return false;
    }
    let mut i: usize = 0;
    while i < n
        invariant
            n == la@.len(),
            n == lb@.len(),
            i <= n,
            la@ == lower_chars(a@),
            lb@ == lower_chars(b@),
            forall|j: int| 0 <= j < i ==> la@[j] == lb@[j],
        decreases n - i,
    {
        if la[i] != lb[i] {
            return false;
        }
        i = i + 1;
    }
    assert(la@ =~= lb@);
    true
}

/// Whether the manifest item has the property, up to ASCII case.
pub fn has_property(item: &ManifestItem, property: &str) -> (r: bool)
    ensures
        r == has_text_ci(item@.properties, property@),
{
    let n = item.properties.len();
    let mut i: usize = 0;
    while i < n
        invariant
            n == item.properties@.len(),
            i <= n,
            forall|j: int| 0 <= j < i ==> lower_chars(#[trigger] texts(item.properties@)[j]) != lower_chars(property@),
        decreases n - i,
    {
        if lower_equal(item.properties[i].as_str(), property) {
            assert(texts(item.properties@)[i as int] == item.properties@[i as int]@);
            return true;
        }
        assert(texts(item.properties@)[i as int] == item.properties@[i as int]@);
        i = i + 1;
    }
    false
}

// ---------------------------------------------------------------------------
// Metadata `meta` elements.

/// What a metadata `meta` element declares.
#[derive(Debug, Clone, Copy)]
pub enum MetadataMetaField {
    Cover,
    FixedLayout,
    RenditionLayout,
    BookType,
    OrientationLock,
    RenditionOrientation,
    OriginalResolution,
    PrimaryWritingMode,
}

/// Whether an optional attribute value satisfies `p`.
pub open spec fn some_and(v: Option<Seq<char>>, p: spec_fn(Seq<char>) -> bool) -> bool {
    match v {
        Some(x) => p(x),
        None => false,
    }
}

/// What a `meta` element with the given `property` and `name` attributes
/// declares: the primary writing mode first, then `cover`,
/// `fixed-layout`, the `rendition:layout` and `rendition:orientation`
/// properties, and the `book-type`, `orientation-lock` and
/// `original-resolution` names, all up to ASCII case.
pub open spec fn meta_kind(property: Option<Seq<char>>, name: Option<Seq<char>>) -> Option<MetadataMetaField> {
    if some_and(property, |p: Seq<char>| primary_token_from(p, 0)) || some_and(name, |n: Seq<char>| primary_token_from(n, 0)) {
        Some(MetadataMetaField::PrimaryWritingMode)
    } else if some_and(name, |n: Seq<char>| lower_chars(n) == "cover"@) {
        Some(MetadataMetaField::Cover)
    } else if some_and(name, |n: Seq<char>| lower_chars(n) == "fixed-layout"@) {
        Some(MetadataMetaField::FixedLayout)
    } else if some_and(property, |p: Seq<char>| token_from(p, 0, "rendition:layout"@)) {
        Some(MetadataMetaField::RenditionLayout)
    } else if some_and(property, |p: Seq<char>| token_from(p, 0, "rendition:orientation"@)) {
        Some(MetadataMetaField::RenditionOrientation)
    } else if some_and(name, |n: Seq<char>| lower_chars(n) == "book-type"@) {
        Some(MetadataMetaField::BookType)
    } else if some_and(name, |n: Seq<char>| lower_chars(n) == "orientation-lock"@) {
        Some(MetadataMetaField::OrientationLock)
    } else if some_and(name, |n: Seq<char>| lower_chars(n) == "original-resolution"@) {
        Some(MetadataMetaField::OriginalResolution)
    } else {
        None
    }
}

/// What a `meta` tag declares, from its attributes.
pub open spec fn tag_meta_kind(tag: XmlTagView) -> Option<MetadataMetaField> {
    meta_kind(attr_value(tag, "property"@), attr_value(tag, "name"@))
}

/// What a metadata `meta` tag declares.
pub fn metadata_meta_kind(tag: &XmlTag) -> (r: Option<MetadataMetaField>)
    ensures
        r == tag_meta_kind(tag@),
{
    let property = attr(tag, "property");
    let name = attr(tag, "name");
    let p = match &property {
        Some(v) => Some(v.as_str()),
        None => None,
    };
    let nm = match &name {
        Some(v) => Some(v.as_str()),
        None => None,
    };
    if crate::epub::xhtml::primary_writing_mode_attributes(p, nm) {
        return Some(MetadataMetaField::PrimaryWritingMode);
    }
    if let Some(v) = nm {
        if lower_eq(v, "cover") {
            return Some(MetadataMetaField::Cover);
        }
        if lower_eq(v, "fixed-layout") {
            return Some(MetadataMetaField::FixedLayout);
        }
    }
    if let Some(v) = p {
        let chars = str_chars(v);
        let layout = str_chars("rendition:layout");
        if crate::kindle::normalize::has_token(chars.as_slice(), layout.as_slice()) {
            return Some(MetadataMetaField::RenditionLayout);
        }
        let orientation = str_chars("rendition:orientation");
        if crate::kindle::normalize::has_token(chars.as_slice(), orientation.as_slice()) {
            return Some(MetadataMetaField::RenditionOrientation);
        }
    }
    if let Some(v) = nm {
        if lower_eq(v, "book-type") {
            return Some(MetadataMetaField::BookType);
        }
        if lower_eq(v, "orientation-lock") {
            return Some(MetadataMetaField::OrientationLock);
        }
        if lower_eq(v, "original-resolution") {
            return Some(MetadataMetaField::OriginalResolution);
        }
    }
    None
}

/// The package after a metadata `meta` declaration of `field` with the
/// (untrimmed) value `raw`.
pub open spec fn apply_meta(r: ParsedOpfView, field: MetadataMetaField, raw: Seq<char>) -> ParsedOpfView {
    let v = trim_spec(raw);
    let l = lower_chars(v);
    match field {
        MetadataMetaField::Cover => ParsedOpfView { metadata: MetadataView { cover: Some(v), ..r.metadata }, ..r },
        MetadataMetaField::FixedLayout => if l == "true"@ {
            ParsedOpfView {
                metadata: MetadataView { is_fixed_layout: true, ..r.metadata },
                publication_layout: Some(SpineLayout::PrePaginated),
                ..r
            }
        } else {
            r
        },
        MetadataMetaField::RenditionLayout => if l == "pre-paginated"@ {
            ParsedOpfView {
                metadata: MetadataView { is_fixed_layout: true, ..r.metadata },
                publication_layout: Some(SpineLayout::PrePaginated),
                ..r
            }
        } else if l == "reflowable"@ {
            ParsedOpfView { publication_layout: Some(SpineLayout::Reflowable), ..r }
        } else {
            r
        },
        MetadataMetaField::BookType => ParsedOpfView { metadata: MetadataView { book_type: Some(v), ..r.metadata }, ..r },
        MetadataMetaField::OrientationLock => ParsedOpfView {
            metadata: MetadataView { orientation_lock: Some(v), ..r.metadata },
            ..r
        },
        MetadataMetaField::RenditionOrientation => ParsedOpfView {
            metadata: MetadataView { orientation: Some(v), ..r.metadata },
            ..r
        },
        MetadataMetaField::OriginalResolution => ParsedOpfView {
            metadata: MetadataView { original_resolution: Some(v), ..r.metadata },
            ..r
        },
        MetadataMetaField::PrimaryWritingMode => {
            let parsed = if l == "horizontal-rl"@ {
                Some(WritingMode::HorizontalTb)
            } else {
                parsed_writing_mode(v)
            };
            if r.primary_writing_mode is None && parsed is Some {
                ParsedOpfView {
                    metadata: MetadataView { primary_writing_mode: Some(v), ..r.metadata },
                    primary_writing_mode: parsed,
                    ..r
                }
            } else {
                r
            }
        },
    }
}

/// Apply a metadata `meta` declaration to the package.
pub fn apply_metadata_meta(result: &mut ParsedOpf, field: MetadataMetaField, value: &str)
    ensures
        final(result)@ == apply_meta(old(result)@, field, value@),
{
    let value = trim_str(value);
    match field {
        MetadataMetaField::Cover => {
            result.metadata.cover = Some(value.to_owned());
        },
        MetadataMetaField::FixedLayout => {
            if lower_eq(value, "true") {
                result.metadata.is_fixed_layout = true;
                result.publication_layout = Some(SpineLayout::PrePaginated);
            }
        },
        MetadataMetaField::RenditionLayout => {
            if lower_eq(value, "pre-paginated") {
                result.publication_layout = Some(SpineLayout::PrePaginated);
                result.metadata.is_fixed_layout = true;
            } else if lower_eq(value, "reflowable") {
                result.publication_layout = Some(SpineLayout::Reflowable);
            }
        },
        MetadataMetaField::BookType => {
            result.metadata.book_type = Some(value.to_owned());
        },
        MetadataMetaField::OrientationLock => {
            result.metadata.orientation_lock = Some(value.to_owned());
        },
        MetadataMetaField::RenditionOrientation => {
            result.metadata.orientation = Some(value.to_owned());
        },
        MetadataMetaField::OriginalResolution => {
            result.metadata.original_resolution = Some(value.to_owned());
        },
        MetadataMetaField::PrimaryWritingMode => {
            let parsed = if lower_eq(value, "horizontal-rl") {
                Some(WritingMode::HorizontalTb)
            } else {
                parse_writing_mode(value)
            };
            if result.primary_writing_mode.is_none() {
                if let Some(mode) = parsed {
                    result.primary_writing_mode = Some(mode);
                    result.metadata.primary_writing_mode = Some(value.to_owned());
                }
            }
        },
    }
}

// ---------------------------------------------------------------------------
// Manifest, spine and itemref tags.

/// The properties that a tag's `properties` attribute lists.
pub open spec fn tag_properties(tag: XmlTagView) -> Seq<Seq<char>> {
    match attr_value(tag, "properties"@) {
        Some(v) => ws_tokens(v, 0),
        None => Seq::empty(),
    }
}

/// The package after a manifest `item`, spine `itemref` or `spine` tag;
/// other tags leave it unchanged. An `item` needs `id`, `href` and
/// `media-type`; an NCX item names the NCX. An `itemref` needs `idref` and
/// is linear unless `linear="no"`. A `spine` sets the page progression from
/// `page-progression-direction`.
pub open spec fn opf_start(r: ParsedOpfView, tag: XmlTagView) -> ParsedOpfView {
    let n = lower_chars(local_name_of(tag.name));
    if n == "item"@ {
        match (attr_value(tag, "id"@), attr_value(tag, "href"@), attr_value(tag, "media-type"@)) {
            (Some(id), Some(href), Some(media_type)) => {
                let item = ManifestItemView { id, href, media_type, properties: tag_properties(tag) };
                ParsedOpfView {
                    manifest: r.manifest.push(item),
                    ncx_id: if lower_chars(media_type) == "application/x-dtbncx+xml"@ {
                        Some(id)
                    } else {
                        r.ncx_id
                    },
                    ..r
                }
            },
            _ => r,
        }
    } else if n == "itemref"@ {
        match attr_value(tag, "idref"@) {
            Some(idref) => {
                let linear = match attr_value(tag, "linear"@) {
                    Some(v) => v != "no"@,
                    None => true,
                };
                let item = SpineItemView { idref, linear, properties: tag_properties(tag), layout: SpineLayout::Reflowable };
                ParsedOpfView { spine: r.spine.push(item), ..r }
            },
            None => r,
        }
    } else if n == "spine"@ {
        match attr_value(tag, "page-progression-direction"@) {
            Some(v) => ParsedOpfView {
                page_progression: if v == "rtl"@ {
                    PageProgression::Rtl
                } else if v == "ltr"@ {
                    PageProgression::Ltr
                } else {
                    PageProgression::Default
                },
                ..r
            },
            None => r,
        }
    } else {
        r
    }
}

fn tag_property_list(tag: &XmlTag) -> (r: Vec<String>)
    ensures
        texts(r@) == tag_properties(tag@),
{
    match attr(tag, "properties") {
        Some(v) => split_whitespace(v.as_str()),
        None => {
            let r: Vec<String> = Vec::new();
            assert(texts(r@) =~= Seq::<Seq<char>>::empty());
            r
        },
    }
}

/// Record a manifest `item`, spine `itemref` or `spine` tag in the package.
pub fn parse_opf_start(tag: &XmlTag, result: &mut ParsedOpf)
    ensures
        final(result)@ == opf_start(old(result)@, tag@),
{
    let name = local_name(tag.name.as_slice());
    let n = name.as_str();
    if str_eq(n, "item") {
        let id = match attr(tag, "id") {
            Some(v) => v,
            None => {
                return;
            },
        };
        let href = match attr(tag, "href") {
            Some(v) => v,
            None => {
                return;
            },
        };
        let media_type = match attr(tag, "media-type") {
            Some(v) => v,
            None => {
                return;
            },
        };
        let properties = tag_property_list(tag);
        let is_ncx = lower_eq(media_type.as_str(), "application/x-dtbncx+xml");
        let item = ManifestItem { id: id.clone(), href, media_type, properties };
        if is_ncx {
            result.ncx_id = Some(id);
        }
        let ghost before = result.manifest@;
        result.manifest.push(item);
        proof {
            assert(result.manifest@.map_values(|m: ManifestItem| m@) =~= before.map_values(|m: ManifestItem| m@).push(item@));
        }
    } else if str_eq(n, "itemref") {
        if let Some(idref) = attr(tag, "idref") {
            let linear = match attr(tag, "linear") {
                Some(v) => !str_eq(v.as_str(), "no"),
                None => true,
            };
            let properties = tag_property_list(tag);
            let item = SpineItem { idref, linear, properties, layout: SpineLayout::Reflowable };
            let ghost before = result.spine@;
            result.spine.push(item);
            proof {
                assert(result.spine@.map_values(|s: SpineItem| s@) =~= before.map_values(|s: SpineItem| s@).push(item@));
            }
        }
    } else if str_eq(n, "spine") {
        if let Some(v) = attr(tag, "page-progression-direction") {
            result.page_progression = if str_eq(v.as_str(), "rtl") {
                PageProgression::Rtl
            } else if str_eq(v.as_str(), "ltr") {
                PageProgression::Ltr
            } else {
                PageProgression::Default
            };
        }
    }
}

// ---------------------------------------------------------------------------
// Reading the package document event by event.

/// The state of a package reading: the package so far, the Dublin Core
/// element being read and its text, and the `meta` declaration being read
/// and its text.
pub struct OpfReader {
    pub result: ParsedOpf,
    pub metadata_field: Option<String>,
    pub metadata_text: Vec<char>,
    pub meta_field: Option<MetadataMetaField>,
    pub meta_text: Vec<char>,
}

/// The reading state as mathematical values.
#[verifier::ext_equal]
pub struct OpfReaderView {
    pub result: ParsedOpfView,
    pub metadata_field: Option<Seq<char>>,
    pub metadata_text: Seq<char>,
    pub meta_field: Option<MetadataMetaField>,
    pub meta_text: Seq<char>,
}

impl View for OpfReader {
    type V = OpfReaderView;

    open spec fn view(&self) -> OpfReaderView {
        OpfReaderView {
            result: self.result@,
            metadata_field: opt_text(self.metadata_field),
            metadata_text: self.metadata_text@,
            meta_field: self.meta_field,
            meta_text: self.meta_text@,
        }
    }
}

/// Whether a lowercased local name is a Dublin Core element whose text the
/// metadata keeps.
pub open spec fn is_dc_field(n: Seq<char>) -> bool {
    n == "title"@ || n == "creator"@ || n == "language"@ || n == "identifier"@ || n == "publisher"@
        || n == "description"@
}

/// The state after a start tag.
pub open spec fn opf_start_event(s: OpfReaderView, tag: XmlTagView) -> OpfReaderView {
    let n = lower_chars(local_name_of(tag.name));
    if n == "metadata"@ {
        s
    } else if is_dc_field(n) {
        OpfReaderView { metadata_field: Some(n), metadata_text: Seq::empty(), ..s }
    } else if n == "meta"@ {
        let kind = tag_meta_kind(tag);
        match attr_value(tag, "content"@) {
            Some(v) => OpfReaderView {
                result: match kind {
                    Some(f) => apply_meta(s.result, f, v),
                    None => s.result,
                },
                meta_field: None,
                meta_text: Seq::empty(),
                ..s
            },
            None => OpfReaderView { meta_field: kind, meta_text: Seq::empty(), ..s },
        }
    } else if n == "manifest"@ || n == "item"@ || n == "spine"@ || n == "itemref"@ {
        OpfReaderView { result: opf_start(s.result, tag), ..s }
    } else {
        s
    }
}

/// The state after an empty tag.
pub open spec fn opf_empty_event(s: OpfReaderView, tag: XmlTagView) -> OpfReaderView {
    if lower_chars(local_name_of(tag.name)) == "meta"@ {
        match (tag_meta_kind(tag), attr_value(tag, "content"@)) {
            (Some(f), Some(v)) => OpfReaderView { result: apply_meta(s.result, f, v), ..s },
            _ => s,
        }
    } else {
        OpfReaderView { result: opf_start(s.result, tag), ..s }
    }
}

/// The metadata with the Dublin Core element `field` set to `v`.
pub open spec fn set_dc_field(m: MetadataView, field: Seq<char>, v: Seq<char>) -> MetadataView {
    if field == "title"@ {
        MetadataView { title: Some(v), ..m }
    } else if field == "creator"@ {
        MetadataView { creator: Some(v), ..m }
    } else if field == "language"@ {
        MetadataView { language: Some(v), ..m }
    } else if field == "identifier"@ {
        MetadataView { identifier: Some(v), ..m }
    } else if field == "publisher"@ {
        MetadataView { publisher: Some(v), ..m }
    } else if field == "description"@ {
        MetadataView { description: Some(v), ..m }
    } else {
        m
    }
}

/// The state after an end tag: a `meta` end applies the pending `meta`
/// declaration with its text, and any end finishes the pending Dublin Core
/// element with its trimmed text.
pub open spec fn opf_end_event(s: OpfReaderView, name: Seq<u8>) -> OpfReaderView {
    let s1 = if lower_chars(local_name_of(name)) == "meta"@ && s.meta_field is Some {
        OpfReaderView { result: apply_meta(s.result, s.meta_field.unwrap(), s.meta_text), meta_field: None, ..s }
    } else {
        s
    };
    match s1.metadata_field {
        Some(field) => OpfReaderView {
            result: ParsedOpfView {
                metadata: set_dc_field(s1.result.metadata, field, trim_spec(s1.metadata_text)),
                ..s1.result
            },
            metadata_field: None,
            ..s1
        },
        None => s1,
    }
}

/// The state after one event, or the message of a text that does not
/// unescape. The end of the input leaves the state as it is.
pub open spec fn opf_step(s: OpfReaderView, event: XmlEventView) -> Result<OpfReaderView, Seq<char>> {
    match event {
        XmlEventView::Start(tag) => Ok(opf_start_event(s, tag)),
        XmlEventView::Empty(tag) => Ok(opf_empty_event(s, tag)),
        XmlEventView::End(name) => Ok(opf_end_event(s, name)),
        XmlEventView::Text(text) => match text {
            Ok(t) => Ok(
                if s.meta_field is Some {
                    OpfReaderView { meta_text: s.meta_text + t, ..s }
                } else if s.metadata_field is Some {
                    OpfReaderView { metadata_text: s.metadata_text + t, ..s }
                } else {
                    s
                },
            ),
            Err(m) => Err(m),
        },
        _ => Ok(s),
    }
}

/// The layout that a spine item gets: the one its properties name, else
/// the publication's, reflowable by default.
pub open spec fn spine_layout(item: SpineItemView, publication: Option<SpineLayout>) -> SpineLayout {
    match itemref_layout(item.properties, 0) {
        Some(l) => l,
        None => match publication {
            Some(p) => p,
            None => SpineLayout::Reflowable,
        },
    }
}

/// The package at the end of the input: each spine item gets its layout.
pub open spec fn opf_finished(r: ParsedOpfView) -> ParsedOpfView {
    ParsedOpfView {
        spine: Seq::new(
            r.spine.len(),
            |i: int| SpineItemView { layout: spine_layout(r.spine[i], r.publication_layout), ..r.spine[i] },
        ),
        ..r
    }
}

/// The state before the first event.
pub open spec fn initial_reader() -> OpfReaderView {
    OpfReaderView {
        result: empty_opf(),
        metadata_field: None,
        metadata_text: Seq::empty(),
        meta_field: None,
        meta_text: Seq::empty(),
    }
}

/// The message of a package without manifest or spine.
pub open spec fn no_manifest_or_spine() -> Seq<char> {
    "OPF must contain a manifest and spine"@
}

/// Copies of the strings.
pub(crate) fn copy_strings(v: &[String]) -> (r: Vec<String>)
    ensures
        texts(r@) == texts(v@),
{
    let mut r: Vec<String> = Vec::new();
    let n = v.len();
    let mut i: usize = 0;
    while i < n
        invariant
            n == v@.len(),
            i <= n,
            texts(r@) == texts(v@.subrange(0, i as int)),
        decreases n - i,
    {
        let ghost before = r@;
        let c = v[i].clone();
        r.push(c);
        proof {
            assert(texts(r@) =~= texts(before).push(c@));
            assert(texts(v@.subrange(0, i + 1)) =~= texts(v@.subrange(0, i as int)).push(v@[i as int]@));
        }
        i = i + 1;
    }
    assert(v@.subrange(0, n as int) =~= v@);
    r
}

/// A copy of the spine item with the given layout.
fn with_layout(item: &SpineItem, layout: SpineLayout) -> (r: SpineItem)
    ensures
        r@ == (SpineItemView { layout, ..item@ }),
{
    SpineItem {
        idref: item.idref.clone(),
        linear: item.linear,
        properties: copy_strings(item.properties.as_slice()),
        layout,
    }
}

impl OpfReader {
    /// The state before the first event.
    pub fn new() -> (r: OpfReader)
        ensures
            r@ == initial_reader(),
    {
        OpfReader {
            result: new_parsed_opf(),
            metadata_field: None,
            metadata_text: Vec::new(),
            meta_field: None,
            meta_text: Vec::new(),
        }
    }

    fn start_event(&mut self, tag: &XmlTag)
        ensures
            final(self)@ == opf_start_event(old(self)@, tag@),
    {
        let name = local_name(tag.name.as_slice());
        let n = name.as_str();
        if str_eq(n, "metadata") {
        } else if str_eq(n, "title") || str_eq(n, "creator") || str_eq(n, "language") || str_eq(n, "identifier")
            || str_eq(n, "publisher") || str_eq(n, "description") {
            self.metadata_field = Some(name.clone());
            self.metadata_text = Vec::new();
        } else if str_eq(n, "meta") {
            self.meta_field = metadata_meta_kind(tag);
            self.meta_text = Vec::new();
            if let Some(value) = attr(tag, "content") {
                if let Some(field) = self.meta_field {
                    apply_metadata_meta(&mut self.result, field, value.as_str());
                }
                self.meta_field = None;
            }
        } else if str_eq(n, "manifest") || str_eq(n, "item") || str_eq(n, "spine") || str_eq(n, "itemref") {
            parse_opf_start(tag, &mut self.result);
        }
    }

    fn empty_event(&mut self, tag: &XmlTag)
        ensures
            final(self)@ == opf_empty_event(old(self)@, tag@),
    {
        let name = local_name(tag.name.as_slice());
        if str_eq(name.as_str(), "meta") {
            let kind = metadata_meta_kind(tag);
            let content = attr(tag, "content");
            if let (Some(field), Some(value)) = (kind, content) {
                apply_metadata_meta(&mut self.result, field, value.as_str());
            }
        } else {
            parse_opf_start(tag, &mut self.result);
        }
    }

    fn end_event(&mut self, end_name: &[u8])
        ensures
            final(self)@ == opf_end_event(old(self)@, end_name@),
    {
        let name = local_name(end_name);
        if str_eq(name.as_str(), "meta") {
            if let Some(field) = self.meta_field {
                let text = string_from_chars(self.meta_text.as_slice());
                apply_metadata_meta(&mut self.result, field, text.as_str());
                self.meta_field = None;
            }
        }
        let pending = self.metadata_field.take();
        if let Some(field) = pending {
            let text = string_from_chars(self.metadata_text.as_slice());
            let value = trim_str(text.as_str()).to_owned();
            let f = field.as_str();
            if str_eq(f, "title") {
                self.result.metadata.title = Some(value);
            } else if str_eq(f, "creator") {
                self.result.metadata.creator = Some(value);
            } else if str_eq(f, "language") {
                self.result.metadata.language = Some(value);
            } else if str_eq(f, "identifier") {
                self.result.metadata.identifier = Some(value);
            } else if str_eq(f, "publisher") {
                self.result.metadata.publisher = Some(value);
            } else if str_eq(f, "description") {
                self.result.metadata.description = Some(value);
            }
        }
    }

    /// Take one event into the state; a text that does not unescape is an
    /// XML error.
    pub fn step(&mut self, event: &XmlEvent) -> (r: Result<(), Error>)
        ensures
            match opf_step(old(self)@, event@) {
                Ok(s) => r is Ok && final(self)@ == s,
                Err(m) => r matches Err(Error::Xml(e)) && e@ == m,
            },
    {
        match event {
            XmlEvent::Start(tag) => {
                self.start_event(tag);
                Ok(())
            },
            XmlEvent::Empty(tag) => {
                self.empty_event(tag);
                Ok(())
            },
            XmlEvent::End(name) => {
                self.end_event(name.as_slice());
                Ok(())
            },
            XmlEvent::Text(text) => match text {
                Ok(t) => {
                    if self.meta_field.is_some() {
                        push_str_chars(&mut self.meta_text, t.as_str());
                    } else if self.metadata_field.is_some() {
                        push_str_chars(&mut self.metadata_text, t.as_str());
                    }
                    Ok(())
                },
                Err(m) => Err(Error::Xml(m.clone())),
            },
            _ => Ok(()),
        }
    }

    /// The package at the end of the input: an error without manifest or
    /// spine, else each spine item with its layout.
    pub fn finish(self) -> (r: Result<ParsedOpf, Error>)
        ensures
            (self@.result.manifest.len() == 0 || self@.result.spine.len() == 0) <==> r is Err,
            r matches Err(e) ==> e matches Error::InvalidEpub(m) && m@ == no_manifest_or_spine(),
            r matches Ok(p) ==> p@ == opf_finished(self@.result),
    {
        let mut result = self.result;
        if result.manifest.len() == 0 || result.spine.len() == 0 {
            return Err(Error::InvalidEpub("OPF must contain a manifest and spine".to_owned()));
        }
        let publication = match result.publication_layout {
            Some(l) => l,
            None => SpineLayout::Reflowable,
        };
        let ghost start = result@;
        let n = result.spine.len();
        let mut i: usize = 0;
        while i < n
            invariant
                n == result.spine@.len(),
                n == start.spine.len(),
                i <= n,
                publication == (match start.publication_layout {
                    Some(p) => p,
                    None => SpineLayout::Reflowable,
                }),
                result@ == (ParsedOpfView { spine: result@.spine, ..start }),
                forall|j: int| i <= j < n ==> #[trigger] result@.spine[j] == start.spine[j],
                forall|j: int| 0 <= j < i ==> #[trigger] result@.spine[j] == (SpineItemView {
                    layout: spine_layout(start.spine[j], start.publication_layout),
                    ..start.spine[j]
                }),
            decreases n - i,
        {
            assert(result@.spine[i as int] == result.spine@[i as int]@);
            let layout = match SpineLayout::from_itemref_properties(result.spine[i].properties.as_slice()) {
                Some(l) => l,
                None => publication,
            };
            assert(layout == spine_layout(start.spine[i as int], start.publication_layout));
            let ghost before = result.spine@;
            let item = with_layout(&result.spine[i], layout);
            result.spine.set(i, item);
            proof {
                assert(result.spine@.map_values(|s: SpineItem| s@) =~= before.map_values(|s: SpineItem| s@).update(i as int, item@));
                assert(result@.spine[i as int] == item@);
            }
            i = i + 1;
        }
        assert(result@.spine =~= opf_finished(start).spine);
        Ok(result)
    }
}

// ---------------------------------------------------------------------------
// Reading whole documents.

/// The reading of the package document from its `index`-th event on, text
/// trimmed, with at most `budget` more events before the end: the state at
/// the end of the input, or the message of the XML error (a reader error, a
/// text that does not unescape, or more events than the budget).
pub open spec fn opf_read(input: Seq<u8>, index: nat, budget: nat, s: OpfReaderView) -> Result<OpfReaderView, Seq<char>>
    decreases budget,
{
    match xml_event_at(input, true, index) {
        Err(m) => Err(m),
        Ok(XmlEventView::Eof) => Ok(s),
        Ok(e) => match opf_step(s, e) {
            Err(m) => Err(m),
            Ok(t) => if budget == 0 {
                Err(unending_xml())
            } else {
                opf_read(input, index + 1, (budget - 1) as nat, t)
            },
        },
    }
}

/// The message of an XML reading that reports more events than its input
/// has bytes; each event but the end consumes input, so it does not come.
pub open spec fn unending_xml() -> Seq<char> {
    "XML reader reported more events than its input has bytes"@
}

/// Read the package document: its events, in order, through the reading
/// state, text trimmed. A reader error or a text that does not unescape is
/// an XML error; a package without manifest or spine is invalid.
pub fn parse_opf(xml: &[u8]) -> (r: Result<ParsedOpf, Error>)
    ensures
        match opf_read(xml@, 0, xml@.len(), initial_reader()) {
            Err(m) => r matches Err(Error::Xml(e)) && e@ == m,
            Ok(s) => if s.result.manifest.len() == 0 || s.result.spine.len() == 0 {
                r matches Err(Error::InvalidEpub(m)) && m@ == no_manifest_or_spine()
            } else {
                r matches Ok(p) && p@ == opf_finished(s.result)
            },
        },
        r matches Ok(p) ==> {
            &&& p@.manifest.len() > 0
            &&& p@.spine.len() > 0
            &&& forall|i: int| 0 <= i < p@.spine.len() ==> (#[trigger] p@.spine[i]).layout == spine_layout(
                p@.spine[i],
                p@.publication_layout,
            )
        },
{
    let mut events = XmlEvents::new(xml, true);
    let mut state = OpfReader::new();
    let mut budget = xml.len();
    loop
        invariant_except_break
            opf_read(xml@, events.count(), budget as nat, state@) == opf_read(xml@, 0, xml@.len(), initial_reader()),
        invariant
            events.input() == xml@,
            events.trims(),
            budget <= xml@.len(),
        ensures
            opf_read(xml@, 0, xml@.len(), initial_reader()) == Ok::<OpfReaderView, Seq<char>>(state@),
        decreases budget,
    {
        let ghost index = events.count();
        let event = match events.next() {
            Ok(e) => e,
            Err(m) => {
                return Err(Error::Xml(m));
            },
        };
        if let XmlEvent::Eof = event {
            break;
        }
        match state.step(&event) {
            Ok(()) => {},
            Err(e) => {
                return Err(e);
            },
        }
        if budget == 0 {
            return Err(Error::Xml("XML reader reported more events than its input has bytes".to_owned()));
        }
        budget = budget - 1;
    }
    let ghost before = state@.result;
    let r = state.finish();
    proof {
        if let Ok(p) = &r {
            assert forall|i: int| 0 <= i < p@.spine.len() implies (#[trigger] p@.spine[i]).layout == spine_layout(
                p@.spine[i],
                p@.publication_layout,
            ) by {
                assert(p@.spine[i] == (SpineItemView {
                    layout: spine_layout(before.spine[i], before.publication_layout),
                    ..before.spine[i]
                }));
            }
        }
    }
    r
}

/// The package path that a tag names when it is a `rootfile` with a
/// `full-path`: that path, normalized.
pub open spec fn rootfile_path(tag: XmlTagView) -> Option<Seq<char>> {
    if lower_chars(local_name_of(tag.name)) == "rootfile"@ {
        match attr_value(tag, "full-path"@) {
            Some(p) => Some(normalize_spec(p)),
            None => None,
        }
    } else {
        None
    }
}

/// The package path that a start or empty `rootfile` tag names.
pub fn rootfile_target(event: &XmlEvent) -> (r: Option<String>)
    ensures
        opt_text(r) == match event@ {
            XmlEventView::Start(tag) => rootfile_path(tag),
            XmlEventView::Empty(tag) => rootfile_path(tag),
            _ => None,
        },
{
    let tag = match event {
        XmlEvent::Start(tag) => tag,
        XmlEvent::Empty(tag) => tag,
        _ => {
            return None;
        },
    };
    let name = local_name(tag.name.as_slice());
    if !str_eq(name.as_str(), "rootfile") {
        return None;
    }
    match attr(tag, "full-path") {
        Some(path) => Some(normalize_path_lossy(path.as_str())),
        None => None,
    }
}

/// The message of a container without a package path.
pub open spec fn no_rootfile() -> Seq<char> {
    "container.xml has no rootfile full-path"@
}

/// Why no package path came from `container.xml`.
pub enum RootfileFailure {
    /// The message of an XML error.
    Xml(Seq<char>),
    /// No `rootfile` tag with a `full-path`.
    Missing,
}

/// The package path that the events from the `index`-th on name, with at
/// most `budget` more events before the end.
pub open spec fn rootfile_read(input: Seq<u8>, index: nat, budget: nat) -> Result<Seq<char>, RootfileFailure>
    decreases budget,
{
    match xml_event_at(input, false, index) {
        Err(m) => Err(RootfileFailure::Xml(m)),
        Ok(XmlEventView::Eof) => Err(RootfileFailure::Missing),
        Ok(e) => match e {
            XmlEventView::Start(tag) if rootfile_path(tag) is Some => Ok(rootfile_path(tag).unwrap()),
            XmlEventView::Empty(tag) if rootfile_path(tag) is Some => Ok(rootfile_path(tag).unwrap()),
            _ => if budget == 0 {
                Err(RootfileFailure::Xml(unending_xml()))
            } else {
                rootfile_read(input, index + 1, (budget - 1) as nat)
            },
        },
    }
}

/// The package path that `container.xml` names: that of the first
/// `rootfile` tag with a `full-path`, normalized.
pub fn parse_rootfile(xml: &[u8]) -> (r: Result<String, Error>)
    ensures
        match rootfile_read(xml@, 0, xml@.len()) {
            Ok(p) => r matches Ok(q) && q@ == p,
            Err(RootfileFailure::Xml(m)) => r matches Err(Error::Xml(e)) && e@ == m,
            Err(RootfileFailure::Missing) => r matches Err(Error::InvalidEpub(m)) && m@ == no_rootfile(),
        },
{
    let mut events = XmlEvents::new(xml, false);
    let mut budget = xml.len();
    loop
        invariant_except_break
            rootfile_read(xml@, events.count(), budget as nat) == rootfile_read(xml@, 0, xml@.len()),
        invariant
            events.input() == xml@,
            !events.trims(),
            budget <= xml@.len(),
        ensures
            rootfile_read(xml@, 0, xml@.len()) == Err::<Seq<char>, RootfileFailure>(RootfileFailure::Missing),
        decreases budget,
    {
        let event = match events.next() {
            Ok(e) => e,
            Err(m) => {
                return Err(Error::Xml(m));
            },
        };
        if let XmlEvent::Eof = event {
            break;
        }
        if let Some(path) = rootfile_target(&event) {
            return Ok(path);
        }
        if budget == 0 {
            return Err(Error::Xml("XML reader reported more events than its input has bytes".to_owned()));
        }
        budget = budget - 1;
    }
    Err(Error::InvalidEpub("container.xml has no rootfile full-path".to_owned()))
}

// ---------------------------------------------------------------------------
// Cover images.

/// A package href resolved against a base directory.
pub open spec fn resolved_href(base: Seq<char>, href: Seq<char>) -> Seq<char> {
    match resolve_spec(base + "/"@, href) {
        Some(p) => p,
        None => Seq::empty(),
    }
}

/// Resolve a package href against a base directory; an href that escapes
/// the package gives the empty path.
pub fn resolve_href(base: &str, href: &str) -> (r: String)
    ensures
        r@ == resolved_href(base@, href@),
{
    let mut b = str_chars(base);
    b.push('/');
    let with_slash = string_from_chars(b.as_slice());
    proof {
        assert(with_slash@ == base@ + "/"@) by {
            reveal_strlit("/");
            assert(b@ =~= base@ + "/"@);
        }
    }
    match resolve_path(with_slash.as_str(), href) {
        Some(p) => p,
        None => String::new(),
    }
}

/// Whether a manifest item is a cover image: it has the `cover-image`
/// property, or it is the item that the `cover` meta names and its media
/// type is an image's.
pub open spec fn is_cover_image(item: ManifestItemView, cover: Option<Seq<char>>) -> bool {
    has_text_ci(item.properties, "cover-image"@) || (cover == Some(item.id) && lower_chars(item.media_type).len()
        >= 6 && lower_chars(item.media_type).subrange(0, 6) == "image/"@)
}

/// The resolved paths of the cover images among `manifest[i..]`, in order.
pub open spec fn cover_paths_from(manifest: Seq<ManifestItemView>, cover: Option<Seq<char>>, base: Seq<char>, i: int) -> Seq<Seq<char>>
    decreases manifest.len() - i,
{
    if i < 0 || i >= manifest.len() {
        Seq::empty()
    } else if is_cover_image(manifest[i], cover) {
        seq![resolved_href(base, manifest[i].href)] + cover_paths_from(manifest, cover, base, i + 1)
    } else {
        cover_paths_from(manifest, cover, base, i + 1)
    }
}

fn starts_with_image(media_type: &str) -> (r: bool)
    ensures
        r == (lower_chars(media_type@).len() >= 6 && lower_chars(media_type@).subrange(0, 6) == "image/"@),
{
    let lowered = lower_vec(str_chars(media_type).as_slice());
    let prefix = str_chars("image/");
    proof {
        reveal_strlit("image/");
    }
    assert(prefix@.len() == 6);
    if lowered.len() < 6 {
        return false;
    }
    let mut i: usize = 0;
    while i < 6
        invariant
            i <= 6,
            6 <= lowered@.len(),
            prefix@ == "image/"@,
            prefix@.len() == 6,
            lowered@ == lower_chars(media_type@),
            forall|j: int| 0 <= j < i ==> lowered@[j] == prefix@[j],
        decreases 6 - i,
    {
        if lowered[i] != prefix[i] {
            assert(lowered@.subrange(0, 6)[i as int] != prefix@[i as int]);
            return false;
        }
        i = i + 1;
    }
    assert(lowered@.subrange(0, 6) =~= prefix@);
    true
}

/// The resolved paths of the package's cover images, in manifest order.
pub fn cover_image_paths(parsed: &ParsedOpf, opf_base: &str) -> (r: Vec<String>)
    ensures
        texts(r@) == cover_paths_from(parsed@.manifest, parsed@.metadata.cover, opf_base@, 0),
{
    let m = &parsed.manifest;
    let n = m.len();
    let mut out: Vec<String> = Vec::new();
    let mut i = n;
    let ghost mv = parsed@.manifest;
    let ghost cover = parsed@.metadata.cover;
    while i > 0
        invariant
            n == m@.len(),
            i <= n,
            mv == m@.map_values(|x: ManifestItem| x@),
            cover == opt_text(parsed.metadata.cover),
            texts(out@) == cover_paths_from(mv, cover, opf_base@, i as int).reverse(),
        decreases i,
    {
        i = i - 1;
        let item = &m[i];
        assert(mv[i as int] == item@);
        let by_property = has_property(item, "cover-image");
        let named = match &parsed.metadata.cover {
            Some(c) => str_eq(c.as_str(), item.id.as_str()),
            None => false,
        };
        let ghost before = out@;
        if by_property || (named && starts_with_image(item.media_type.as_str())) {
            let p = resolve_href(opf_base, item.href.as_str());
            out.push(p);
            proof {
                assert(texts(out@) =~= texts(before).push(p@));
                assert(cover_paths_from(mv, cover, opf_base@, i as int) == seq![p@] + cover_paths_from(mv, cover, opf_base@, i + 1));
                assert((seq![p@] + cover_paths_from(mv, cover, opf_base@, i + 1)).reverse() =~= cover_paths_from(mv, cover, opf_base@, i + 1).reverse().push(p@));
            }
        }
    }
    let mut r: Vec<String> = Vec::new();
    let mut k = out.len();
    let ghost rev = texts(out@);
    while k > 0
        invariant
            k <= out@.len(),
            rev == texts(out@),
            texts(r@) == rev.subrange(k as int, rev.len() as int).reverse(),
        decreases k,
    {
        k = k - 1;
        let ghost before = r@;
        let c = out[k].clone();
        r.push(c);
        proof {
            assert(texts(r@) =~= texts(before).push(c@));
            assert(rev.subrange(k as int, rev.len() as int).reverse() =~= rev.subrange(k + 1, rev.len() as int).reverse().push(rev[k as int]));
        }
    }
    proof {
        assert(rev.subrange(0, rev.len() as int) =~= rev);
        assert(rev.reverse().reverse() =~= rev);
        assert(texts(r@) =~= cover_paths_from(mv, cover, opf_base@, 0));
    }
    r
}

} // verus!
