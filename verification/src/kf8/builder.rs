//! Values the KF8 builder writes into metadata: layout names and the
//! language code.

use vstd::prelude::*;
use crate::book::layout::{PageProgression, WritingMode};
use crate::strings::{lower_chars, lower_eq, trim_spec, trim_str};
use vstd::string::StrSliceExecFns;
use crate::error::{Error, output_error};
use crate::kf8::indx::views;
use crate::kf8::skel::{Skel, SkelEntry, skel_encoding};
use crate::kf8::div::{Div, DivEntry, div_valid};
use crate::kf8::fdst::{Fdst, FdstEntry, fdst_valid};
use crate::kf8::fragment::{Fragment, frag_encoding};
use crate::kf8::guide::{Guide, guide_encoding};
use crate::kf8::indx::EncodedIndexWithCtoc;
use crate::kf8::compress::{PalmDocCompressor, palmdoc_compress, MAX_COMPRESS_SOURCE};
use crate::kf8::fcis::{encode_eof, encode_fcis, fcis_bytes};
use crate::kf8::fdst::{fdst_bytes, fdst_end};
use crate::kf8::resource::{BinaryResourceGeometry, geometry, is_binary_resource, text_resource, css_resource};
use crate::kf8::text::utf8_overlap;
use crate::kf8::vwi::backward_vwi;
use crate::kf8::text::trailing_size;
use crate::kindle::ir::{KindleLayout, KindleMetadata, KindleResource};
use crate::kf8::exth::{ExthHeader, ExthRecord};
use crate::kf8::palmdoc::PalmDocHeader;
use crate::kf8::format::{base32_text, to_base32};
use crate::kf8::wire::{be32, push_u32_be};
use vstd::utf8::encode_utf8;
use crate::strings::opt_text;
use vstd::string::StringSliceAdditionalSpecFns;
use crate::kf8::text::{TextRecord, blocks, chunk_views, lemma_records_cover, record_block, record_count};
use crate::kf8::wire::{concat, lemma_concat_take_len, lemma_concat_take_step};

verus! {

/// The `primary-writing-mode` value of a writing mode.
pub open spec fn writing_mode_text(w: WritingMode) -> Seq<char> {
    match w {
        WritingMode::HorizontalTb => "horizontal-lr"@,
        WritingMode::VerticalRl => "vertical-rl"@,
        WritingMode::VerticalLr => "vertical-lr"@,
    }
}

/// The EXTH writing-mode value of a writing mode.
pub fn writing_mode_value(writing_mode: WritingMode) -> (r: &'static str)
    ensures
        r@ == writing_mode_text(writing_mode),
{
    match writing_mode {
        WritingMode::HorizontalTb => "horizontal-lr",
        WritingMode::VerticalRl => "vertical-rl",
        WritingMode::VerticalLr => "vertical-lr",
    }
}

/// The page-progression value of a page progression.
pub open spec fn page_progression_text(p: PageProgression) -> Seq<char> {
    match p {
        PageProgression::Default => "default"@,
        PageProgression::Ltr => "ltr"@,
        PageProgression::Rtl => "rtl"@,
    }
}

/// The EXTH page-progression value of a page progression.
pub fn page_progression_value(page_progression: PageProgression) -> (r: &'static str)
    ensures
        r@ == page_progression_text(page_progression),
{
    match page_progression {
        PageProgression::Default => "default",
        PageProgression::Ltr => "ltr",
        PageProgression::Rtl => "rtl",
    }
}

/// Position of the first `-` or `_` at or after `i`, or the length.
pub open spec fn subtag_end(s: Seq<char>, i: int) -> int
    decreases s.len() - i,
{
    if i < 0 || i >= s.len() {
        s.len() as int
    } else if s[i] == '-' || s[i] == '_' {
        i
    } else {
        subtag_end(s, i + 1)
    }
}

/// The lowercase primary subtag of a language tag.
pub open spec fn primary_subtag(language: Seq<char>) -> Seq<char> {
    let t = trim_spec(language);
    lower_chars(t.subrange(0, subtag_end(t, 0)))
}

/// The MOBI language code of a primary subtag.
pub open spec fn language_code_of(p: Seq<char>) -> u32 {
    if p == "ja"@ || p == "jpn"@ {
        0x11
    } else if p == "en"@ || p == "eng"@ {
        0x09
    } else if p == "de"@ || p == "deu"@ || p == "ger"@ {
        0x07
    } else if p == "es"@ || p == "spa"@ {
        0x0a
    } else if p == "fr"@ || p == "fra"@ || p == "fre"@ {
        0x0c
    } else if p == "it"@ || p == "ita"@ {
        0x10
    } else if p == "ko"@ || p == "kor"@ {
        0x12
    } else if p == "zh"@ || p == "chi"@ || p == "zho"@ {
        0x04
    } else {
        0
    }
}

proof fn lemma_subtag_end(s: Seq<char>, i: int)
    requires
        0 <= i <= s.len(),
    ensures
        i <= subtag_end(s, i) <= s.len(),
    decreases s.len() - i,
{
    if i < s.len() && !(s[i] == '-' || s[i] == '_') {
        lemma_subtag_end(s, i + 1);
    }
}

/// The MOBI language code of a BCP 47 language tag, from its primary subtag;
/// 0 for an unknown language.
pub fn language_code(language: &str) -> (r: u32)
    ensures
        r == language_code_of(primary_subtag(language@)),
{
    let t = trim_str(language);
    let n = t.unicode_len();
    let mut end: usize = 0;
    proof {
        lemma_subtag_end(t@, 0);
    }
    while end < n && t.get_char(end) != '-' && t.get_char(end) != '_'
        invariant
            n == t@.len(),
            end <= n,
            subtag_end(t@, end as int) == subtag_end(t@, 0),
        decreases n - end,
    {
        end = end + 1;
    }
    let p = t.substring_char(0, end);
    if lower_eq(p, "ja") || lower_eq(p, "jpn") {
        0x11
    } else if lower_eq(p, "en") || lower_eq(p, "eng") {
        0x09
    } else if lower_eq(p, "de") || lower_eq(p, "deu") || lower_eq(p, "ger") {
        0x07
    } else if lower_eq(p, "es") || lower_eq(p, "spa") {
        0x0a
    } else if lower_eq(p, "fr") || lower_eq(p, "fra") || lower_eq(p, "fre") {
        0x0c
    } else if lower_eq(p, "it") || lower_eq(p, "ita") {
        0x10
    } else if lower_eq(p, "ko") || lower_eq(p, "kor") {
        0x12
    } else if lower_eq(p, "zh") || lower_eq(p, "chi") || lower_eq(p, "zho") {
        0x04
    } else {
        0
    }
}

// ---------------------------------------------------------------------------
// Text records of the logical stream.

/// The decoded parts of one section: its skeleton and its fragments.
pub struct SectionParts {
    pub skeleton: Vec<u8>,
    pub fragments: Vec<Vec<u8>>,
}

/// A section's parts as byte strings.
pub struct SectionPartsView {
    pub skeleton: Seq<u8>,
    pub fragments: Seq<Seq<u8>>,
}

impl View for SectionParts {
    type V = SectionPartsView;

    open spec fn view(&self) -> SectionPartsView {
        SectionPartsView { skeleton: self.skeleton@, fragments: views(self.fragments@) }
    }
}

/// The sections as byte strings.
pub open spec fn parts_views(ps: Seq<SectionParts>) -> Seq<SectionPartsView> {
    ps.map_values(|p: SectionParts| p@)
}

/// The chunks of the sections in stream order: each skeleton followed by
/// its fragments.
pub open spec fn sections_stream(ps: Seq<SectionPartsView>) -> Seq<Seq<u8>>
    decreases ps.len(),
{
    if ps.len() == 0 {
        Seq::empty()
    } else {
        sections_stream(ps.drop_last()) + seq![ps.last().skeleton] + ps.last().fragments
    }
}

/// What the text records are made of: the sections' RawML, the CSS flows
/// and the page flows, laid out as one logical stream.
pub struct TextGeometry {
    pub section_parts: Vec<SectionParts>,
    pub css_flows: Vec<Vec<u8>>,
    pub css_flow_lengths: Vec<usize>,
    pub page_flows: Vec<Vec<u8>>,
    pub rawml_length: usize,
    pub library_thumbnail: Option<Vec<u8>>,
}

/// The chunks of the logical stream.
pub open spec fn stream_chunks(g: TextGeometry) -> Seq<Seq<u8>> {
    sections_stream(parts_views(g.section_parts@)) + views(g.css_flows@) + views(g.page_flows@)
}

/// The logical stream.
pub open spec fn text_stream(g: TextGeometry) -> Seq<u8> {
    concat(stream_chunks(g))
}

/// The SKEL entries of the sections from `i` on, the first starting at
/// `offset`, and the stream offset after them; or the message of the first
/// length that does not fit.
pub open spec fn skel_scan(ps: Seq<SectionPartsView>, i: int, offset: int) -> Result<(Seq<SkelEntry>, int), Seq<char>>
    decreases ps.len() - i,
{
    if i < 0 || i >= ps.len() {
        Ok((Seq::empty(), offset))
    } else {
        let sl = ps[i].skeleton.len() as int;
        let fl = concat(ps[i].fragments).len() as int;
        if sl > u32::MAX {
            Err("SKEL section length exceeds u32"@)
        } else if fl > usize::MAX {
            Err("XHTML length overflow"@)
        } else if fl > u32::MAX {
            Err("SKEL position overflow"@)
        } else if sl + fl > usize::MAX || offset + sl + fl > usize::MAX {
            Err("XHTML length overflow"@)
        } else if offset + sl + fl > u32::MAX {
            Err("SKEL position overflow"@)
        } else if ps[i].fragments.len() > u32::MAX {
            Err("SKEL fragment count exceeds u32"@)
        } else {
            match skel_scan(ps, i + 1, offset + sl + fl) {
                Ok((es, end)) => Ok((
                    seq![SkelEntry { fragment_count: ps[i].fragments.len() as u32, start: offset as u32, length: sl as u32 }]
                        + es,
                    end,
                )),
                Err(m) => Err(m),
            }
        }
    }
}

/// Why the text records of a geometry cannot be built, if they cannot: the
/// record count must be that of `rawml_length` and fit in `u16`, the SKEL
/// ranges must fit, and the stream must be `rawml_length` bytes long with
/// both it and the XHTML part fitting in `u32`.
pub open spec fn text_failure(g: TextGeometry) -> Option<Seq<char>> {
    let total = text_stream(g);
    let n = record_count(total.len());
    if g.rawml_length + 4095 > usize::MAX {
        Some("text length overflow"@)
    } else if n != (g.rawml_length + 4095) / 4096 {
        Some("PalmDOC text records do not match fixed 4096-byte coordinates"@)
    } else if n > u16::MAX {
        Some("PalmDOC text record count exceeds u16"@)
    } else {
        match skel_scan(parts_views(g.section_parts@), 0, 0) {
            Err(m) => Some(m),
            Ok((_, xhtml)) => if total.len() != g.rawml_length {
                Some("PalmDOC text length does not match the logical stream"@)
            } else if xhtml > u32::MAX {
                Some("XHTML length exceeds u32"@)
            } else if total.len() > u32::MAX {
                Some("text length exceeds u32"@)
            } else {
                None
            },
        }
    }
}

/// The text records and the coordinates the indexes are built from.
pub struct TextData {
    pub skel: Skel,
    pub text_records: Vec<TextRecord>,
    pub text_length_u32: u32,
    pub text_record_count: usize,
    pub xhtml_length_u32: u32,
    pub css_flow_lengths: Vec<usize>,
    pub page_flow_lengths: Vec<usize>,
    pub library_thumbnail: Option<Vec<u8>>,
}

/// The lengths of the byte strings.
pub open spec fn lengths(v: Seq<Seq<u8>>) -> Seq<usize> {
    Seq::new(v.len(), |i: int| v[i].len() as usize)
}

/// What the text data of a geometry holds: the records of the stream, the
/// SKEL entries of the sections, and the lengths.
pub open spec fn text_data_of(d: TextData, g: TextGeometry) -> bool {
    let total = text_stream(g);
    &&& d.text_records@.len() == record_count(total.len())
    &&& forall|j: int| 0 <= j < d.text_records@.len() ==> (#[trigger] d.text_records@[j]).data@ == record_block(total, j)
    &&& forall|j: int| 0 <= j < d.text_records@.len() - 1 ==> (#[trigger] d.text_records@[j]).overlap()
        == crate::kf8::text::utf8_overlap(d.text_records@[j].data@, d.text_records@[j + 1].data@)
    &&& d.text_records@.len() > 0 ==> d.text_records@.last().overlap() == Seq::<u8>::empty()
    &&& d.text_record_count == d.text_records@.len()
    &&& d.text_length_u32 == total.len()
    &&& skel_scan(parts_views(g.section_parts@), 0, 0) matches Ok((es, xhtml))
        && d.skel.entries@ == es && d.xhtml_length_u32 == xhtml
    &&& d.css_flow_lengths@ == g.css_flow_lengths@
    &&& d.page_flow_lengths@ == lengths(views(g.page_flows@))
    &&& d.library_thumbnail == g.library_thumbnail
}

proof fn lemma_skel_scan_step(ps: Seq<SectionPartsView>, i: int, offset: int)
    requires
        0 <= i < ps.len(),
    ensures
        skel_scan(ps, i, offset) == ({
            let sl = ps[i].skeleton.len() as int;
            let fl = concat(ps[i].fragments).len() as int;
            if sl > u32::MAX {
                Err("SKEL section length exceeds u32"@)
            } else if fl > usize::MAX {
                Err("XHTML length overflow"@)
            } else if fl > u32::MAX {
                Err("SKEL position overflow"@)
            } else if sl + fl > usize::MAX || offset + sl + fl > usize::MAX {
                Err("XHTML length overflow"@)
            } else if offset + sl + fl > u32::MAX {
                Err("SKEL position overflow"@)
            } else if ps[i].fragments.len() > u32::MAX {
                Err("SKEL fragment count exceeds u32"@)
            } else {
                match skel_scan(ps, i + 1, offset + sl + fl) {
                    Ok((es, end)) => Ok((
                        seq![SkelEntry { fragment_count: ps[i].fragments.len() as u32, start: offset as u32, length: sl as u32 }]
                            + es,
                        end,
                    )),
                    Err(m) => Err(m),
                }
            }
        }),
{
}

/// The total length of the fragments, or `None` when it overflows `usize`.
fn fragments_length(fragments: &Vec<Vec<u8>>) -> (r: Option<usize>)
    ensures
        match r {
            Some(n) => n == concat(views(fragments@)).len(),
            None => concat(views(fragments@)).len() > usize::MAX,
        },
{
    let ghost fv = views(fragments@);
    let mut total: usize = 0;
    let mut k: usize = 0;
    assert(fv.take(0) =~= Seq::<Seq<u8>>::empty());
    while k < fragments.len()
        invariant
            fv == views(fragments@),
            k <= fragments@.len(),
            total == concat(fv.take(k as int)).len(),
        decreases fragments@.len() - k,
    {
        proof {
            lemma_concat_take_step(fv, k as int);
            assert(fv[k as int] == fragments@[k as int]@);
        }
        match total.checked_add(fragments[k].len()) {
            Some(t) => {
                total = t;
            },
            None => {
                proof {
                    lemma_concat_take_len(fv, k + 1);
                }
                return None;
            },
        }
        k = k + 1;
    }
    assert(fv.take(k as int) =~= fv);
    Some(total)
}

/// Append the chunks of one byte-string list.
fn push_chunks<'a>(chunks: &mut Vec<&'a [u8]>, parts: &'a Vec<Vec<u8>>)
    ensures
        chunk_views(final(chunks)@) == chunk_views(old(chunks)@) + views(parts@),
{
    let ghost start = chunk_views(chunks@);
    let mut k: usize = 0;
    while k < parts.len()
        invariant
            k <= parts@.len(),
            chunk_views(chunks@) == start + views(parts@).take(k as int),
        decreases parts@.len() - k,
    {
        let ghost before = chunks@;
        chunks.push(parts[k].as_slice());
        proof {
            assert(chunk_views(chunks@) =~= chunk_views(before).push(parts@[k as int]@));
            assert(views(parts@).take(k + 1) =~= views(parts@).take(k as int).push(parts@[k as int]@));
        }
        k = k + 1;
    }
    assert(views(parts@).take(k as int) =~= views(parts@));
}

/// The SKEL entries of the sections and the length of their RawML.
fn build_skel(section_parts: &Vec<SectionParts>) -> (r: Result<(Vec<SkelEntry>, usize), Error>)
    ensures
        match skel_scan(parts_views(section_parts@), 0, 0) {
            Ok((es, end)) => r matches Ok((v, x)) && v@ == es && x == end,
            Err(m) => r matches Err(Error::Output(e)) && e@ == m,
        },
{
    let ghost pv = parts_views(section_parts@);
    let mut entries: Vec<SkelEntry> = Vec::new();
    let mut offset: u32 = 0;
    let mut xhtml_length: usize = 0;
    let mut i: usize = 0;
    while i < section_parts.len()
        invariant
            pv == parts_views(section_parts@),
            i <= section_parts@.len(),
            xhtml_length == offset,
            match skel_scan(pv, i as int, offset as int) {
                Ok((es, end)) => skel_scan(pv, 0, 0) == Ok::<(Seq<SkelEntry>, int), Seq<char>>((entries@ + es, end)),
                Err(m) => skel_scan(pv, 0, 0) == Err::<(Seq<SkelEntry>, int), Seq<char>>(m),
            },
        decreases section_parts@.len() - i,
    {
        let parts = &section_parts[i];
        proof {
            lemma_skel_scan_step(pv, i as int, offset as int);
            assert(pv[i as int] == parts@);
        }
        if parts.skeleton.len() > 0xffff_ffff {
            return Err(output_error("SKEL section length exceeds u32"));
        }
        let sl: u32 = parts.skeleton.len() as u32;
        let fl: usize = match fragments_length(&parts.fragments) {
            Some(n) => n,
            None => {
                return Err(output_error("XHTML length overflow"));
            },
        };
        if fl > 0xffff_ffff {
            return Err(output_error("SKEL position overflow"));
        }
        let fl32: u32 = fl as u32;
        let section_length: usize = match parts.skeleton.len().checked_add(fl) {
            Some(n) => n,
            None => {
                return Err(output_error("XHTML length overflow"));
            },
        };
        xhtml_length = match xhtml_length.checked_add(section_length) {
            Some(n) => n,
            None => {
                return Err(output_error("XHTML length overflow"));
            },
        };
        let start = offset;
        offset = match offset.checked_add(sl) {
            Some(o) => match o.checked_add(fl32) {
                Some(o2) => o2,
                None => {
                    return Err(output_error("SKEL position overflow"));
                },
            },
            None => {
                return Err(output_error("SKEL position overflow"));
            },
        };
        if parts.fragments.len() > 0xffff_ffff {
            return Err(output_error("SKEL fragment count exceeds u32"));
        }
        let ghost before = entries@;
        entries.push(SkelEntry { fragment_count: parts.fragments.len() as u32, start, length: sl });
        proof {
            let e = SkelEntry { fragment_count: parts.fragments.len() as u32, start, length: sl };
            match skel_scan(pv, i + 1, offset as int) {
                Ok((es, end)) => {
                    assert(before + (seq![e] + es) =~= entries@ + es);
                },
                Err(m) => {},
            }
        }
        i = i + 1;
    }
    Ok((entries, xhtml_length))
}

/// Split the logical stream into PalmDOC text records and compute the SKEL
/// entries and flow lengths: the stream is every section's skeleton and
/// fragments, then the CSS flows, then the page flows; the records must be
/// the fixed 4096-byte records of `rawml_length` bytes.
pub fn build_text_records(geometry: TextGeometry) -> (r: Result<TextData, Error>)
    requires
        text_stream(geometry).len() <= usize::MAX,
    ensures
        match text_failure(geometry) {
            Some(m) => r matches Err(Error::Output(e)) && e@ == m,
            None => r matches Ok(d) && text_data_of(d, geometry),
        },
{
    let ghost pv = parts_views(geometry.section_parts@);
    let ghost total = text_stream(geometry);
    let mut chunks: Vec<&[u8]> = Vec::new();
    let mut i: usize = 0;
    while i < geometry.section_parts.len()
        invariant
            pv == parts_views(geometry.section_parts@),
            i <= geometry.section_parts@.len(),
            chunk_views(chunks@) == sections_stream(pv.take(i as int)),
        decreases geometry.section_parts@.len() - i,
    {
        let parts = &geometry.section_parts[i];
        let ghost before = chunks@;
        chunks.push(parts.skeleton.as_slice());
        proof {
            assert(chunk_views(chunks@) =~= chunk_views(before).push(parts.skeleton@));
        }
        push_chunks(&mut chunks, &parts.fragments);
        proof {
            assert(pv[i as int] == parts@);
            assert(pv.take(i + 1).drop_last() =~= pv.take(i as int));
            assert(chunk_views(chunks@) =~= sections_stream(pv.take(i + 1)));
        }
        i = i + 1;
    }
    assert(pv.take(i as int) =~= pv);
    push_chunks(&mut chunks, &geometry.css_flows);
    push_chunks(&mut chunks, &geometry.page_flows);
    assert(chunk_views(chunks@) == stream_chunks(geometry));
    let text_records = TextRecord::split_chunks(chunks.as_slice());
    let n = text_records.len();
    proof {
        lemma_records_cover(total);
    }
    let expected: usize = match geometry.rawml_length.checked_add(4095) {
        Some(v) => v / 4096,
        None => {
            return Err(output_error("text length overflow"));
        },
    };
    let mut short = false;
    let mut j: usize = 0;
    while n > 0 && j < n - 1
        invariant
            j <= n,
            n == text_records@.len(),
            n == record_count(total.len()),
            forall|k: int| 0 <= k < n ==> #[trigger] text_records@[k].payload() == record_block(total, k),
            forall|k: int| 0 <= k < record_count(total.len()) - 1 ==> (#[trigger] record_block(total, k)).len() == 4096,
            !short,
        decreases n - j,
    {
        assert(text_records@[j as int].payload() == record_block(total, j as int));
        if text_records[j].data.len() != 4096 {
            short = true;
            break;
        }
        j = j + 1;
    }
    if n != expected || short {
        return Err(output_error("PalmDOC text records do not match fixed 4096-byte coordinates"));
    }
    if n > 0xffff {
        return Err(output_error("PalmDOC text record count exceeds u16"));
    }
    let (skel_entries, xhtml_length) = match build_skel(&geometry.section_parts) {
        Ok(v) => v,
        Err(e) => {
            return Err(e);
        },
    };
    let mut text_length: usize = 0;
    let mut k: usize = 0;
    proof {
        assert(blocks(total, 0) =~= Seq::<Seq<u8>>::empty());
    }
    while k < n
        invariant
            n == text_records@.len(),
            n == record_count(total.len()),
            total.len() <= usize::MAX,
            forall|q: int| 0 <= q < n ==> #[trigger] text_records@[q].payload() == record_block(total, q),
            concat(blocks(total, n as nat)) == total,
            k <= n,
            text_length == concat(blocks(total, k as nat)).len(),
        decreases n - k,
    {
        proof {
            assert(blocks(total, (k + 1) as nat).drop_last() =~= blocks(total, k as nat));
            assert(blocks(total, n as nat).take(k + 1) =~= blocks(total, (k + 1) as nat));
            lemma_concat_take_len(blocks(total, n as nat), k + 1);
            assert(text_records@[k as int].payload() == record_block(total, k as int));
        }
        text_length = text_length + text_records[k].data.len();
        k = k + 1;
    }
    if text_length != geometry.rawml_length {
        return Err(output_error("PalmDOC text length does not match the logical stream"));
    }
    if xhtml_length > 0xffff_ffff {
        return Err(output_error("XHTML length exceeds u32"));
    }
    if text_length > 0xffff_ffff {
        return Err(output_error("text length exceeds u32"));
    }
    let mut page_flow_lengths: Vec<usize> = Vec::new();
    let mut q: usize = 0;
    while q < geometry.page_flows.len()
        invariant
            q <= geometry.page_flows@.len(),
            page_flow_lengths@ == lengths(views(geometry.page_flows@)).take(q as int),
        decreases geometry.page_flows@.len() - q,
    {
        let ghost before = page_flow_lengths@;
        page_flow_lengths.push(geometry.page_flows[q].len());
        proof {
            assert(lengths(views(geometry.page_flows@)).take(q + 1) =~= before.push(geometry.page_flows@[q as int]@.len() as usize));
        }
        q = q + 1;
    }
    assert(lengths(views(geometry.page_flows@)).take(q as int) =~= lengths(views(geometry.page_flows@)));
    let text_record_count = text_records.len();
    proof {
        assert forall|q: int| 0 <= q < n implies (#[trigger] text_records@[q]).data@ == record_block(total, q) by {
            assert(text_records@[q].payload() == record_block(total, q));
        }
        assert forall|q: int| 0 <= q < n - 1 implies (#[trigger] text_records@[q]).overlap()
            == crate::kf8::text::utf8_overlap(text_records@[q].data@, text_records@[q + 1].data@) by {
            assert(text_records@[q].overlap() == crate::kf8::text::utf8_overlap(text_records@[q].payload(), text_records@[q + 1].payload()));
        }
    }
    Ok(TextData {
        skel: Skel { entries: skel_entries },
        text_records,
        text_length_u32: text_length as u32,
        text_record_count,
        xhtml_length_u32: xhtml_length as u32,
        css_flow_lengths: geometry.css_flow_lengths,
        page_flow_lengths,
        library_thumbnail: geometry.library_thumbnail,
    })
}

// ---------------------------------------------------------------------------
// The SKEL, FRAG, DIV and FDST indexes.

/// The flow ranges of the lengths from `i` on, the first starting at
/// `start`, and the end of the last; or the message of a length or an end
/// that does not fit in `u32`. `what` names the kind of flow.
pub open spec fn ranges_from(lengths: Seq<usize>, i: int, start: int, what: Seq<char>) -> Result<(Seq<(u32, u32)>, int), Seq<char>>
    decreases lengths.len() - i,
{
    if i < 0 || i >= lengths.len() {
        Ok((Seq::empty(), start))
    } else if lengths[i] > u32::MAX {
        Err(what + " flow length exceeds u32"@)
    } else if start + lengths[i] > u32::MAX {
        Err(what + " flow position overflow"@)
    } else {
        match ranges_from(lengths, i + 1, start + lengths[i], what) {
            Ok((rs, end)) => Ok((seq![(start as u32, (start + lengths[i]) as u32)] + rs, end)),
            Err(m) => Err(m),
        }
    }
}

/// The FDST ranges: the XHTML part, then each CSS flow, then each page flow,
/// back to back.
pub open spec fn flow_ranges(xhtml_length: u32, css: Seq<usize>, pages: Seq<usize>) -> Result<Seq<(u32, u32)>, Seq<char>> {
    match ranges_from(css, 0, xhtml_length as int, "CSS"@) {
        Err(m) => Err(m),
        Ok((cs, end)) => match ranges_from(pages, 0, end, "page"@) {
            Err(m) => Err(m),
            Ok((ps, _)) => Ok(seq![(0u32, xhtml_length)] + cs + ps),
        },
    }
}

/// The FDST entries of ranges.
pub open spec fn fdst_entries(ranges: Seq<(u32, u32)>) -> Seq<FdstEntry> {
    Seq::new(ranges.len(), |i: int| FdstEntry { start: ranges[i].0, end: ranges[i].1 })
}

/// One zero-offset DIV pointer per record.
pub open spec fn div_entries(n: nat) -> Seq<DivEntry> {
    Seq::new(n, |i: int| DivEntry { record: i as u32, offset: 0 })
}

/// The indexes of the text: SKEL, FRAG, DIV, FDST, the indexing TBS of
/// each text record, NCX and guide.
pub struct Indexes {
    pub text_records: Vec<TextRecord>,
    pub indexing_tbs: Vec<Vec<u8>>,
    pub text_length_u32: u32,
    pub text_record_count: usize,
    pub skel_main: Vec<u8>,
    pub skel_details: Vec<Vec<u8>>,
    pub fragment_main: Vec<u8>,
    pub fragment_details: Vec<Vec<u8>>,
    pub fragment_ctoc: Vec<Vec<u8>>,
    pub guide_main: Vec<u8>,
    pub guide_details: Vec<Vec<u8>>,
    pub guide_ctoc: Vec<Vec<u8>>,
    pub ncx_main: Vec<u8>,
    pub ncx_details: Vec<Vec<u8>>,
    pub ncx_ctoc: Vec<Vec<u8>>,
    pub div: Div,
    pub fdst: Fdst,
    pub library_thumbnail: Option<Vec<u8>>,
}

fn ranges_into(ranges: &mut Vec<(u32, u32)>, lengths: &Vec<usize>, start: u32, what: &str) -> (r: Result<u32, Error>)
    requires
        what@ == "CSS"@ || what@ == "page"@,
    ensures
        match ranges_from(lengths@, 0, start as int, what@) {
            Ok((rs, end)) => r matches Ok(e) && e == end && final(ranges)@ == old(ranges)@ + rs,
            Err(m) => r matches Err(Error::Output(e)) && e@ == m,
        },
{
    let ghost base = ranges@;
    let mut flow_start = start;
    let mut i: usize = 0;
    while i < lengths.len()
        invariant
            i <= lengths@.len(),
            match ranges_from(lengths@, i as int, flow_start as int, what@) {
                Ok((rs, end)) => ranges_from(lengths@, 0, start as int, what@) == Ok::<(Seq<(u32, u32)>, int), Seq<char>>((ranges@.subrange(base.len() as int, ranges@.len() as int) + rs, end)),
                Err(m) => ranges_from(lengths@, 0, start as int, what@) == Err::<(Seq<(u32, u32)>, int), Seq<char>>(m),
            },
            ranges@.len() >= base.len(),
            ranges@.subrange(0, base.len() as int) == base,
        decreases lengths@.len() - i,
    {
        let length = lengths[i];
        if length > 0xffff_ffff {
            let mut m: Vec<char> = Vec::new();
            crate::strings::push_str_chars(&mut m, what);
            crate::strings::push_str_chars(&mut m, " flow length exceeds u32");
            return Err(Error::Output(crate::strings::string_from_chars(m.as_slice())));
        }
        let flow_end = match flow_start.checked_add(length as u32) {
            Some(e) => e,
            None => {
                let mut m: Vec<char> = Vec::new();
                crate::strings::push_str_chars(&mut m, what);
                crate::strings::push_str_chars(&mut m, " flow position overflow");
                return Err(Error::Output(crate::strings::string_from_chars(m.as_slice())));
            },
        };
        let ghost before = ranges@;
        ranges.push((flow_start, flow_end));
        proof {
            let pair = (flow_start, flow_end);
            assert(ranges@.subrange(0, base.len() as int) =~= base);
            match ranges_from(lengths@, i + 1, flow_end as int, what@) {
                Ok((rs, end)) => {
                    assert(before.subrange(base.len() as int, before.len() as int) + (seq![pair] + rs)
                        =~= ranges@.subrange(base.len() as int, ranges@.len() as int) + rs);
                },
                Err(m) => {},
            }
        }
        flow_start = flow_end;
        i = i + 1;
    }
    proof {
        assert(ranges@.subrange(base.len() as int, ranges@.len() as int) + Seq::<(u32, u32)>::empty()
            =~= ranges@.subrange(base.len() as int, ranges@.len() as int));
        assert(ranges@ =~= base + ranges@.subrange(base.len() as int, ranges@.len() as int));
    }
    Ok(flow_start)
}

/// An encoder's output error with the index named before it.
fn named_output_error(e: Error, name: &str) -> (r: Error)
    ensures
        e matches Error::Output(m) ==> r matches Error::Output(n) && n@ == name@ + "output error: "@ + m@,
{
    match e {
        Error::Output(m) => {
            let mut t: Vec<char> = Vec::new();
            crate::strings::push_str_chars(&mut t, name);
            crate::strings::push_str_chars(&mut t, "output error: ");
            crate::strings::push_str_chars(&mut t, m.as_str());
            Error::Output(crate::strings::string_from_chars(t.as_slice()))
        },
        other => other,
    }
}

/// Build the indexes of the text records: the SKEL ranges and the
/// fragments must be valid, one DIV pointer goes to each record, the FDST
/// flows (the XHTML part, the CSS flows, the page flows) must cover the
/// text exactly, there must be one indexing TBS per text record, and the
/// guide must encode. `fragments` and `fragment_selectors` are the
/// fragments of the position map in stream order; `indexing_tbs` and `ncx`
/// are the navigation's TBS bytes per record and its encoded NCX index.
pub fn build_indexes(
    text: TextData,
    fragments: &Fragment,
    fragment_selectors: &[String],
    indexing_tbs: Vec<Vec<u8>>,
    ncx: EncodedIndexWithCtoc,
    guide: &Guide,
) -> (r: Result<Indexes, Error>)
    requires
        text.text_records@.len() <= u32::MAX,
    ensures
        r is Ok <==> {
            &&& skel_valid_of(text)
            &&& crate::kf8::fragment::fragment_valid(fragments.entries@)
            &&& div_valid(div_entries(text.text_records@.len()), text.text_records@.len())
            &&& flow_ranges(text.xhtml_length_u32, text.css_flow_lengths@, text.page_flow_lengths@) matches Ok(rs)
                && fdst_valid(fdst_entries(rs), text.text_length_u32)
            &&& skel_encoding(text.skel.entries@) is Some
            &&& frag_encoding(fragments.entries@, fragment_selectors@) is Some
            &&& indexing_tbs@.len() == text.text_records@.len()
            &&& guide_encoding(guide.positions@) is Some
        },
        (indexing_tbs@.len() != text.text_records@.len() && skel_valid_of(text)
            && crate::kf8::fragment::fragment_valid(fragments.entries@)
            && div_valid(div_entries(text.text_records@.len()), text.text_records@.len())
            && (flow_ranges(text.xhtml_length_u32, text.css_flow_lengths@, text.page_flow_lengths@) matches Ok(rs)
                && fdst_valid(fdst_entries(rs), text.text_length_u32))
            && skel_encoding(text.skel.entries@) is Some
            && frag_encoding(fragments.entries@, fragment_selectors@) is Some)
            ==> (r matches Err(Error::Output(m)) && m@ == "TBS count does not match PalmDOC text record count"@),
        r matches Err(e) ==> e is Output,
        skel_valid_of(text) && crate::kf8::fragment::fragment_valid(fragments.entries@)
            && div_valid(div_entries(text.text_records@.len()), text.text_records@.len())
            ==> (flow_ranges(text.xhtml_length_u32, text.css_flow_lengths@, text.page_flow_lengths@) matches Err(m)
                ==> r matches Err(Error::Output(e)) && e@ == m),
        r matches Ok(ix) ==> {
            &&& ix.text_records@ == text.text_records@
            &&& ix.text_length_u32 == text.text_length_u32
            &&& ix.text_record_count == text.text_record_count
            &&& skel_encoding(text.skel.entries@) matches Some((m, ds)) && ix.skel_main@ == m && views(ix.skel_details@) == ds
            &&& frag_encoding(fragments.entries@, fragment_selectors@) matches Some((m, ds, c))
                && ix.fragment_main@ == m && views(ix.fragment_details@) == ds && views(ix.fragment_ctoc@) == c
            &&& views(ix.indexing_tbs@) == views(indexing_tbs@)
            &&& ix.indexing_tbs@.len() == ix.text_records@.len()
            &&& ix.ncx_main@ == ncx.0@ && views(ix.ncx_details@) == views(ncx.1@) && views(ix.ncx_ctoc@) == views(ncx.2@)
            &&& guide_encoding(guide.positions@) matches Some((m, ds, c))
                && ix.guide_main@ == m && views(ix.guide_details@) == ds && views(ix.guide_ctoc@) == c
            &&& ix.div.entries@ == div_entries(text.text_records@.len())
            &&& flow_ranges(text.xhtml_length_u32, text.css_flow_lengths@, text.page_flow_lengths@) matches Ok(rs)
                && ix.fdst.entries@ == fdst_entries(rs)
            &&& ix.library_thumbnail == text.library_thumbnail
        },
{
    match text.skel.validate() {
        Ok(()) => {},
        Err(e) => {
            return Err(e);
        },
    }
    match fragments.validate() {
        Ok(()) => {},
        Err(e) => {
            return Err(e);
        },
    }
    let n = text.text_records.len();
    let div = Div::for_records(n);
    assert(div.entries@ =~= div_entries(n as nat));
    match div.validate(n) {
        Ok(()) => {},
        Err(e) => {
            return Err(e);
        },
    }
    let mut ranges: Vec<(u32, u32)> = Vec::new();
    ranges.push((0, text.xhtml_length_u32));
    let css_end = match ranges_into(&mut ranges, &text.css_flow_lengths, text.xhtml_length_u32, "CSS") {
        Ok(e) => e,
        Err(e) => {
            return Err(e);
        },
    };
    match ranges_into(&mut ranges, &text.page_flow_lengths, css_end, "page") {
        Ok(_) => {},
        Err(e) => {
            return Err(e);
        },
    }
    let fdst = Fdst::from_ranges(ranges.as_slice());
    assert(fdst.entries@ =~= fdst_entries(ranges@));
    match fdst.validate(text.text_length_u32) {
        Ok(()) => {},
        Err(e) => {
            return Err(e);
        },
    }
    let (skel_main, skel_details) = match text.skel.encode_pair() {
        Ok(p) => p,
        Err(e) => {
            return Err(named_output_error(e, "SKEL: "));
        },
    };
    let (fragment_main, fragment_details, fragment_ctoc) = match fragments.encode_pair_with_ctoc(fragment_selectors) {
        Ok(p) => p,
        Err(e) => {
            let mut name: Vec<char> = Vec::new();
            crate::strings::push_str_chars(&mut name, "FRAG (");
            let digits = crate::strings::decimal_chars(fragments.entries.len(), 1);
            let mut k: usize = 0;
            while k < digits.len()
                invariant
                    k <= digits@.len(),
                decreases digits@.len() - k,
            {
                name.push(digits[k]);
                k = k + 1;
            }
            crate::strings::push_str_chars(&mut name, " entries): ");
            let name = crate::strings::string_from_chars(name.as_slice());
            return Err(named_output_error(e, name.as_str()));
        },
    };
    if indexing_tbs.len() != text.text_records.len() {
        return Err(output_error("TBS count does not match PalmDOC text record count"));
    }
    let (ncx_main, ncx_details, ncx_ctoc) = ncx;
    let (guide_main, guide_details, guide_ctoc) = match guide.encode_pair() {
        Ok(p) => p,
        Err(e) => {
            return Err(named_output_error(e, "Guide: "));
        },
    };
    Ok(Indexes {
        text_records: text.text_records,
        indexing_tbs,
        guide_main,
        guide_details,
        guide_ctoc,
        ncx_main,
        ncx_details,
        ncx_ctoc,
        text_length_u32: text.text_length_u32,
        text_record_count: text.text_record_count,
        skel_main,
        skel_details,
        fragment_main,
        fragment_details,
        fragment_ctoc,
        div,
        fdst,
        library_thumbnail: text.library_thumbnail,
    })
}

/// Whether the SKEL ranges of the text are valid.
pub open spec fn skel_valid_of(text: TextData) -> bool {
    crate::kf8::skel::skel_valid(text.skel.entries@)
}

// ---------------------------------------------------------------------------
// The record layout.

/// The bytes of a text record with its trailing entries: the payload,
/// PalmDOC-compressed when asked, the carried-over character bytes and
/// their count, and the indexing TBS with its size.
pub open spec fn text_record_bytes(rec: TextRecord, tbs: Seq<u8>, compress: bool) -> Seq<u8> {
    (if compress {
        palmdoc_compress(rec.payload())
    } else {
        rec.payload()
    }) + rec.overlap() + seq![rec.overlap().len() as u8] + tbs + backward_vwi(trailing_size(tbs.len()))
}

/// The text records with their trailing entries, each paired with its TBS.
pub open spec fn text_part(recs: Seq<TextRecord>, tbs: Seq<Seq<u8>>, compress: bool) -> Seq<Seq<u8>> {
    Seq::new(
        if recs.len() < tbs.len() { recs.len() } else { tbs.len() },
        |i: int| text_record_bytes(recs[i], tbs[i], compress),
    )
}

/// The binary resources: neither text nor CSS.
pub open spec fn binary_of(rs: Seq<KindleResource>) -> Seq<KindleResource>
    decreases rs.len(),
{
    if rs.len() == 0 {
        Seq::empty()
    } else {
        binary_of(rs.drop_last()) + if !text_resource(rs.last()) && !css_resource(rs.last()) {
            seq![rs.last()]
        } else {
            Seq::empty()
        }
    }
}

/// The record layout: the records in order and the numbers the MOBI header
/// points at.
pub struct PhysicalLayout {
    pub records: Vec<Vec<u8>>,
    pub fdst: Fdst,
    pub text_length_u32: u32,
    pub text_record_count: usize,
    pub palm_doc_compression: bool,
    pub first_non_text_record: u32,
    pub fragment_record: u32,
    pub skel_record: u32,
    pub guide_record: u32,
    pub ncx_record: u32,
    pub fdst_record: u32,
    pub fcis_record: u32,
    pub flis_record: u32,
    pub resc_record: u32,
    pub geometry: BinaryResourceGeometry,
}

/// The layout as values: the records and the record numbers of the first
/// non-text record, FRAG, SKEL, guide, NCX, FDST, RESC, FLIS and FCIS.
pub struct LayoutView {
    pub records: Seq<Seq<u8>>,
    pub numbers: Seq<u32>,
    pub geometry: BinaryResourceGeometry,
}

/// Whether a record can be numbered after `n` records.
pub open spec fn numbered(n: int) -> bool {
    n + 1 <= u32::MAX
}

/// The tail of the layout from the binary resources on.
pub open spec fn layout_tail(
    r: Seq<Seq<u8>>,
    numbers: Seq<u32>,
    ix: Indexes,
    resources: Seq<KindleResource>,
    cover: Option<Seq<u8>>,
    resc: Seq<u8>,
    flis: Seq<u8>,
) -> Result<LayoutView, Seq<char>> {
    if !numbered(r.len() as int) {
        Err("resource record index overflow"@)
    } else {
        let bins = binary_of(resources);
        match geometry(bins.map_values(|x: KindleResource| &x), (r.len() + 1) as u32, cover, ix.library_thumbnail is Some) {
            Err(m) => Err(m),
            Ok(g) => {
                let r1 = r + bins.map_values(|x: KindleResource| x.data@) + match ix.library_thumbnail {
                    Some(t) => seq![t@],
                    None => Seq::empty(),
                };
                if !numbered(r1.len() as int) {
                    Err("RESC record index overflow"@)
                } else {
                    let r2 = r1.push(resc);
                    if !numbered(r2.len() as int) {
                        Err("FLIS record index overflow"@)
                    } else {
                        let r3 = r2.push(flis);
                        if !numbered(r3.len() as int) {
                            Err("FCIS record index overflow"@)
                        } else {
                            Ok(LayoutView {
                                records: r3.push(fcis_bytes(ix.text_length_u32)).push(seq![0xe9u8, 0x8eu8, 0x0du8, 0x0au8]),
                                numbers: numbers + seq![(r1.len() + 1) as u32, (r2.len() + 1) as u32, (r3.len() + 1) as u32],
                                geometry: g,
                            })
                        }
                    }
                }
            },
        }
    }
}

/// The records up to FDST: the text records with their trailing entries, a
/// two-byte separator, FRAG with its CTOC, SKEL, the guide when it has
/// entries, NCX with its CTOC, and FDST; with the numbers of the first
/// non-text record, FRAG, SKEL, guide, NCX and FDST; or the message of the
/// first number that does not fit.
pub open spec fn front_layout(
    recs: Seq<TextRecord>,
    tbs: Seq<Seq<u8>>,
    count: usize,
    compress: bool,
    frag: (Seq<u8>, Seq<Seq<u8>>, Seq<Seq<u8>>),
    skel: (Seq<u8>, Seq<Seq<u8>>),
    guide: (Seq<u8>, Seq<Seq<u8>>, Seq<Seq<u8>>),
    ncx: (Seq<u8>, Seq<Seq<u8>>, Seq<Seq<u8>>),
    fdst: Seq<FdstEntry>,
) -> Result<(Seq<Seq<u8>>, Seq<u32>), Seq<char>> {
    let r0 = text_part(recs, tbs, compress).push(seq![0u8, 0u8]);
    if count > u32::MAX {
        Err("text record count exceeds u32"@)
    } else if count + 2 > u32::MAX {
        Err("record index overflow"@)
    } else {
        let first = (count + 2) as u32;
        let r1 = r0 + seq![frag.0] + frag.1 + frag.2;
        if !numbered(r1.len() as int) {
            Err("SKEL record index overflow"@)
        } else {
            let r2 = r1 + seq![skel.0] + skel.1;
            if guide.0.len() != 0 && !numbered(r2.len() as int) {
                Err("Guide record index overflow"@)
            } else {
                let guide_number = if guide.0.len() == 0 { u32::MAX } else { (r2.len() + 1) as u32 };
                let r3 = if guide.0.len() == 0 { r2 } else { r2 + seq![guide.0] + guide.1 + guide.2 };
                if !numbered(r3.len() as int) {
                    Err("NCX record index overflow"@)
                } else {
                    let r4 = r3 + seq![ncx.0] + ncx.1 + ncx.2;
                    if !numbered(r4.len() as int) {
                        Err("FDST record index overflow"@)
                    } else {
                        Ok((
                            r4.push(fdst_bytes(fdst)),
                            seq![first, first, (r1.len() + 1) as u32, guide_number, (r3.len() + 1) as u32, (r4.len() + 1) as u32],
                        ))
                    }
                }
            }
        }
    }
}

/// The record layout of the text and its indexes, the resources, and the
/// RESC and FLIS records; or the message of the first record number that
/// does not fit.
pub open spec fn record_layout(
    ix: Indexes,
    compress: bool,
    resources: Seq<KindleResource>,
    cover: Option<Seq<u8>>,
    resc: Seq<u8>,
    flis: Seq<u8>,
) -> Result<LayoutView, Seq<char>> {
    match front_layout(
        ix.text_records@,
        views(ix.indexing_tbs@),
        ix.text_record_count,
        compress,
        (ix.fragment_main@, views(ix.fragment_details@), views(ix.fragment_ctoc@)),
        (ix.skel_main@, views(ix.skel_details@)),
        (ix.guide_main@, views(ix.guide_details@), views(ix.guide_ctoc@)),
        (ix.ncx_main@, views(ix.ncx_details@), views(ix.ncx_ctoc@)),
        ix.fdst.entries@,
    ) {
        Err(m) => Err(m),
        Ok((r, numbers)) => layout_tail(r, numbers, ix, resources, cover, resc, flis),
    }
}

/// Whether text records can carry their trailing entries: at most 4096
/// payload bytes (as `split_chunks` makes them) and at most three
/// carried-over bytes.
pub open spec fn records_fit(recs: Seq<TextRecord>) -> bool {
    forall|i: int| 0 <= i < recs.len() ==> (#[trigger] recs[i]).payload().len() <= 4096 && recs[i].overlap().len() <= 3
}

/// Append byte strings as records.
fn push_records(records: &mut Vec<Vec<u8>>, items: Vec<Vec<u8>>)
    ensures
        views(final(records)@) == views(old(records)@) + views(items@),
{
    let ghost start = views(records@);
    let mut i: usize = 0;
    while i < items.len()
        invariant
            i <= items@.len(),
            views(records@) == start + views(items@).take(i as int),
        decreases items@.len() - i,
    {
        let ghost before = records@;
        records.push(bytes_to_vec_local(items[i].as_slice()));
        proof {
            assert(views(records@) =~= views(before).push(items@[i as int]@));
            assert(views(items@).take(i + 1) =~= views(items@).take(i as int).push(items@[i as int]@));
        }
        i = i + 1;
    }
    assert(views(items@).take(i as int) =~= views(items@));
}

fn bytes_to_vec_local(b: &[u8]) -> (v: Vec<u8>)
    ensures
        v@ == b@,
{
    crate::kf8::wire::bytes_to_vec(b)
}

/// The number of the next record, or the output error named for it.
fn next_record_number(records: &Vec<Vec<u8>>, message: &str) -> (r: Result<u32, Error>)
    ensures
        numbered(records@.len() as int) ==> r == Ok::<u32, Error>((records@.len() + 1) as u32),
        !numbered(records@.len() as int) ==> (r matches Err(Error::Output(m)) && m@ == message@),
{
    if records.len() < 0xffff_ffff {
        Ok((records.len() + 1) as u32)
    } else {
        Err(output_error(message))
    }
}


/// The text records with their trailing entries.
fn trailing_text_records(recs: Vec<TextRecord>, indexing_tbs: &Vec<Vec<u8>>, palm_doc_compression: bool) -> (r: Vec<Vec<u8>>)
    requires
        records_fit(recs@),
        forall|i: int| 0 <= i < indexing_tbs@.len() ==> (#[trigger] indexing_tbs@[i])@.len() <= usize::MAX - 16,
    ensures
        views(r@) == text_part(recs@, views(indexing_tbs@), palm_doc_compression),
{
    let mut compressor: Option<PalmDocCompressor> = if palm_doc_compression {
        Some(PalmDocCompressor::new())
    } else {
        None
    };
    let ghost all = recs@;
    let n = if recs.len() < indexing_tbs.len() { recs.len() } else { indexing_tbs.len() };
    let mut records: Vec<Vec<u8>> = Vec::new();
    let mut recs = recs;
    let mut i: usize = 0;
    while i < n
        invariant
            i <= n,
            n == (if all.len() < indexing_tbs@.len() { all.len() } else { indexing_tbs@.len() }),
            recs@.len() + i == all.len(),
            forall|q: int| 0 <= q < recs@.len() ==> recs@[q] == all[i + q],
            records_fit(all),
            forall|q: int| 0 <= q < indexing_tbs@.len() ==> (#[trigger] indexing_tbs@[q])@.len() <= usize::MAX - 16,
            compressor is Some == palm_doc_compression,
            compressor matches Some(c) ==> c.wf(),
            views(records@) == text_part(all, views(indexing_tbs@), palm_doc_compression).take(i as int),
        decreases n - i,
    {
        let ghost before_recs = recs@;
        let rec = recs.remove(0);
        assert(rec == all[i as int]);
        assert forall|q: int| 0 <= q < recs@.len() implies recs@[q] == all[i + 1 + q] by {
            assert(recs@[q] == before_recs[q + 1]);
        }
        let tbs = indexing_tbs[i].as_slice();
        let ghost before = records@;
        let data = match &mut compressor {
            Some(c) => rec.into_trailing_data_with_compression(tbs, Some(c)),
            None => rec.into_trailing_data_with_compression(tbs, None),
        };
        records.push(data);
        proof {
            assert(views(indexing_tbs@)[i as int] == tbs@);
            assert(views(records@) =~= views(before).push(data@));
            assert(text_part(all, views(indexing_tbs@), palm_doc_compression).take(i + 1) =~= text_part(
                all,
                views(indexing_tbs@),
                palm_doc_compression,
            ).take(i as int).push(data@));
        }
        i = i + 1;
    }
    assert(text_part(all, views(indexing_tbs@), palm_doc_compression).take(i as int) =~= text_part(
        all,
        views(indexing_tbs@),
        palm_doc_compression,
    ));
    records
}

/// The binary resources and their bytes.
fn binary_resources(resources: &Vec<KindleResource>) -> (r: (Vec<&KindleResource>, Vec<Vec<u8>>))
    ensures
        r.0@ == binary_of(resources@).map_values(|x: KindleResource| &x),
        views(r.1@) == binary_of(resources@).map_values(|x: KindleResource| x.data@),
{
    let mut binary: Vec<&KindleResource> = Vec::new();
    let mut data: Vec<Vec<u8>> = Vec::new();
    let mut k: usize = 0;
    while k < resources.len()
        invariant
            k <= resources@.len(),
            binary@ == binary_of(resources@.take(k as int)).map_values(|x: KindleResource| &x),
            views(data@) == binary_of(resources@.take(k as int)).map_values(|x: KindleResource| x.data@),
        decreases resources@.len() - k,
    {
        proof {
            assert(resources@.take(k + 1).drop_last() =~= resources@.take(k as int));
            assert(resources@.take(k + 1).last() == resources@[k as int]);
        }
        let ghost bb = binary@;
        let ghost bd = data@;
        if is_binary_resource(&resources[k]) {
            binary.push(&resources[k]);
            let d = bytes_to_vec_local(resources[k].data.as_slice());
            data.push(d);
            proof {
                let bo = binary_of(resources@.take(k + 1));
                assert(bo =~= binary_of(resources@.take(k as int)).push(resources@[k as int]));
                assert(binary@ =~= bo.map_values(|x: KindleResource| &x));
                assert(views(data@) =~= views(bd).push(d@));
                assert(views(data@) =~= bo.map_values(|x: KindleResource| x.data@));
            }
        } else {
            proof {
                assert(binary_of(resources@.take(k + 1)) =~= binary_of(resources@.take(k as int)));
            }
        }
        k = k + 1;
    }
    assert(resources@.take(k as int) =~= resources@);
    (binary, data)
}


/// The records up to FDST and their numbers, as `front_layout` says.
fn front_records(
    text_records: Vec<TextRecord>,
    indexing_tbs: Vec<Vec<u8>>,
    text_record_count: usize,
    palm_doc_compression: bool,
    frag: (Vec<u8>, Vec<Vec<u8>>, Vec<Vec<u8>>),
    skel: (Vec<u8>, Vec<Vec<u8>>),
    guide: (Vec<u8>, Vec<Vec<u8>>, Vec<Vec<u8>>),
    ncx: (Vec<u8>, Vec<Vec<u8>>, Vec<Vec<u8>>),
    fdst: &Fdst,
) -> (r: Result<(Vec<Vec<u8>>, (u32, u32, u32, u32, u32, u32)), Error>)
    requires
        records_fit(text_records@),
        forall|i: int| 0 <= i < indexing_tbs@.len() ==> (#[trigger] indexing_tbs@[i])@.len() <= usize::MAX - 16,
        fdst_valid(fdst.entries@, fdst_end(fdst.entries@)),
    ensures
        match front_layout(
            text_records@,
            views(indexing_tbs@),
            text_record_count,
            palm_doc_compression,
            (frag.0@, views(frag.1@), views(frag.2@)),
            (skel.0@, views(skel.1@)),
            (guide.0@, views(guide.1@), views(guide.2@)),
            (ncx.0@, views(ncx.1@), views(ncx.2@)),
            fdst.entries@,
        ) {
            Ok((rs, ns)) => r matches Ok((v, n)) && views(v@) == rs && seq![n.0, n.1, n.2, n.3, n.4, n.5] == ns,
            Err(m) => r matches Err(Error::Output(e)) && e@ == m,
        },
{
    let mut records = trailing_text_records(text_records, &indexing_tbs, palm_doc_compression);
    let ghost before_sep = records@;
    records.push(vec![0u8, 0u8]);
    assert(views(records@) =~= views(before_sep).push(seq![0u8, 0u8]));
    if text_record_count > 0xffff_ffff {
        return Err(output_error("text record count exceeds u32"));
    }
    if text_record_count > 0xffff_ffff - 2 {
        return Err(output_error("record index overflow"));
    }
    let first_non_text_record = (text_record_count + 2) as u32;
    let (fragment_main, fragment_details, fragment_ctoc) = frag;
    let ghost b1 = records@;
    records.push(fragment_main);
    assert(views(records@) =~= views(b1) + seq![fragment_main@]);
    push_records(&mut records, fragment_details);
    push_records(&mut records, fragment_ctoc);
    let skel_record = next_record_number(&records, "SKEL record index overflow")?;
    let (skel_main, skel_details) = skel;
    let ghost b2 = records@;
    records.push(skel_main);
    assert(views(records@) =~= views(b2) + seq![skel_main@]);
    push_records(&mut records, skel_details);
    let (guide_main, guide_details, guide_ctoc) = guide;
    let guide_record = if guide_main.len() == 0 {
        0xffff_ffffu32
    } else {
        let number = next_record_number(&records, "Guide record index overflow")?;
        let ghost b3 = records@;
        records.push(guide_main);
        assert(views(records@) =~= views(b3) + seq![guide_main@]);
        push_records(&mut records, guide_details);
        push_records(&mut records, guide_ctoc);
        number
    };
    let ncx_record = next_record_number(&records, "NCX record index overflow")?;
    let (ncx_main, ncx_details, ncx_ctoc) = ncx;
    let ghost b4 = records@;
    records.push(ncx_main);
    assert(views(records@) =~= views(b4) + seq![ncx_main@]);
    push_records(&mut records, ncx_details);
    push_records(&mut records, ncx_ctoc);
    let fdst_record = next_record_number(&records, "FDST record index overflow")?;
    let ghost b5 = records@;
    records.push(fdst.encode());
    assert(views(records@) =~= views(b5).push(fdst_bytes(fdst.entries@)));
    Ok((records, (first_non_text_record, first_non_text_record, skel_record, guide_record, ncx_record, fdst_record)))
}

/// Lay out the records: the text records with their trailing entries (each
/// with its indexing TBS, PalmDOC-compressed when asked), a two-byte
/// separator, FRAG with its CTOC, SKEL, the guide when it has entries, NCX
/// with its CTOC, FDST, the binary resources and the thumbnail, RESC, FLIS,
/// FCIS and EOF; with the record numbers the MOBI header points at.
/// `resc` and `flis` are the RESC and FLIS records.
#[verifier::spinoff_prover]
#[verifier::rlimit(60)]
pub fn assemble_records(
    ix: Indexes,
    palm_doc_compression: bool,
    resources: Vec<KindleResource>,
    cover_resource_id: Option<&str>,
    resc: Vec<u8>,
    flis: Vec<u8>,
) -> (r: Result<PhysicalLayout, Error>)
    requires
        records_fit(ix.text_records@),
        forall|i: int| 0 <= i < ix.indexing_tbs@.len() ==> (#[trigger] ix.indexing_tbs@[i])@.len() <= usize::MAX - 16,
        fdst_valid(ix.fdst.entries@, fdst_end(ix.fdst.entries@)),
    ensures
        match record_layout(
            ix,
            palm_doc_compression,
            resources@,
            match cover_resource_id {
                Some(id) => Some(id.spec_bytes()),
                None => None::<Seq<u8>>,
            },
            resc@,
            flis@,
        ) {
            Ok(l) => r matches Ok(p) && views(p.records@) == l.records && seq![
                p.first_non_text_record,
                p.fragment_record,
                p.skel_record,
                p.guide_record,
                p.ncx_record,
                p.fdst_record,
                p.resc_record,
                p.flis_record,
                p.fcis_record,
            ] == l.numbers && p.geometry == l.geometry && p.fdst == ix.fdst && p.text_length_u32
                == ix.text_length_u32 && p.text_record_count == ix.text_record_count && p.palm_doc_compression
                == palm_doc_compression,
            Err(m) => r matches Err(Error::Output(e)) && e@ == m,
        },
{
    let Indexes {
        text_records,
        indexing_tbs,
        text_length_u32,
        text_record_count,
        skel_main,
        skel_details,
        fragment_main,
        fragment_details,
        fragment_ctoc,
        guide_main,
        guide_details,
        guide_ctoc,
        ncx_main,
        ncx_details,
        ncx_ctoc,
        div: _,
        fdst,
        library_thumbnail,
    } = ix;
    let (mut records, numbers) = front_records(
        text_records,
        indexing_tbs,
        text_record_count,
        palm_doc_compression,
        (fragment_main, fragment_details, fragment_ctoc),
        (skel_main, skel_details),
        (guide_main, guide_details, guide_ctoc),
        (ncx_main, ncx_details, ncx_ctoc),
        &fdst,
    )?;
    let resource_record_start = next_record_number(&records, "resource record index overflow")?;
    let (binary, data) = binary_resources(&resources);
    let cover_id = cover_resource_id;
    let geometry = BinaryResourceGeometry::compute(
        binary.as_slice(),
        resource_record_start,
        cover_id,
        library_thumbnail.is_some(),
    )?;
    push_records(&mut records, data);
    match library_thumbnail {
        Some(thumbnail) => {
            let ghost b6 = records@;
            records.push(thumbnail);
            assert(views(records@) =~= views(b6) + seq![thumbnail@]);
        },
        None => {
            assert(views(records@) =~= views(records@) + Seq::<Seq<u8>>::empty());
        },
    }
    let resc_record = next_record_number(&records, "RESC record index overflow")?;
    let ghost b7 = records@;
    records.push(resc);
    assert(views(records@) =~= views(b7).push(resc@));
    let flis_record = next_record_number(&records, "FLIS record index overflow")?;
    let ghost b8 = records@;
    records.push(flis);
    assert(views(records@) =~= views(b8).push(flis@));
    let fcis_record = next_record_number(&records, "FCIS record index overflow")?;
    let fcis = encode_fcis(text_length_u32)?;
    let ghost b9 = records@;
    records.push(fcis);
    records.push(encode_eof());
    assert(views(records@) =~= views(b9).push(fcis_bytes(text_length_u32)).push(seq![0xe9u8, 0x8eu8, 0x0du8, 0x0au8]));
    Ok(PhysicalLayout {
        records,
        fdst,
        text_length_u32,
        text_record_count,
        palm_doc_compression,
        first_non_text_record: numbers.0,
        fragment_record: numbers.1,
        skel_record: numbers.2,
        guide_record: numbers.3,
        ncx_record: numbers.4,
        fdst_record: numbers.5,
        fcis_record,
        flis_record,
        resc_record,
        geometry,
    })
}

// ---------------------------------------------------------------------------
// The EXTH records of record 0.

/// The EXTH records as `(kind, bytes)` pairs.
pub open spec fn exth_views(rs: Seq<ExthRecord>) -> Seq<(u32, Seq<u8>)> {
    Seq::new(rs.len(), |i: int| (rs[i].kind, rs[i].value@))
}

/// A text record when the value is present.
pub open spec fn text_record(kind: u32, value: Option<Seq<char>>) -> Seq<(u32, Seq<u8>)> {
    match value {
        Some(v) => seq![(kind, encode_utf8(v))],
        None => Seq::empty(),
    }
}

/// A big-endian `u32` record when the value is present.
pub open spec fn number_record(kind: u32, value: Option<u32>) -> Seq<(u32, Seq<u8>)> {
    match value {
        Some(v) => seq![(kind, be32(v))],
        None => Seq::empty(),
    }
}

/// The EXTH writing mode: a fixed-layout book's declared primary writing
/// mode, else the layout's.
pub open spec fn exth_writing_mode(m: KindleMetadata, layout: KindleLayout) -> Seq<char> {
    if m.is_fixed_layout && m.primary_writing_mode is Some {
        m.primary_writing_mode->0@
    } else {
        writing_mode_text(layout.writing_mode)
    }
}

/// The EXTH book type of a fixed-layout book: `comic` or `children`, up to
/// ASCII case and surrounding whitespace.
pub open spec fn exth_book_type(m: KindleMetadata) -> Option<Seq<char>> {
    match m.book_type {
        Some(t) => if lower_chars(trim_spec(t@)) == "comic"@ {
            Some("comic"@)
        } else if lower_chars(trim_spec(t@)) == "children"@ {
            Some("children"@)
        } else {
            None
        },
        None => None,
    }
}

/// The EXTH orientation: a fixed-layout book's orientation lock before its
/// orientation; `auto` (any ASCII case) becomes `none`.
pub open spec fn exth_orientation(m: KindleMetadata) -> Option<Seq<char>> {
    let o = if m.is_fixed_layout && m.orientation_lock is Some {
        opt_text(m.orientation_lock)
    } else {
        opt_text(m.orientation)
    };
    match o {
        Some(v) => if lower_chars(v) == "auto"@ { Some("none"@) } else { Some(v) },
        None => None,
    }
}

/// The identifying text records: creator, publisher, description, title
/// and language.
pub open spec fn identity_records(m: KindleMetadata) -> Seq<(u32, Seq<u8>)> {
    text_record(100, opt_text(m.creator)) + text_record(101, opt_text(m.publisher)) + text_record(
        103,
        opt_text(m.description),
    ) + text_record(503, opt_text(m.title)) + text_record(524, opt_text(m.language))
}

/// The binary resource count, the start-reading offset, the cover offset,
/// and the thumbnail offset with its embed reference.
pub open spec fn offset_records(g: BinaryResourceGeometry, start_reading_offset: Option<u32>) -> Seq<(u32, Seq<u8>)> {
    seq![(125u32, be32(g.count))] + number_record(116, start_reading_offset) + number_record(201, g.cover_offset)
        + match g.thumbnail_offset {
        Some(t) => seq![(202u32, be32(t)), (129u32, "kindle:embed:".spec_bytes() + base32_text(t as nat))],
        None => Seq::empty(),
    }
}

/// The writing mode and page progression.
pub open spec fn flow_records(m: KindleMetadata, layout: KindleLayout) -> Seq<(u32, Seq<u8>)> {
    seq![
        (525u32, encode_utf8(exth_writing_mode(m, layout))),
        (527u32, encode_utf8(page_progression_text(layout.page_progression))),
    ]
}

/// The fixed-layout flag and book type of a fixed-layout book.
pub open spec fn fixed_records(m: KindleMetadata) -> Seq<(u32, Seq<u8>)> {
    if m.is_fixed_layout {
        seq![(122u32, "true".spec_bytes())] + text_record(123, exth_book_type(m))
    } else {
        Seq::empty()
    }
}

/// The orientation, and a fixed-layout book's original resolution.
pub open spec fn display_records(m: KindleMetadata) -> Seq<(u32, Seq<u8>)> {
    text_record(124, exth_orientation(m)) + if m.is_fixed_layout {
        text_record(126, opt_text(m.original_resolution))
    } else {
        Seq::empty()
    }
}

/// The EXTH records of record 0, in order: creator, publisher, description,
/// title and language; the binary resource count; the start-reading
/// offset; the cover and thumbnail offsets with the thumbnail's embed
/// reference; the writing mode and page progression; for fixed-layout
/// books the fixed-layout flag and the book type; the orientation; and a
/// fixed-layout book's original resolution.
pub open spec fn record0_records(
    m: KindleMetadata,
    layout: KindleLayout,
    g: BinaryResourceGeometry,
    start_reading_offset: Option<u32>,
) -> Seq<(u32, Seq<u8>)> {
    identity_records(m) + offset_records(g, start_reading_offset) + flow_records(m, layout) + fixed_records(m)
        + display_records(m)
}

fn push_optional_text(exth: &mut ExthHeader, kind: u32, value: &Option<String>)
    ensures
        exth_views(final(exth).records@) == exth_views(old(exth).records@) + text_record(kind, opt_text(*value)),
{
    let ghost before = exth_views(exth.records@);
    match value {
        Some(v) => {
            exth.push_text(kind, v.as_str());
            assert(exth_views(exth.records@) =~= before + seq![(kind, encode_utf8(v@))]);
        },
        None => {
            assert(before + Seq::<(u32, Seq<u8>)>::empty() =~= before);
        },
    }
}

fn push_number(exth: &mut ExthHeader, kind: u32, value: u32)
    ensures
        exth_views(final(exth).records@) == exth_views(old(exth).records@).push((kind, be32(value))),
{
    let ghost before = exth_views(exth.records@);
    let mut bytes: Vec<u8> = Vec::new();
    push_u32_be(&mut bytes, value);
    assert(bytes@ =~= be32(value));
    exth.push_bytes(kind, bytes.as_slice());
    assert(exth_views(exth.records@) =~= before.push((kind, be32(value))));
}

fn push_literal(exth: &mut ExthHeader, kind: u32, value: &str)
    ensures
        exth_views(final(exth).records@) == exth_views(old(exth).records@).push((kind, value.spec_bytes())),
{
    let ghost before = exth_views(exth.records@);
    exth.push_text(kind, value);
    assert(exth_views(exth.records@) =~= before.push((kind, value.spec_bytes())));
}

fn push_identity(exth: &mut ExthHeader, metadata: &KindleMetadata)
    ensures
        exth_views(final(exth).records@) == exth_views(old(exth).records@) + identity_records(*metadata),
{
    let ghost a = exth_views(exth.records@);
    push_optional_text(exth, 100, &metadata.creator);
    push_optional_text(exth, 101, &metadata.publisher);
    push_optional_text(exth, 103, &metadata.description);
    push_optional_text(exth, 503, &metadata.title);
    push_optional_text(exth, 524, &metadata.language);
    assert(exth_views(exth.records@) =~= a + identity_records(*metadata));
}

fn push_offsets(exth: &mut ExthHeader, geometry: &BinaryResourceGeometry, start_reading_offset: Option<u32>)
    ensures
        exth_views(final(exth).records@) == exth_views(old(exth).records@) + offset_records(
            *geometry,
            start_reading_offset,
        ),
{
    let ghost a0 = exth_views(exth.records@);
    push_number(exth, 125, geometry.count);
    let ghost a1 = exth_views(exth.records@);
    match start_reading_offset {
        Some(o) => push_number(exth, 116, o),
        None => {},
    }
    assert(exth_views(exth.records@) =~= a1 + number_record(116, start_reading_offset));
    let ghost a2 = exth_views(exth.records@);
    match geometry.cover_offset {
        Some(o) => push_number(exth, 201, o),
        None => {},
    }
    assert(exth_views(exth.records@) =~= a2 + number_record(201, geometry.cover_offset));
    let ghost a3 = exth_views(exth.records@);
    match geometry.thumbnail_offset {
        Some(t) => {
            push_number(exth, 202, t);
            let mut embed: Vec<u8> = Vec::new();
            crate::kf8::wire::push_bytes(&mut embed, "kindle:embed:".as_bytes());
            let digits = to_base32(t);
            crate::kf8::wire::push_bytes(&mut embed, digits.as_slice());
            let ghost a4 = exth_views(exth.records@);
            exth.push_bytes(129, embed.as_slice());
            assert(exth_views(exth.records@) =~= a4.push((129u32, embed@)));
            assert(exth_views(exth.records@) =~= a3 + seq![
                (202u32, be32(t)),
                (129u32, "kindle:embed:".spec_bytes() + base32_text(t as nat)),
            ]);
        },
        None => {
            assert(exth_views(exth.records@) =~= a3 + Seq::<(u32, Seq<u8>)>::empty());
        },
    }
    assert(exth_views(exth.records@) =~= a0 + offset_records(*geometry, start_reading_offset));
}

fn push_flow(exth: &mut ExthHeader, metadata: &KindleMetadata, layout: &KindleLayout)
    ensures
        exth_views(final(exth).records@) == exth_views(old(exth).records@) + flow_records(*metadata, *layout),
{
    let ghost a = exth_views(exth.records@);
    let writing_mode = if metadata.is_fixed_layout {
        match &metadata.primary_writing_mode {
            Some(w) => w.as_str(),
            None => writing_mode_value(layout.writing_mode),
        }
    } else {
        writing_mode_value(layout.writing_mode)
    };
    push_literal(exth, 525, writing_mode);
    push_literal(exth, 527, page_progression_value(layout.page_progression));
    assert(exth_views(exth.records@) =~= a + flow_records(*metadata, *layout));
}

fn push_fixed(exth: &mut ExthHeader, metadata: &KindleMetadata)
    ensures
        exth_views(final(exth).records@) == exth_views(old(exth).records@) + fixed_records(*metadata),
{
    let ghost a = exth_views(exth.records@);
    if metadata.is_fixed_layout {
        push_literal(exth, 122, "true");
        let ghost b = exth_views(exth.records@);
        match &metadata.book_type {
            Some(t) => {
                let v = trim_str(t.as_str());
                if lower_eq(v, "comic") {
                    push_literal(exth, 123, "comic");
                } else if lower_eq(v, "children") {
                    push_literal(exth, 123, "children");
                } else {
                    assert(exth_views(exth.records@) =~= b + Seq::<(u32, Seq<u8>)>::empty());
                }
            },
            None => {
                assert(exth_views(exth.records@) =~= b + Seq::<(u32, Seq<u8>)>::empty());
            },
        }
        assert(exth_views(exth.records@) =~= a + fixed_records(*metadata));
    } else {
        assert(exth_views(exth.records@) =~= a + fixed_records(*metadata));
    }
}

fn push_display(exth: &mut ExthHeader, metadata: &KindleMetadata)
    ensures
        exth_views(final(exth).records@) == exth_views(old(exth).records@) + display_records(*metadata),
{
    let ghost a = exth_views(exth.records@);
    let orientation: Option<&str> = if metadata.is_fixed_layout {
        match &metadata.orientation_lock {
            Some(o) => Some(o.as_str()),
            None => match &metadata.orientation {
                Some(o) => Some(o.as_str()),
                None => None,
            },
        }
    } else {
        match &metadata.orientation {
            Some(o) => Some(o.as_str()),
            None => None,
        }
    };
    match orientation {
        Some(o) => {
            if lower_eq(o, "auto") {
                push_literal(exth, 124, "none");
            } else {
                push_literal(exth, 124, o);
            }
        },
        None => {
            assert(exth_views(exth.records@) =~= a + Seq::<(u32, Seq<u8>)>::empty());
        },
    }
    let ghost b = exth_views(exth.records@);
    assert(b =~= a + text_record(124, exth_orientation(*metadata)));
    if metadata.is_fixed_layout {
        push_optional_text(exth, 126, &metadata.original_resolution);
    } else {
        assert(exth_views(exth.records@) =~= b + Seq::<(u32, Seq<u8>)>::empty());
    }
    assert(exth_views(exth.records@) =~= a + display_records(*metadata));
}

/// The EXTH records of record 0 from the metadata, the layout, the binary
/// resource geometry and the start-reading offset.
pub fn record0_exth(
    metadata: &KindleMetadata,
    layout: &KindleLayout,
    geometry: &BinaryResourceGeometry,
    start_reading_offset: Option<u32>,
) -> (r: ExthHeader)
    ensures
        exth_views(r.records@) == record0_records(*metadata, *layout, *geometry, start_reading_offset),
{
    let mut exth = ExthHeader { records: Vec::new() };
    assert(exth_views(exth.records@) =~= Seq::<(u32, Seq<u8>)>::empty());
    push_identity(&mut exth, metadata);
    push_offsets(&mut exth, geometry, start_reading_offset);
    push_flow(&mut exth, metadata, layout);
    push_fixed(&mut exth, metadata);
    push_display(&mut exth, metadata);
    assert(exth_views(exth.records@) =~= record0_records(*metadata, *layout, *geometry, start_reading_offset));
    exth
}

/// The PalmDOC header of record 0 for a record layout: compression 2 with
/// PalmDOC, 1 without; the text length and record count (the count's low
/// sixteen bits, as the header field holds them); 4096-byte records; no
/// encryption.
pub fn record0_palmdoc(layout: &PhysicalLayout) -> (r: PalmDocHeader)
    ensures
        r.compression == (if layout.palm_doc_compression { 2u16 } else { 1u16 }),
        r.text_length == layout.text_length_u32,
        r.record_count == (layout.text_record_count % 0x1_0000) as u16,
        r.record_size == 4096,
        r.encryption == 0,
{
    PalmDocHeader {
        compression: if layout.palm_doc_compression { 2 } else { 1 },
        text_length: layout.text_length_u32,
        record_count: (layout.text_record_count % 0x1_0000) as u16,
        record_size: 4096,
        encryption: 0,
    }
}


/// The MOBI language codes of BCP 47 primary subtags, in any case:
/// Japanese 0x11, English 0x09, German 0x07, Spanish 0x0a, French 0x0c,
/// Italian 0x10, Korean 0x12, Chinese 0x04; any other language 0.
pub proof fn lemma_mobi_language_codes(language: Seq<char>)
    ensures
        ({
            let p = primary_subtag(language);
            let code = language_code_of(p);
            &&& (p == "ja"@ || p == "jpn"@) ==> code == 0x11
            &&& (p == "en"@ || p == "eng"@) ==> code == 0x09
            &&& (p == "de"@ || p == "deu"@ || p == "ger"@) ==> code == 0x07
            &&& (p == "es"@ || p == "spa"@) ==> code == 0x0a
            &&& (p == "fr"@ || p == "fra"@ || p == "fre"@) ==> code == 0x0c
            &&& (p == "it"@ || p == "ita"@) ==> code == 0x10
            &&& (p == "ko"@ || p == "kor"@) ==> code == 0x12
            &&& (p == "zh"@ || p == "chi"@ || p == "zho"@) ==> code == 0x04
            &&& !(p == "ja"@ || p == "jpn"@ || p == "en"@ || p == "eng"@ || p == "de"@ || p == "deu"@ || p
                == "ger"@ || p == "es"@ || p == "spa"@ || p == "fr"@ || p == "fra"@ || p == "fre"@ || p
                == "it"@ || p == "ita"@ || p == "ko"@ || p == "kor"@ || p == "zh"@ || p == "chi"@ || p
                == "zho"@) ==> code == 0
        }),
{
    reveal_strlit("ja");
    reveal_strlit("jpn");
    reveal_strlit("en");
    reveal_strlit("eng");
    reveal_strlit("de");
    reveal_strlit("deu");
    reveal_strlit("ger");
    reveal_strlit("es");
    reveal_strlit("spa");
    reveal_strlit("fr");
    reveal_strlit("fra");
    reveal_strlit("fre");
    reveal_strlit("it");
    reveal_strlit("ita");
    reveal_strlit("ko");
    reveal_strlit("kor");
    reveal_strlit("zh");
    reveal_strlit("chi");
    reveal_strlit("zho");
    assert("ja"@ =~= seq!['j', 'a']);
    assert("jpn"@ =~= seq!['j', 'p', 'n']);
    assert("en"@ =~= seq!['e', 'n']);
    assert("eng"@ =~= seq!['e', 'n', 'g']);
    assert("de"@ =~= seq!['d', 'e']);
    assert("deu"@ =~= seq!['d', 'e', 'u']);
    assert("ger"@ =~= seq!['g', 'e', 'r']);
    assert("es"@ =~= seq!['e', 's']);
    assert("spa"@ =~= seq!['s', 'p', 'a']);
    assert("fr"@ =~= seq!['f', 'r']);
    assert("fra"@ =~= seq!['f', 'r', 'a']);
    assert("fre"@ =~= seq!['f', 'r', 'e']);
    assert("it"@ =~= seq!['i', 't']);
    assert("ita"@ =~= seq!['i', 't', 'a']);
    assert("ko"@ =~= seq!['k', 'o']);
    assert("kor"@ =~= seq!['k', 'o', 'r']);
    assert("zh"@ =~= seq!['z', 'h']);
    assert("chi"@ =~= seq!['c', 'h', 'i']);
    assert("zho"@ =~= seq!['z', 'h', 'o']);
    let p = primary_subtag(language);
    if p.len() >= 2 {
        assert(p[0] == p[0] && p[1] == p[1]);
    }
    if p.len() >= 3 {
        assert(p[2] == p[2]);
    }
}

} // verus!
