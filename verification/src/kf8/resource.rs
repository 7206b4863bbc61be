//! Classify prepared Kindle resources and compute their KF8 record geometry.
//!
//! EXTH 201/202 offsets are relative to First Image, so zero is valid when
//! the first image is the target.

use vstd::prelude::*;
use vstd::string::StringSliceAdditionalSpecFns;
use vstd::utf8::encode_utf8;
use crate::error::{Error, output_error};
use crate::kindle::ir::KindleResource;
use crate::kindle::cover::bytes_equal;
use crate::xhtml::scan::{ascii_ci_eq, ascii_bytes_eq_ignore_case, str_eq_ignore_ascii_case};

verus! {

/// The UTF-8 bytes of a resource's media type.
pub open spec fn media_bytes(r: KindleResource) -> Seq<u8> {
    encode_utf8(r.media_type@)
}

/// The media type equals `lit` up to ASCII case.
pub open spec fn media_is(r: KindleResource, lit: &str) -> bool {
    ascii_ci_eq(media_bytes(r), lit.spec_bytes())
}

/// XHTML, HTML or NCX text.
pub open spec fn text_resource(r: KindleResource) -> bool {
    media_is(r, "application/xhtml+xml") || media_is(r, "text/html") || media_is(
        r,
        "application/x-dtbncx+xml",
    )
}

/// A stylesheet.
pub open spec fn css_resource(r: KindleResource) -> bool {
    media_is(r, "text/css")
}

/// An image: the media type starts with `image/` up to ASCII case.
pub open spec fn image_resource(r: KindleResource) -> bool {
    media_bytes(r).len() >= 6 && ascii_ci_eq(media_bytes(r).subrange(0, 6), "image/".spec_bytes())
}

/// A TrueType or OpenType font.
pub open spec fn font_resource(r: KindleResource) -> bool {
    media_is(r, "application/font-sfnt") || media_is(r, "application/x-font-ttf") || media_is(
        r,
        "font/sfnt",
    ) || media_is(r, "font/ttf") || media_is(r, "font/truetype") || media_is(r, "font/otf")
        || media_is(r, "font/opentype")
}

/// Whether the resource is XHTML, HTML or NCX text.
pub fn is_text_resource(resource: &KindleResource) -> (r: bool)
    ensures
        r == text_resource(*resource),
{
    let m = resource.media_type.as_str();
    str_eq_ignore_ascii_case(m, "application/xhtml+xml") || str_eq_ignore_ascii_case(m, "text/html")
        || str_eq_ignore_ascii_case(m, "application/x-dtbncx+xml")
}

/// Whether the resource is a stylesheet.
pub fn is_css_resource(resource: &KindleResource) -> (r: bool)
    ensures
        r == css_resource(*resource),
{
    str_eq_ignore_ascii_case(resource.media_type.as_str(), "text/css")
}

/// Whether the resource is an image.
pub fn is_image_resource(resource: &KindleResource) -> (r: bool)
    ensures
        r == image_resource(*resource),
{
    let bytes = resource.media_type.as_str().as_bytes();
    let prefix = "image/".as_bytes();
    if bytes.len() < 6 || prefix.len() != 6 {
        proof {
            reveal_strlit("image/");
        }
        return false;
    }
    let mut head: Vec<u8> = Vec::new();
    let mut i: usize = 0;
    while i < 6
        invariant
            i <= 6,
            bytes@.len() >= 6,
            head@ == bytes@.subrange(0, i as int),
        decreases 6 - i,
    {
        head.push(bytes[i]);
        i = i + 1;
        assert(head@ =~= bytes@.subrange(0, i as int));
    }
    ascii_bytes_eq_ignore_case(head.as_slice(), prefix)
}

/// Whether the resource is a TrueType or OpenType font.
pub fn is_font_resource(resource: &KindleResource) -> (r: bool)
    ensures
        r == font_resource(*resource),
{
    let m = resource.media_type.as_str();
    str_eq_ignore_ascii_case(m, "application/font-sfnt") || str_eq_ignore_ascii_case(
        m,
        "application/x-font-ttf",
    ) || str_eq_ignore_ascii_case(m, "font/sfnt") || str_eq_ignore_ascii_case(m, "font/ttf")
        || str_eq_ignore_ascii_case(m, "font/truetype") || str_eq_ignore_ascii_case(m, "font/otf")
        || str_eq_ignore_ascii_case(m, "font/opentype")
}

/// Whether the resource goes into the binary records: neither text nor CSS.
pub fn is_binary_resource(resource: &KindleResource) -> (r: bool)
    ensures
        r == (!text_resource(*resource) && !css_resource(*resource)),
{
    !is_text_resource(resource) && !is_css_resource(resource)
}

// ---------------------------------------------------------------------------
// Record geometry.

/// Placement of the binary resources in the record list.
#[derive(Debug, Clone, Copy, PartialEq, Eq)]
pub struct BinaryResourceGeometry {
    /// Number of binary records, the thumbnail included.
    pub count: u32,
    /// Record number of the first image, `u32::MAX` without images.
    pub first_image_record: u32,
    /// Record number of the last image, `u16::MAX` without images.
    pub last_image_record: u16,
    /// EXTH 201: the cover's offset from the first image.
    pub cover_offset: Option<u32>,
    /// EXTH 202: the thumbnail's offset from the first image.
    pub thumbnail_offset: Option<u32>,
}

/// Position of the first image at or after `i`.
pub open spec fn first_image(rs: Seq<&KindleResource>, i: int) -> Option<int>
    decreases rs.len() - i,
{
    if i < 0 || i >= rs.len() {
        None
    } else if image_resource(*rs[i]) {
        Some(i)
    } else {
        first_image(rs, i + 1)
    }
}

/// Position of the last image below `i`.
pub open spec fn last_image(rs: Seq<&KindleResource>, i: int) -> Option<int>
    decreases i,
{
    if i <= 0 || i > rs.len() {
        None
    } else if image_resource(*rs[i - 1]) {
        Some(i - 1)
    } else {
        last_image(rs, i - 1)
    }
}

/// Position of the first resource at or after `i` whose id has the bytes `id`.
pub open spec fn id_pos(rs: Seq<&KindleResource>, id: Seq<u8>, i: int) -> Option<int>
    decreases rs.len() - i,
{
    if i < 0 || i >= rs.len() {
        None
    } else if encode_utf8(rs[i].id@) == id {
        Some(i)
    } else {
        id_pos(rs, id, i + 1)
    }
}

proof fn lemma_forward(rs: Seq<&KindleResource>, id: Seq<u8>, i: int)
    requires
        0 <= i,
    ensures
        first_image(rs, i) matches Some(k) ==> i <= k < rs.len(),
        id_pos(rs, id, i) matches Some(k) ==> i <= k < rs.len(),
    decreases rs.len() - i,
{
    if i < rs.len() {
        lemma_forward(rs, id, i + 1);
    }
}

proof fn lemma_backward(rs: Seq<&KindleResource>, j: int)
    requires
        0 <= j <= rs.len(),
    ensures
        last_image(rs, j) matches Some(k) ==> 0 <= k < j,
    decreases j,
{
    if j > 0 {
        lemma_backward(rs, j - 1);
    }
}

proof fn lemma_positions(rs: Seq<&KindleResource>, id: Seq<u8>, i: int, j: int)
    requires
        0 <= i,
        0 <= j <= rs.len(),
    ensures
        first_image(rs, i) matches Some(k) ==> i <= k < rs.len(),
        id_pos(rs, id, i) matches Some(k) ==> i <= k < rs.len(),
        last_image(rs, j) matches Some(k) ==> 0 <= k < j,
{
    lemma_forward(rs, id, i);
    lemma_backward(rs, j);
}

/// The record of the first image, or the message of the failure.
pub open spec fn first_record(fi: Option<int>, start: u32) -> Result<u32, Seq<char>> {
    match fi {
        None => Ok(u32::MAX),
        Some(o) => if o > u32::MAX {
            Err("image resource count exceeds u32"@)
        } else if start + o > u32::MAX {
            Err("image record index overflow"@)
        } else {
            Ok((start + o) as u32)
        },
    }
}

/// The record of the last image, or the message of the failure.
pub open spec fn last_record(li: Option<int>, start: u32) -> Result<u16, Seq<char>> {
    match li {
        None => Ok(u16::MAX),
        Some(o) => if o > u32::MAX {
            Err("image resource count exceeds u32"@)
        } else if start + o > u32::MAX {
            Err("last image record index overflow"@)
        } else if start + o > u16::MAX {
            Err("last image record index exceeds u16"@)
        } else {
            Ok((start + o) as u16)
        },
    }
}

/// The cover's offset from the first image, or the message of the failure.
pub open spec fn cover_offset_spec(rs: Seq<&KindleResource>, cover: Option<Seq<u8>>, fi: Option<int>) -> Result<Option<u32>, Seq<char>> {
    match (cover, fi) {
        (Some(id), Some(f)) => match id_pos(rs, id, 0) {
            None => Ok(None),
            Some(cp) => if cp < f {
                Err("cover precedes first image record"@)
            } else if cp - f > u32::MAX {
                Err("cover offset exceeds u32"@)
            } else {
                Ok(Some((cp - f) as u32))
            },
        },
        _ => Ok(None),
    }
}

/// The geometry of the binary resources, or the message of the first failure.
pub open spec fn geometry(rs: Seq<&KindleResource>, start: u32, cover: Option<Seq<u8>>, thumb: bool) -> Result<BinaryResourceGeometry, Seq<char>> {
    let count = rs.len() + if thumb { 1int } else { 0int };
    let fi = first_image(rs, 0);
    let li = if thumb { Some(count - 1) } else { last_image(rs, rs.len() as int) };
    if count > usize::MAX {
        Err("resource count overflow"@)
    } else if count > u32::MAX {
        Err("resource count exceeds u32"@)
    } else {
        match first_record(fi, start) {
            Err(m) => Err(m),
            Ok(first) => match last_record(li, start) {
                Err(m) => Err(m),
                Ok(last) => match cover_offset_spec(rs, cover, fi) {
                    Err(m) => Err(m),
                    Ok(co) => Ok(
                        BinaryResourceGeometry {
                            count: count as u32,
                            first_image_record: first,
                            last_image_record: last,
                            cover_offset: co,
                            thumbnail_offset: if thumb {
                                match fi {
                                    Some(f) => if rs.len() - f <= u32::MAX {
                                        Some((rs.len() - f) as u32)
                                    } else {
                                        None
                                    },
                                    None => None,
                                }
                            } else {
                                None
                            },
                        },
                    ),
                },
            },
        }
    }
}

/// The ids' bytes, if any.
pub open spec fn id_bytes(cover: Option<&str>) -> Option<Seq<u8>> {
    match cover {
        Some(id) => Some(id.spec_bytes()),
        None => None,
    }
}

impl BinaryResourceGeometry {
    /// Place the binary resources, the thumbnail last, from record
    /// `resource_record_start` on.
    pub fn compute(
        binary_resources: &[&KindleResource],
        resource_record_start: u32,
        cover_resource_id: Option<&str>,
        has_thumbnail: bool,
    ) -> (r: Result<Self, Error>)
        ensures
            match geometry(binary_resources@, resource_record_start, id_bytes(cover_resource_id), has_thumbnail) {
                Ok(g) => r matches Ok(x) && x == g,
                Err(m) => r matches Err(e) && e matches Error::Output(mm) && mm@ == m,
            },
    {
        let ghost rs = binary_resources@;
        let n = binary_resources.len();
        proof {
            lemma_positions(rs, Seq::empty(), 0, n as int);
            match cover_resource_id {
                Some(id) => lemma_positions(rs, id.spec_bytes(), 0, n as int),
                None => {},
            }
        }
        let extra: usize = if has_thumbnail { 1 } else { 0 };
        if n > usize::MAX - extra {
            return Err(output_error("resource count overflow"));
        }
        let count_usize = n + extra;
        if count_usize > u32::MAX as usize {
            return Err(output_error("resource count exceeds u32"));
        }
        let count = count_usize as u32;
        // First image.
        let mut i: usize = 0;
        let mut first: Option<usize> = None;
        while first.is_none() && i < n
            invariant
                n == rs.len(),
                rs == binary_resources@,
                i <= n,
                first is None ==> first_image(rs, i as int) == first_image(rs, 0),
                first matches Some(k) ==> first_image(rs, 0) == Some(k as int),
            decreases n - i + (if first is None { 1int } else { 0int }),
        {
            if is_image_resource(binary_resources[i]) {
                first = Some(i);
            } else {
                i = i + 1;
            }
        }
        let first_image_record = match first {
            Some(offset) => {
                if offset > u32::MAX as usize {
                    return Err(output_error("image resource count exceeds u32"));
                }
                if resource_record_start as usize > u32::MAX as usize - offset {
                    return Err(output_error("image record index overflow"));
                }
                resource_record_start + offset as u32
            },
            None => u32::MAX,
        };
        // Last image.
        let last_position = if has_thumbnail {
            Some(count_usize - 1)
        } else {
            let mut j: usize = n;
            let mut last: Option<usize> = None;
            while last.is_none() && j > 0
                invariant
                    n == rs.len(),
                    rs == binary_resources@,
                    j <= n,
                    last is None ==> last_image(rs, j as int) == last_image(rs, n as int),
                    last matches Some(k) ==> last_image(rs, n as int) == Some(k as int),
                decreases j + (if last is None { 1int } else { 0int }),
            {
                if is_image_resource(binary_resources[j - 1]) {
                    last = Some(j - 1);
                } else {
                    j = j - 1;
                }
            }
            last
        };
        let last_image_record: u16 = match last_position {
            Some(offset) => {
                if offset > u32::MAX as usize {
                    return Err(output_error("image resource count exceeds u32"));
                }
                if resource_record_start as usize > u32::MAX as usize - offset {
                    return Err(output_error("last image record index overflow"));
                }
                let record = resource_record_start as usize + offset;
                if record > u16::MAX as usize {
                    return Err(output_error("last image record index exceeds u16"));
                }
                record as u16
            },
            None => u16::MAX,
        };
        // Cover offset.
        let cover_offset = match (cover_resource_id, first) {
            (Some(cover_id), Some(first_position)) => {
                let wanted = cover_id.as_bytes();
                let mut k: usize = 0;
                let mut position: Option<usize> = None;
                while position.is_none() && k < n
                    invariant
                        n == rs.len(),
                        rs == binary_resources@,
                        wanted@ == cover_id.spec_bytes(),
                        k <= n,
                        position is None ==> id_pos(rs, wanted@, k as int) == id_pos(rs, wanted@, 0),
                        position matches Some(p) ==> id_pos(rs, wanted@, 0) == Some(p as int),
                    decreases n - k + (if position is None { 1int } else { 0int }),
                {
                    if bytes_equal(binary_resources[k].id.as_str().as_bytes(), wanted) {
                        position = Some(k);
                    } else {
                        k = k + 1;
                    }
                }
                match position {
                    Some(cover_position) => {
                        if cover_position < first_position {
                            return Err(output_error("cover precedes first image record"));
                        }
                        if cover_position - first_position > u32::MAX as usize {
                            return Err(output_error("cover offset exceeds u32"));
                        }
                        Some((cover_position - first_position) as u32)
                    },
                    None => None,
                }
            },
            _ => None,
        };
        let thumbnail_offset = if has_thumbnail {
            match first {
                Some(f) => if n - f <= u32::MAX as usize {
                    Some((n - f) as u32)
                } else {
                    None
                },
                None => None,
            }
        } else {
            None
        };
        Ok(
            BinaryResourceGeometry {
                count,
                first_image_record,
                last_image_record,
                cover_offset,
                thumbnail_offset,
            },
        )
    }
}

} // verus!
