//! Lower source cover binaries into the representations expected by Kindle.
//!
//! Full-size cover lowering is required and may return a conversion error;
//! library thumbnail generation is separate and best-effort. Decoding,
//! resampling and JPEG encoding are done by the `image` crate; the pixel
//! flattening, the thumbnail geometry and the decisions are verified here.

use vstd::prelude::*;
use vstd::string::StringSliceAdditionalSpecFns;
use crate::error::{Error, output_error};
use crate::kindle::ir::KindleResource;
use vstd::utf8::encode_utf8;
use crate::xhtml::scan::{ascii_ci_eq, str_eq_ignore_ascii_case};

verus! {

/// Largest library thumbnail width.
pub const LIBRARY_THUMBNAIL_MAX_WIDTH: u32 = 330;

/// Largest library thumbnail height.
pub const LIBRARY_THUMBNAIL_MAX_HEIGHT: u32 = 470;

/// JPEG quality of the library thumbnail.
pub const LIBRARY_THUMBNAIL_JPEG_QUALITY: u8 = 80;

/// JPEG quality of a converted cover.
pub const COVER_JPEG_QUALITY: u8 = 100;

/// The image formats the cover logic tells apart.
#[derive(Debug, Clone, Copy, PartialEq, Eq)]
pub enum ImageKind {
    Png,
    Jpeg,
    Other,
}

// ---------------------------------------------------------------------------
// The `image` crate.

/// The format that `image::guess_format` detects from the leading bytes.
pub uninterp spec fn guessed_kind(data: Seq<u8>) -> Option<ImageKind>;

/// Width, height and RGBA8 pixels that `image::load_from_memory` decodes
/// from bytes that `guess_format` takes for PNG, if they decode. PNG
/// decoding is lossless, so the pixels are a function of the bytes.
pub uninterp spec fn png_rgba(data: Seq<u8>) -> Option<(u32, u32, Seq<u8>)>;

/// Width and height of the image that `image::load_from_memory` decodes from
/// the bytes, when it decodes them: the size the format's header declares,
/// a function of the bytes whatever the machine.
pub uninterp spec fn decoded_size(data: Seq<u8>) -> (u32, u32);

/// The JPEG stream that `image`'s `JpegEncoder` writes for an RGB8 image, if
/// encoding succeeds.
pub uninterp spec fn jpeg_bytes(width: u32, height: u32, rgb: Seq<u8>, quality: u8) -> Option<Seq<u8>>;

/// `image::guess_format` on `data`, reduced to the formats the cover logic
/// distinguishes. The contract claims only that the answer depends on the
/// bytes alone.
#[verifier::external_body]
fn image_kind(data: &[u8]) -> (r: Option<ImageKind>)
    ensures
        r == guessed_kind(data@),
{
    match image::guess_format(data) {
        Ok(image::ImageFormat::Png) => Some(ImageKind::Png),
        Ok(image::ImageFormat::Jpeg) => Some(ImageKind::Jpeg),
        Ok(_) => Some(ImageKind::Other),
        Err(_) => None,
    }
}

/// `image::load_from_memory` on `data`, converted to RGBA8 pixels. The
/// contract claims that a decoded image has the size `decoded_size` names,
/// that the pixel buffer holds four bytes per pixel of it, as `RgbaImage`
/// does, and that for bytes taken for PNG the result is the lossless
/// decoding `png_rgba`. For other formats, whether decoding succeeds and
/// which pixels come out is left unsaid: their decoders take SIMD or scalar
/// paths by machine.
#[verifier::external_body]
fn decode_rgba(data: &[u8]) -> (r: Result<(u32, u32, Vec<u8>), String>)
    ensures
        r matches Ok((w, h, p)) ==> p@.len() == 4 * w * h && decoded_size(data@) == (w, h),
        guessed_kind(data@) == Some(ImageKind::Png) ==> match r {
            Ok((w, h, p)) => png_rgba(data@) == Some((w, h, p@)),
            Err(_) => png_rgba(data@) is None,
        },
{
    match image::load_from_memory(data) {
        Ok(img) => Ok((img.width(), img.height(), img.to_rgba8().into_raw())),
        Err(error) => Err(format!("{error}")),
    }
}

/// `DynamicImage::resize_exact` with the Lanczos3 filter on an RGBA8 image.
/// The contract claims only that the result holds four bytes per pixel of
/// the new size. The resampled pixels are left unsaid: the filter goes
/// through the platform's floating-point `sin`, so they may differ by
/// machine.
#[verifier::external_body]
fn resize_rgba(width: u32, height: u32, pixels: Vec<u8>, nwidth: u32, nheight: u32) -> (r: Vec<u8>)
    requires
        pixels@.len() == 4 * width * height,
    ensures
        r@.len() == 4 * nwidth * nheight,
{
    let rgba = image::RgbaImage::from_raw(width, height, pixels).unwrap();
    image::DynamicImage::ImageRgba8(rgba)
        .resize_exact(nwidth, nheight, image::imageops::FilterType::Lanczos3)
        .to_rgba8()
        .into_raw()
}

/// `JpegEncoder::encode_image` with the given quality on an RGB8 image. The
/// contract claims that the stream depends on its arguments alone; the error
/// text is not described.
#[verifier::external_body]
fn encode_jpeg(width: u32, height: u32, rgb: Vec<u8>, quality: u8) -> (r: Result<Vec<u8>, String>)
    requires
        rgb@.len() == 3 * width * height,
    ensures
        match r {
            Ok(v) => jpeg_bytes(width, height, rgb@, quality) == Some(v@),
            Err(_) => jpeg_bytes(width, height, rgb@, quality) is None,
        },
{
    let image = image::RgbImage::from_raw(width, height, rgb).unwrap();
    let mut encoded = Vec::new();
    match image::codecs::jpeg::JpegEncoder::new_with_quality(&mut encoded, quality).encode_image(
        &image::DynamicImage::ImageRgb8(image),
    ) {
        Ok(()) => Ok(encoded),
        Err(error) => Err(format!("{error}")),
    }
}

// ---------------------------------------------------------------------------
// Pixels and geometry.

/// One channel of a pixel composited over white.
pub open spec fn over_white(c: u8, a: u8) -> u8 {
    ((c * a + 255 * (255 - a) + 127) / 255) as u8
}

/// RGB8 pixels of RGBA8 pixels composited over white.
pub open spec fn flatten_spec(rgba: Seq<u8>) -> Seq<u8> {
    Seq::new(
        (rgba.len() / 4 * 3) as nat,
        |i: int| over_white(rgba[(i / 3) * 4 + i % 3], rgba[(i / 3) * 4 + 3]),
    )
}

/// Composite RGBA8 pixels over white into RGB8 pixels.
pub fn flatten_on_white(rgba: &[u8]) -> (rgb: Vec<u8>)
    ensures
        rgb@ == flatten_spec(rgba@),
{
    let len = rgba.len();
    let n = len / 4;
    assert(4 * n <= len);
    let mut rgb: Vec<u8> = Vec::new();
    let mut p: usize = 0;
    while p < n
        invariant
            n == rgba@.len() / 4,
            len == rgba@.len(),
            4 * n <= len,
            p <= n,
            rgb@.len() == 3 * p,
            forall|i: int| 0 <= i < 3 * p ==> #[trigger] rgb@[i] == flatten_spec(rgba@)[i],
        decreases n - p,
    {
        let alpha = rgba[4 * p + 3] as u32;
        let mut channel: usize = 0;
        while channel < 3
            invariant
                n == rgba@.len() / 4,
                len == rgba@.len(),
                4 * n <= len,
                p < n,
                channel <= 3,
                alpha == rgba@[4 * p + 3],
                alpha <= 255,
                rgb@.len() == 3 * p + channel,
                forall|i: int| 0 <= i < 3 * p + channel ==> #[trigger] rgb@[i] == flatten_spec(rgba@)[i],
            decreases 3 - channel,
        {
            let foreground = rgba[4 * p + channel] as u32;
            assert(foreground * alpha <= 65025) by (nonlinear_arith)
                requires
                    foreground <= 255,
                    alpha <= 255,
            ;
            let value = (foreground * alpha + 255 * (255 - alpha) + 127) / 255;
            assert(value <= 255) by (nonlinear_arith)
                requires
                    foreground <= 255,
                    alpha <= 255,
                    value == (foreground * alpha + 255 * (255 - alpha) + 127) / 255,
            ;
            proof {
                let i = 3 * p + channel;
                assert(i / 3 == p && i % 3 == channel) by (nonlinear_arith)
                    requires
                        i == 3 * p + channel,
                        channel < 3,
                ;
            }
            rgb.push(value as u8);
            channel = channel + 1;
        }
        p = p + 1;
    }
    rgb
}

/// The thumbnail size: the image size when it fits (at least 1x1), else
/// scaled to fit 330x470 keeping the aspect ratio.
pub open spec fn thumb_dims(width: u32, height: u32) -> (u32, u32) {
    if width <= 330 && height <= 470 {
        (if width >= 1 { width } else { 1 }, if height >= 1 { height } else { 1 })
    } else if width * 470 > height * 330 {
        (330, if (height * 330) / (width as int) >= 1 { ((height * 330) / (width as int)) as u32 } else { 1 })
    } else {
        (if (width * 470) / (height as int) >= 1 { ((width * 470) / (height as int)) as u32 } else { 1 }, 470)
    }
}

/// The library thumbnail size for an image of the given size.
pub fn thumbnail_dimensions(width: u32, height: u32) -> (r: (u32, u32))
    ensures
        r == thumb_dims(width, height),
        1 <= r.0 <= 330 || width <= 330 && height <= 470,
{
    if width <= LIBRARY_THUMBNAIL_MAX_WIDTH && height <= LIBRARY_THUMBNAIL_MAX_HEIGHT {
        return (if width >= 1 { width } else { 1 }, if height >= 1 { height } else { 1 });
    }
    let width64 = width as u64;
    let height64 = height as u64;
    if width64 * 470 > height64 * 330 {
        let scaled = height64 * 330 / width64;
        assert(scaled <= 470) by (nonlinear_arith)
            requires
                width64 * 470 > height64 * 330,
                scaled == (height64 * 330) / (width64 as int),
                width64 > 0,
        ;
        (330, if scaled >= 1 { scaled as u32 } else { 1 })
    } else {
        let scaled = width64 * 470 / height64;
        assert(scaled <= 330) by (nonlinear_arith)
            requires
                width64 * 470 <= height64 * 330,
                scaled == (width64 * 470) / (height64 as int),
                height64 > 0,
        ;
        (if scaled >= 1 { scaled as u32 } else { 1 }, 470)
    }
}

// ---------------------------------------------------------------------------
// Covers and thumbnails.

/// `prefix` followed by `detail`.
fn prefixed(prefix: &str, detail: String) -> (m: String)
    ensures
        m@ == prefix@ + detail@,
{
    let mut m = prefix.to_owned();
    m.append(detail.as_str());
    m
}

/// Composite RGBA8 pixels over white and encode them as an RGB JPEG at the
/// quality.
pub fn encode_rgba_as_jpeg(width: u32, height: u32, pixels: &[u8], quality: u8) -> (r: Result<Vec<u8>, String>)
    requires
        pixels@.len() == 4 * width * height,
    ensures
        match jpeg_bytes(width, height, flatten_spec(pixels@), quality) {
            Some(j) => r matches Ok(v) && v@ == j,
            None => r is Err,
        },
{
    let rgb = flatten_on_white(pixels);
    assert(rgb@.len() == 3 * width * height) by (nonlinear_arith)
        requires
            rgb@.len() == pixels@.len() / 4 * 3,
            pixels@.len() == 4 * width * height,
    ;
    encode_jpeg(width, height, rgb, quality)
}

/// What converting a PNG cover gives: the quality-100 JPEG of its decoded
/// image over white, or the message prefix of the step that fails.
pub open spec fn converted_cover(data: Seq<u8>) -> Result<Seq<u8>, Seq<char>> {
    match png_rgba(data) {
        None => Err("PNG cover decode failed: "@),
        Some((w, h, px)) => if px.len() != 4 * w * h {
            Err("PNG cover decode failed: "@)
        } else {
            match jpeg_bytes(w, h, flatten_spec(px), 100) {
                Some(j) => Ok(j),
                None => Err("PNG cover JPEG encode failed: "@),
            }
        },
    }
}

/// Whether `m` starts with `p`.
pub open spec fn starts_with(m: Seq<char>, p: Seq<char>) -> bool {
    p.len() <= m.len() && m.subrange(0, p.len() as int) == p
}

/// Decode a PNG cover, composite it over white and encode it as an RGB JPEG.
/// Failures are returned: a selected full-size PNG must not silently remain.
pub fn convert_png_cover_to_jpeg(data: &[u8]) -> (r: Result<Vec<u8>, Error>)
    ensures
        guessed_kind(data@) != Some(ImageKind::Png) ==> (r matches Err(Error::Output(m)) && m@
            == "selected PNG cover is not PNG data"@),
        guessed_kind(data@) == Some(ImageKind::Png) ==> match converted_cover(data@) {
            Ok(j) => r matches Ok(v) && v@ == j,
            Err(p) => r matches Err(Error::Output(m)) && starts_with(m@, p),
        },
{
    match image_kind(data) {
        Some(ImageKind::Png) => {},
        _ => {
            return Err(output_error("selected PNG cover is not PNG data"));
        },
    }
    let (width, height, pixels) = match decode_rgba(data) {
        Ok(decoded) => decoded,
        Err(detail) => {
            let m = prefixed("PNG cover decode failed: ", detail);
            assert(m@.subrange(0, "PNG cover decode failed: "@.len() as int) =~= "PNG cover decode failed: "@);
            return Err(Error::Output(m));
        },
    };
    match encode_rgba_as_jpeg(width, height, pixels.as_slice(), COVER_JPEG_QUALITY) {
        Ok(encoded) => Ok(encoded),
        Err(detail) => {
            let m = prefixed("PNG cover JPEG encode failed: ", detail);
            assert(m@.subrange(0, "PNG cover JPEG encode failed: "@.len() as int) =~= "PNG cover JPEG encode failed: "@);
            Err(Error::Output(m))
        },
    }
}

/// The media type is one of the two that a thumbnail can come from.
pub open spec fn thumbnail_media(media_type: Seq<char>) -> bool {
    ascii_ci_eq(encode_utf8(media_type), "image/jpeg".spec_bytes()) || ascii_ci_eq(
        encode_utf8(media_type),
        "image/png".spec_bytes(),
    )
}

/// Whether a cover resource can give a library thumbnail at all: a JPEG or
/// PNG media type, and bytes that `image` takes for JPEG or PNG.
pub open spec fn thumbnail_source(media_type: Seq<char>, data: Seq<u8>) -> bool {
    thumbnail_media(media_type) && (guessed_kind(data) == Some(ImageKind::Jpeg) || guessed_kind(data)
        == Some(ImageKind::Png))
}

/// Whether `jpeg` is a library thumbnail of an image `w` x `h`: the
/// quality-80 JPEG of some RGBA8 image of its thumbnail size, composited
/// over white (the resampled pixels rest on `image`).
pub open spec fn thumbnail_of_size(jpeg: Seq<u8>, w: u32, h: u32) -> bool {
    exists|px: Seq<u8>|
        px.len() == 4 * thumb_dims(w, h).0 * thumb_dims(w, h).1
            && #[trigger] jpeg_bytes(thumb_dims(w, h).0, thumb_dims(w, h).1, flatten_spec(px), 80) == Some(jpeg)
}

/// Whether `jpeg` is a library thumbnail of some decoded image.
pub open spec fn thumbnail_jpeg(jpeg: Seq<u8>) -> bool {
    exists|w: u32, h: u32| #[trigger] thumbnail_of_size(jpeg, w, h)
}

/// Lower a cover to a standalone Kindle Library thumbnail. `None` for
/// unsupported, malformed or unencodable input: the full cover stays in the
/// output either way, and the thumbnail records are then omitted. A
/// thumbnail is the quality-80 JPEG of the decoded image resized to fit
/// 330x470, over white; the decoded and resampled pixels rest on `image`.
pub fn generate_library_thumbnail(resource: &KindleResource) -> (r: Option<Vec<u8>>)
    ensures
        !thumbnail_source(resource.media_type@, resource.data@) ==> r is None,
        r matches Some(v) ==> thumbnail_jpeg(v@),
        r matches Some(v) ==> thumbnail_of_size(v@, decoded_size(resource.data@).0, decoded_size(resource.data@).1),
        guessed_kind(resource.data@) == Some(ImageKind::Png) ==> (r matches Some(v) ==> (png_rgba(
            resource.data@,
        ) matches Some((w, h, _)) && thumbnail_of_size(v@, w, h))),
{
    let media_type = resource.media_type.as_str();
    if !(str_eq_ignore_ascii_case(media_type, "image/jpeg") || str_eq_ignore_ascii_case(
        media_type,
        "image/png",
    )) {
        return None;
    }
    match image_kind(resource.data.as_slice()) {
        Some(ImageKind::Jpeg) | Some(ImageKind::Png) => {},
        _ => {
            return None;
        },
    }
    let (width, height, pixels) = match decode_rgba(resource.data.as_slice()) {
        Ok(decoded) => decoded,
        Err(_) => {
            return None;
        },
    };
    let (thumb_width, thumb_height) = thumbnail_dimensions(width, height);
    let resized = resize_rgba(width, height, pixels, thumb_width, thumb_height);
    match encode_rgba_as_jpeg(thumb_width, thumb_height, resized.as_slice(), LIBRARY_THUMBNAIL_JPEG_QUALITY) {
        Ok(encoded) => {
            assert(jpeg_bytes(thumb_dims(width, height).0, thumb_dims(width, height).1, flatten_spec(resized@), 80)
                == Some(encoded@));
            assert(thumbnail_of_size(encoded@, width, height));
            Some(encoded)
        },
        Err(_) => None,
    }
}

/// Equality of two byte strings.
pub fn bytes_equal(a: &[u8], b: &[u8]) -> (r: bool)
    ensures
        r == (a@ == b@),
{
    if a.len() != b.len() {
        return false;
    }
    let mut i: usize = 0;
    while i < a.len()
        invariant
            i <= a@.len(),
            a@.len() == b@.len(),
            forall|j: int| 0 <= j < i ==> a@[j] == b@[j],
        decreases a@.len() - i,
    {
        if a[i] != b[i] {
            return false;
        }
        i = i + 1;
    }
    assert(a@ =~= b@);
    true
}

/// Position of the first resource at or after `i` whose id has the bytes `id`.
pub open spec fn resource_pos(resources: Seq<KindleResource>, id: Seq<u8>, i: int) -> Option<int>
    decreases resources.len() - i,
{
    if i < 0 || i >= resources.len() {
        None
    } else if encode_utf8(resources[i].id@) == id {
        Some(i)
    } else {
        resource_pos(resources, id, i + 1)
    }
}

proof fn lemma_resource_pos(resources: Seq<KindleResource>, id: Seq<u8>, i: int)
    requires
        0 <= i,
    ensures
        resource_pos(resources, id, i) matches Some(k) ==> i <= k < resources.len(),
    decreases resources.len() - i,
{
    if i < resources.len() && encode_utf8(resources[i].id@) != id {
        lemma_resource_pos(resources, id, i + 1);
    }
}

/// What preparing the cover does: a PNG cover resource (by the first
/// resource with the cover id) becomes a JPEG one, the quality-100 JPEG of
/// its decoded image over white, with an output error when it does not
/// convert; anything else is left as it is.
pub open spec fn cover_prepared(
    before: Seq<KindleResource>,
    after: Seq<KindleResource>,
    cover_resource_id: Option<Seq<u8>>,
    r: Result<(), Error>,
) -> bool {
    match cover_resource_id {
        None => r is Ok && after == before,
        Some(id) => match resource_pos(before, id, 0) {
            None => r is Ok && after == before,
            Some(k) => {
                let cover = before[k];
                if !ascii_ci_eq(encode_utf8(cover.media_type@), "image/png".spec_bytes()) {
                    r is Ok && after == before
                } else if guessed_kind(cover.data@) != Some(ImageKind::Png) {
                    r matches Err(Error::Output(m)) && m@ == "selected PNG cover is not PNG data"@ && after == before
                } else {
                    match converted_cover(cover.data@) {
                        Err(p) => r matches Err(Error::Output(m)) && starts_with(m@, p) && after == before,
                        Ok(j) => {
                    &&& r is Ok
                    &&& after.len() == before.len()
                    &&& forall|j: int|
                        0 <= j < before.len() && j != k ==> after[j] == before[j]
                    &&& after[k].data@ == j
                    &&& after[k].media_type@ == "image/jpeg"@
                    &&& after[k].id == cover.id
                    &&& after[k].href == cover.href
                    &&& after[k].properties == cover.properties
                        },
                    }
                }
            },
        },
    }
}

/// Replace a PNG cover by its JPEG conversion; JPEG and other covers pass
/// through unchanged, as does a book without a cover.
pub fn prepare_cover_resource(resources: &mut [KindleResource], cover_resource_id: Option<&str>) -> (r:
    Result<(), Error>)
    ensures
        cover_prepared(
            old(resources)@,
            final(resources)@,
            match cover_resource_id {
                Some(id) => Some(id.spec_bytes()),
                None => None::<Seq<u8>>,
            },
            r,
        ),
{
    let id = match cover_resource_id {
        Some(id) => id,
        None => {
            return Ok(());
        },
    };
    let id_bytes = id.as_bytes();
    let mut i: usize = 0;
    let mut found: Option<usize> = None;
    while found.is_none() && i < resources.len()
        invariant
            i <= resources@.len(),
            resources@ == old(resources)@,
            id_bytes@ == id.spec_bytes(),
            found is None ==> resource_pos(resources@, id_bytes@, i as int) == resource_pos(
                resources@,
                id_bytes@,
                0,
            ),
            found matches Some(k) ==> resource_pos(resources@, id_bytes@, 0) == Some(k as int) && k
                < resources@.len(),
        decreases resources@.len() - i + (if found is None { 1int } else { 0int }),
    {
        if bytes_equal(resources[i].id.as_str().as_bytes(), id_bytes) {
            found = Some(i);
        } else {
            i = i + 1;
        }
    }
    let k = match found {
        Some(k) => k,
        None => {
            return Ok(());
        },
    };
    if !str_eq_ignore_ascii_case(resources[k].media_type.as_str(), "image/png") {
        return Ok(());
    }
    let data = convert_png_cover_to_jpeg(resources[k].data.as_slice())?;
    resources[k].data = data;
    resources[k].media_type = "image/jpeg".to_owned();
    Ok(())
}

/// A library thumbnail is at least 1x1 and fits 330x470; an image that
/// already fits keeps its size.
pub proof fn lemma_thumbnail_fits(width: u32, height: u32)
    ensures
        1 <= thumb_dims(width, height).0 <= 330,
        1 <= thumb_dims(width, height).1 <= 470,
        1 <= width <= 330 && 1 <= height <= 470 ==> thumb_dims(width, height) == (width, height),
{
    if !(width <= 330 && height <= 470) {
        if width * 470 > height * 330 {
            let q = (height * 330) / (width as int);
            assert(q <= 470) by (nonlinear_arith)
                requires
                    width * 470 > height * 330,
                    q == (height * 330) / (width as int),
                    width > 0,
                    height >= 0,
            ;
        } else {
            assert(height > 0);
            let q = (width * 470) / (height as int);
            assert(q <= 330) by (nonlinear_arith)
                requires
                    width * 470 <= height * 330,
                    q == (width * 470) / (height as int),
                    height > 0,
                    width >= 0,
            ;
        }
    }
}

} // verus!
