use aozoraepub3_to_azw3::book::layout::{RenditionAlign, RenditionOrientation, RenditionSemantics, RenditionSpread};
use aozoraepub3_to_azw3::epub::opf::ManifestItem;
use aozoraepub3_to_azw3::epub::package::{
    ManifestIdIndex, load_resource_entry, reject_mathml_manifest, TextEncoding, TextKind, decode_text_entry, find_css_charset, find_quoted_encoding, is_audio_media_type,
    is_content_document, is_smil_media_type, is_video_media_type, looks_like_utf16be, looks_like_utf16le,
    merge_rendition, normalize_encoding_name, strip_svg_prolog, svg_content_document, text_kind_name,
    validate_declared_encoding, validate_rendition,
};
use aozoraepub3_to_azw3::error::Error;

fn invalid(r: Result<String, Error>) -> String {
    match r {
        Err(Error::InvalidEpub(m)) => m,
        other => panic!("unexpected {other:?}"),
    }
}

fn utf16le(text: &str, bom: bool) -> Vec<u8> {
    let mut out = Vec::new();
    if bom {
        out.extend_from_slice(&[0xff, 0xfe]);
    }
    for unit in text.encode_utf16() {
        out.extend_from_slice(&unit.to_le_bytes());
    }
    out
}

fn utf16be(text: &str) -> Vec<u8> {
    let mut out = Vec::new();
    for unit in text.encode_utf16() {
        out.extend_from_slice(&unit.to_be_bytes());
    }
    out
}

#[test]
fn encoding_names() {
    assert_eq!(normalize_encoding_name(" UTF-8 "), Some(TextEncoding::Utf8));
    assert_eq!(normalize_encoding_name("utf_16"), Some(TextEncoding::Utf16Le));
    assert_eq!(normalize_encoding_name("UTF-16LE"), Some(TextEncoding::Utf16Le));
    assert_eq!(normalize_encoding_name("utf-16be"), Some(TextEncoding::Utf16Be));
    assert_eq!(normalize_encoding_name("Shift_JIS"), None);
    assert_eq!(text_kind_name(TextKind::Xhtml), "XHTML");
    assert_eq!(text_kind_name(TextKind::Css), "CSS");
    assert!(looks_like_utf16le(b"<\0?\0"));
    assert!(!looks_like_utf16le(b"<?"));
    assert!(looks_like_utf16be(b"\0<\0?"));
}

#[test]
fn declarations_in_heads() {
    let xml = r#"<?xml version="1.0" ENCODING='utf-8'?><html/>"#;
    assert_eq!(find_quoted_encoding(xml, "encoding"), Some("utf-8".to_owned()));
    assert_eq!(find_quoted_encoding("<?xml version=\"1.0\"?>", "encoding"), None);
    assert_eq!(find_quoted_encoding("<?xml encoding=\"utf-8?>", "encoding"), None);
    let late = format!("{}<?xml encoding=\"utf-8\"?>", " ".repeat(1100));
    assert_eq!(find_quoted_encoding(&late, "encoding"), None);
    let split = format!("{}é encoding=\"x\"", "a".repeat(1023));
    assert_eq!(find_quoted_encoding(&split, "encoding"), None);
    assert_eq!(find_css_charset("\n  @CHARSET \"UTF-8\"; p {}"), Some("UTF-8".to_owned()));
    assert_eq!(find_css_charset("p { color: red }"), None);
}

#[test]
fn checking_declared_encodings() {
    assert!(validate_declared_encoding("<?xml encoding=\"UTF-8\"?>", TextKind::Xhtml, TextEncoding::Utf8).is_ok());
    assert!(validate_declared_encoding("<?xml encoding=\"utf-16\"?>", TextKind::Xhtml, TextEncoding::Utf16Be).is_ok());
    assert!(validate_declared_encoding("p {}", TextKind::Css, TextEncoding::Utf16Le).is_ok());
    match validate_declared_encoding("@charset \"latin1\";", TextKind::Css, TextEncoding::Utf8) {
        Err(Error::InvalidEpub(m)) => assert_eq!(m, "unsupported CSS encoding declaration latin1"),
        other => panic!("unexpected {other:?}"),
    }
    match validate_declared_encoding("<?xml encoding='utf-16be'?>", TextKind::Xhtml, TextEncoding::Utf8) {
        Err(Error::InvalidEpub(m)) => assert_eq!(m, "XHTML encoding declaration utf-16be does not match decoded bytes"),
        other => panic!("unexpected {other:?}"),
    }
}

#[test]
fn decoding_text_entries() {
    assert_eq!(decode_text_entry(b"\xef\xbb\xbf<p>\xe3\x81\x82</p>", TextKind::Xhtml).unwrap(), "<p>あ</p>");
    assert_eq!(decode_text_entry(&utf16le("<p>𠮷</p>", true), TextKind::Xhtml).unwrap(), "<p>𠮷</p>");
    assert_eq!(decode_text_entry(&utf16le("<?xml version=\"1.0\" encoding=\"UTF-16\"?><a/>", false), TextKind::Xhtml).unwrap(), "<?xml version=\"1.0\" encoding=\"UTF-16\"?><a/>");
    assert_eq!(decode_text_entry(&utf16be("p { }"), TextKind::Css).unwrap(), "p { }");
    assert_eq!(
        invalid(decode_text_entry(&[0xff, 0xfe, 0x3c], TextKind::Css)),
        "odd-length UTF-16 CSS entry"
    );
    assert!(invalid(decode_text_entry(b"<p>\xff</p>", TextKind::Xhtml)).starts_with("invalid UTF-8 XHTML entry: "));
    assert!(invalid(decode_text_entry(&[0xff, 0xfe, 0x00, 0xd8, 0x41, 0x00], TextKind::Xhtml)).starts_with("invalid UTF-16 XHTML entry: "));
    assert_eq!(
        invalid(decode_text_entry(&utf16le("<?xml encoding=\"utf-8\"?><a/>", true), TextKind::Xhtml)),
        "XHTML encoding declaration utf-8 does not match decoded bytes"
    );
}

#[test]
fn svg_documents_become_pages() {
    assert_eq!(strip_svg_prolog("  <?xml version=\"1.0\"?>\n<svg/>"), "<svg/>");
    assert_eq!(strip_svg_prolog("<?xml unclosed <svg/>"), "<?xml unclosed <svg/>");
    assert_eq!(strip_svg_prolog("\n<svg/>"), "<svg/>");
    let page = svg_content_document("\u{feff}<?xml version=\"1.0\"?><svg xmlns=\"http://www.w3.org/2000/svg\"/>".as_bytes()).unwrap();
    assert_eq!(
        page,
        "<?xml version=\"1.0\" encoding=\"UTF-8\"?><html xmlns=\"http://www.w3.org/1999/xhtml\"><head><title>SVG Content Document</title></head><body><div class=\"epub-svg-content\"><svg xmlns=\"http://www.w3.org/2000/svg\"/></div></body></html>"
    );
    assert!(matches!(svg_content_document(b"<svg><script>x()</script></svg>"), Err(Error::UnsupportedEpub(_))));
}

#[test]
fn media_types_and_content_documents() {
    assert!(is_audio_media_type("Audio/MPEG"));
    assert!(is_audio_media_type("audio/flac"));
    assert!(!is_audio_media_type("video/mp4"));
    assert!(is_video_media_type("VIDEO/webm"));
    assert!(!is_video_media_type("vid"));
    assert!(is_smil_media_type("application/SMIL+xml"));
    let item = |t: &str| ManifestItem { id: "a".to_owned(), href: "a".to_owned(), media_type: t.to_owned(), properties: Vec::new() };
    assert!(is_content_document(&item("application/xhtml+xml")));
    assert!(is_content_document(&item("Image/SVG+XML")));
    assert!(!is_content_document(&item("image/png")));
}

#[test]
fn rendition_semantics() {
    let centered = RenditionSemantics { align_x: Some(RenditionAlign::Center), ..RenditionSemantics::default() };
    match validate_rendition("publication", centered) {
        Err(Error::UnsupportedEpub(m)) => assert_eq!(m, "publication rendition:align-x-center has no demonstrated KF8 projection"),
        other => panic!("unexpected {other:?}"),
    }
    assert!(validate_rendition("spine item a", centered).is_ok());
    let publication = RenditionSemantics {
        orientation: Some(RenditionOrientation::Portrait),
        spread: Some(RenditionSpread::Both),
        ..RenditionSemantics::default()
    };
    let item = RenditionSemantics { spread: Some(RenditionSpread::NoSpread), ..RenditionSemantics::default() };
    let merged = merge_rendition(publication, item);
    assert_eq!(merged.orientation, Some(RenditionOrientation::Portrait));
    assert_eq!(merged.spread, Some(RenditionSpread::NoSpread));
    assert_eq!(merged.page_spread, None);
}


fn manifest_item(id: &str, href: &str, media_type: &str, properties: &[&str]) -> ManifestItem {
    ManifestItem {
        id: id.to_owned(),
        href: href.to_owned(),
        media_type: media_type.to_owned(),
        properties: properties.iter().map(|p| (*p).to_owned()).collect(),
    }
}

#[test]
fn manifest_items_by_id() {
    let manifest = vec![
        manifest_item("a", "a.xhtml", "application/xhtml+xml", &[]),
        manifest_item("b", "b.css", "text/css", &[]),
        manifest_item("a", "dup.xhtml", "application/xhtml+xml", &[]),
    ];
    let index = ManifestIdIndex::from_manifest(&manifest);
    assert_eq!(index.get(&manifest, "a").unwrap().href, "a.xhtml");
    assert_eq!(index.get(&manifest, "b").unwrap().href, "b.css");
    assert!(index.get(&manifest, "c").is_none());
}

#[test]
fn mathml_manifest_items() {
    let manifest = vec![
        manifest_item("a", "a.xhtml", "application/xhtml+xml", &["scripted"]),
        manifest_item("m", "m.xhtml", "application/xhtml+xml", &["svg", "MathML"]),
    ];
    match reject_mathml_manifest(&manifest) {
        Err(Error::UnsupportedEpub(m)) => assert_eq!(m, "MathML is unsupported by the KF8 projection (manifest item m)"),
        other => panic!("unexpected {other:?}"),
    }
    assert!(reject_mathml_manifest(&manifest[..1]).is_ok());
}

#[test]
fn loading_manifest_entries() {
    let manifest = vec![manifest_item("p", "text/p.xhtml", "application/xhtml+xml", &["svg"])];
    let xhtml = b"<html><body><p>x</p></body></html>".to_vec();
    let (res, src) = load_resource_entry(&manifest[0], xhtml.clone(), true, &manifest).unwrap();
    assert!(res.data.is_empty());
    assert_eq!(res.properties, vec!["svg".to_owned()]);
    assert_eq!(src.as_deref(), Some("<html><body><p>x</p></body></html>"));
    let (_, src) = load_resource_entry(&manifest[0], xhtml, false, &manifest).unwrap();
    assert!(src.is_none());
    let scripted = b"<html><body><script>x()</script></body></html>".to_vec();
    assert!(matches!(load_resource_entry(&manifest[0], scripted.clone(), true, &manifest), Err(Error::UnsupportedEpub(_))));
    assert!(load_resource_entry(&manifest[0], scripted, false, &manifest).is_ok());
    let css = manifest_item("c", "c.css", "Text/CSS", &[]);
    let (res, src) = load_resource_entry(&css, utf16le("p{}", true), false, &manifest).unwrap();
    assert_eq!(res.data, b"p{}".to_vec());
    assert!(src.is_none());
    let png = manifest_item("i", "i.png", "image/png", &[]);
    let (res, src) = load_resource_entry(&png, vec![1, 2, 3], true, &manifest).unwrap();
    assert_eq!(res.data, vec![1, 2, 3]);
    assert!(src.is_none());
    let svg = manifest_item("s", "s.svg", "image/svg+xml", &[]);
    let (res, src) = load_resource_entry(&svg, b"<svg/>".to_vec(), true, &manifest).unwrap();
    assert!(res.data.is_empty());
    assert!(src.unwrap().contains("<div class=\"epub-svg-content\"><svg/></div>"));
    let (res, _) = load_resource_entry(&svg, b"<svg/>".to_vec(), false, &manifest).unwrap();
    assert_eq!(res.data, b"<svg/>".to_vec());
}
