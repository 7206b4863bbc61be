use std::io::{Cursor, Write};

use aozoraepub3_to_azw3::book::{
    ContentDocument, Direction, Navigation, Resource, NavigationItem, NavigationLandmark, PageProgression, WritingMode,
};
use aozoraepub3_to_azw3::epub::css::parse_css;
use aozoraepub3_to_azw3::epub::package::{
    EpubArchive, ManifestIdIndex, NavigationSource, append_inline_styles, assemble_book, content_source_ids, discover_content,
    discovered_writing_modes, load_resources, merge_navigation, navigation_plan, open_package, package_base,
    package_cover, read_zip_entry,
};
use aozoraepub3_to_azw3::epub::xhtml::parse_document_root_writing_mode;
use aozoraepub3_to_azw3::error::Error;
use zip::write::SimpleFileOptions;
use zip::{CompressionMethod, ZipWriter};

const CONTAINER: &str = r#"<?xml version="1.0"?><container version="1.0" xmlns="urn:oasis:names:tc:opendocument:xmlns:container"><rootfiles><rootfile full-path="OEBPS/content.opf" media-type="application/oebps-package+xml"/></rootfiles></container>"#;

fn archive(entries: &[(&str, &str)]) -> Vec<u8> {
    let mut writer = ZipWriter::new(Cursor::new(Vec::new()));
    let options = SimpleFileOptions::default().compression_method(CompressionMethod::Stored);
    for (name, data) in entries {
        writer.start_file(*name, options).unwrap();
        writer.write_all(data.as_bytes()).unwrap();
    }
    writer.finish().unwrap().into_inner()
}

fn opf(manifest: &str) -> String {
    format!(
        r#"<package xmlns="http://www.idpf.org/2007/opf" version="3.0"><metadata><dc:title xmlns:dc="http://purl.org/dc/elements/1.1/">T</dc:title></metadata><manifest>{manifest}</manifest><spine><itemref idref="p"/></spine></package>"#
    )
}

#[test]
fn opening_a_package() {
    let package = opf(r#"<item id="p" href="p.xhtml" media-type="application/xhtml+xml"/>"#);
    let bytes = archive(&[("mimetype", "application/epub+zip"), ("META-INF/container.xml", CONTAINER), ("OEBPS/content.opf", &package)]);
    let (mut zip, parsed, path) = open_package(&bytes).unwrap();
    assert_eq!(path, "OEBPS/content.opf");
    assert_eq!(parsed.metadata.title.as_deref(), Some("T"));
    assert_eq!(parsed.spine[0].idref, "p");
    assert_eq!(read_zip_entry(&mut zip, "mimetype").unwrap(), b"application/epub+zip".to_vec());
    match read_zip_entry(&mut zip, "OEBPS/p.xhtml") {
        Err(Error::InvalidEpub(m)) => assert!(m.starts_with("missing EPUB entry OEBPS/p.xhtml: ")),
        other => panic!("unexpected {:?}", other.map(|_| ())),
    }
}

#[test]
fn refused_packages() {
    match open_package(b"not a zip") {
        Err(Error::InvalidEpub(m)) => assert!(m.starts_with("not a readable EPUB ZIP: ")),
        other => panic!("unexpected {:?}", other.map(|_| ())),
    }
    let no_container = archive(&[("mimetype", "application/epub+zip")]);
    match open_package(&no_container) {
        Err(Error::InvalidEpub(m)) => assert!(m.starts_with("missing EPUB entry META-INF/container.xml: ")),
        other => panic!("unexpected {:?}", other.map(|_| ())),
    }
    let package = opf(r#"<item id="p" href="p.xhtml" media-type="application/xhtml+xml" properties="mathml"/>"#);
    let mathml = archive(&[("META-INF/container.xml", CONTAINER), ("OEBPS/content.opf", &package)]);
    match open_package(&mathml) {
        Err(Error::UnsupportedEpub(m)) => assert_eq!(m, "MathML is unsupported by the KF8 projection (manifest item p)"),
        other => panic!("unexpected {:?}", other.map(|_| ())),
    }
    let bytes = archive(&[("a", "b")]);
    let mut zip = EpubArchive::open(&bytes).unwrap();
    assert_eq!(read_zip_entry(&mut zip, "a").unwrap(), b"b".to_vec());
}

#[test]
fn unreadable_entries_and_archives() {
    assert!(EpubArchive::open(b"PK").is_err());
    let package = r#"<package><manifest><item id="p" href="p.xhtml" media-type="application/xhtml+xml"/></manifest></package>"#;
    let bytes = archive(&[("META-INF/container.xml", CONTAINER), ("OEBPS/content.opf", package)]);
    match open_package(&bytes) {
        Err(Error::InvalidEpub(m)) => assert_eq!(m, "OPF must contain a manifest and spine"),
        other => panic!("unexpected {:?}", other.map(|_| ())),
    }
    let bytes = archive(&[("META-INF/container.xml", "<container><rootfiles></rootfiles></container>")]);
    match open_package(&bytes) {
        Err(Error::InvalidEpub(m)) => assert_eq!(m, "container.xml has no rootfile full-path"),
        other => panic!("unexpected {:?}", other.map(|_| ())),
    }
    let bytes = archive(&[("META-INF/container.xml", "<container><a></b></container>")]);
    assert!(matches!(open_package(&bytes), Err(Error::Xml(_))));
}

fn package_with(manifest: &str, spine: &str) -> String {
    format!(
        r#"<package xmlns="http://www.idpf.org/2007/opf" version="3.0"><metadata/><manifest>{manifest}</manifest><spine>{spine}</spine></package>"#
    )
}

fn open_with(manifest: &str, spine: &str) -> Result<(), Error> {
    let package = package_with(manifest, spine);
    let bytes = archive(&[("META-INF/container.xml", CONTAINER), ("OEBPS/content.opf", &package)]);
    open_package(&bytes).map(|_| ())
}

#[test]
fn spine_items_must_name_manifest_items() {
    match open_with(r#"<item id="p" href="p.xhtml" media-type="application/xhtml+xml"/>"#, r#"<itemref idref="q"/>"#) {
        Err(Error::InvalidEpub(m)) => assert_eq!(m, "spine references missing manifest item q"),
        other => panic!("unexpected {:?}", other),
    }
}

#[test]
fn media_overlays_and_media_spine_items_are_refused() {
    match open_with(
        r#"<item id="p" href="p.xhtml" media-type="application/xhtml+xml"/><item id="o" href="o.smil" media-type="application/smil+xml" properties="Media-Overlay"/>"#,
        r#"<itemref idref="p"/>"#,
    ) {
        Err(Error::UnsupportedEpub(m)) => assert_eq!(
            m,
            "G8-06/G8-08/G8-09 media overlay boundary: manifest item o declares the media-overlay property"
        ),
        other => panic!("unexpected {:?}", other),
    }
    match open_with(r#"<item id="a" href="a.mp3" media-type="audio/mpeg"/>"#, r#"<itemref idref="a"/>"#) {
        Err(Error::UnsupportedEpub(m)) => assert_eq!(
            m,
            "G6-23/G6-25 media boundary: spine item a is an audio resource and playback is unsupported"
        ),
        other => panic!("unexpected {:?}", other),
    }
    match open_with(r#"<item id="v" href="v.mp4" media-type="Video/MP4"/>"#, r#"<itemref idref="v"/>"#) {
        Err(Error::UnsupportedEpub(m)) => assert_eq!(
            m,
            "G6-24/G6-25 media boundary: spine item v is a video resource and playback is unsupported"
        ),
        other => panic!("unexpected {:?}", other),
    }
    match open_with(r#"<item id="s" href="s.smil" media-type="application/smil+xml"/>"#, r#"<itemref idref="s"/>"#) {
        Err(Error::UnsupportedEpub(m)) => assert_eq!(
            m,
            "G8-06/G8-07/G8-08/G8-09 media overlay boundary: spine item s is an SMIL document"
        ),
        other => panic!("unexpected {:?}", other),
    }
}

#[test]
fn spine_items_must_be_content_documents() {
    match open_with(r#"<item id="i" href="i.png" media-type="image/png"/>"#, r#"<itemref idref="i"/>"#) {
        Err(Error::UnsupportedEpub(m)) => assert_eq!(m, "fallback chain for i ends at unsupported media type image/png"),
        other => panic!("unexpected {:?}", other),
    }
    assert!(open_with(r#"<item id="s" href="s.svg" media-type="image/svg+xml"/>"#, r#"<itemref idref="s"/>"#).is_ok());
}

#[test]
fn loading_the_manifest_resources() {
    let page = r#"<html xmlns="http://www.w3.org/1999/xhtml"><body><p>a</p></body></html>"#;
    let package = package_with(
        r#"<item id="p" href="p.xhtml" media-type="application/xhtml+xml"/><item id="s" href="s.css" media-type="text/css"/><item id="r" href="https://example.com/x.png" media-type="image/png"/><item id="i" href="i.bin" media-type="application/octet-stream"/>"#,
        r#"<itemref idref="p"/>"#,
    );
    let bytes = archive(&[
        ("META-INF/container.xml", CONTAINER),
        ("OEBPS/content.opf", &package),
        ("OEBPS/p.xhtml", page),
        ("OEBPS/s.css", "p{color:red}"),
        ("OEBPS/i.bin", "xyz"),
    ]);
    let (mut zip, parsed, _) = open_package(&bytes).unwrap();
    let sources = vec!["p".to_owned()];
    let (resources, xhtml) = match load_resources(&mut zip, &parsed.manifest, "OEBPS", &sources) {
        Ok(v) => v,
        Err(e) => panic!("unexpected {e:?}"),
    };
    let ids: Vec<&str> = resources.iter().map(|r| r.id.as_str()).collect();
    assert_eq!(ids, vec!["p", "s", "i"]);
    assert!(resources[0].data.is_empty());
    assert_eq!(xhtml[0].as_deref(), Some(page));
    assert_eq!(resources[1].data, b"p{color:red}".to_vec());
    assert_eq!(resources[2].data, b"xyz".to_vec());
    assert!(xhtml[1].is_none() && xhtml[2].is_none());
    let missing = archive(&[("META-INF/container.xml", CONTAINER), ("OEBPS/content.opf", &package)]);
    let (mut zip, parsed, _) = open_package(&missing).unwrap();
    match load_resources(&mut zip, &parsed.manifest, "OEBPS", &sources) {
        Err(Error::InvalidEpub(m)) => assert!(m.starts_with("missing EPUB entry OEBPS/p.xhtml: ")),
        other => panic!("unexpected {:?}", other.map(|_| ())),
    }
}

#[test]
fn discovery_follows_the_spine() {
    let page = r#"<html xmlns="http://www.w3.org/1999/xhtml"><body><p>a</p></body></html>"#;
    let other = r#"<html xmlns="http://www.w3.org/1999/xhtml"><body><p>b</p></body></html>"#;
    let package = package_with(
        r#"<item id="p" href="p.xhtml" media-type="application/xhtml+xml"/><item id="q" href="q.xhtml" media-type="application/xhtml+xml"/>"#,
        r#"<itemref idref="q" linear="no"/><itemref idref="p" properties="rendition:layout-pre-paginated"/><itemref idref="q"/>"#,
    );
    let bytes = archive(&[
        ("META-INF/container.xml", CONTAINER),
        ("OEBPS/content.opf", &package),
        ("OEBPS/p.xhtml", page),
        ("OEBPS/q.xhtml", other),
    ]);
    let (mut zip, parsed, _) = open_package(&bytes).unwrap();
    let sources = vec!["q".to_owned(), "p".to_owned()];
    let (resources, xhtml) = load_resources(&mut zip, &parsed.manifest, "OEBPS", &sources).ok().unwrap();
    let index = ManifestIdIndex::from_manifest(&parsed.manifest);
    let found = discover_content(&parsed, &resources, &xhtml, &index).ok().unwrap();
    let items: Vec<(&str, &str, bool)> =
        found.reading_items.iter().map(|i| (i.id.as_str(), i.href.as_str(), i.linear)).collect();
    assert_eq!(items, vec![("q", "q.xhtml", false), ("p", "p.xhtml", true), ("q", "q.xhtml", true)]);
    let documents: Vec<(&str, usize, bool, &str)> = found
        .documents
        .iter()
        .map(|d| (d.id.as_str(), d.source_spine_index, d.pre_paginated, d.source_xhtml.as_str()))
        .collect();
    assert_eq!(documents, vec![("q", 0, false, other), ("p", 1, true, page), ("q", 2, false, other)]);
    assert_eq!(found.documents[1].source_properties, vec!["rendition:layout-pre-paginated".to_owned()]);
    assert_eq!(found.documents[1].media_type, "application/xhtml+xml");
}

#[test]
fn discovery_refuses_a_spine_item_without_manifest_item() {
    let package = package_with(
        r#"<item id="p" href="p.xhtml" media-type="application/xhtml+xml"/>"#,
        r#"<itemref idref="p"/>"#,
    );
    let bytes = archive(&[("META-INF/container.xml", CONTAINER), ("OEBPS/content.opf", &package)]);
    let (_, mut parsed, _) = open_package(&bytes).unwrap();
    parsed.spine[0].idref = "gone".to_owned();
    let index = ManifestIdIndex::from_manifest(&parsed.manifest);
    match discover_content(&parsed, &[], &[], &index) {
        Err(Error::InvalidEpub(m)) => assert_eq!(m, "spine references missing manifest item gone"),
        other => panic!("unexpected {:?}", other.map(|_| ())),
    }
}

#[test]
fn the_cover_falls_back_to_the_cover_image_item() {
    let package = package_with(
        r#"<item id="p" href="p.xhtml" media-type="application/xhtml+xml"/><item id="c" href="c.png" media-type="image/png" properties="Cover-Image"/>"#,
        r#"<itemref idref="p"/>"#,
    );
    let bytes = archive(&[("META-INF/container.xml", CONTAINER), ("OEBPS/content.opf", &package)]);
    let (_, mut parsed, _) = open_package(&bytes).unwrap();
    assert_eq!(package_cover(&parsed).as_deref(), Some("c"));
    parsed.metadata.cover = Some("x".to_owned());
    assert_eq!(package_cover(&parsed).as_deref(), Some("x"));
}

fn item(label: &str) -> NavigationItem {
    NavigationItem { label: label.to_owned(), href: format!("{label}.xhtml"), children: Vec::new() }
}

fn landmark(kind: &str) -> NavigationLandmark {
    NavigationLandmark { kind: kind.to_owned(), label: kind.to_owned(), href: "c.xhtml".to_owned() }
}

#[test]
fn the_nav_document_supplements_an_ncx() {
    let ncx = Navigation { title: Some("t".to_owned()), items: vec![item("a")], landmarks: vec![landmark("x")] };
    let nav = Navigation { title: None, items: vec![item("b")], landmarks: vec![landmark("cover")] };
    let merged = merge_navigation(ncx, Some(nav));
    assert_eq!(merged.title.as_deref(), Some("t"));
    assert_eq!(merged.items.len(), 1);
    assert_eq!(merged.items[0].label, "a");
    assert_eq!(merged.landmarks[0].kind, "cover");
    let empty = Navigation { title: None, items: Vec::new(), landmarks: Vec::new() };
    let nav = Navigation { title: None, items: vec![item("b")], landmarks: Vec::new() };
    let merged = merge_navigation(empty, Some(nav));
    assert_eq!(merged.items[0].label, "b");
    let alone = Navigation { title: None, items: vec![item("c")], landmarks: vec![landmark("toc")] };
    let merged = merge_navigation(alone, None);
    assert_eq!(merged.items[0].label, "c");
    assert_eq!(merged.landmarks[0].kind, "toc");
}

#[test]
fn the_navigation_plan_prefers_the_ncx() {
    let with_ncx = r#"<package xmlns="http://www.idpf.org/2007/opf" version="3.0"><metadata/><manifest><item id="ncx" href="toc.ncx" media-type="application/x-dtbncx+xml"/><item id="nav" href="nav.xhtml" media-type="application/xhtml+xml" properties="nav"/><item id="p" href="p.xhtml" media-type="application/xhtml+xml"/></manifest><spine toc="ncx"><itemref idref="p"/></spine></package>"#;
    let bytes = archive(&[("META-INF/container.xml", CONTAINER), ("OEBPS/content.opf", with_ncx)]);
    let (_, parsed, opf_path) = open_package(&bytes).unwrap();
    let base = package_base(&opf_path);
    assert_eq!(base, "OEBPS");
    let index = ManifestIdIndex::from_manifest(&parsed.manifest);
    let plan = navigation_plan(&parsed, &index, &base);
    assert_eq!(plan.primary, Some(NavigationSource::Ncx("OEBPS/toc.ncx".to_owned())));
    assert_eq!(plan.supplemental.as_deref(), Some("OEBPS/nav.xhtml"));
    let nav_only = package_with(
        r#"<item id="nav" href="nav.xhtml" media-type="application/xhtml+xml" properties="NAV"/><item id="p" href="p.xhtml" media-type="application/xhtml+xml"/>"#,
        r#"<itemref idref="p"/>"#,
    );
    let bytes = archive(&[("META-INF/container.xml", CONTAINER), ("OEBPS/content.opf", &nav_only)]);
    let (_, parsed, _) = open_package(&bytes).unwrap();
    let index = ManifestIdIndex::from_manifest(&parsed.manifest);
    let plan = navigation_plan(&parsed, &index, "OEBPS");
    assert_eq!(plan.primary, Some(NavigationSource::Nav("OEBPS/nav.xhtml".to_owned())));
    assert!(plan.supplemental.is_none());
    assert_eq!(content_source_ids(&parsed), vec!["p".to_owned()]);
    assert_eq!(package_base("content.opf"), "");
    assert_eq!(package_base("a/b/content.opf"), "a/b");
}

#[test]
fn root_writing_modes_come_from_html_then_body() {
    assert_eq!(
        parse_document_root_writing_mode(r#"<html style="writing-mode: vertical-rl"><body style="writing-mode: vertical-lr"/></html>"#)
            .ok(),
        Some(Some(WritingMode::VerticalRl))
    );
    assert_eq!(
        parse_document_root_writing_mode(r#"<html><body style="-epub-writing-mode: vertical-rl"/></html>"#).ok(),
        Some(Some(WritingMode::VerticalRl))
    );
    assert_eq!(parse_document_root_writing_mode("<html><body/></html>").ok(), Some(None));
    match parse_document_root_writing_mode("<html><body></html>") {
        Err(Error::Xml(_)) => {}
        other => panic!("unexpected {other:?}"),
    }
}

#[test]
fn the_book_is_assembled_from_the_package() {
    let page = r#"<html xmlns="http://www.w3.org/1999/xhtml" style="writing-mode: vertical-rl"><body><p>a</p></body></html>"#;
    let package = package_with(
        r#"<item id="p" href="p.xhtml" media-type="application/xhtml+xml"/><item id="c" href="c.png" media-type="image/png" properties="cover-image"/>"#,
        r#"<itemref idref="p"/>"#,
    );
    let bytes = archive(&[
        ("META-INF/container.xml", CONTAINER),
        ("OEBPS/content.opf", &package),
        ("OEBPS/p.xhtml", page),
        ("OEBPS/c.png", "png"),
    ]);
    let (mut zip, parsed, _) = open_package(&bytes).unwrap();
    let sources = content_source_ids(&parsed);
    let (resources, xhtml) = load_resources(&mut zip, &parsed.manifest, "OEBPS", &sources).ok().unwrap();
    let index = ManifestIdIndex::from_manifest(&parsed.manifest);
    let discovered = discover_content(&parsed, &resources, &xhtml, &index).ok().unwrap();
    let modes = discovered_writing_modes(&discovered).ok().unwrap();
    assert_eq!(modes, vec![Some(WritingMode::VerticalRl)]);
    let content = vec![ContentDocument {
        id: "p".to_owned(),
        href: "p.xhtml".to_owned(),
        source_xhtml: page.to_owned(),
        referenced_styles: Vec::new(),
        is_cover: false,
        pre_paginated: false,
    }];
    let sheets = vec![
        parse_css("a.css".to_owned(), "p { direction: rtl }".to_owned()),
        parse_css("b.css".to_owned(), "h1 { color: red } h2 { color: blue }".to_owned()),
    ];
    let navigation = Navigation { title: None, items: vec![item("p")], landmarks: Vec::new() };
    let book = assemble_book(parsed, resources, discovered, content, sheets, navigation, modes);
    assert_eq!(book.metadata.cover.as_deref(), Some("c"));
    assert_eq!(book.reading_order.items.len(), 1);
    assert_eq!(book.reading_order.items[0].id, "p");
    assert_eq!(book.reading_order.page_progression, PageProgression::Default);
    assert_eq!(book.styles.sheets.len(), 2);
    assert_eq!(book.styles.computed.len(), 3);
    assert_eq!(book.styles.computed[1].selector, "h1");
    assert_eq!(book.layout.writing_mode, WritingMode::VerticalRl);
    assert_eq!(book.layout.direction, Direction::Rtl);
    assert_eq!(book.resources.items.len(), 2);
    assert_eq!(book.navigation.items[0].label, "p");
}

#[test]
fn inline_styles_become_resources_with_free_ids() {
    let mut resources = vec![Resource {
        id: "r".to_owned(),
        href: "r.css".to_owned(),
        media_type: "text/css".to_owned(),
        properties: Vec::new(),
        data: Vec::new(),
    }];
    let mut occupied = vec!["r".to_owned(), "__inline_style_p_0".to_owned()];
    let styles = vec![("p-0.css".to_owned(), "a{}".to_owned()), ("p-1.css".to_owned(), "b{}".to_owned())];
    append_inline_styles(&mut resources, &mut occupied, "p", &styles, "inline");
    let ids: Vec<&str> = resources.iter().map(|r| r.id.as_str()).collect();
    assert_eq!(ids, vec!["r", "__inline_style_p_0-collision-0001", "__inline_style_p_1"]);
    assert_eq!(occupied.len(), 4);
    assert_eq!(resources[2].href, "p-1.css");
    assert_eq!(resources[2].media_type, "text/css");
    assert_eq!(resources[2].properties, vec!["inline".to_owned()]);
    assert_eq!(resources[2].data, b"b{}".to_vec());
}
