use aozoraepub3_to_azw3::book::{PageProgression, WritingMode};
use aozoraepub3_to_azw3::epub::opf::{
    MetadataMetaField, OpfReader, SpineLayout, apply_metadata_meta, attr, cover_image_paths,
    has_property, local_name, local_name_ref, metadata_meta_kind, new_parsed_opf, parse_opf,
    parse_opf_start, parse_rootfile, resolve_href, rootfile_target, split_whitespace,
};
use aozoraepub3_to_azw3::error::Error;
use aozoraepub3_to_azw3::xml::{XmlAttribute, XmlEvent, XmlTag};

const OPF: &str = r#"<?xml version="1.0" encoding="UTF-8"?>
<package xmlns="http://www.idpf.org/2007/opf" version="3.0" unique-identifier="id">
<metadata xmlns:dc="http://purl.org/dc/elements/1.1/">
<dc:title>  吾輩は猫である  </dc:title>
<dc:creator>夏目 漱石</dc:creator>
<dc:language>ja</dc:language>
<dc:identifier id="id">urn:uuid:1</dc:identifier>
<meta name="cover" content="cover-image"/>
<meta property="rendition:layout">pre-paginated</meta>
<meta name="primary-writing-mode" content=" horizontal-rl "/>
<meta property="ibooks:primary-writing-mode">vertical-rl</meta>
<meta name="book-type" content="comic"/>
<meta name="original-resolution" content="1600x2560"/>
</metadata>
<manifest>
<item id="ncx" href="toc.ncx" media-type="application/x-dtbncx+xml"/>
<item id="cover-image" href="images/cover.jpg" media-type="image/jpeg"/>
<item id="p1" href="text/p1.xhtml" media-type="application/xhtml+xml" properties="svg  nav"/>
<item id="bad" href="x.xhtml"/>
</manifest>
<spine page-progression-direction="rtl" toc="ncx">
<itemref idref="p1" properties="rendition:layout-reflowable page-spread-right"/>
<itemref idref="cover-image" linear="no"/>
</spine>
</package>"#;

fn tag(name: &str, attributes: &[(&str, &str)]) -> XmlTag {
    XmlTag {
        name: name.as_bytes().to_vec(),
        attributes: attributes
            .iter()
            .map(|(k, v)| {
                Some(XmlAttribute {
                    key: k.as_bytes().to_vec(),
                    value: Some((*v).to_owned()),
                })
            })
            .collect(),
    }
}

#[test]
fn reading_a_package_document() {
    let opf = parse_opf(OPF.as_bytes()).unwrap();
    let m = &opf.metadata;
    assert_eq!(m.title.as_deref(), Some("吾輩は猫である"));
    assert_eq!(m.creator.as_deref(), Some("夏目 漱石"));
    assert_eq!(m.language.as_deref(), Some("ja"));
    assert_eq!(m.identifier.as_deref(), Some("urn:uuid:1"));
    assert_eq!(m.cover.as_deref(), Some("cover-image"));
    assert!(m.is_fixed_layout);
    assert_eq!(m.primary_writing_mode.as_deref(), Some("horizontal-rl"));
    assert_eq!(m.book_type.as_deref(), Some("comic"));
    assert_eq!(m.original_resolution.as_deref(), Some("1600x2560"));
    assert_eq!(opf.primary_writing_mode, Some(WritingMode::HorizontalTb));
    assert_eq!(opf.publication_layout, Some(SpineLayout::PrePaginated));
    assert_eq!(opf.page_progression, PageProgression::Rtl);
    assert_eq!(opf.ncx_id.as_deref(), Some("ncx"));
    assert_eq!(opf.manifest.len(), 3);
    assert_eq!(opf.manifest[2].properties, vec!["svg".to_owned(), "nav".to_owned()]);
    assert_eq!(opf.spine.len(), 2);
    assert_eq!(opf.spine[0].idref, "p1");
    assert!(opf.spine[0].linear);
    assert_eq!(opf.spine[0].layout, SpineLayout::Reflowable);
    assert!(!opf.spine[1].linear);
    assert_eq!(opf.spine[1].layout, SpineLayout::PrePaginated);
    assert_eq!(cover_image_paths(&opf, "OEBPS"), vec!["OEBPS/images/cover.jpg".to_owned()]);
}

#[test]
fn package_without_spine_is_invalid() {
    let xml = r#"<package><manifest><item id="a" href="a.xhtml" media-type="application/xhtml+xml"/></manifest></package>"#;
    match parse_opf(xml.as_bytes()) {
        Err(Error::InvalidEpub(m)) => assert_eq!(m, "OPF must contain a manifest and spine"),
        other => panic!("unexpected {other:?}"),
    }
}

#[test]
fn malformed_package_is_an_xml_error() {
    let xml = "<package><manifest></spine></package>";
    assert!(matches!(parse_opf(xml.as_bytes()), Err(Error::Xml(_))));
}

#[test]
fn reading_the_container() {
    let xml = r#"<?xml version="1.0"?><container xmlns="urn:oasis:names:tc:opendocument:xmlns:container"><rootfiles><rootfile media-type="application/oebps-package+xml"/><rootfile full-path="OEBPS/./text/../content.opf" media-type="application/oebps-package+xml"/></rootfiles></container>"#;
    assert_eq!(parse_rootfile(xml.as_bytes()).unwrap(), "OEBPS/content.opf");
    match parse_rootfile(b"<container/>") {
        Err(Error::InvalidEpub(m)) => assert_eq!(m, "container.xml has no rootfile full-path"),
        other => panic!("unexpected {other:?}"),
    }
    assert!(matches!(parse_rootfile(b"<container><a></b></container>"), Err(Error::Xml(_))));
}

#[test]
fn names_attributes_and_tokens() {
    assert_eq!(local_name_ref(b"a:b:Title"), "Title");
    assert_eq!(local_name(b"dc:Title"), "title");
    assert_eq!(local_name(&[0xff, b':', b'x']), "");
    let t = XmlTag {
        name: b"item".to_vec(),
        attributes: vec![
            None,
            Some(XmlAttribute { key: b"opf:ID".to_vec(), value: None }),
            Some(XmlAttribute { key: b"x:Id".to_vec(), value: Some("second".to_owned()) }),
            Some(XmlAttribute { key: b"id".to_vec(), value: Some("third".to_owned()) }),
        ],
    };
    assert_eq!(attr(&t, "id"), Some("second".to_owned()));
    assert_eq!(attr(&t, "href"), None);
    assert_eq!(split_whitespace("  a\tb\u{3000}c  "), vec!["a".to_owned(), "b".to_owned(), "c".to_owned()]);
    assert!(split_whitespace("   ").is_empty());
    let event = XmlEvent::Empty(tag("rootfile", &[("full-path", "a//b.opf")]));
    assert_eq!(rootfile_target(&event), Some("a/b.opf".to_owned()));
    assert_eq!(rootfile_target(&XmlEvent::End(b"rootfile".to_vec())), None);
}

#[test]
fn itemref_layouts_and_properties() {
    let props = vec!["page-spread-left".to_owned(), "RENDITION:LAYOUT-PRE-PAGINATED".to_owned()];
    assert_eq!(SpineLayout::from_itemref_properties(&props), Some(SpineLayout::PrePaginated));
    assert_eq!(SpineLayout::from_itemref_properties(&["rendition:layout-reflowable".to_owned()]), Some(SpineLayout::Reflowable));
    assert_eq!(SpineLayout::from_itemref_properties(&[]), None);
    let mut opf = new_parsed_opf();
    parse_opf_start(&tag("opf:item", &[("id", "c"), ("href", "c.png"), ("media-type", "image/png"), ("properties", "Cover-Image")]), &mut opf);
    assert!(has_property(&opf.manifest[0], "cover-image"));
    assert!(!has_property(&opf.manifest[0], "nav"));
    parse_opf_start(&tag("itemref", &[("idref", "c"), ("linear", "No")]), &mut opf);
    assert!(opf.spine[0].linear);
    parse_opf_start(&tag("spine", &[("page-progression-direction", "RTL")]), &mut opf);
    assert_eq!(opf.page_progression, PageProgression::Default);
    parse_opf_start(&tag("guide", &[("id", "x")]), &mut opf);
    assert_eq!(opf.manifest.len(), 1);
}

#[test]
fn metadata_meta_declarations() {
    assert!(matches!(metadata_meta_kind(&tag("meta", &[("name", "Cover")])), Some(MetadataMetaField::Cover)));
    assert!(matches!(
        metadata_meta_kind(&tag("meta", &[("property", "a rendition:Layout")])),
        Some(MetadataMetaField::RenditionLayout)
    ));
    assert!(matches!(
        metadata_meta_kind(&tag("meta", &[("name", "cover"), ("property", "primary-writing-mode")])),
        Some(MetadataMetaField::PrimaryWritingMode)
    ));
    assert!(matches!(
        metadata_meta_kind(&tag("meta", &[("property", "rendition:orientation")])),
        Some(MetadataMetaField::RenditionOrientation)
    ));
    assert!(metadata_meta_kind(&tag("meta", &[("name", "generator")])).is_none());
    let mut opf = new_parsed_opf();
    apply_metadata_meta(&mut opf, MetadataMetaField::FixedLayout, " TRUE ");
    assert!(opf.metadata.is_fixed_layout);
    assert_eq!(opf.publication_layout, Some(SpineLayout::PrePaginated));
    apply_metadata_meta(&mut opf, MetadataMetaField::RenditionLayout, "reflowable");
    assert_eq!(opf.publication_layout, Some(SpineLayout::Reflowable));
    assert!(opf.metadata.is_fixed_layout);
    apply_metadata_meta(&mut opf, MetadataMetaField::PrimaryWritingMode, "sideways");
    assert_eq!(opf.primary_writing_mode, None);
    apply_metadata_meta(&mut opf, MetadataMetaField::PrimaryWritingMode, "Vertical-RL ");
    assert_eq!(opf.primary_writing_mode, Some(WritingMode::VerticalRl));
    assert_eq!(opf.metadata.primary_writing_mode.as_deref(), Some("Vertical-RL"));
    apply_metadata_meta(&mut opf, MetadataMetaField::PrimaryWritingMode, "horizontal-tb");
    assert_eq!(opf.primary_writing_mode, Some(WritingMode::VerticalRl));
    apply_metadata_meta(&mut opf, MetadataMetaField::OrientationLock, " portrait ");
    assert_eq!(opf.metadata.orientation_lock.as_deref(), Some("portrait"));
}

#[test]
fn reading_state_steps() {
    let mut reader = OpfReader::new();
    reader.step(&XmlEvent::Start(tag("dc:title", &[]))).unwrap();
    reader.step(&XmlEvent::Text(Ok(" A ".to_owned()))).unwrap();
    reader.step(&XmlEvent::Text(Ok("B ".to_owned()))).unwrap();
    reader.step(&XmlEvent::End(b"dc:title".to_vec())).unwrap();
    assert_eq!(reader.result.metadata.title.as_deref(), Some("A B"));
    match reader.step(&XmlEvent::Text(Err("bad entity".to_owned()))) {
        Err(Error::Xml(m)) => assert_eq!(m, "bad entity"),
        other => panic!("unexpected {other:?}"),
    }
    reader.step(&XmlEvent::Start(tag("meta", &[("name", "book-type")]))).unwrap();
    reader.step(&XmlEvent::Text(Ok("comic".to_owned()))).unwrap();
    reader.step(&XmlEvent::End(b"meta".to_vec())).unwrap();
    assert_eq!(reader.result.metadata.book_type.as_deref(), Some("comic"));
    match reader.finish() {
        Err(Error::InvalidEpub(m)) => assert_eq!(m, "OPF must contain a manifest and spine"),
        other => panic!("unexpected {other:?}"),
    }
}

#[test]
fn resolving_package_hrefs() {
    assert_eq!(resolve_href("OEBPS", "text/../images/a.png"), "OEBPS/images/a.png");
    assert_eq!(resolve_href("", "a.png"), "a.png");
    assert_eq!(resolve_href("OEBPS", "../../a.png"), "a.png");
    assert_eq!(resolve_href("OEBPS", "http://example.com/a.png"), "");
    assert_eq!(resolve_href("OEBPS", "#top"), "");
}
