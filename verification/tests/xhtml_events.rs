use aozoraepub3_to_azw3::book::WritingMode;
use aozoraepub3_to_azw3::epub::opf::ManifestItem;
use aozoraepub3_to_azw3::epub::xhtml::{
    document_root_writing_mode, is_mathml_event, is_primary_writing_mode_meta, is_srcset_violation,
    object_violation, object_violation_message, reject_mathml, reject_unsupported_generic_object,
    reject_unsupported_srcset, reject_unsupported_srcset_and_generic_object,
    root_attribute_writing_mode, root_modes_step,
};
use aozoraepub3_to_azw3::error::Error;
use aozoraepub3_to_azw3::xml::{XmlAttribute, XmlEvent, XmlTag};

const SRCSET: &str =
    "G3-19 picture/source srcset with package-local candidate is unsupported by the KF8 projection";

fn tag(name: &str, attributes: &[(&str, &str)]) -> XmlTag {
    XmlTag {
        name: name.as_bytes().to_vec(),
        attributes: attributes
            .iter()
            .map(|(k, v)| Some(XmlAttribute { key: k.as_bytes().to_vec(), value: Some((*v).to_owned()) }))
            .collect(),
    }
}

fn item(id: &str, href: &str, media_type: &str) -> ManifestItem {
    ManifestItem { id: id.to_owned(), href: href.to_owned(), media_type: media_type.to_owned(), properties: Vec::new() }
}

fn unsupported(r: Result<(), Error>) -> String {
    match r {
        Err(Error::UnsupportedEpub(m)) => m,
        other => panic!("unexpected {other:?}"),
    }
}

#[test]
fn root_writing_modes_of_documents() {
    let doc = r#"<html xmlns="http://www.w3.org/1999/xhtml" class="vrtl"><body style="writing-mode: horizontal-tb"><p/></body></html>"#;
    assert_eq!(document_root_writing_mode(doc), Some(WritingMode::VerticalRl));
    let doc = r#"<html><body class="x VLTR"/></html>"#;
    assert_eq!(document_root_writing_mode(doc), Some(WritingMode::VerticalLr));
    assert_eq!(document_root_writing_mode(r#"<html class="vrtl"><body></html>"#), None);
    assert_eq!(document_root_writing_mode("<html><body/></html>"), None);
    assert_eq!(
        root_attribute_writing_mode(&tag("html", &[("STYLE", "-epub-writing-mode:vertical-rl")])),
        Some(WritingMode::VerticalRl)
    );
    let (h, b) = root_modes_step(None, None, &XmlEvent::Start(tag("xhtml:BODY", &[("class", "hltr")])));
    assert_eq!((h, b), (None, Some(WritingMode::HorizontalTb)));
    let (h, b) = root_modes_step(None, b, &XmlEvent::Empty(tag("body", &[("class", "vrtl")])));
    assert_eq!((h, b), (None, Some(WritingMode::HorizontalTb)));
    assert!(is_primary_writing_mode_meta(&tag("meta", &[("name", "primary-writing-mode")])));
    assert!(!is_primary_writing_mode_meta(&tag("meta", &[("name", "cover")])));
}

#[test]
fn mathml_is_rejected() {
    let doc = r#"<html xmlns:m="http://www.w3.org/1998/Math/MathML"><body><m:math><m:mi>x</m:mi></m:math></body></html>"#;
    assert_eq!(unsupported(reject_mathml(doc)), "MathML is unsupported by the KF8 projection");
    let doc = r#"<html><body><math xmlns="http://www.w3.org/1998/Math/MathML"/></body></html>"#;
    assert_eq!(unsupported(reject_mathml(doc)), "MathML is unsupported by the KF8 projection");
    assert!(reject_mathml("<html><body><math/></body></html>").is_ok());
    assert!(matches!(reject_mathml("<html><body></html>"), Err(Error::Xml(_))));
    let ns = b"http://www.w3.org/1998/Math/MathML".to_vec();
    assert!(is_mathml_event(Some(&ns), &XmlEvent::Start(tag("m:math", &[]))));
    assert!(!is_mathml_event(None, &XmlEvent::Start(tag("math", &[]))));
    assert!(!is_mathml_event(Some(&ns), &XmlEvent::End(b"math".to_vec())));
}

#[test]
fn srcset_candidates_are_rejected() {
    let doc = r#"<html><body><picture><source srcset="https://e.com/a.png 1x, b.png 2x"/><img src="c.png"/></picture></body></html>"#;
    assert_eq!(unsupported(reject_unsupported_srcset(doc)), SRCSET);
    let doc = r#"<html><body><img srcset="https://e.com/a.png 1x" src="c.png"/></body></html>"#;
    assert!(reject_unsupported_srcset(doc).is_ok());
    assert!(is_srcset_violation(&XmlEvent::Start(tag("IMG", &[("srcset", "a.png")]))));
    assert!(!is_srcset_violation(&XmlEvent::Start(tag("div", &[("srcset", "a.png")]))));
}

#[test]
fn generic_objects_are_rejected() {
    let manifest = vec![
        item("pdf", "text/../doc/a.pdf", "application/pdf"),
        item("svg", "images/a.svg", "image/svg+xml"),
    ];
    let doc = r#"<html><body><object data="../doc/a.pdf#p"/></body></html>"#;
    assert_eq!(
        unsupported(reject_unsupported_generic_object(doc, "text/ch1.xhtml", &manifest)),
        "G6-22 generic non-image object resource pdf is unsupported by the KF8 projection"
    );
    let doc = r#"<html><body><object data="../images/a.svg"/><object data="missing.bin"/></body></html>"#;
    assert!(reject_unsupported_generic_object(doc, "text/ch1.xhtml", &manifest).is_ok());
    assert_eq!(
        object_violation(&XmlEvent::Empty(tag("Object", &[("data", "doc/a.pdf")])), "ch.xhtml", &manifest),
        Some("pdf".to_owned())
    );
    assert_eq!(object_violation(&XmlEvent::Empty(tag("object", &[])), "ch.xhtml", &manifest), None);
    assert_eq!(object_violation_message("x"), "G6-22 generic non-image object resource x is unsupported by the KF8 projection");
}

#[test]
fn srcset_dominates_objects_in_one_pass() {
    let manifest = vec![item("pdf", "a.pdf", "application/pdf")];
    let doc = r#"<html><body><object data="a.pdf"/><img srcset="b.png"/></body></html>"#;
    assert_eq!(unsupported(reject_unsupported_srcset_and_generic_object(doc, "c.xhtml", &manifest)), SRCSET);
    let doc = r#"<html><body><object data="a.pdf"/><img src="b.png"/></body></html>"#;
    assert_eq!(
        unsupported(reject_unsupported_srcset_and_generic_object(doc, "c.xhtml", &manifest)),
        "G6-22 generic non-image object resource pdf is unsupported by the KF8 projection"
    );
    assert!(reject_unsupported_srcset_and_generic_object("<html/>", "c.xhtml", &manifest).is_ok());
    assert!(matches!(
        reject_unsupported_srcset_and_generic_object("<a></b>", "c.xhtml", &manifest),
        Err(Error::Xml(_))
    ));
}
