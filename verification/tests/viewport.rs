use aozoraepub3_to_azw3::epub::viewport::{ViewportScan, validate_viewport_tokens, viewport_content, viewport_tokens};
use aozoraepub3_to_azw3::error::Error;
use aozoraepub3_to_azw3::xml::{XmlAttribute, XmlTag};

fn attribute(key: &str, value: Option<&str>) -> Option<XmlAttribute> {
    Some(XmlAttribute { key: key.as_bytes().to_vec(), value: value.map(str::to_owned) })
}

fn meta(attributes: Vec<Option<XmlAttribute>>) -> XmlTag {
    XmlTag { name: b"meta".to_vec(), attributes }
}

fn positive(tokens: &[String]) -> Vec<bool> {
    tokens
        .iter()
        .map(|t| t.to_ascii_lowercase().parse::<f64>().ok().is_some_and(|d| d.is_finite() && d > 0.0))
        .collect()
}

fn check(content: &str) -> Result<(), Error> {
    let tokens = viewport_tokens(content);
    validate_viewport_tokens(&tokens, &positive(&tokens))
}

fn message(result: Result<(), Error>) -> String {
    match result {
        Err(Error::UnsupportedEpub(m)) => m,
        other => panic!("unexpected {:?}", other),
    }
}

#[test]
fn viewport_tokens_split_on_separators() {
    assert_eq!(viewport_tokens("width=600, height = 800;x"), vec!["width", "=", "600", "height", "=", "800", "x"]);
    assert!(viewport_tokens("  ").is_empty());
}

#[test]
fn viewport_dimensions() {
    assert!(check("width=600, height=800").is_ok());
    assert!(check("WIDTH=Device-Width; height=device-height, initial-scale=1").is_ok());
    assert_eq!(message(check("")), "unsupported fixed-page viewport: viewport content has a malformed dimension token");
    assert_eq!(message(check("width=600 height")), "unsupported fixed-page viewport: viewport content has a malformed dimension token");
    assert_eq!(message(check("width 600 x")), "unsupported fixed-page viewport: viewport content has a malformed dimension token");
    assert_eq!(
        message(check("width=0, height=800")),
        "unsupported fixed-page viewport: viewport dimensions must be positive numbers or device dimensions"
    );
    assert_eq!(
        message(check("width=device-height, height=800")),
        "unsupported fixed-page viewport: viewport dimensions must be positive numbers or device dimensions"
    );
    assert_eq!(
        message(check("width=600, width=700, height=800")),
        "unsupported fixed-page viewport: viewport dimensions must not be duplicated"
    );
    assert_eq!(
        message(check("width=600")),
        "unsupported fixed-page viewport: viewport must provide both width and height dimensions"
    );
}

#[test]
fn viewport_attributes() {
    let ok = meta(vec![attribute("name", Some("viewport")), attribute("content", Some("width=1"))]);
    assert_eq!(viewport_content(&ok).ok(), Some("width=1".to_owned()));
    let no_name = meta(vec![attribute("content", Some("width=1"))]);
    assert_eq!(
        message(viewport_content(&no_name).map(|_| ())),
        "unsupported fixed-page viewport: viewport must have exactly one name attribute"
    );
    let two = meta(vec![
        attribute("name", Some("viewport")),
        attribute("CONTENT", Some("width=1")),
        attribute("x:content", Some("height=1")),
    ]);
    assert_eq!(
        message(viewport_content(&two).map(|_| ())),
        "unsupported fixed-page viewport: viewport must have exactly one content attribute"
    );
    let broken = meta(vec![attribute("name", Some("viewport")), attribute("content", None)]);
    assert_eq!(
        message(viewport_content(&broken).map(|_| ())),
        "unsupported fixed-page viewport: viewport must have exactly one content attribute"
    );
}

#[test]
fn viewport_declarations_are_found_in_order() {
    let source = r#"<html><head><meta name="viewport" content="width=1, height=2"/><meta name="x"/><META NAME=" Viewport " content="a"/></head></html>"#;
    let mut scan = ViewportScan::new(source);
    let first = scan.next_tag().ok().unwrap().unwrap();
    assert_eq!(viewport_content(&first).ok(), Some("width=1, height=2".to_owned()));
    let second = scan.next_tag().ok().unwrap().unwrap();
    assert_eq!(viewport_content(&second).ok(), Some("a".to_owned()));
    assert!(scan.next_tag().ok().unwrap().is_none());
    let mut broken = ViewportScan::new("<a></b>");
    assert!(matches!(broken.next_tag(), Err(Error::Xml(_))));
}
