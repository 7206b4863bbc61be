use aozoraepub3_to_azw3::epub::xhtml::{StyleInput, document_style_inputs};
use aozoraepub3_to_azw3::error::Error;

#[test]
fn style_inputs_come_in_source_order() {
    let source = r#"<html><head><link rel="Stylesheet alternate" href="a.css"/><link rel="stylesheet" href="a.css"/><link rel="icon" href="i.png"/><style>p{color:red}</style></head><body style="margin:0"><!-- <style>x</style> --><script>var s = "<style>";</script><p>t</p></body></html>"#;
    let (inputs, end) = document_style_inputs(source);
    assert!(end.is_ok());
    assert_eq!(
        inputs,
        vec![
            StyleInput::Link("a.css".to_owned()),
            StyleInput::Element("p{color:red}".to_owned()),
            StyleInput::Attribute("margin:0".to_owned()),
        ]
    );
}

#[test]
fn an_unclosed_style_element_stops_the_scan() {
    let (inputs, end) = document_style_inputs(r#"<p style="a">x</p><style>p{}"#);
    assert_eq!(inputs, vec![StyleInput::Attribute("a".to_owned())]);
    match end {
        Err(Error::InvalidXhtmlCss(m)) => assert_eq!(m, "inline style element has no closing tag"),
        other => panic!("unexpected {other:?}"),
    }
}

#[test]
fn a_tag_that_never_ends_stops_the_scan() {
    let (inputs, end) = document_style_inputs(r#"<p style="a">x</p><div"#);
    assert_eq!(inputs, vec![StyleInput::Attribute("a".to_owned())]);
    match end {
        Err(Error::InvalidXhtmlCss(m)) => assert_eq!(m, "malformed XHTML tag while scanning CSS resources"),
        other => panic!("unexpected {other:?}"),
    }
}

#[test]
fn a_self_closing_style_element_has_no_text() {
    let (inputs, end) = document_style_inputs(r#"<style/><link href="b.css" rel="stylesheet">"#);
    assert!(end.is_ok());
    assert_eq!(inputs, vec![StyleInput::Link("b.css".to_owned())]);
}
