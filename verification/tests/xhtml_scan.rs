use aozoraepub3_to_azw3::epub::xhtml::{
    advance_raw_text_char, closing_tag, dominant_writing_mode, raw_text_end, writing_mode_index,
};
use aozoraepub3_to_azw3::book::WritingMode;
use aozoraepub3_to_azw3::xhtml::scan::{
    advance_char, ascii_bytes_eq_ignore_case, contains_any_ascii_case_insensitive,
    contains_ascii_case_insensitive_bytes, find_ascii_case_insensitive, html_local_name_is,
    html_local_name_is_text, html_raw_text_end, html_tag_end, html_tag_name_range,
    html_tag_name_range_with_leading_space,
};

#[test]
fn case_insensitive_search() {
    assert_eq!(find_ascii_case_insensitive("abcSTYLEdef", "style", 0), Some(3));
    assert_eq!(find_ascii_case_insensitive("abcSTYLEdef", "style", 4), None);
    assert_eq!(find_ascii_case_insensitive("abc", "", 10), Some(3));
    assert_eq!(find_ascii_case_insensitive("abc", "x", 10), None);
    assert!(contains_ascii_case_insensitive_bytes(b"<SCRIPT>", b"script"));
    assert!(contains_ascii_case_insensitive_bytes(b"", b""));
    assert!(!contains_ascii_case_insensitive_bytes(b"scrip", b"script"));
    assert!(contains_any_ascii_case_insensitive("<Video src=x>", &["audio", "video"]));
    assert!(!contains_any_ascii_case_insensitive("text", &["", "audio"]));
    assert!(ascii_bytes_eq_ignore_case(b"MathML", b"mathml"));
    assert!(!ascii_bytes_eq_ignore_case(b"math", b"mathml"));
}

#[test]
fn characters_advance_by_utf8_width() {
    let source = "aあb";
    assert_eq!(advance_char(source, 0), 1);
    assert_eq!(advance_char(source, 1), 4);
    assert_eq!(advance_char(source, 2), 5);
    assert_eq!(advance_char(source, 4), 5);
    assert_eq!(advance_char(source, 9), 5);
    assert_eq!(advance_raw_text_char(source, 1), 4);
}

#[test]
fn tag_end_skips_quoted_values() {
    let source = r#"<a title="x>y">text</a>"#;
    assert_eq!(html_tag_end(source, 0), Some(14));
    assert_eq!(html_tag_end("<a", 0), None);
}

#[test]
fn tag_names() {
    let source = "<svg:image xlink:href=\"c.jpg\"/>";
    let end = html_tag_end(source, 0).unwrap();
    assert_eq!(html_tag_name_range(source, 0, end), Some((1, 10, false)));
    assert!(html_local_name_is(source, 1, 10, "IMAGE"));
    assert!(html_local_name_is_text("svg:image", "image"));
    assert!(!html_local_name_is_text("svg:image", "svg"));
    assert_eq!(html_tag_name_range("</p>", 0, 3), Some((2, 3, true)));
    assert_eq!(html_tag_name_range("<!-- x -->", 0, 9), None);
    assert_eq!(html_tag_name_range("< p>", 0, 3), None);
    assert_eq!(html_tag_name_range_with_leading_space("< p>", 0, 3), Some((2, 3, false)));
}

#[test]
fn raw_text_ends_after_closing_tag() {
    let source = "<script>if (a < b) { s = '</script>'; }</script>after";
    let tag_end = html_tag_end(source, 0).unwrap();
    assert_eq!(html_raw_text_end(source, 0, tag_end), Some(source.len() - "after".len()));
    let style = "<style>/* </style> */ p {}</STYLE>x";
    let style_end = html_tag_end(style, 0).unwrap();
    assert_eq!(html_raw_text_end(style, 0, style_end), Some(style.len() - 1));
    let unclosed = "<style>p {}";
    assert_eq!(html_raw_text_end(unclosed, 0, 6), Some(unclosed.len()));
    assert_eq!(html_raw_text_end("<p>text</p>", 0, 2), None);
    assert_eq!(html_raw_text_end("<script/>", 0, 8), None);
}

#[test]
fn closing_tags_in_raw_text() {
    let source = "<script>// </script> comment\n x</script>";
    assert_eq!(closing_tag(source, 8, "script"), Some((31, 39)));
    assert_eq!(raw_text_end(source, 7, "script"), Some(40));
    let style = "<style>a{}</ style>";
    assert_eq!(closing_tag(style, 7, "style"), Some((10, 18)));
    assert_eq!(closing_tag("<style>a{}", 7, "style"), None);
}

#[test]
fn dominant_mode_needs_strict_plurality() {
    assert_eq!(dominant_writing_mode(&[Some(WritingMode::VerticalRl), None, Some(WritingMode::VerticalRl), Some(WritingMode::HorizontalTb)]), Some(WritingMode::VerticalRl));
    assert_eq!(dominant_writing_mode(&[Some(WritingMode::VerticalRl), Some(WritingMode::HorizontalTb)]), None);
    assert_eq!(dominant_writing_mode(&[None, None]), None);
    assert_eq!(dominant_writing_mode(&[]), None);
    assert_eq!(dominant_writing_mode(&[Some(WritingMode::VerticalLr)]), Some(WritingMode::VerticalLr));
    assert_eq!(writing_mode_index(WritingMode::VerticalLr), 2);
}
