use aozoraepub3_to_azw3::book::style::{ComputedStyle, Styles};
use aozoraepub3_to_azw3::book::{Direction, PageProgression, WritingMode};
use aozoraepub3_to_azw3::epub::xhtml::{
    css_fallback_writing_mode, infer_layout, is_script_data_block, next_raw_scan_tag,
    parse_writing_mode, reject_media_playback, reject_scripting,
    reject_scripting_and_media_playback, scan_scripting_style_body, selector_is_root_only,
    tag_attribute,
};
use aozoraepub3_to_azw3::error::Error;

const FORM: &str = "G2-24/G8 scripting boundary: HTML form in spine content is unsupported";
const EXTERNAL: &str =
    "G2-24/G8 scripting boundary: external script reference in spine content is unsupported";
const INLINE: &str = "G2-24/G8 scripting boundary: inline script in spine content is unsupported";
const AUDIO: &str = "G6-23/G6-25 media boundary: audio playback in spine content is unsupported";
const VIDEO: &str = "G6-24/G6-25 media boundary: video playback in spine content is unsupported";

fn unsupported(r: Result<(), Error>) -> String {
    match r {
        Err(Error::UnsupportedEpub(m)) => m,
        other => panic!("unexpected {other:?}"),
    }
}

#[test]
fn reading_tag_attributes() {
    let tag = "<p data-x = 'y z' id=q STYLE=\"a\">";
    let end = tag.len() - 1;
    assert_eq!(tag_attribute(tag, 0, end, "id").unwrap(), Some("q".to_owned()));
    assert_eq!(tag_attribute(tag, 0, end, "DATA-X").unwrap(), Some("y z".to_owned()));
    assert_eq!(tag_attribute(tag, 0, end, "style").unwrap(), Some("a".to_owned()));
    assert_eq!(tag_attribute(tag, 0, end, "src").unwrap(), None);
    let twice = "<p style='a' style='b'>";
    match tag_attribute(twice, 0, twice.len() - 1, "style") {
        Err(Error::InvalidXhtmlCss(m)) => assert_eq!(m, "XHTML element has duplicate style attributes"),
        other => panic!("unexpected {other:?}"),
    }
    let repeated = "<p id='a' id='b'>";
    assert_eq!(tag_attribute(repeated, 0, repeated.len() - 1, "id").unwrap(), Some("b".to_owned()));
    let bare = "<script type>";
    match tag_attribute(bare, 0, bare.len() - 1, "type") {
        Err(Error::InvalidXhtmlCss(m)) => assert_eq!(m, "XHTML type attribute has no value"),
        other => panic!("unexpected {other:?}"),
    }
    let open = "<p a='x>y'>";
    match tag_attribute(open, 0, 7, "a") {
        Err(Error::InvalidXhtmlCss(m)) => assert_eq!(m, "XHTML attribute has an unterminated quoted value"),
        other => panic!("unexpected {other:?}"),
    }
    match tag_attribute("<!x>", 0, 3, "a") {
        Err(Error::InvalidXhtmlCss(m)) => assert_eq!(m, "malformed XHTML tag attributes"),
        other => panic!("unexpected {other:?}"),
    }
    let accented = "<p title=\"é\">";
    assert_eq!(
        tag_attribute(accented, 0, accented.len() - 1, "title").unwrap(),
        Some("é".to_owned())
    );
}

#[test]
fn script_data_blocks() {
    assert!(is_script_data_block(Some("application/json")));
    assert!(is_script_data_block(Some(" text/x-template ")));
    assert!(!is_script_data_block(Some(" MODULE ")));
    assert!(!is_script_data_block(Some("Text/JavaScript")));
    assert!(!is_script_data_block(Some("  ")));
    assert!(!is_script_data_block(None));
}

#[test]
fn scripting_boundary() {
    assert!(reject_scripting("<p>ok</p>").is_ok());
    assert_eq!(unsupported(reject_scripting("<form></form>")), FORM);
    assert_eq!(unsupported(reject_scripting("<script src=\"a.js\"></script>")), EXTERNAL);
    assert_eq!(unsupported(reject_scripting("<svg:script xlink:href='a'/>")), EXTERNAL);
    assert_eq!(unsupported(reject_scripting("<script>alert(1)</script>")), INLINE);
    assert!(reject_scripting("<script type=\"application/json\">{\"a\":\"<form>\"}</script><p/>").is_ok());
    assert!(reject_scripting("<!-- <form> --><p>").is_ok());
    assert!(reject_scripting("</form>").is_ok());
    match reject_scripting("<script type>x</script>") {
        Err(Error::InvalidXhtmlCss(m)) => assert_eq!(m, "XHTML type attribute has no value"),
        other => panic!("unexpected {other:?}"),
    }
}

#[test]
fn media_boundary() {
    assert_eq!(unsupported(reject_media_playback("<video src=x></video>")), VIDEO);
    assert_eq!(unsupported(reject_media_playback("<p><audio/></p>")), AUDIO);
    assert!(reject_media_playback("<style>audio{}<audio></style>").is_ok());
    assert!(reject_media_playback("<script>'<audio>'</script>").is_ok());
    assert!(reject_media_playback("</audio>").is_ok());
}

#[test]
fn combined_boundaries() {
    assert!(reject_scripting_and_media_playback("<p>fine</p>").is_ok());
    assert_eq!(
        unsupported(reject_scripting_and_media_playback("<audio></audio><script>x</script>")),
        INLINE
    );
    assert_eq!(unsupported(reject_scripting_and_media_playback("<video/><audio/>")), VIDEO);
    assert_eq!(
        unsupported(reject_scripting_and_media_playback("<style>p{}<form></style>")),
        FORM
    );
    assert_eq!(
        unsupported(reject_scripting_and_media_playback("<style>/* <script src=a> */</style>")),
        EXTERNAL
    );
    assert!(reject_scripting_and_media_playback("<style><audio></style><p/>").is_ok());
}

#[test]
fn raw_scan_tags() {
    let source = "x<!-- <a> --><b c='>'/><d>";
    let mut cursor = 0;
    let tag = next_raw_scan_tag(source, &mut cursor).expect("tag");
    assert_eq!(&source[tag.start..=tag.end], "<b c='>'/>");
    assert_eq!(&source[tag.name_start..tag.name_end], "b");
    assert!(tag.self_closing && !tag.closing);
    let mut cursor = tag.end + 1;
    let tag = next_raw_scan_tag(source, &mut cursor).expect("tag");
    assert_eq!(&source[tag.name_start..tag.name_end], "d");
    assert!(!tag.self_closing);
    let mut cursor = tag.end + 1;
    assert!(next_raw_scan_tag(source, &mut cursor).is_none());
}

#[test]
fn style_text_scripting() {
    let source = "<style>p{}</style>";
    assert_eq!(scan_scripting_style_body(source, 7, 10).unwrap(), None);
    let runs_over = "<style>a<!-- x</style> --></style>";
    assert_eq!(scan_scripting_style_body(runs_over, 7, 14).unwrap(), Some(26));
}

#[test]
fn root_only_selectors() {
    assert!(selector_is_root_only("html"));
    assert!(selector_is_root_only(" HTML.vrtl "));
    assert!(selector_is_root_only("html:lang(ja), html.hltr"));
    assert!(!selector_is_root_only("html .x"));
    assert!(!selector_is_root_only("html, body"));
    assert!(!selector_is_root_only("html>body"));
    assert!(!selector_is_root_only("htmlx"));
    assert!(!selector_is_root_only(""));
    assert!(!selector_is_root_only(" , "));
}

#[test]
fn writing_modes_and_layout() {
    assert_eq!(parse_writing_mode(" Vertical-RL "), Some(WritingMode::VerticalRl));
    assert_eq!(parse_writing_mode("horizontal-lr"), Some(WritingMode::HorizontalTb));
    assert_eq!(parse_writing_mode("x"), None);
    let styles = Styles {
        sheets: Vec::new(),
        computed: vec![
            ComputedStyle {
                selector: "html.hltr".to_owned(),
                writing_mode: Some(WritingMode::HorizontalTb),
                direction: Some(Direction::Ltr),
                ..ComputedStyle::default()
            },
            ComputedStyle {
                selector: ".vrtl".to_owned(),
                writing_mode: Some(WritingMode::VerticalRl),
                direction: Some(Direction::Rtl),
                ..ComputedStyle::default()
            },
        ],
    };
    assert_eq!(css_fallback_writing_mode(&styles), WritingMode::VerticalRl);
    let layout = infer_layout(&styles, PageProgression::Rtl, None, &[Some(WritingMode::VerticalLr)]);
    assert_eq!(layout.writing_mode, WritingMode::VerticalLr);
    assert_eq!(layout.page_progression, PageProgression::Rtl);
    assert_eq!(layout.direction, Direction::Rtl);
    let layout = infer_layout(&styles, PageProgression::Default, Some(WritingMode::HorizontalTb), &[]);
    assert_eq!(layout.writing_mode, WritingMode::HorizontalTb);
    let layout = infer_layout(&Styles::default(), PageProgression::Default, None, &[]);
    assert_eq!(layout.writing_mode, WritingMode::HorizontalTb);
    assert_eq!(layout.direction, Direction::Default);
}
