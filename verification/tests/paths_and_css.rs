use aozoraepub3_to_azw3::book::{CssDeclaration, CssRule, Direction, StyleSheet, WritingMode};
use aozoraepub3_to_azw3::book::style::ComputedStyle;
use aozoraepub3_to_azw3::kf8::css_flow::{
    css_flow_number, css_import_targets, resource_reference, rewrite_css_assets,
    skip_css_comment, skip_css_space_comments, skip_css_string, stylesheet_flow_reference,
};
use aozoraepub3_to_azw3::kindle::KindleResource;
use aozoraepub3_to_azw3::strings::{lower_eq, str_chars, str_eq, trim_str};
use aozoraepub3_to_azw3::xhtml::path::{
    is_external_reference, normalize_path, normalize_path_lossy, resolve_path,
};

#[test]
fn normalizing_paths() {
    assert_eq!(normalize_path_lossy("a/./b/../c\\d"), "a/c/d");
    assert_eq!(normalize_path_lossy("/OEBPS//text/"), "OEBPS/text");
    assert_eq!(normalize_path_lossy("../../x"), "x");
    assert_eq!(normalize_path_lossy(""), "");
    assert_eq!(normalize_path("./"), None);
    assert_eq!(normalize_path("a/b"), Some("a/b".to_owned()));
}

#[test]
fn normalizing_twice_changes_nothing() {
    for path in ["a/./b/../c\\d", "/x/../../y/", "..", "p/q/r/../../s"] {
        let once = normalize_path_lossy(path);
        assert_eq!(normalize_path_lossy(&once), once);
    }
}

#[test]
fn resolving_references() {
    assert_eq!(
        resolve_path("OEBPS/text/ch1.xhtml", "../images/a.png#x"),
        Some("OEBPS/images/a.png".to_owned())
    );
    assert_eq!(resolve_path("ch1.xhtml", "style.css?v=1"), Some("style.css".to_owned()));
    assert_eq!(resolve_path("OEBPS/ch1.xhtml", "/root.css"), Some("root.css".to_owned()));
    assert_eq!(resolve_path("OEBPS/ch1.xhtml", "#note"), None);
    assert_eq!(resolve_path("OEBPS/ch1.xhtml", "https://example.com/a"), None);
    assert_eq!(resolve_path("OEBPS/ch1.xhtml", ".."), None);
}

#[test]
fn external_references() {
    assert!(is_external_reference("data:image/png;base64,AAAA"));
    assert!(is_external_reference("//cdn/x"));
    assert!(is_external_reference("http://x"));
    assert!(is_external_reference("kindle:embed:0001"));
    assert!(!is_external_reference("images/a.png"));
    assert!(!is_external_reference("a:b"));
}

#[test]
fn string_helpers() {
    assert_eq!(trim_str("\u{3000} vertical-rl\t\n"), "vertical-rl");
    assert_eq!(trim_str("   "), "");
    assert!(str_eq("abc", "abc"));
    assert!(!str_eq("abc", "abd"));
    assert!(lower_eq("JA", "ja"));
    assert!(!lower_eq("JAP", "ja"));
    assert_eq!(str_chars("aあ"), vec!['a', 'あ']);
}

fn declaration(property: &str, value: &str) -> CssDeclaration {
    CssDeclaration { property: property.to_owned(), value: value.to_owned() }
}

#[test]
fn computed_style_last_declaration_wins() {
    let rule = CssRule {
        selector: ".vrtl".to_owned(),
        declarations: vec![
            declaration("writing-mode", "vertical-rl"),
            declaration("-webkit-text-emphasis", " dot "),
            declaration("direction", "rtl"),
            declaration("writing-mode", " vertical-lr "),
            declaration("text-emphasis", "circle"),
            declaration("direction", "sideways"),
            declaration("word-break", "keep-all"),
        ],
    };
    let style = ComputedStyle::from_rule(&rule);
    assert_eq!(style.selector, ".vrtl");
    assert_eq!(style.writing_mode, Some(WritingMode::VerticalLr));
    assert_eq!(style.direction, None);
    assert_eq!(style.text_emphasis.as_deref(), Some("circle"));
    assert_eq!(style.word_break.as_deref(), Some("keep-all"));
    assert_eq!(style.ruby_align, None);
    let ltr = CssRule { selector: "p".to_owned(), declarations: vec![declaration("direction", "ltr")] };
    assert_eq!(ComputedStyle::from_rule(&ltr).direction, Some(Direction::Ltr));
    let sheet = StyleSheet { href: "a.css".to_owned(), source: String::new(), rules: vec![rule, ltr] };
    let computed = sheet.computed_styles();
    assert_eq!(computed.len(), 2);
    assert_eq!(computed[1].selector, "p");
}

fn chars(s: &str) -> Vec<char> {
    s.chars().collect()
}

#[test]
fn css_lexical_pieces() {
    let source = chars("a /* x */ 'q\\'s' b");
    assert_eq!(skip_css_comment(&source, 2), Some(9));
    assert_eq!(skip_css_comment(&source, 0), None);
    assert_eq!(skip_css_comment(&chars("/* open"), 0), None);
    assert_eq!(skip_css_string(&source, 10), Some(16));
    assert_eq!(skip_css_string(&source, 0), None);
    assert_eq!(skip_css_space_comments(&source, 1), Some((10, true)));
    assert_eq!(skip_css_space_comments(&source, 0), Some((0, false)));
    assert_eq!(skip_css_space_comments(&chars(" /* open"), 0), None);
    let accented = chars("é /**/x");
    assert_eq!(skip_css_space_comments(&accented, 1), Some((6, true)));
}

fn css(id: &str, href: &str) -> KindleResource {
    KindleResource {
        id: id.to_owned(),
        href: href.to_owned(),
        media_type: "text/css".to_owned(),
        properties: Vec::new(),
        data: Vec::new(),
    }
}

#[test]
fn flow_references() {
    assert_eq!(stylesheet_flow_reference(1), "kindle:flow:0001?mime=text/css");
    assert_eq!(stylesheet_flow_reference(32), "kindle:flow:0010?mime=text/css");
    let a = css("a", "OEBPS/style/a.css");
    let b = css("b", "OEBPS/style/./b.css");
    let sheets = [&a, &b];
    assert_eq!(css_flow_number("OEBPS/text/c.xhtml", "../style/b.css", &sheets), Some(2));
    assert_eq!(css_flow_number("OEBPS/text/c.xhtml", "../style/x.css", &sheets), None);
}
