use aozoraepub3_to_azw3::epub::css::{parse_css, remove_comments};
use aozoraepub3_to_azw3::kf8::css_flow::{css_import_targets, resource_reference, rewrite_css_assets};
use aozoraepub3_to_azw3::kindle::css::project_css_for_kindle;
use aozoraepub3_to_azw3::kindle::KindleResource;

fn chars(s: &str) -> Vec<char> {
    s.chars().collect()
}

fn text(v: &[char]) -> String {
    v.iter().collect()
}

fn resource(href: &str, media_type: &str) -> KindleResource {
    KindleResource {
        id: href.to_owned(),
        href: href.to_owned(),
        media_type: media_type.to_owned(),
        properties: Vec::new(),
        data: Vec::new(),
    }
}

#[test]
fn parsing_rules_and_declarations() {
    let sheet = parse_css(
        "a.css".to_owned(),
        "p { color: red; Writing-Mode : vertical-rl } /* c */ .x{}".to_owned(),
    );
    assert_eq!(sheet.href, "a.css");
    assert_eq!(sheet.source, "p { color: red; Writing-Mode : vertical-rl } /* c */ .x{}");
    assert_eq!(sheet.rules.len(), 2);
    assert_eq!(sheet.rules[0].selector, "p");
    assert_eq!(sheet.rules[0].declarations.len(), 2);
    assert_eq!(sheet.rules[0].declarations[0].property, "color");
    assert_eq!(sheet.rules[0].declarations[0].value, "red");
    assert_eq!(sheet.rules[0].declarations[1].property, "writing-mode");
    assert_eq!(sheet.rules[0].declarations[1].value, "vertical-rl");
    assert_eq!(sheet.rules[1].selector, ".x");
    assert!(sheet.rules[1].declarations.is_empty());
}

#[test]
fn parsing_skips_empty_selectors_and_values() {
    let sheet = parse_css("b.css".to_owned(), "{a:b} p{a:;b:c;d}".to_owned());
    assert_eq!(sheet.rules.len(), 1);
    assert_eq!(sheet.rules[0].selector, "p");
    assert_eq!(sheet.rules[0].declarations.len(), 1);
    assert_eq!(sheet.rules[0].declarations[0].property, "b");
    assert_eq!(sheet.rules[0].declarations[0].value, "c");
}

#[test]
fn unclosed_comment_repeats_the_text_before_it() {
    assert_eq!(text(&remove_comments(&chars("a/*b*/c"))), "ac");
    assert_eq!(text(&remove_comments(&chars("a{b:c}/* x"))), "a{b:c}a{b:c}/* x");
    let sheet = parse_css("c.css".to_owned(), "a{b:c}/* x".to_owned());
    assert_eq!(sheet.rules.len(), 2);
    assert_eq!(sheet.rules[1].selector, "a");
}

#[test]
fn projecting_epub_properties() {
    assert_eq!(
        project_css_for_kindle("p { -epub-writing-mode: vertical-rl; }"),
        "p { -webkit-writing-mode: vertical-rl; }"
    );
    assert_eq!(
        project_css_for_kindle("@media screen { p { -epub-text-combine: horizontal } }"),
        "@media screen { p { -webkit-text-combine: horizontal } }"
    );
    assert_eq!(
        project_css_for_kindle("p{-EPUB-Text-Emphasis-Style:filled}"),
        "p{-webkit-text-emphasis-style:filled}"
    );
    assert_eq!(project_css_for_kindle("p { a: b"), "p { a: b");
    assert_eq!(project_css_for_kindle(""), "");
}

#[test]
fn projecting_measure_selectors() {
    assert_eq!(
        project_css_for_kindle(".fit { max-width: 100%; width: 10px }"),
        ".fit { ; width: 10px }"
    );
    assert_eq!(project_css_for_kindle(".jzm12 { max-width: 1em }"), ".jzm12 { }");
    assert_eq!(
        project_css_for_kindle(".jzmx { max-width: 1em }"),
        ".jzmx { max-width: 1em }"
    );
    assert_eq!(
        project_css_for_kindle("@charset \"utf-8\"; span.img.vrtl { max-height: 5em }"),
        "@charset \"utf-8\"; span.img.vrtl { }"
    );
    assert_eq!(
        project_css_for_kindle("/* .fit */ p { max-width: 1px }"),
        "/* .fit */ p { max-width: 1px }"
    );
    assert_eq!(
        project_css_for_kindle("span.img { max-width: 1px }"),
        "span.img { max-width: 1px }"
    );
}

#[test]
fn import_targets_in_order() {
    let source = chars(
        "@import 'a.css'; @import url(http://x/y.css); /* @import 'no.css'; */ @import url( b.css ) print;",
    );
    assert_eq!(css_import_targets(&source), vec!["a.css".to_owned(), "b.css".to_owned()]);
    assert!(css_import_targets(&chars("p { x: '@import a.css' }")).is_empty());
}

fn resources() -> Vec<KindleResource> {
    vec![
        resource("OEBPS/text/c.xhtml", "application/xhtml+xml"),
        resource("OEBPS/style/s.css", "text/css"),
        resource("OEBPS/fonts/f.ttf", "font/ttf"),
        resource("OEBPS/images/a.png", "image/png"),
        resource("OEBPS/images/b.png", "image/png"),
    ]
}

#[test]
fn embed_references() {
    let rs = resources();
    assert_eq!(
        resource_reference("OEBPS/style/s.css", "../images/b.png#frag", &rs),
        Some("kindle:embed:0002?mime=image/png".to_owned())
    );
    assert_eq!(
        resource_reference("OEBPS/style/s.css", "../fonts/f.ttf", &rs),
        Some("kindle:embed:0001?mime=font/ttf".to_owned())
    );
    assert_eq!(resource_reference("OEBPS/style/s.css", "missing.png", &rs), None);
    assert_eq!(resource_reference("OEBPS/style/s.css", "../text/c.xhtml", &rs), None);
    let suffix = vec![resource("images/b.png", "image/png")];
    assert_eq!(
        resource_reference("OEBPS/style/s.css", "../images/b.png", &suffix),
        Some("kindle:embed:0001?mime=image/png".to_owned())
    );
}

#[test]
fn rewriting_stylesheet_assets() {
    let rs = resources();
    let a = resource("OEBPS/style/a.css", "text/css");
    let other = resource("OEBPS/style/other.css", "text/css");
    let sheets = [&a, &other];
    let source = "@import url(other.css) screen;\n@import \"a.css\";\n\
a{background:url(\"../images/b.png\")}\n\
@font-face{src:url(../fonts/f.ttf)}\n\
b{background:url(missing.png)}\n\
c{background:url( /*c*/ '../images/a.png' )}";
    let expected = "@import url(kindle:flow:0002?mime=text/css) screen;\n@import url(kindle:flow:0001?mime=text/css);\n\
a{background:url(kindle:embed:0002?mime=image/png)}\n\
@font-face{src:url(kindle:embed:0001?mime=font/ttf)}\n\
b{background:url(missing.png)}\n\
c{background:url( /*c*/ kindle:embed:0001?mime=image/png )}";
    let out = rewrite_css_assets(source.as_bytes(), "OEBPS/style/s.css", &rs, &sheets);
    assert_eq!(String::from_utf8(out).unwrap(), expected);
    let invalid = [0xffu8, b'a'];
    assert_eq!(rewrite_css_assets(&invalid, "OEBPS/style/s.css", &rs, &sheets), invalid.to_vec());
}

#[test]
fn plain_stylesheets_pass_through_unchanged() {
    let plain = "@charset \"UTF-8\";\n.vrtl span.img { width: 10px; /* c */ }\n@media screen { p { color: red } }\n";
    assert_eq!(aozoraepub3_to_azw3::kindle::css::project_css_for_kindle(plain), plain);
}

#[test]
fn projecting_twice_changes_nothing() {
    let source = "@charset \"utf-8\";\n.aozora-w10 { max-width: 10em; -EPUB-Text-Emphasis-Style : filled; color: red }\n@media screen { p { -epub-writing-mode: vertical-rl; } }\n";
    let once = project_css_for_kindle(source);
    assert_eq!(project_css_for_kindle(&once), once);
}
