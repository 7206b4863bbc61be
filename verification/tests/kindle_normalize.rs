use aozoraepub3_to_azw3::book::{Direction, Layout, PageProgression, WritingMode};
use aozoraepub3_to_azw3::kindle::normalize::{
    document_path, has_attribute_token, is_bodymatter_landmark, is_cover_landmark,
    neutralize_cover_links, push_html_escaped, render_synthetic_toc, resolve_document_path,
};
use aozoraepub3_to_azw3::kindle::{KindleLayout, KindleNavigationItem};

fn chars(s: &str) -> Vec<char> {
    s.chars().collect()
}

#[test]
fn document_paths() {
    assert_eq!(document_path("./OEBPS/text/../text/a.xhtml#x"), "OEBPS/text/a.xhtml");
    assert_eq!(document_path("a\\b?q"), "a/b");
    assert_eq!(document_path("#only"), "");
    assert_eq!(resolve_document_path("OEBPS/text/c.xhtml", "#top"), "OEBPS/text/c.xhtml");
    assert_eq!(
        resolve_document_path("OEBPS/text/c.xhtml", "cover.xhtml#x"),
        "OEBPS/text/cover.xhtml"
    );
    assert_eq!(resolve_document_path("c.xhtml", "../x.xhtml"), "x.xhtml");
}

#[test]
fn landmark_kinds_and_tokens() {
    assert!(is_bodymatter_landmark("BodyMatter"));
    assert!(is_bodymatter_landmark("start"));
    assert!(!is_bodymatter_landmark("cover"));
    assert!(has_attribute_token("<nav EPUB:TYPE = \"landmarks toc\">", "epub:type", "TOC"));
    assert!(!has_attribute_token("<a epub:type=cover>", "epub:type", "cover"));
    assert!(!has_attribute_token(
        "<a data-epub:type=\"x\" epub:type=\"cover\">",
        "epub:type",
        "cover"
    ));
    assert!(!has_attribute_token("<a epub:type=\"cover", "epub:type", "cover"));
}

#[test]
fn escaping_html() {
    let mut out = Vec::new();
    push_html_escaped(&mut out, "a<b>&\"c", true);
    assert_eq!(out.iter().collect::<String>(), "a&lt;b&gt;&amp;&quot;c");
    let mut out = Vec::new();
    push_html_escaped(&mut out, "a<b>&\"c", false);
    assert_eq!(out.iter().collect::<String>(), "a&lt;b&gt;&amp;\"c");
}

#[test]
fn synthetic_toc() {
    let items = vec![KindleNavigationItem {
        label: "第一章 <>".to_owned(),
        href: "a.xhtml".to_owned(),
        children: vec![KindleNavigationItem {
            label: "x".to_owned(),
            href: String::new(),
            children: Vec::new(),
        }],
    }];
    let toc = render_synthetic_toc(&items);
    assert!(toc.starts_with("<?xml version=\"1.0\" encoding=\"UTF-8\"?>\n<html"));
    assert!(toc.ends_with(
        "<ol><li><a href=\"a.xhtml\">第一章 &lt;&gt;</a><ol><li>x</li></ol></li></ol></nav></body></html>"
    ));
    assert!(render_synthetic_toc(&[]).ends_with("<h1>目　次</h1><ol></ol></nav></body></html>"));
}

#[test]
fn cover_landmarks() {
    let source = "<nav epub:type=\"landmarks\"><ol><li><a epub:type=\"cover\" href=\"cover.xhtml\">C</a></li></ol></nav>";
    let s = chars(source);
    let href_start = source.find("cover.xhtml").unwrap();
    assert!(is_cover_landmark(&s, href_start));
    let toc = "<nav epub:type=\"toc\"><a epub:type=\"cover\" href=\"c.xhtml\">C</a></nav>";
    let t = chars(toc);
    assert!(!is_cover_landmark(&t, toc.find("c.xhtml").unwrap()));
    let closed = "<nav epub:type=\"landmarks\"></nav><a epub:type=\"cover\" href=\"c.xhtml\">";
    let c = chars(closed);
    assert!(!is_cover_landmark(&c, closed.find("c.xhtml").unwrap()));
}

#[test]
fn neutralizing_cover_links() {
    let cover = vec!["OEBPS/text/cover.xhtml".to_owned()];
    let source = "<p><a href=\"cover.xhtml\">Cover</a> <a href='ch1.xhtml#x'>1</a></p>";
    assert_eq!(
        neutralize_cover_links(source, "OEBPS/text/nav.xhtml", &cover),
        Some("<p><a href=\"#\">Cover</a> <a href='ch1.xhtml#x'>1</a></p>".to_owned())
    );
    let landmarks = "<nav epub:type=\"landmarks\"><a epub:type=\"cover\" href=\"cover.xhtml\">C</a></nav>";
    assert_eq!(
        neutralize_cover_links(landmarks, "OEBPS/text/nav.xhtml", &cover),
        Some(
            "<nav epub:type=\"landmarks\"><a epub:type=\"cover\" href=\"kindle:cover-landmark\">C</a></nav>"
                .to_owned()
        )
    );
    assert_eq!(neutralize_cover_links("<a href=\"ch1.xhtml\">", "OEBPS/text/nav.xhtml", &cover), None);
    assert_eq!(neutralize_cover_links(source, "OEBPS/text/nav.xhtml", &[]), None);
    assert_eq!(
        neutralize_cover_links("<a data-href=\"cover.xhtml\">", "OEBPS/text/nav.xhtml", &cover),
        None
    );
    assert_eq!(
        neutralize_cover_links("<a HREF = \"../text/cover.xhtml\">", "OEBPS/text/nav.xhtml", &cover),
        Some("<a HREF = \"#\">".to_owned())
    );
}

#[test]
fn layout_conversion() {
    let layout = Layout {
        writing_mode: WritingMode::VerticalRl,
        page_progression: PageProgression::Rtl,
        direction: Direction::Ltr,
    };
    let kindle = KindleLayout::from(layout);
    assert_eq!(kindle.writing_mode, WritingMode::VerticalRl);
    assert_eq!(kindle.page_progression, PageProgression::Rtl);
    assert_eq!(kindle.direction, Direction::Ltr);
}
