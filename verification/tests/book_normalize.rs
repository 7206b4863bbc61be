use aozoraepub3_to_azw3::book::{
    Book, ContentDocument, NavigationItem, NavigationLandmark, ReadingOrderItem, Resource,
};
use aozoraepub3_to_azw3::kindle::normalize::normalize;

fn content(id: &str, href: &str, is_cover: bool) -> ContentDocument {
    ContentDocument {
        id: id.to_owned(),
        href: href.to_owned(),
        source_xhtml: format!("<html><body><a href=\"cover.xhtml\">{id}</a></body></html>"),
        referenced_styles: vec!["style.css".to_owned()],
        is_cover,
        pre_paginated: false,
    }
}

fn item(id: &str, href: &str) -> ReadingOrderItem {
    ReadingOrderItem {
        id: id.to_owned(),
        href: href.to_owned(),
        media_type: "application/xhtml+xml".to_owned(),
        linear: true,
    }
}

fn landmark(kind: &str, href: &str) -> NavigationLandmark {
    NavigationLandmark { kind: kind.to_owned(), label: kind.to_owned(), href: href.to_owned() }
}

fn resource(id: &str, href: &str, media_type: &str, data: &[u8]) -> Resource {
    Resource {
        id: id.to_owned(),
        href: href.to_owned(),
        media_type: media_type.to_owned(),
        properties: Vec::new(),
        data: data.to_vec(),
    }
}

fn book() -> Book {
    let mut book = Book::default();
    book.metadata.title = Some("T".to_owned());
    book.reading_order.items = vec![item("cover", "cover.xhtml"), item("p1", "p1.xhtml"), item("p2", "p2.xhtml")];
    book.content = vec![content("cover", "cover.xhtml", true), content("p1", "p1.xhtml", false), content("p2", "p2.xhtml", false)];
    book.navigation.items = vec![
        NavigationItem { label: "Cover".to_owned(), href: "cover.xhtml".to_owned(), children: Vec::new() },
        NavigationItem { label: "One".to_owned(), href: "p1.xhtml#a".to_owned(), children: Vec::new() },
    ];
    book.navigation.landmarks = vec![landmark("cover", "cover.xhtml"), landmark("bodymatter", "cover.xhtml")];
    book.resources.items = vec![
        resource("css", "style.css", "text/css", b"p { -epub-writing-mode: vertical-rl; }"),
        resource("img", "a.png", "image/png", &[1, 2, 3]),
    ];
    book
}

#[test]
fn covers_leave_the_sections_and_the_navigation() {
    let kindle = normalize(book());
    let ids: Vec<&str> = kindle.sections.iter().map(|s| s.id.as_str()).collect();
    assert_eq!(ids, vec!["__kindle_toc", "p1", "p2"]);
    assert_eq!(kindle.sections[0].href, "__kindle_toc.xhtml");
    assert!(kindle.sections[0].source_xhtml.contains("<a href=\"p1.xhtml#a\">One</a>"));
    assert_eq!(kindle.navigation.len(), 1);
    assert_eq!(kindle.navigation[0].label, "One");
    assert!(kindle.sections[1].source_xhtml.contains("href=\"#\""));
    assert_eq!(kindle.sections[1].referenced_styles, vec!["style.css".to_owned()]);
    assert_eq!(kindle.metadata.title.as_deref(), Some("T"));
}

#[test]
fn landmarks_move_off_omitted_covers() {
    let kindle = normalize(book());
    let landmarks: Vec<(&str, &str, &str)> = kindle
        .landmarks
        .iter()
        .map(|l| (l.kind.as_str(), l.label.as_str(), l.href.as_str()))
        .collect();
    assert_eq!(
        landmarks,
        vec![("bodymatter", "bodymatter", "p1.xhtml"), ("toc", "目次", "__kindle_toc.xhtml")]
    );
}

#[test]
fn stylesheets_are_projected_and_other_resources_kept() {
    let kindle = normalize(book());
    assert_eq!(kindle.resources[0].data, b"p { -webkit-writing-mode: vertical-rl; }".to_vec());
    assert_eq!(kindle.resources[1].data, vec![1, 2, 3]);
}

#[test]
fn a_book_without_navigation_gets_a_text_landmark() {
    let mut b = Book::default();
    b.reading_order.items = vec![item("p1", "p1.xhtml")];
    b.content = vec![content("p1", "p1.xhtml", false)];
    let kindle = normalize(b);
    assert_eq!(kindle.sections.len(), 1);
    assert_eq!(kindle.landmarks.len(), 1);
    assert_eq!(kindle.landmarks[0].kind, "text");
    assert_eq!(kindle.landmarks[0].label, "本文");
    assert_eq!(kindle.landmarks[0].href, "p1.xhtml");
}
