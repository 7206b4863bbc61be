use aozoraepub3_to_azw3::book::{NavigationItem, Resource};
use aozoraepub3_to_azw3::epub::xhtml::unique_resource_id;
use aozoraepub3_to_azw3::kindle::ir::{KindleLayoutSemantic, KindleSection};
use aozoraepub3_to_azw3::kindle::normalize::{prune_navigation, synthetic_toc_href};

fn nav(label: &str, href: &str, children: Vec<NavigationItem>) -> NavigationItem {
    NavigationItem { label: label.to_owned(), href: href.to_owned(), children }
}

fn section(href: &str) -> KindleSection {
    KindleSection {
        id: href.to_owned(),
        href: href.to_owned(),
        source_xhtml: String::new(),
        referenced_styles: Vec::new(),
        linear: true,
        layout: KindleLayoutSemantic::Reflowable,
    }
}

fn resource(href: &str) -> Resource {
    Resource {
        id: href.to_owned(),
        href: href.to_owned(),
        media_type: "image/png".to_owned(),
        properties: Vec::new(),
        data: Vec::new(),
    }
}

fn owned(v: &[&str]) -> Vec<String> {
    v.iter().map(|s| (*s).to_owned()).collect()
}

#[test]
fn resource_ids_avoid_collisions() {
    assert_eq!(unique_resource_id("style", &owned(&["a", "b"])), "style");
    assert_eq!(unique_resource_id("style", &owned(&["style"])), "style-collision-0001");
    assert_eq!(
        unique_resource_id("s", &owned(&["s", "s-collision-0001", "s-collision-0002"])),
        "s-collision-0003"
    );
    assert_eq!(unique_resource_id("", &owned(&[""])), "-collision-0001");
}

#[test]
fn synthetic_toc_hrefs_avoid_taken_ones() {
    assert_eq!(synthetic_toc_href(&[section("a.xhtml")], &[resource("b.png")]), "__kindle_toc.xhtml");
    assert_eq!(
        synthetic_toc_href(&[section("__kindle_toc.xhtml")], &[resource("__kindle_toc-1.xhtml")]),
        "__kindle_toc-2.xhtml"
    );
    assert_eq!(synthetic_toc_href(&[], &[]), "__kindle_toc.xhtml");
}

#[test]
fn cover_entries_leave_the_navigation() {
    let items = vec![
        nav("Cover", "text/cover.xhtml#top", vec![nav("Inside", "text/a.xhtml", Vec::new())]),
        nav("Chapter", "text/b.xhtml", vec![nav("Cover again", "./text/cover.xhtml", Vec::new())]),
    ];
    let pruned = prune_navigation(&items, &owned(&["text/cover.xhtml"]));
    assert_eq!(pruned.len(), 2);
    assert_eq!(pruned[0].label, "Inside");
    assert!(pruned[0].children.is_empty());
    assert_eq!(pruned[1].label, "Chapter");
    assert_eq!(pruned[1].href, "text/b.xhtml");
    assert!(pruned[1].children.is_empty());
    let kept = prune_navigation(&items, &[]);
    assert_eq!(kept.len(), 2);
    assert_eq!(kept[0].children.len(), 1);
}
