use aozoraepub3_to_azw3::book::WritingMode;
use aozoraepub3_to_azw3::epub::xhtml::{
    is_object_projectable_media_type, primary_writing_mode_attributes, is_stylesheet_rel,
    style_class_writing_mode, srcset_candidate_is_package_local,
    srcset_has_package_local_candidate, starts_with_data_url, style_value,
};

fn chars(s: &str) -> Vec<char> {
    s.chars().collect()
}

#[test]
fn stylesheet_rel_tokens() {
    assert!(is_stylesheet_rel("stylesheet"));
    assert!(is_stylesheet_rel("alternate  StyleSheet"));
    assert!(!is_stylesheet_rel("alternate"));
    assert!(!is_stylesheet_rel("stylesheets"));
    assert!(!is_stylesheet_rel(""));
}

#[test]
fn style_values_by_property() {
    assert_eq!(style_value("color: red; writing-mode : vertical-rl ;", "writing-mode"), Some("vertical-rl".to_owned()));
    assert_eq!(style_value("a:b;a:c", "a"), Some("b".to_owned()));
    assert_eq!(style_value("novalue; a : x:y", "a"), Some("x:y".to_owned()));
    assert_eq!(style_value("A: b", "a"), None);
    assert_eq!(style_value("", "a"), None);
}

#[test]
fn root_writing_mode_from_attributes() {
    assert_eq!(
        style_class_writing_mode(Some("WRITING-MODE: Vertical-RL"), None),
        Some(WritingMode::VerticalRl)
    );
    assert_eq!(
        style_class_writing_mode(Some("-webkit-writing-mode: horizontal-lr"), Some("vrtl")),
        Some(WritingMode::HorizontalTb)
    );
    assert_eq!(
        style_class_writing_mode(Some("writing-mode: sideways"), Some("main VLTR")),
        Some(WritingMode::VerticalLr)
    );
    assert_eq!(style_class_writing_mode(None, Some("a hltr vrtl")), Some(WritingMode::HorizontalTb));
    assert_eq!(style_class_writing_mode(None, Some("vrtlx")), None);
    assert_eq!(style_class_writing_mode(None, None), None);
}

#[test]
fn primary_writing_mode_meta_names() {
    assert!(primary_writing_mode_attributes(None, Some("primary-writing-mode")));
    assert!(primary_writing_mode_attributes(Some("x ibooks:Primary-Writing-Mode"), None));
    assert!(primary_writing_mode_attributes(Some("dcterms:title"), Some("a:b:primary-writing-mode")));
    assert!(!primary_writing_mode_attributes(Some("primary-writing-mode:x"), None));
    assert!(!primary_writing_mode_attributes(None, None));
}

#[test]
fn projectable_object_media_types() {
    assert!(is_object_projectable_media_type("image/png"));
    assert!(is_object_projectable_media_type("FONT/woff2"));
    assert!(is_object_projectable_media_type("application/xhtml+xml"));
    assert!(is_object_projectable_media_type("Text/CSS"));
    assert!(!is_object_projectable_media_type("audio/mpeg"));
    assert!(!is_object_projectable_media_type("image"));
    assert!(!is_object_projectable_media_type("text/plain"));
}

#[test]
fn srcset_candidates() {
    assert!(starts_with_data_url(&chars("  DATA:image/png;base64,AAAA")));
    assert!(!starts_with_data_url(&chars("dat")));
    assert!(srcset_candidate_is_package_local(&chars(" images/a.png 2x")));
    assert!(srcset_candidate_is_package_local(&chars("'a.png'")));
    assert!(!srcset_candidate_is_package_local(&chars("https://example.com/a.png 1x")));
    assert!(!srcset_candidate_is_package_local(&chars("''")));
    assert!(!srcset_candidate_is_package_local(&chars("   ")));
    assert!(srcset_has_package_local_candidate("https://e.com/a.png 1x, b.png 2x"));
    assert!(!srcset_has_package_local_candidate("https://e.com/a.png 1x, http://e.com/b.png 2x"));
    assert!(!srcset_has_package_local_candidate("data:image/png;base64,AA,BB 1x"));
    assert!(srcset_has_package_local_candidate("data:image/png;base64,AA 1x, c.png"));
    assert!(!srcset_has_package_local_candidate(""));
}
