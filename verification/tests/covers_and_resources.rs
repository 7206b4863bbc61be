use aozoraepub3_to_azw3::api::{Compression, ConvertOptions};
use aozoraepub3_to_azw3::book::{PageProgression, WritingMode};
use aozoraepub3_to_azw3::error::Error;
use aozoraepub3_to_azw3::kf8::builder::{language_code, page_progression_value, writing_mode_value};
use aozoraepub3_to_azw3::kf8::resource::{
    is_binary_resource, is_css_resource, is_font_resource, is_image_resource, is_text_resource,
    BinaryResourceGeometry,
};
use aozoraepub3_to_azw3::kf8::serializer::align4;
use aozoraepub3_to_azw3::kindle::cover::{
    bytes_equal, convert_png_cover_to_jpeg, flatten_on_white, generate_library_thumbnail,
    prepare_cover_resource, thumbnail_dimensions,
};
use aozoraepub3_to_azw3::kindle::KindleResource;
use std::io::Cursor;

fn resource(id: &str, media_type: &str, data: Vec<u8>) -> KindleResource {
    KindleResource {
        id: id.to_owned(),
        href: format!("{id}.bin"),
        media_type: media_type.to_owned(),
        properties: Vec::new(),
        data,
    }
}

fn png_bytes(width: u32, height: u32, pixel: [u8; 4]) -> Vec<u8> {
    let mut img = image::RgbaImage::new(width, height);
    for p in img.pixels_mut() {
        *p = image::Rgba(pixel);
    }
    let mut out = Cursor::new(Vec::new());
    image::DynamicImage::ImageRgba8(img)
        .write_to(&mut out, image::ImageFormat::Png)
        .expect("png encode");
    out.into_inner()
}

#[test]
fn thumbnail_sizes_keep_the_aspect_ratio() {
    assert_eq!(thumbnail_dimensions(1000, 1000), (330, 330));
    assert_eq!(thumbnail_dimensions(600, 2000), (141, 470));
    assert_eq!(thumbnail_dimensions(0, 0), (1, 1));
    assert_eq!(thumbnail_dimensions(330, 470), (330, 470));
    assert_eq!(thumbnail_dimensions(10000, 1), (330, 1));
}

#[test]
fn flattening_composites_over_white() {
    let rgba = [255u8, 0, 0, 255, 0, 0, 0, 0, 0, 0, 0, 128];
    let rgb = flatten_on_white(&rgba);
    assert_eq!(rgb.len(), 9);
    assert_eq!(&rgb[0..3], &[255, 0, 0]);
    assert_eq!(&rgb[3..6], &[255, 255, 255]);
    assert!(rgb[6] >= 126 && rgb[6] <= 128);
    assert_eq!(rgb[6], rgb[7]);
}

#[test]
fn non_png_cover_is_refused() {
    match convert_png_cover_to_jpeg(b"not an image") {
        Err(Error::Output(m)) => assert_eq!(m, "selected PNG cover is not PNG data"),
        other => panic!("unexpected {other:?}"),
    }
}

#[test]
fn png_cover_becomes_jpeg() {
    let png = png_bytes(4, 3, [10, 200, 30, 255]);
    let jpeg = convert_png_cover_to_jpeg(&png).expect("conversion");
    assert_eq!(&jpeg[0..2], &[0xFF, 0xD8]);
    assert_ne!(jpeg, png);
    let decoded = image::load_from_memory(&jpeg).expect("decodes");
    assert_eq!((decoded.width(), decoded.height()), (4, 3));
}

#[test]
fn thumbnails_only_for_images() {
    let png = png_bytes(1000, 1000, [0, 0, 0, 255]);
    assert!(generate_library_thumbnail(&resource("t", "text/plain", png.clone())).is_none());
    assert!(generate_library_thumbnail(&resource("c", "image/png", b"junk".to_vec())).is_none());
    let thumb = generate_library_thumbnail(&resource("c", "IMAGE/PNG", png)).expect("thumbnail");
    let decoded = image::load_from_memory(&thumb).expect("decodes");
    assert_eq!((decoded.width(), decoded.height()), (330, 330));
}

#[test]
fn preparing_a_png_cover() {
    let png = png_bytes(2, 2, [1, 2, 3, 255]);
    let mut resources = vec![
        resource("css", "text/css", b"p{}".to_vec()),
        resource("cover", "image/png", png.clone()),
    ];
    prepare_cover_resource(&mut resources, Some("cover")).expect("prepared");
    assert_eq!(resources[1].media_type, "image/jpeg");
    assert_eq!(&resources[1].data[0..2], &[0xFF, 0xD8]);
    assert_eq!(resources[1].id, "cover");
    assert_eq!(resources[0].data, b"p{}".to_vec());

    let mut untouched = vec![resource("cover", "image/png", png.clone())];
    prepare_cover_resource(&mut untouched, None).expect("no cover");
    assert_eq!(untouched[0].data, png);
    prepare_cover_resource(&mut untouched, Some("missing")).expect("unknown cover");
    assert_eq!(untouched[0].media_type, "image/png");

    let mut broken = vec![resource("cover", "image/png", b"nope".to_vec())];
    assert!(matches!(
        prepare_cover_resource(&mut broken, Some("cover")),
        Err(Error::Output(_))
    ));
    assert_eq!(broken[0].data, b"nope".to_vec());
}

#[test]
fn comparing_bytes() {
    assert!(bytes_equal(b"abc", b"abc"));
    assert!(!bytes_equal(b"abc", b"abd"));
    assert!(!bytes_equal(b"ab", b"abc"));
    assert!(bytes_equal(b"", b""));
}

#[test]
fn classifying_resources() {
    let xhtml = resource("a", "application/xhtml+xml", Vec::new());
    let ncx = resource("b", "Application/X-DTBNCX+XML", Vec::new());
    let css = resource("c", "TEXT/CSS", Vec::new());
    let jpeg = resource("d", "image/jpeg", Vec::new());
    let font = resource("e", "font/otf", Vec::new());
    let other = resource("f", "application/octet-stream", Vec::new());
    assert!(is_text_resource(&xhtml) && is_text_resource(&ncx));
    assert!(!is_text_resource(&css));
    assert!(is_css_resource(&css) && !is_css_resource(&jpeg));
    assert!(is_image_resource(&jpeg) && !is_image_resource(&font));
    assert!(is_image_resource(&resource("g", "IMAGE/svg+xml", Vec::new())));
    assert!(!is_image_resource(&resource("h", "image", Vec::new())));
    assert!(is_font_resource(&font) && is_font_resource(&resource("i", "application/x-font-ttf", Vec::new())));
    assert!(!is_font_resource(&other));
    assert!(is_binary_resource(&jpeg) && is_binary_resource(&other));
    assert!(!is_binary_resource(&xhtml) && !is_binary_resource(&css));
}

#[test]
fn binary_geometry_with_cover_and_thumbnail() {
    let font = resource("font", "font/ttf", Vec::new());
    let img1 = resource("img1", "image/jpeg", Vec::new());
    let cover = resource("cover", "image/jpeg", Vec::new());
    let binaries = vec![&font, &img1, &cover];
    let g = BinaryResourceGeometry::compute(&binaries, 10, Some("cover"), true).expect("geometry");
    assert_eq!(g.count, 4);
    assert_eq!(g.first_image_record, 11);
    assert_eq!(g.last_image_record, 13);
    assert_eq!(g.cover_offset, Some(1));
    assert_eq!(g.thumbnail_offset, Some(2));

    let g = BinaryResourceGeometry::compute(&binaries, 10, Some("nothere"), false).expect("geometry");
    assert_eq!(g.count, 3);
    assert_eq!(g.last_image_record, 12);
    assert_eq!(g.cover_offset, None);
    assert_eq!(g.thumbnail_offset, None);
}

#[test]
fn binary_geometry_without_images() {
    let font = resource("font", "font/ttf", Vec::new());
    let binaries = vec![&font];
    let g = BinaryResourceGeometry::compute(&binaries, 5, None, false).expect("geometry");
    assert_eq!(g.count, 1);
    assert_eq!(g.first_image_record, u32::MAX);
    assert_eq!(g.last_image_record, u16::MAX);
}

#[test]
fn binary_geometry_errors() {
    let font = resource("cover", "font/ttf", Vec::new());
    let img = resource("img", "image/png", Vec::new());
    let binaries = vec![&font, &img];
    match BinaryResourceGeometry::compute(&binaries, 1, Some("cover"), false) {
        Err(Error::Output(m)) => assert_eq!(m, "cover precedes first image record"),
        other => panic!("unexpected {other:?}"),
    }
    let binaries = vec![&img];
    match BinaryResourceGeometry::compute(&binaries, 70000, None, false) {
        Err(Error::Output(m)) => assert_eq!(m, "last image record index exceeds u16"),
        other => panic!("unexpected {other:?}"),
    }
    match BinaryResourceGeometry::compute(&binaries, u32::MAX, None, false) {
        Err(Error::Output(m)) => assert_eq!(m, "last image record index exceeds u16"),
        other => panic!("unexpected {other:?}"),
    }
}

#[test]
fn metadata_values() {
    assert_eq!(writing_mode_value(WritingMode::VerticalRl), "vertical-rl");
    assert_eq!(writing_mode_value(WritingMode::HorizontalTb), "horizontal-lr");
    assert_eq!(writing_mode_value(WritingMode::VerticalLr), "vertical-lr");
    assert_eq!(page_progression_value(PageProgression::Rtl), "rtl");
    assert_eq!(page_progression_value(PageProgression::Default), "default");
    assert_eq!(language_code("ja-JP"), 0x11);
    assert_eq!(language_code(" EN_us "), 0x09);
    assert_eq!(language_code("zh-Hant"), 0x04);
    assert_eq!(language_code("xx"), 0);
    assert_eq!(language_code(""), 0);
}

#[test]
fn options_and_alignment() {
    assert!(ConvertOptions::default().compresses_text());
    let plain = ConvertOptions { compression: Compression::Uncompressed };
    assert!(!plain.compresses_text());
    assert_eq!(align4(0).unwrap(), 0);
    assert_eq!(align4(5).unwrap(), 8);
    assert_eq!(align4(8).unwrap(), 8);
    assert!(align4(usize::MAX).is_err());
}
