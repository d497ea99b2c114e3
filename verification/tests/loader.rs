use std::io::{Cursor, Write};

use lightfield::grammar::{NumberKind, ParseError};
use lightfield::lightfield::{decode_view, Lightfield, LightfieldError};

fn png_bytes() -> Vec<u8> {
    let img = image::DynamicImage::ImageRgb8(image::RgbImage::new(2, 2));
    let mut buf = Cursor::new(Vec::new());
    img.write_to(&mut buf, image::ImageFormat::Png).unwrap();
    buf.into_inner()
}

fn jpg_bytes() -> Vec<u8> {
    let img = image::DynamicImage::ImageRgb8(image::RgbImage::new(2, 2));
    let mut buf = Cursor::new(Vec::new());
    img.write_to(&mut buf, image::ImageFormat::Jpeg).unwrap();
    buf.into_inner()
}

fn make_zip(entries: &[(&str, &[u8])]) -> Vec<u8> {
    let mut w = zip::ZipWriter::new(Cursor::new(Vec::new()));
    for (name, data) in entries {
        w.start_file(*name, zip::write::SimpleFileOptions::default()).unwrap();
        w.write_all(data).unwrap();
    }
    w.finish().unwrap().into_inner()
}

#[test]
fn ok_png() {
    let archive = make_zip(&[("cam_0_0_0.0_0.0_a.png", &png_bytes())]);
    let lf = Lightfield::load_from_bytes(archive).unwrap();
    assert_eq!(lf.views.len(), 1);
    assert_eq!(lf.views[0].iy, 0);
    assert_eq!(lf.views[0].ix, 0);
    assert_eq!(lf.views[0].pos.x, "0.0");
    assert_eq!(lf.views[0].pos.y, "0.0");
}

#[test]
fn ok_jpg() {
    // JPEG content behind a ".png" suffix still decodes: the format is
    // detected from the bytes, not the name.
    let archive = make_zip(&[("cam_1_2_0.5_-0.5_b.png", &jpg_bytes())]);
    let lf = Lightfield::load_from_bytes(archive).unwrap();
    assert_eq!(lf.views.len(), 1);
    assert_eq!(lf.views[0].iy, 1);
    assert_eq!(lf.views[0].ix, 2);
}

#[test]
fn round_trip_count() {
    let png = png_bytes();
    let jpg = jpg_bytes();
    let archive = make_zip(&[
        ("cam_0_0_0.0_0.0_a.png", &png),
        ("cam_0_1_0.25_0.0_b.png", &jpg),
        ("cam_1_0_0.0_0.25_c.png", &png),
    ]);
    let lf = Lightfield::load_from_bytes(archive).unwrap();
    assert_eq!(lf.views.len(), 3);
}

#[test]
fn order_preserved() {
    let png = png_bytes();
    // Entry order is deliberately not sorted by grid position.
    let archive = make_zip(&[
        ("cam_5_9_0.0_0.0_a.png", &png),
        ("cam_-1_4_0.0_0.0_b.png", &png),
        ("cam_2_0_0.0_0.0_c.png", &png),
    ]);
    let lf = Lightfield::load_from_bytes(archive).unwrap();
    let got: Vec<(i32, i32)> = lf.views.iter().map(|v| (v.iy, v.ix)).collect();
    assert_eq!(got, vec![(5, 9), (-1, 4), (2, 0)]);
}

#[test]
fn malformed_name_fails_whole_load() {
    let png = png_bytes();
    let archive = make_zip(&[
        ("cam_0_0_0.0_0.0_a.png", &png),
        ("onlythreeparts_1_2.png", &png),
    ]);
    let e = Lightfield::load_from_bytes(archive).unwrap_err();
    assert_eq!(
        e,
        LightfieldError::Parse(ParseError::InvalidFormat(String::from(
            "onlythreeparts_1_2.png"
        )))
    );
}

#[test]
fn corrupt_image_fails_whole_load() {
    let png = png_bytes();
    let archive = make_zip(&[
        ("cam_0_0_0.0_0.0_a.png", &png),
        ("cam_0_1_0.5_0.0_b.png", b"this is not an image"),
    ]);
    let e = Lightfield::load_from_bytes(archive).unwrap_err();
    assert!(matches!(e, LightfieldError::Image(_)), "{:?}", e);
}

#[test]
fn not_an_archive() {
    let e = Lightfield::load_from_bytes(b"garbage, not a zip".to_vec()).unwrap_err();
    assert!(matches!(e, LightfieldError::Archive(_)), "{:?}", e);
}

#[test]
fn empty_archive_gives_empty_lightfield() {
    let archive = make_zip(&[]);
    let lf = Lightfield::load_from_bytes(archive).unwrap();
    assert_eq!(lf.views.len(), 0);
}

#[test]
fn decode_view_direct() {
    let v = decode_view("x_7_3_1.5_-2.25_suffix.png", &png_bytes()).unwrap();
    assert_eq!(v.iy, 7);
    assert_eq!(v.ix, 3);
    assert_eq!(v.pos.x, "1.5");
    assert_eq!(v.pos.y, "-2.25");
}

#[test]
fn decode_view_bad_number() {
    let e = decode_view("x_7_abc_1.5_-2.25_s.png", &png_bytes()).unwrap_err();
    assert_eq!(
        e,
        LightfieldError::Parse(ParseError::InvalidNumber(
            String::from("abc"),
            NumberKind::Int
        ))
    );
}
