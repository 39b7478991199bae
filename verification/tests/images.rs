use addonforge::images::{
    blp_safe_exec, icon_png_from_bytes, icon_png_from_file, preview_jpeg_from_bytes, ICON_MAX_BYTES, PREVIEW_MAX_BYTES,
    PREVIEW_WIDTH,
};

fn png_of(w: u32, h: u32) -> Vec<u8> {
    let img = image::RgbaImage::from_pixel(w, h, image::Rgba([10, 20, 30, 255]));
    let mut out = Vec::new();
    img.write_to(&mut std::io::Cursor::new(&mut out), image::ImageFormat::Png).unwrap();
    out
}

#[test]
fn icons_become_32px_squares() {
    let png = icon_png_from_bytes(&png_of(64, 40)).expect("decodes");
    let back = image::load_from_memory(&png).unwrap();
    assert_eq!((back.width(), back.height()), (32, 32));
    assert_eq!(icon_png_from_bytes(b"not a picture"), None);
    assert_eq!(icon_png_from_bytes(&vec![0u8; ICON_MAX_BYTES + 1]), None);
}

#[test]
fn previews_are_at_most_720_wide() {
    let jpg = preview_jpeg_from_bytes(&png_of(1000, 100)).expect("decodes");
    let back = image::load_from_memory(&jpg).unwrap();
    assert_eq!(back.width(), PREVIEW_WIDTH);
    let small = preview_jpeg_from_bytes(&png_of(300, 50)).expect("decodes");
    let back = image::load_from_memory(&small).unwrap();
    assert_eq!((back.width(), back.height()), (300, 50));
    assert_eq!(preview_jpeg_from_bytes(&vec![0u8; PREVIEW_MAX_BYTES + 1]), None);
}

#[test]
fn icons_are_png_files_and_previews_jpeg_files() {
    let png = icon_png_from_bytes(&png_of(20, 20)).expect("decodes");
    assert_eq!(&png[..8], &[137u8, 80, 78, 71, 13, 10, 26, 10]);
    let jpg = preview_jpeg_from_bytes(&png_of(40, 30)).expect("decodes");
    assert_eq!(&jpg[..2], &[0xFFu8, 0xD8]);
    assert_eq!(&jpg[jpg.len() - 2..], &[0xFFu8, 0xD9]);
}

fn tga_of(w: u32, h: u32) -> Vec<u8> {
    let img = image::RgbaImage::from_pixel(w, h, image::Rgba([1, 2, 3, 255]));
    let mut out = Vec::new();
    img.write_to(&mut std::io::Cursor::new(&mut out), image::ImageFormat::Tga).unwrap();
    out
}

#[test]
fn icon_and_preview_headers_give_their_sizes() {
    let png = icon_png_from_bytes(&png_of(50, 90)).expect("decodes");
    assert_eq!(&png[12..16], b"IHDR");
    assert_eq!(&png[16..24], &[0u8, 0, 0, 32, 0, 0, 0, 32]);
    let jpg = preview_jpeg_from_bytes(&png_of(1440, 100)).expect("decodes");
    assert_eq!(&jpg[20..22], &[0xFFu8, 0xC0]);
    assert_eq!(u16::from_be_bytes([jpg[27], jpg[28]]), 720);
    assert_eq!(u16::from_be_bytes([jpg[25], jpg[26]]), 50);
    let kept = preview_jpeg_from_bytes(&png_of(200, 80)).expect("decodes");
    assert_eq!(u16::from_be_bytes([kept[27], kept[28]]), 200);
    assert_eq!(u16::from_be_bytes([kept[25], kept[26]]), 80);
}

#[test]
fn textures_from_files() {
    let from_tga = icon_png_from_file("Icon.TGA", &tga_of(16, 16)).expect("tga decodes");
    assert_eq!(&from_tga[16..24], &[0u8, 0, 0, 32, 0, 0, 0, 32]);
    let from_png = icon_png_from_file("icon.png", &png_of(64, 64)).expect("png decodes");
    assert_eq!(&from_png[..8], &[137u8, 80, 78, 71, 13, 10, 26, 10]);
    assert_eq!(icon_png_from_file("icon.blp", b"not a texture"), None);
    assert_eq!(icon_png_from_file("icon.tga", b""), None);
}

/// A BLP2 file with directly stored pixels and one mipmap of `data`.
fn blp2(compression: u8, alpha_type: u8, w: u32, h: u32, data: &[u8], size0: u32) -> Vec<u8> {
    let mut b = b"BLP2".to_vec();
    b.extend_from_slice(&1u32.to_le_bytes());
    b.extend_from_slice(&[compression, 0, alpha_type, 0]);
    b.extend_from_slice(&w.to_le_bytes());
    b.extend_from_slice(&h.to_le_bytes());
    let offset0: u32 = 148 + 1024;
    for k in 0..16 {
        b.extend_from_slice(&(if k == 0 { offset0 } else { 0 }).to_le_bytes());
    }
    for k in 0..16 {
        b.extend_from_slice(&(if k == 0 { size0 } else { 0 }).to_le_bytes());
    }
    b.extend_from_slice(&[0u8; 1024]);
    b.extend_from_slice(data);
    b
}

#[test]
fn blp_textures_are_decoded_when_safe() {
    // one DXT1 block covers a 4x4 texture
    let dxt = blp2(2, 0, 4, 4, &[0xff, 0xff, 0, 0, 0, 0, 0, 0], 8);
    assert!(blp_safe_exec(&dxt));
    let icon = icon_png_from_file("Icon.BLP", &dxt).expect("decodes");
    assert_eq!(&icon[16..24], &[0u8, 0, 0, 32, 0, 0, 0, 32]);
    // raw RGBA
    let raw = blp2(3, 8, 2, 2, &[9u8; 16], 16);
    assert!(blp_safe_exec(&raw));
    assert!(icon_png_from_file("x.blp", &raw).is_some());
}

#[test]
fn blp_textures_that_would_crash_the_decoder_are_refused() {
    // 6x6 DXT1: the decoder reads 3 blocks, the decompressor walks 4
    let six = blp2(2, 0, 6, 6, &[0u8; 32], 32);
    assert!(!blp_safe_exec(&six));
    assert_eq!(icon_png_from_file("six.blp", &six), None);
    // truncated DXT data
    let short = blp2(2, 0, 8, 8, &[0u8; 16], 16);
    assert!(!blp_safe_exec(&short));
    assert_eq!(icon_png_from_file("short.blp", &short), None);
    // a mipmap whose offset plus size overflows
    let mut wrap = blp2(2, 0, 4, 4, &[0u8; 8], 8);
    wrap[24..28].copy_from_slice(&u32::MAX.to_le_bytes());
    wrap[88..92].copy_from_slice(&2u32.to_le_bytes());
    assert!(!blp_safe_exec(&wrap));
    assert_eq!(icon_png_from_file("wrap.blp", &wrap), None);
    assert!(!blp_safe_exec(b"BLP1"));
}

#[test]
fn textures_are_decoded_by_extension() {
    let png = png_of(8, 8);
    assert!(icon_png_from_file("a.PNG", &png).is_some());
    assert_eq!(icon_png_from_file("a.jpg", &png), None);
    assert_eq!(icon_png_from_file("a", &png), None);
    assert_eq!(icon_png_from_file(".png", &png), None);
    assert_eq!(icon_png_from_file("a.bmp", &png), None);
}
