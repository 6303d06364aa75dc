use cove_image_viewer::decoder::{
    decoder_for, fallback_message, find_embedded_jpeg, heif_format_name, image_format_name,
    image_from_outcome, jp2_to_image, load_encoded, load_heif, pcx_to_image, raw_preview, to_color_image,
    with_fallback, DecoderKind, Jp2Component,
};
use cove_image_viewer::filesize::format_file_size;
use cove_image_viewer::pixels::frame_delay_ms;
use std::io::Cursor;

fn encode(img: &image::RgbaImage, format: image::ImageFormat) -> Vec<u8> {
    let mut out = Cursor::new(Vec::new());
    image::DynamicImage::ImageRgba8(img.clone()).write_to(&mut out, format).unwrap();
    out.into_inner()
}

fn encode_jpeg(w: u32, h: u32) -> Vec<u8> {
    let mut seed: u32 = 12345;
    let img = image::RgbImage::from_fn(w, h, |_, _| {
        seed = seed.wrapping_mul(1103515245).wrapping_add(12345);
        image::Rgb([(seed >> 16) as u8, (seed >> 8) as u8, seed as u8])
    });
    let mut out = Cursor::new(Vec::new());
    image::DynamicImage::ImageRgb8(img).write_to(&mut out, image::ImageFormat::Jpeg).unwrap();
    out.into_inner()
}

#[test]
fn extensions_select_decoders() {
    assert_eq!(decoder_for(Some("HEIC")), DecoderKind::Heif);
    assert_eq!(decoder_for(Some("avif")), DecoderKind::Heif);
    assert_eq!(decoder_for(Some("svgz")), DecoderKind::Svg);
    assert_eq!(decoder_for(Some("jxl")), DecoderKind::Jxl);
    assert_eq!(decoder_for(Some("PSB")), DecoderKind::Psd);
    assert_eq!(decoder_for(Some("nef")), DecoderKind::Raw);
    assert_eq!(decoder_for(Some("x3f")), DecoderKind::Raw);
    assert_eq!(decoder_for(Some("pcx")), DecoderKind::Pcx);
    assert_eq!(decoder_for(Some("j2k")), DecoderKind::Jp2);
    assert_eq!(decoder_for(Some("xbm")), DecoderKind::Xbm);
    assert_eq!(decoder_for(Some("xpm")), DecoderKind::Xpm);
    assert_eq!(decoder_for(Some("inta")), DecoderKind::Sgi);
    assert_eq!(decoder_for(Some("png")), DecoderKind::ImageCrate);
    assert_eq!(decoder_for(None), DecoderKind::ImageCrate);
}

#[test]
fn format_names() {
    assert_eq!(heif_format_name(Some("AVIF")), "AVIF");
    assert_eq!(heif_format_name(Some("heic")), "HEIC");
    assert_eq!(heif_format_name(Some("hif")), "HEIF");
    assert_eq!(heif_format_name(None), "HEIF");
    assert_eq!(image_format_name(Some("png")), "PNG");
    assert_eq!(image_format_name(None), "Unknown");
}

#[test]
fn fallback_message_joins_errors() {
    assert_eq!(fallback_message("sgi: bad", "image: worse"), "sgi: bad (fallback also failed: image: worse)");
}

#[test]
fn general_decoder_reads_png() {
    let img = image::RgbaImage::from_raw(2, 1, vec![1, 2, 3, 255, 4, 5, 6, 128]).unwrap();
    let png = encode(&img, image::ImageFormat::Png);
    let d = load_encoded(&png, Some("png")).unwrap();
    assert_eq!((d.pixels.width, d.pixels.height), (2, 1));
    assert_eq!(d.pixels.data, vec![1, 2, 3, 255, 4, 5, 6, 128]);
    assert_eq!(d.format_name, "PNG");
    assert_eq!((d.original_width, d.original_height), (2, 1));
    let e = load_encoded(b"not an image", Some("png")).unwrap_err();
    assert!(e.starts_with("image: "));
}

#[test]
fn general_decoder_reads_tga_by_extension() {
    let img = image::RgbaImage::from_raw(2, 2, vec![1, 2, 3, 255, 4, 5, 6, 255, 7, 8, 9, 255, 10, 11, 12, 255]).unwrap();
    let tga = encode(&img, image::ImageFormat::Tga);
    let d = load_encoded(&tga, Some("tga")).unwrap();
    assert_eq!((d.pixels.width, d.pixels.height), (2, 2));
    assert_eq!(d.pixels.data, vec![1, 2, 3, 255, 4, 5, 6, 255, 7, 8, 9, 255, 10, 11, 12, 255]);
    assert_eq!(d.format_name, "TGA");
    let upper = load_encoded(&tga, Some("TGA")).unwrap();
    assert_eq!(upper.pixels.data, d.pixels.data);
}

#[test]
fn general_decoder_follows_extension_not_content() {
    let img = image::RgbaImage::from_raw(1, 1, vec![7, 8, 9, 10]).unwrap();
    let png = encode(&img, image::ImageFormat::Png);
    let e = load_encoded(&png, Some("bmp")).unwrap_err();
    assert!(e.starts_with("image: "));
    let unknown = load_encoded(&png, Some("xyz")).unwrap_err();
    assert_eq!(unknown, "image: The file extension `.\"xyz\"` was not recognized as an image format");
    let none = load_encoded(&png, None).unwrap_err();
    assert_eq!(none, "image: The image format could not be determined");
    let empty = load_encoded(&png, Some("")).unwrap_err();
    assert_eq!(empty, "image: The image format could not be determined");
}

#[test]
fn fallback_keeps_first_success_and_tries_general_decoder() {
    let first = to_color_image(1, 1, vec![9, 9, 9, 9], "SGI");
    let kept = with_fallback(Ok(first), b"", Some("sgi")).unwrap();
    assert_eq!(kept.format_name, "SGI");
    let img = image::RgbaImage::from_raw(1, 1, vec![7, 8, 9, 10]).unwrap();
    let png = encode(&img, image::ImageFormat::Png);
    let rescued = with_fallback(Err("png: bad".to_string()), &png, Some("png")).unwrap();
    assert_eq!(rescued.format_name, "PNG");
    assert_eq!(rescued.pixels.data, vec![7, 8, 9, 10]);
    let failed = with_fallback(Err("sgi: bad".to_string()), &png, Some("sgi")).unwrap_err();
    assert_eq!(
        failed,
        "sgi: bad (fallback also failed: image: The file extension `.\"sgi\"` was not recognized as an image format)"
    );
    let junk = with_fallback(Err("png: bad".to_string()), b"junk", Some("png")).unwrap_err();
    assert!(junk.starts_with("png: bad (fallback also failed: image: "));
    assert!(junk.ends_with(')'));
}

#[test]
fn decoder_outcomes_become_images_or_prefixed_errors() {
    let img = image_from_outcome(Ok((1, 2, vec![1, 2, 3, 4, 5, 6, 7, 8])), "heic: ", "HEIC").unwrap();
    assert_eq!((img.pixels.width, img.pixels.height), (1, 2));
    assert_eq!(img.pixels.data, vec![1, 2, 3, 4, 5, 6, 7, 8]);
    assert_eq!(img.format_name, "HEIC");
    assert_eq!((img.original_width, img.original_height), (1, 2));
    let short = image_from_outcome(Ok((2, 2, vec![0; 4])), "psd: ", "PSD").unwrap_err();
    assert_eq!(short, "psd: pixel buffer does not match the image size");
    let err = image_from_outcome(Err("bad header".to_string()), "psd: ", "PSD").unwrap_err();
    assert_eq!(err, "psd: bad header");
}

#[test]
fn heif_decoder_error_gets_prefix() {
    let e = load_heif(b"junk", Some("heic")).unwrap_err();
    assert!(e.starts_with("heic: "));
    assert!(e.len() > "heic: ".len());
}

#[test]
fn embedded_jpeg_is_longest_span() {
    let data = [0u8, 0xFF, 0xD8, 1, 0xFF, 0xD9, 7, 0xFF, 0xD8, 1, 2, 3, 0xFF, 0xD9, 0xFF, 0xD8, 5];
    assert_eq!(find_embedded_jpeg(&data), Some((7, 14)));
    assert_eq!(find_embedded_jpeg(&[0xFF, 0xD8, 0xFF, 0xD9]), Some((0, 4)));
    assert_eq!(find_embedded_jpeg(&[1, 2, 3]), None);
    assert_eq!(find_embedded_jpeg(&[0xFF, 0xD8, 1, 2]), None);
}

#[test]
fn raw_preview_uses_large_embedded_jpeg() {
    let jpeg = encode_jpeg(256, 256);
    assert!(jpeg.len() > 32000);
    let mut raw = vec![0x11u8; 100];
    raw.extend_from_slice(&[0xFF, 0xD8, 0, 0xFF, 0xD9]);
    raw.extend_from_slice(&jpeg);
    raw.extend_from_slice(&[0x22u8; 50]);
    let img = raw_preview(&raw).unwrap();
    assert_eq!(img.format_name, "RAW");
    assert_eq!((img.pixels.width, img.pixels.height), (256, 256));
    assert_eq!(raw_preview(&[0xFF, 0xD8, 0, 0xFF, 0xD9]).unwrap_err(), "no usable preview");
    assert_eq!(raw_preview(&[]).unwrap_err(), "no usable preview");
}

#[test]
fn jp2_components_become_rgba() {
    let comps = vec![
        Jp2Component { prec: 8, data: vec![-5, 100] },
        Jp2Component { prec: 8, data: vec![300, 7] },
        Jp2Component { prec: 16, data: vec![65535, 257] },
    ];
    let img = jp2_to_image(10, 12, 3, 4, &comps).unwrap();
    assert_eq!((img.pixels.width, img.pixels.height), (2, 1));
    assert_eq!(img.pixels.data, vec![0, 255, 255, 255, 100, 7, 1, 255]);
    assert_eq!(img.format_name, "JPEG 2000");
    let grey = vec![Jp2Component { prec: 8, data: vec![42] }];
    assert_eq!(jp2_to_image(0, 1, 0, 1, &grey).unwrap().pixels.data, vec![42, 42, 42, 255]);
    assert_eq!(jp2_to_image(5, 5, 0, 1, &grey).unwrap_err(), "JP2: invalid dimensions");
    assert_eq!(jp2_to_image(0, 1, 0, 1, &Vec::new()).unwrap_err(), "JP2: invalid dimensions");
}

#[test]
fn pcx_rows_become_rgba() {
    let mut palette = vec![0u8; 768];
    palette[3..6].copy_from_slice(&[10, 20, 30]);
    let rows = vec![vec![1u8, 0u8]];
    let img = pcx_to_image(2, 1, true, &rows, &palette);
    assert_eq!(img.pixels.data, vec![10, 20, 30, 255, 0, 0, 0, 255]);
    let rgb = vec![vec![1u8, 2, 3]];
    let img = pcx_to_image(1, 1, false, &rgb, &Vec::new());
    assert_eq!(img.pixels.data, vec![1, 2, 3, 255]);
    assert_eq!(img.format_name, "PCX");
}

#[test]
fn frame_delays() {
    assert_eq!(frame_delay_ms(100, 1), 100);
    assert_eq!(frame_delay_ms(70, 2), 35);
    assert_eq!(frame_delay_ms(5, 0), 100);
    assert_eq!(frame_delay_ms(1, 3), 100);
}

fn float_size(bytes: u64) -> String {
    if bytes < 1024 {
        format!("{bytes} B")
    } else if bytes < 1024 * 1024 {
        format!("{:.1} KB", bytes as f64 / 1024.0)
    } else if bytes < 1024 * 1024 * 1024 {
        format!("{:.1} MB", bytes as f64 / (1024.0 * 1024.0))
    } else {
        format!("{:.2} GB", bytes as f64 / (1024.0 * 1024.0 * 1024.0))
    }
}

#[test]
fn file_sizes() {
    assert_eq!(format_file_size(0), "0 B");
    assert_eq!(format_file_size(1023), "1023 B");
    assert_eq!(format_file_size(1024), "1.0 KB");
    assert_eq!(format_file_size(1536), "1.5 KB");
    assert_eq!(format_file_size(1048575), "1024.0 KB");
    assert_eq!(format_file_size(1048576), "1.0 MB");
    assert_eq!(format_file_size(5 * 1024 * 1024 * 1024), "5.00 GB");
}

#[test]
fn file_sizes_match_float_formatting() {
    let mut samples: Vec<u64> = vec![1280, 1331, 3328, 1024 + 51, 1024 + 52, u64::MAX, u64::MAX - 1];
    for k in 0..64u32 {
        let p = 1u64 << k;
        samples.extend_from_slice(&[p, p.wrapping_sub(1), p + 1, p / 3 * 2 + 5, p / 10 * 9]);
    }
    let mut x: u64 = 0x9E37_79B9_7F4A_7C15;
    for _ in 0..20000 {
        x ^= x << 13;
        x ^= x >> 7;
        x ^= x << 17;
        samples.push(x >> (x % 64));
        samples.push((x % 5_000_000) * 205);
    }
    for b in samples {
        assert_eq!(format_file_size(b), float_size(b), "bytes = {b}");
    }
}
