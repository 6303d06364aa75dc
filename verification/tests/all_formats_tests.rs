use cove_image_viewer::decoder::{
    decoder_for, image_from_outcome, load_encoded, load_heif, raw_preview, with_fallback, DecoderKind,
};
use cove_image_viewer::paths::extension_of;
use cove_image_viewer::pcx_image::load_pcx;
use cove_image_viewer::pixels::DecodedImage;
use cove_image_viewer::sgi::parse_sgi;
use cove_image_viewer::xbm::{load_xbm, xbm_within_limits};
use cove_image_viewer::xpm::{load_xpm, xpm_within_limits};
use std::io::Read;

/// Decodes a file as the viewer does, with the decoders of the library (and
/// the PSD crate, whose outcome the library turns into an image);
/// `None` for the formats the application decodes itself (SVG, JPEG XL,
/// JPEG 2000).
fn load_with_library(path: &std::path::Path) -> Option<Result<DecodedImage, String>> {
    let mut data = Vec::new();
    let read = image::ImageReader::open(path).and_then(|r| r.into_inner().read_to_end(&mut data));
    if let Err(e) = read {
        return Some(Err(format!("read: {e}")));
    }
    let name = path.file_name().and_then(|n| n.to_str()).unwrap_or("");
    let ext = extension_of(name);
    let ext = ext.as_deref();
    let first = match decoder_for(ext) {
        DecoderKind::Heif => load_heif(&data, ext),
        DecoderKind::Psd => {
            let outcome = match psd::Psd::from_bytes(&data) {
                Ok(p) => Ok((p.width(), p.height(), p.rgba())),
                Err(e) => Err(e.to_string()),
            };
            image_from_outcome(outcome, "psd: ", "PSD")
        }
        DecoderKind::Raw => raw_preview(&data),
        DecoderKind::Pcx => load_pcx(&data),
        DecoderKind::Xbm => match std::str::from_utf8(&data) {
            Ok(t) if xbm_within_limits(t) => load_xbm(t),
            Ok(_) => Err("XBM: too large".to_string()),
            Err(e) => Err(format!("read: {e}")),
        },
        DecoderKind::Xpm => match std::str::from_utf8(&data) {
            Ok(_) if xpm_within_limits(&data) => load_xpm(&data),
            Ok(_) => Err("XPM: too large".to_string()),
            Err(e) => Err(format!("read: {e}")),
        },
        DecoderKind::Sgi => parse_sgi(&data),
        DecoderKind::ImageCrate => load_encoded(&data, ext),
        DecoderKind::Svg | DecoderKind::Jxl | DecoderKind::Jp2 => return None,
    };
    Some(with_fallback(first, &data, ext))
}

#[test]
fn test_all_formats() {
    let test_dir = std::path::Path::new("/tmp/cove-format-test");
    let files = [
        ("test.jpg", "JPEG"),
        ("test.png", "PNG"),
        ("test.gif", "GIF"),
        ("test.bmp", "BMP"),
        ("test.tiff", "TIFF"),
        ("test.webp", "WebP"),
        ("test.ico", "ICO"),
        ("test.tga", "TGA"),
        ("test.ppm", "PPM"),
        ("test.pgm", "PGM"),
        ("test.pbm", "PBM"),
        ("test.dds", "DDS"),
        ("test.exr", "EXR"),
        ("test.hdr", "HDR"),
        ("test.qoi", "QOI"),
        ("test.ff", "farbfeld"),
        ("test.svg", "SVG"),
        ("test.pcx", "PCX"),
        ("test.jxl", "JXL"),
        ("test.jp2", "JP2"),
        ("test.avif", "AVIF"),
        ("test.heic", "HEIC"),
        ("test.xbm", "XBM"),
        ("test.xpm", "XPM"),
        ("test.sgi", "SGI"),
    ];

    let mut pass = 0;
    let mut fail = 0;
    for (file, label) in &files {
        let path = test_dir.join(file);
        if !path.exists() {
            println!("  SKIP {label:>8} — file missing");
            continue;
        }
        match load_with_library(&path) {
            None => println!("  SKIP {label:>8} — decoded by the application"),
            Some(Ok(img)) => {
                assert!(
                    img.original_width > 0 && img.original_height > 0,
                    "{label} decoded but has zero dimensions"
                );
                println!(
                    "  PASS {label:>8} — {}x{} ({})",
                    img.original_width, img.original_height, img.format_name
                );
                pass += 1;
            }
            Some(Err(e)) => {
                println!("  FAIL {label:>8} — {e}");
                fail += 1;
            }
        }
    }
    println!("\n  Results: {pass} passed, {fail} failed out of {} total", pass + fail);
    assert_eq!(fail, 0, "{fail} format(s) failed to decode");
}
