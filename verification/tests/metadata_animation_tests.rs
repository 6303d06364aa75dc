use cove_image_viewer::animation::{frames_to_animation, load_animated};
use cove_image_viewer::metadata::{camera_name, exif_from_texts, gps_text, read_exif, strip_quotes, ExifTexts};
use cove_image_viewer::pcx_image::load_pcx;
use std::io::Cursor;

fn s(t: &str) -> Option<String> {
    Some(t.to_string())
}

#[test]
fn quotes_are_stripped() {
    assert_eq!(strip_quotes("\"Canon\""), "Canon");
    assert_eq!(strip_quotes("\"\"x\"\""), "x");
    assert_eq!(strip_quotes("\"\"\""), "");
    assert_eq!(strip_quotes("plain"), "plain");
}

#[test]
fn camera_line() {
    assert_eq!(camera_name(&s("Canon"), &s("Canon EOS 5D")), s("Canon EOS 5D"));
    assert_eq!(camera_name(&s("  NIKON CORPORATION "), &s(" D850 ")), s("NIKON CORPORATION D850"));
    assert_eq!(camera_name(&None, &s("X100")), s("X100"));
    assert_eq!(camera_name(&s("Fuji"), &None), s("Fuji"));
    assert_eq!(camera_name(&None, &None), None);
}

#[test]
fn gps_line() {
    assert_eq!(gps_text(&s("1 deg"), &s("N"), &s("2 deg"), &s("E")), s("1 deg N 2 deg E"));
    assert_eq!(gps_text(&s("1 deg"), &None, &s("2 deg"), &s("E")), None);
}

#[test]
fn panel_lines_from_texts() {
    let t = ExifTexts {
        make: s("\"Canon\""),
        model: s("\"Canon EOS R5\""),
        lens_model: s("\"RF 24-70mm\""),
        focal_length: s("50 mm"),
        f_number: s("f/2.8"),
        exposure_time: s("1/200 s"),
        iso: s("400"),
        date_time_original: s("2024-01-02 03:04:05"),
        software: s("\"fw 1.0\""),
        gps_latitude: s("10 deg"),
        gps_latitude_ref: s("S"),
        gps_longitude: s("20 deg"),
        gps_longitude_ref: s("W"),
    };
    let d = exif_from_texts(&t);
    assert_eq!(d.camera, s("Canon EOS R5"));
    assert_eq!(d.lens, s("RF 24-70mm"));
    assert_eq!(d.focal_length, s("50 mm"));
    assert_eq!(d.aperture, s("f/2.8"));
    assert_eq!(d.shutter_speed, s("1/200 s"));
    assert_eq!(d.iso, s("400"));
    assert_eq!(d.date_taken, s("2024-01-02 03:04:05"));
    assert_eq!(d.gps, s("10 deg S 20 deg W"));
    assert_eq!(d.software, s("fw 1.0"));
}

#[test]
fn no_exif_in_junk() {
    assert!(read_exif(b"definitely not an image").is_none());
}

fn gif_bytes(frames: &[(u8, u32)]) -> Vec<u8> {
    let mut out = Vec::new();
    {
        let mut enc = image::codecs::gif::GifEncoder::new(&mut out);
        for &(fill, delay) in frames {
            let buf = image::RgbaImage::from_pixel(2, 2, image::Rgba([fill, fill, fill, 255]));
            let frame = image::Frame::from_parts(buf, 0, 0, image::Delay::from_numer_denom_ms(delay, 1));
            enc.encode_frame(frame).unwrap();
        }
    }
    out
}

#[test]
fn animated_gif_frames() {
    let data = gif_bytes(&[(0, 50), (255, 0)]);
    let frames = load_animated(&data, Some("GIF")).expect("two frames");
    assert_eq!(frames.len(), 2);
    assert_eq!((frames[0].pixels.width, frames[0].pixels.height), (2, 2));
    assert_eq!(frames[0].delay_ms, 50);
    assert_eq!(frames[1].delay_ms, 100);
    assert_eq!(frames[1].pixels.data[0], 255);
    assert!(load_animated(&gif_bytes(&[(0, 50)]), Some("gif")).is_none());
    assert!(load_animated(&data, Some("bmp")).is_none());
    assert!(load_animated(&data, None).is_none());
    assert!(load_animated(b"junk", Some("webp")).is_none());
}

#[test]
fn still_png_is_not_animated() {
    let img = image::RgbaImage::from_pixel(1, 1, image::Rgba([1, 2, 3, 4]));
    let mut out = Cursor::new(Vec::new());
    image::DynamicImage::ImageRgba8(img).write_to(&mut out, image::ImageFormat::Png).unwrap();
    assert!(load_animated(&out.into_inner(), Some("png")).is_none());
}

#[test]
fn animation_needs_two_fitting_frames() {
    assert!(frames_to_animation(None).is_none());
    assert!(frames_to_animation(Some(vec![(1, 1, vec![0; 4], 10, 1)])).is_none());
    assert!(frames_to_animation(Some(vec![(1, 1, vec![0; 4], 10, 1), (1, 1, vec![0; 3], 10, 1)])).is_none());
    let a = frames_to_animation(Some(vec![(1, 1, vec![5; 4], 10, 1), (1, 1, vec![6; 4], 0, 0)])).unwrap();
    assert_eq!(a.len(), 2);
    assert_eq!(a[0].delay_ms, 10);
    assert_eq!(a[1].delay_ms, 100);
    assert_eq!(a[1].pixels.data, vec![6; 4]);
}

#[test]
fn pcx_errors_are_prefixed() {
    let e = load_pcx(b"junk").unwrap_err();
    assert!(e.starts_with("pcx: "), "{e}");
}

#[test]
fn pcx_paletted_file() {
    let mut bytes = Vec::new();
    {
        let mut w = pcx::WriterPaletted::new(&mut bytes, (2, 2), (300, 300)).unwrap();
        w.write_row(&[0, 1]).unwrap();
        w.write_row(&[1, 0]).unwrap();
        let mut palette = vec![0u8; 768];
        palette[0..3].copy_from_slice(&[10, 20, 30]);
        palette[3..6].copy_from_slice(&[40, 50, 60]);
        w.write_palette(&palette).unwrap();
    }
    let img = load_pcx(&bytes).unwrap();
    assert_eq!((img.pixels.width, img.pixels.height), (2, 2));
    assert_eq!(
        img.pixels.data,
        vec![10, 20, 30, 255, 40, 50, 60, 255, 40, 50, 60, 255, 10, 20, 30, 255]
    );
    assert_eq!(img.format_name, "PCX");
}

#[test]
fn pcx_rgb_file() {
    let mut bytes = Vec::new();
    {
        let mut w = pcx::WriterRgb::new(&mut bytes, (2, 1), (300, 300)).unwrap();
        w.write_row(&[1, 2, 3, 4, 5, 6]).unwrap();
        w.finish().unwrap();
    }
    let img = load_pcx(&bytes).unwrap();
    assert_eq!(img.pixels.data, vec![1, 2, 3, 255, 4, 5, 6, 255]);
}

#[test]
fn exif_fields_from_a_tiff_block() {
    let make = exif::Field {
        tag: exif::Tag::Make,
        ifd_num: exif::In::PRIMARY,
        value: exif::Value::Ascii(vec![b"Canon".to_vec()]),
    };
    let model = exif::Field {
        tag: exif::Tag::Model,
        ifd_num: exif::In::PRIMARY,
        value: exif::Value::Ascii(vec![b"Canon EOS R5".to_vec()]),
    };
    let software = exif::Field {
        tag: exif::Tag::Software,
        ifd_num: exif::In::PRIMARY,
        value: exif::Value::Ascii(vec![b"fw 1.0".to_vec()]),
    };
    let mut writer = exif::experimental::Writer::new();
    writer.push_field(&make);
    writer.push_field(&model);
    writer.push_field(&software);
    let mut out = Cursor::new(Vec::new());
    writer.write(&mut out, true).unwrap();
    let d = read_exif(&out.into_inner()).expect("an EXIF block");
    assert_eq!(d.camera, s("Canon EOS R5"));
    assert_eq!(d.software, s("fw 1.0"));
    assert_eq!(d.lens, None);
    assert_eq!(d.gps, None);
}
