use cove_image_viewer::sgi::parse_sgi;
use cove_image_viewer::xbm::{load_xbm, parse_xbm_define, xbm_within_limits};
use cove_image_viewer::xpm::{load_xpm, parse_hex_color, xpm_within_limits};

fn sgi_header(compression: u8, bpc: u8, w: u16, h: u16, channels: u16) -> Vec<u8> {
    let mut d = vec![0u8; 512];
    d[0..2].copy_from_slice(&474u16.to_be_bytes());
    d[2] = compression;
    d[3] = bpc;
    d[4..6].copy_from_slice(&3u16.to_be_bytes());
    d[6..8].copy_from_slice(&w.to_be_bytes());
    d[8..10].copy_from_slice(&h.to_be_bytes());
    d[10..12].copy_from_slice(&channels.to_be_bytes());
    d
}

#[test]
fn sgi_uncompressed_is_flipped_to_top_down() {
    let mut d = sgi_header(0, 1, 2, 2, 3);
    d.extend_from_slice(&[1, 2, 3, 4]);
    d.extend_from_slice(&[10, 20, 30, 40]);
    d.extend_from_slice(&[100, 110, 120, 130]);
    let img = parse_sgi(&d).unwrap();
    assert_eq!((img.pixels.width, img.pixels.height), (2, 2));
    assert_eq!(
        img.pixels.data,
        vec![3, 30, 120, 255, 4, 40, 130, 255, 1, 10, 100, 255, 2, 20, 110, 255]
    );
    assert_eq!(img.format_name, "SGI");
}

#[test]
fn sgi_rle_rows() {
    let mut d = sgi_header(1, 1, 3, 1, 1);
    d.extend_from_slice(&520u32.to_be_bytes());
    d.extend_from_slice(&4u32.to_be_bytes());
    d.extend_from_slice(&[0x01, 9, 0x82, 5, 6, 0]);
    let img = parse_sgi(&d).unwrap();
    assert_eq!(img.pixels.data, vec![9, 9, 9, 255, 5, 5, 5, 255, 6, 6, 6, 255]);
}

#[test]
fn sgi_errors() {
    assert_eq!(parse_sgi(&[0u8; 100]).unwrap_err(), "SGI: file too small");
    let mut bad = sgi_header(0, 1, 1, 1, 1);
    bad[1] = 0;
    assert_eq!(parse_sgi(&bad).unwrap_err(), "SGI: bad magic 256, expected 474");
    assert_eq!(parse_sgi(&sgi_header(0, 1, 0, 1, 1)).unwrap_err(), "SGI: invalid dimensions");
    assert_eq!(parse_sgi(&sgi_header(0, 1, 1, 1, 5)).unwrap_err(), "SGI: invalid dimensions");
    assert_eq!(parse_sgi(&sgi_header(0, 2, 1, 1, 1)).unwrap_err(), "SGI: only 8-bit per channel supported");
    assert_eq!(parse_sgi(&sgi_header(0, 1, 2, 2, 1)).unwrap_err(), "SGI: unexpected EOF");
    assert_eq!(parse_sgi(&sgi_header(1, 1, 1, 100, 1)).unwrap_err(), "SGI: offset table too large");
}

const XBM: &str = "#define test_width 3\n#define test_height 2\nstatic char test_bits[] = {\n  0x05, 0x02 };\n";

#[test]
fn xbm_bits_are_black_on_white() {
    assert_eq!(parse_xbm_define(XBM, "width"), Some(3));
    assert_eq!(parse_xbm_define(XBM, "height"), Some(2));
    assert_eq!(parse_xbm_define(XBM, "depth"), None);
    assert!(xbm_within_limits(XBM));
    let img = load_xbm(XBM).unwrap();
    assert_eq!((img.pixels.width, img.pixels.height), (3, 2));
    let b = [0u8, 0, 0, 255];
    let w = [255u8, 255, 255, 255];
    let expected: Vec<u8> = [b, w, b, w, b, w].concat();
    assert_eq!(img.pixels.data, expected);
    assert_eq!(img.format_name, "XBM");
}

#[test]
fn xbm_errors() {
    assert_eq!(load_xbm("#define a_height 1\n{0x00}").unwrap_err(), "XBM: missing width");
    assert_eq!(load_xbm("#define a_width 1\n{0x00}").unwrap_err(), "XBM: missing height");
    assert_eq!(
        load_xbm("#define a_width 1\n#define a_height 1\n0x00").unwrap_err(),
        "XBM: no data block"
    );
    assert_eq!(
        load_xbm("#define a_width 1\n#define a_height 1\n{0x00").unwrap_err(),
        "XBM: no closing brace"
    );
}

const XPM: &str = "/* XPM */\nstatic char *x[] = {\n\"2 2 3 1\",\n\". c #FF0000\",\n\"# c None\",\n\"o c blue\",\n\".#\",\n\"o\"\n};\n";

#[test]
fn xpm_colors_by_key() {
    assert!(xpm_within_limits(XPM.as_bytes()));
    let img = load_xpm(XPM.as_bytes()).unwrap();
    assert_eq!((img.pixels.width, img.pixels.height), (2, 2));
    assert_eq!(
        img.pixels.data,
        vec![255, 0, 0, 255, 0, 0, 0, 0, 128, 128, 128, 255, 0, 0, 0, 255]
    );
    assert_eq!(img.format_name, "XPM");
}

#[test]
fn xpm_errors() {
    assert_eq!(load_xpm(b"no strings").unwrap_err(), "XPM: no data strings");
    assert_eq!(load_xpm(b"\"1 1 1\"").unwrap_err(), "XPM: invalid header");
    assert_eq!(load_xpm(b"\"x 1 1 1\"").unwrap_err(), "XPM: bad width");
    assert_eq!(load_xpm(b"\"1 1 2 1\" \". c #000\"").unwrap_err(), "XPM: missing color line 1");
    assert_eq!(load_xpm(b"\"1 2 1 1\" \". c #000\" \".\"").unwrap_err(), "XPM: missing row 1");
}

#[test]
fn hex_colors() {
    assert_eq!(parse_hex_color("#FF8000"), [255, 128, 0, 255]);
    assert_eq!(parse_hex_color("#f80"), [255, 136, 0, 255]);
    assert_eq!(parse_hex_color("#12345"), [128, 128, 128, 255]);
    assert_eq!(parse_hex_color("#12 34 56 xyz"), [18, 52, 86, 255]);
}

#[test]
fn xpm_header_is_read_as_utf8_text() {
    let text = "\"2\u{a0}1\u{3000}1\u{2003}1\" \". c #FF0000\" \"..\"";
    assert!(xpm_within_limits(text.as_bytes()));
    let img = load_xpm(text.as_bytes()).unwrap();
    assert_eq!((img.pixels.width, img.pixels.height), (2, 1));
    assert_eq!(img.pixels.data, vec![255, 0, 0, 255, 255, 0, 0, 255]);
    let nel = "\"1\u{85}1 1 1\" \". c #000\" \".\"";
    assert!(load_xpm(nel.as_bytes()).is_ok());
    assert_eq!(load_xpm("\"1é 1 1 1\"".as_bytes()).unwrap_err(), "XPM: bad width");
}
