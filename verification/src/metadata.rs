//! EXIF metadata for the info panel: the fields read from a file's EXIF
//! block and how they are combined into the lines the panel shows.

use vstd::prelude::*;
use crate::text::{chars_of, string_from, trim, trim_span, starts_with, push_char};
use exif::{In, Reader, Tag};
use std::io::Cursor;

verus! {

/// The metadata the info panel shows, each line where the file has it.
#[derive(Debug)]
pub struct ExifData {
    pub camera: Option<String>,
    pub lens: Option<String>,
    pub focal_length: Option<String>,
    pub aperture: Option<String>,
    pub shutter_speed: Option<String>,
    pub iso: Option<String>,
    pub date_taken: Option<String>,
    pub gps: Option<String>,
    pub software: Option<String>,
}

/// The displayed values of the EXIF fields read from a file, as the EXIF
/// reader writes them; the focal length, aperture and exposure time carry
/// their units.
pub struct ExifTexts {
    pub make: Option<String>,
    pub model: Option<String>,
    pub lens_model: Option<String>,
    pub focal_length: Option<String>,
    pub f_number: Option<String>,
    pub exposure_time: Option<String>,
    pub iso: Option<String>,
    pub date_time_original: Option<String>,
    pub software: Option<String>,
    pub gps_latitude: Option<String>,
    pub gps_latitude_ref: Option<String>,
    pub gps_longitude: Option<String>,
    pub gps_longitude_ref: Option<String>,
}

/// `s` without its leading double quotes.
pub open spec fn drop_leading_quotes(s: Seq<char>) -> Seq<char>
    decreases s.len(),
{
    if s.len() > 0 && s[0] == '"' {
        drop_leading_quotes(s.skip(1))
    } else {
        s
    }
}

/// `s` without its trailing double quotes.
pub open spec fn drop_trailing_quotes(s: Seq<char>) -> Seq<char>
    decreases s.len(),
{
    if s.len() > 0 && s.last() == '"' {
        drop_trailing_quotes(s.drop_last())
    } else {
        s
    }
}

/// `s` without the double quotes around it (that of `trim_matches('"')`).
pub open spec fn unquoted(s: Seq<char>) -> Seq<char> {
    drop_trailing_quotes(drop_leading_quotes(s))
}

/// `s` without the double quotes around it.
pub fn strip_quotes(s: &str) -> (r: String)
    ensures
        r@ == unquoted(s@),
{
    let v = chars_of(s);
    let n = v.len();
    let mut a: usize = 0;
    assert(v@.subrange(0, n as int) =~= v@);
    while a < n && v[a] == '"'
        invariant
            a <= n,
            n == v@.len(),
            drop_leading_quotes(v@) == drop_leading_quotes(v@.subrange(a as int, n as int)),
        decreases n - a,
    {
        assert(v@.subrange(a + 1, n as int) =~= v@.subrange(a as int, n as int).skip(1));
        a = a + 1;
    }
    let mut b = n;
    while b > a && v[b - 1] == '"'
        invariant
            a <= b <= n,
            n == v@.len(),
            drop_trailing_quotes(v@.subrange(a as int, n as int)) == drop_trailing_quotes(
                v@.subrange(a as int, b as int),
            ),
        decreases b,
    {
        assert(v@.subrange(a as int, b - 1) =~= v@.subrange(a as int, b as int).drop_last());
        b = b - 1;
    }
    string_from(&v.as_slice()[a..b])
}

/// The camera line from the make and the model: the model alone where it
/// starts with the (trimmed) make, else `"{make} {model}"`, both trimmed;
/// whichever of them is known where one is missing.
pub open spec fn camera_line(make: Option<Seq<char>>, model: Option<Seq<char>>) -> Option<Seq<char>> {
    match (make, model) {
        (Some(m), Some(md)) => if starts_with(md, trim(m)) {
            Some(md)
        } else {
            Some(trim(m) + seq![' '] + trim(md))
        },
        (None, Some(md)) => Some(md),
        (Some(m), None) => Some(m),
        (None, None) => None,
    }
}

/// The GPS line: latitude, its reference, longitude and its reference,
/// separated by spaces; only where all four are known.
pub open spec fn gps_line(
    lat: Option<Seq<char>>,
    lat_ref: Option<Seq<char>>,
    lon: Option<Seq<char>>,
    lon_ref: Option<Seq<char>>,
) -> Option<Seq<char>> {
    match (lat, lat_ref, lon, lon_ref) {
        (Some(a), Some(b), Some(c), Some(d)) => Some(
            a + seq![' '] + b + seq![' '] + c + seq![' '] + d,
        ),
        _ => None,
    }
}

/// The view of an optional text.
pub open spec fn opt_view(o: Option<String>) -> Option<Seq<char>> {
    match o {
        Some(s) => Some(s@),
        None => None,
    }
}

/// The view of an optional text with its surrounding quotes removed.
pub open spec fn opt_unquoted(o: Option<String>) -> Option<Seq<char>> {
    match o {
        Some(s) => Some(unquoted(s@)),
        None => None,
    }
}

fn unquote_opt(o: &Option<String>) -> (r: Option<String>)
    ensures
        opt_view(r) == opt_unquoted(*o),
{
    match o {
        Some(s) => Some(strip_quotes(s.as_str())),
        None => None,
    }
}

fn clone_opt(o: &Option<String>) -> (r: Option<String>)
    ensures
        opt_view(r) == opt_view(*o),
{
    match o {
        Some(s) => Some(s.clone()),
        None => None,
    }
}

fn trimmed(s: &str) -> (r: String)
    ensures
        r@ == trim(s@),
{
    let v = chars_of(s);
    let (a, b) = trim_span(&v, 0, v.len());
    assert(v@.subrange(0, v@.len() as int) =~= v@);
    string_from(&v.as_slice()[a..b])
}

fn text_starts_with(s: &str, t: &str) -> (r: bool)
    ensures
        r == starts_with(s@, t@),
{
    let a = chars_of(s);
    let b = chars_of(t);
    if b.len() > a.len() {
        return false;
    }
    let mut k: usize = 0;
    while k < b.len()
        invariant
            a@ == s@,
            b@ == t@,
            b.len() <= a.len(),
            k <= b.len(),
            forall|u: int| 0 <= u < k ==> a@[u] == b@[u],
        decreases b.len() - k,
    {
        if a[k] != b[k] {
            assert(a@.take(b@.len() as int)[k as int] == a@[k as int]);
            return false;
        }
        k = k + 1;
    }
    assert(a@.take(b@.len() as int) =~= b@);
    true
}

fn join_words(words: &[&String]) -> (r: String)
    requires
        words@.len() >= 1,
    ensures
        words@.len() == 2 ==> r@ == words@[0]@ + seq![' '] + words@[1]@,
        words@.len() == 4 ==> r@ == words@[0]@ + seq![' '] + words@[1]@ + seq![' '] + words@[2]@
            + seq![' '] + words@[3]@,
{
    let mut r = String::new();
    crate::text::push_str(&mut r, words[0].as_str());
    let mut k: usize = 1;
    while k < words.len()
        invariant
            1 <= k <= words@.len(),
            words@.len() == 2 ==> (k == 1 ==> r@ == words@[0]@) && (k == 2 ==> r@ == words@[0]@
                + seq![' '] + words@[1]@),
            words@.len() == 4 ==> (k == 1 ==> r@ == words@[0]@) && (k == 2 ==> r@ == words@[0]@
                + seq![' '] + words@[1]@) && (k == 3 ==> r@ == words@[0]@ + seq![' '] + words@[1]@
                + seq![' '] + words@[2]@) && (k == 4 ==> r@ == words@[0]@ + seq![' '] + words@[1]@
                + seq![' '] + words@[2]@ + seq![' '] + words@[3]@),
        decreases words@.len() - k,
    {
        push_char(&mut r, ' ');
        crate::text::push_str(&mut r, words[k].as_str());
        k = k + 1;
    }
    r
}

/// The camera line from the make and the model (see `camera_line`).
pub fn camera_name(make: &Option<String>, model: &Option<String>) -> (r: Option<String>)
    ensures
        opt_view(r) == camera_line(opt_view(*make), opt_view(*model)),
{
    match (make, model) {
        (Some(m), Some(md)) => {
            let tm = trimmed(m.as_str());
            if text_starts_with(md.as_str(), tm.as_str()) {
                Some(md.clone())
            } else {
                let tmd = trimmed(md.as_str());
                Some(join_words(&[&tm, &tmd]))
            }
        },
        (None, Some(md)) => Some(md.clone()),
        (Some(m), None) => Some(m.clone()),
        (None, None) => None,
    }
}

/// The GPS line from the four GPS fields (see `gps_line`).
pub fn gps_text(
    lat: &Option<String>,
    lat_ref: &Option<String>,
    lon: &Option<String>,
    lon_ref: &Option<String>,
) -> (r: Option<String>)
    ensures
        opt_view(r) == gps_line(opt_view(*lat), opt_view(*lat_ref), opt_view(*lon), opt_view(*lon_ref)),
{
    match (lat, lat_ref, lon, lon_ref) {
        (Some(a), Some(b), Some(c), Some(d)) => Some(join_words(&[a, b, c, d])),
        _ => None,
    }
}

/// An optional text without the double quotes around it.
pub open spec fn unquoted_opt(o: Option<Seq<char>>) -> Option<Seq<char>> {
    match o {
        Some(x) => Some(unquoted(x)),
        None => None,
    }
}

/// The fields read, in order: make, model, lens model, focal length,
/// f-number, exposure time, ISO, date taken, software, GPS latitude and
/// its reference, GPS longitude and its reference.
pub open spec fn texts_view(t: ExifTexts) -> Seq<Option<Seq<char>>> {
    seq![
        opt_view(t.make),
        opt_view(t.model),
        opt_view(t.lens_model),
        opt_view(t.focal_length),
        opt_view(t.f_number),
        opt_view(t.exposure_time),
        opt_view(t.iso),
        opt_view(t.date_time_original),
        opt_view(t.software),
        opt_view(t.gps_latitude),
        opt_view(t.gps_latitude_ref),
        opt_view(t.gps_longitude),
        opt_view(t.gps_longitude_ref),
    ]
}

/// `d` holds the panel's lines made from the fields read `v` (in the order
/// of `texts_view`): texts lose their surrounding quotes (not the GPS
/// fields, nor the ones with units), the make and model become the camera
/// line and the GPS fields one line.
pub open spec fn panel_lines(d: ExifData, v: Seq<Option<Seq<char>>>) -> bool {
    &&& opt_view(d.camera) == camera_line(unquoted_opt(v[0]), unquoted_opt(v[1]))
    &&& opt_view(d.lens) == unquoted_opt(v[2])
    &&& opt_view(d.focal_length) == v[3]
    &&& opt_view(d.aperture) == v[4]
    &&& opt_view(d.shutter_speed) == v[5]
    &&& opt_view(d.iso) == unquoted_opt(v[6])
    &&& opt_view(d.date_taken) == unquoted_opt(v[7])
    &&& opt_view(d.software) == unquoted_opt(v[8])
    &&& opt_view(d.gps) == gps_line(v[9], v[10], v[11], v[12])
}

/// `d` holds the panel's lines made from the fields read `t`.
pub open spec fn lines_from(d: ExifData, t: ExifTexts) -> bool {
    panel_lines(d, texts_view(t))
}

/// The panel's lines from the fields read (see `lines_from`).
pub fn exif_from_texts(t: &ExifTexts) -> (d: ExifData)
    ensures
        lines_from(d, *t),
{
    let make = unquote_opt(&t.make);
    let model = unquote_opt(&t.model);
    ExifData {
        camera: camera_name(&make, &model),
        lens: unquote_opt(&t.lens_model),
        focal_length: clone_opt(&t.focal_length),
        aperture: clone_opt(&t.f_number),
        shutter_speed: clone_opt(&t.exposure_time),
        iso: unquote_opt(&t.iso),
        date_taken: unquote_opt(&t.date_time_original),
        gps: gps_text(&t.gps_latitude, &t.gps_latitude_ref, &t.gps_longitude, &t.gps_longitude_ref),
        software: unquote_opt(&t.software),
    }
}

/// The views of optional texts.
pub open spec fn opt_views(v: Seq<Option<String>>) -> Seq<Option<Seq<char>>> {
    Seq::new(v.len(), |i: int| opt_view(v[i]))
}

/// What the EXIF reader gives for a file's bytes: the displayed values of
/// the fields (in the order of `texts_view`, with units where that lists
/// them), or `None` where it finds no EXIF block.
pub uninterp spec fn exif_texts_of(data: Seq<u8>) -> Option<Seq<Option<Seq<char>>>>;

/// Calls `exif::Reader::read_from_container` over the bytes, then for each
/// field `Exif::get_field` on the primary image and `Field::display_value`
/// (with `DisplayValue::with_unit` for the focal length, f-number and
/// exposure time). Stated: the outcome is `exif_texts_of(data)`, thirteen
/// fields where there is one.
#[verifier::external_body]
fn exif_texts(data: &[u8]) -> (r: Option<Vec<Option<String>>>)
    ensures
        match r {
            Some(v) => v@.len() == 13 && exif_texts_of(data@) == Some(opt_views(v@)),
            None => exif_texts_of(data@).is_none(),
        },
{
    let exif = Reader::new().read_from_container(&mut Cursor::new(data)).ok()?;
    let text = |t| exif.get_field(t, In::PRIMARY).map(|f| f.display_value().to_string());
    let unit = |t| exif.get_field(t, In::PRIMARY).map(|f| f.display_value().with_unit(&exif).to_string());
    Some(vec![
        text(Tag::Make), text(Tag::Model), text(Tag::LensModel),
        unit(Tag::FocalLength), unit(Tag::FNumber), unit(Tag::ExposureTime),
        text(Tag::PhotographicSensitivity), text(Tag::DateTimeOriginal), text(Tag::Software),
        text(Tag::GPSLatitude), text(Tag::GPSLatitudeRef), text(Tag::GPSLongitude), text(Tag::GPSLongitudeRef),
    ])
}

/// Reads the EXIF block of a file's bytes: `None` where there is none the
/// reader accepts, else the panel's lines made from its fields (see
/// `panel_lines`).
pub fn read_exif(data: &[u8]) -> (r: Option<ExifData>)
    ensures
        match exif_texts_of(data@) {
            Some(v) => r matches Some(d) && panel_lines(d, v),
            None => r is None,
        },
{
    let v = match exif_texts(data) {
        Some(v) => v,
        None => return None,
    };
    let t = ExifTexts {
        make: clone_opt(&v[0]),
        model: clone_opt(&v[1]),
        lens_model: clone_opt(&v[2]),
        focal_length: clone_opt(&v[3]),
        f_number: clone_opt(&v[4]),
        exposure_time: clone_opt(&v[5]),
        iso: clone_opt(&v[6]),
        date_time_original: clone_opt(&v[7]),
        software: clone_opt(&v[8]),
        gps_latitude: clone_opt(&v[9]),
        gps_latitude_ref: clone_opt(&v[10]),
        gps_longitude: clone_opt(&v[11]),
        gps_longitude_ref: clone_opt(&v[12]),
    };
    assert(texts_view(t) =~= opt_views(v@));
    Some(exif_from_texts(&t))
}

} // verus!
