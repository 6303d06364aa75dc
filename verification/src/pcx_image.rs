//! PCX files: the rows the PCX reader gives, turned into an RGBA image.

use vstd::prelude::*;
use crate::pixels::DecodedImage;
use crate::decoder::pcx_to_image;
use crate::text::push_str;

verus! {

/// What the PCX reader says of a file's header: width, height and
/// whether the image is paletted, or the text of its error.
pub uninterp spec fn pcx_header_of(data: Seq<u8>) -> Result<(u16, u16, bool), Seq<char>>;

/// What the PCX reader gives for a paletted file read into rows of
/// `row_len` bytes and a palette buffer of `pal_len` bytes: the rows and
/// the palette; or the stage that failed (0 the header, 1 a row, 2 the
/// palette) and the text of its error.
pub uninterp spec fn pcx_paletted_rows_of(data: Seq<u8>, row_len: usize, pal_len: usize) -> Result<(Seq<Seq<u8>>, Seq<u8>), (u8, Seq<char>)>;

/// What the PCX reader gives for an RGB file read into rows of `row_len`
/// bytes: the rows, or the stage that failed and its error.
pub uninterp spec fn pcx_rgb_rows_of(data: Seq<u8>, row_len: usize) -> Result<Seq<Seq<u8>>, (u8, Seq<char>)>;

/// The views of rows.
pub open spec fn row_views(rows: Seq<Vec<u8>>) -> Seq<Seq<u8>> {
    Seq::new(rows.len(), |i: int| rows[i]@)
}

/// The rows have the header's height, each `row_len` long.
pub open spec fn rows_fit(data: Seq<u8>, rows: Seq<Vec<u8>>, row_len: usize) -> bool {
    &&& pcx_header_of(data) matches Ok((_, h, _)) && rows.len() == h
    &&& forall|y: int| 0 <= y < rows.len() ==> (#[trigger] rows[y])@.len() == row_len
}

/// Calls `pcx::Reader::from_mem`, then `width`, `height` and
/// `is_paletted`. Stated: the outcome is `pcx_header_of(data)`.
#[verifier::external_body]
fn pcx_header(data: &[u8]) -> (r: Result<(u16, u16, bool), String>)
    ensures
        match r {
            Ok(t) => pcx_header_of(data@) == Ok::<(u16, u16, bool), Seq<char>>(t),
            Err(e) => pcx_header_of(data@) == Err::<(u16, u16, bool), Seq<char>>(e@),
        },
{
    pcx::Reader::from_mem(data).map(|rd| (rd.width(), rd.height(), rd.is_paletted())).map_err(|e| e.to_string())
}

/// Calls `pcx::Reader::from_mem`, then `next_row_paletted` into a buffer
/// of `row_len` bytes once per row of the header's height, then
/// `get_palette` into a buffer of `pal_len` bytes. Stated: the outcome is
/// `pcx_paletted_rows_of(data, row_len, pal_len)`; the rows are as many as
/// the header's height and as long as the buffer, the palette as long as
/// its buffer. The reader's documentation asks for row buffers of the
/// image's width, and its source writes a 256-colour palette into the first
/// 768 bytes of the palette buffer; other lengths can make it panic, so the
/// caller gives exactly those.
#[verifier::external_body]
fn pcx_paletted_rows(data: &[u8], row_len: usize, pal_len: usize) -> (r: Result<(Vec<Vec<u8>>, Vec<u8>), (u8, String)>)
    requires
        pcx_header_of(data@) matches Ok((w, _, _)) && row_len == w as usize,
        pal_len == 768,
    ensures
        match r {
            Ok((rows, pal)) => {
                &&& pcx_paletted_rows_of(data@, row_len, pal_len) == Ok::<(Seq<Seq<u8>>, Seq<u8>), (u8, Seq<char>)>((row_views(rows@), pal@))
                &&& rows_fit(data@, rows@, row_len)
                &&& pal@.len() == pal_len
            },
            Err((s, e)) => pcx_paletted_rows_of(data@, row_len, pal_len) == Err::<(Seq<Seq<u8>>, Seq<u8>), (u8, Seq<char>)>((s, e@)),
        },
{
    let mut rd = pcx::Reader::from_mem(data).map_err(|e| (0u8, e.to_string()))?;
    let mut rows = Vec::new();
    for _ in 0..rd.height() {
        let mut row = vec![0u8; row_len];
        rd.next_row_paletted(&mut row).map_err(|e| (1u8, e.to_string()))?;
        rows.push(row);
    }
    let mut pal = vec![0u8; pal_len];
    rd.get_palette(&mut pal).map_err(|e| (2u8, e.to_string()))?;
    Ok((rows, pal))
}

/// Calls `pcx::Reader::from_mem`, then `next_row_rgb` into a buffer of
/// `row_len` bytes once per row of the header's height. Stated: the
/// outcome is `pcx_rgb_rows_of(data, row_len)`; the rows are as many as
/// the header's height and as long as the buffer.
#[verifier::external_body]
fn pcx_rgb_rows(data: &[u8], row_len: usize) -> (r: Result<Vec<Vec<u8>>, (u8, String)>)
    ensures
        match r {
            Ok(rows) => {
                &&& pcx_rgb_rows_of(data@, row_len) == Ok::<Seq<Seq<u8>>, (u8, Seq<char>)>(row_views(rows@))
                &&& rows_fit(data@, rows@, row_len)
            },
            Err((s, e)) => pcx_rgb_rows_of(data@, row_len) == Err::<Seq<Seq<u8>>, (u8, Seq<char>)>((s, e@)),
        },
{
    let mut rd = pcx::Reader::from_mem(data).map_err(|e| (0u8, e.to_string()))?;
    let mut rows = Vec::new();
    for _ in 0..rd.height() {
        let mut row = vec![0u8; row_len];
        rd.next_row_rgb(&mut row).map_err(|e| (1u8, e.to_string()))?;
        rows.push(row);
    }
    Ok(rows)
}

/// The prefix of a PCX error by the stage that failed.
pub open spec fn pcx_stage_prefix(stage: u8) -> Seq<char> {
    if stage == 0 {
        "pcx: "@
    } else if stage == 1 {
        "pcx row: "@
    } else {
        "pcx palette: "@
    }
}

fn stage_message(stage: u8, e: &str) -> (m: String)
    ensures
        m@ == pcx_stage_prefix(stage) + e@,
{
    let mut m = if stage == 0 {
        String::from_str("pcx: ")
    } else if stage == 1 {
        String::from_str("pcx row: ")
    } else {
        String::from_str("pcx palette: ")
    };
    push_str(&mut m, e);
    m
}

/// Decodes a PCX file from its bytes: the reader's rows (of the width's
/// palette indices, or three times the width's RGB values), through the
/// 256-colour palette where the image is paletted, as an opaque RGBA image
/// (see `pcx_to_image`); or the reader's error after a prefix naming the
/// stage that failed.
pub fn load_pcx(data: &[u8]) -> (r: Result<DecodedImage, String>)
    ensures
        match pcx_header_of(data@) {
            Err(e) => r matches Err(m) && m@ == "pcx: "@ + e,
            Ok((w, h, true)) => match pcx_paletted_rows_of(data@, w as usize, 768) {
                Ok((rows, pal)) => r matches Ok(img) && img.pixels.width == w && img.pixels.height == h
                    && img.pixels.wf() && img.format_name@ == "PCX"@ && forall|y: int, x: int, k: int|
                    0 <= y < h && 0 <= x < w && 0 <= k < 4 ==> #[trigger] img.pixels.data@[(y * w + x) * 4 + k]
                        == if k == 3 {
                        255u8
                    } else {
                        pal[rows[y][x] * 3 + k]
                    },
                Err((s, e)) => r matches Err(m) && m@ == pcx_stage_prefix(s) + e,
            },
            Ok((w, h, false)) => match pcx_rgb_rows_of(data@, (3 * w) as usize) {
                Ok(rows) => r matches Ok(img) && img.pixels.width == w && img.pixels.height == h
                    && img.pixels.wf() && img.format_name@ == "PCX"@ && forall|y: int, x: int, k: int|
                    0 <= y < h && 0 <= x < w && 0 <= k < 4 ==> #[trigger] img.pixels.data@[(y * w + x) * 4 + k]
                        == if k == 3 {
                        255u8
                    } else {
                        rows[y][x * 3 + k]
                    },
                Err((s, e)) => r matches Err(m) && m@ == pcx_stage_prefix(s) + e,
            },
        },
{
    match pcx_header(data) {
        Err(e) => Err(stage_message(0, e.as_str())),
        Ok((w, h, true)) => match pcx_paletted_rows(data, w as usize, 768) {
            Ok((rows, pal)) => Ok(pcx_to_image(w, h, true, &rows, &pal)),
            Err((s, e)) => Err(stage_message(s, e.as_str())),
        },
        Ok((w, h, false)) => match pcx_rgb_rows(data, 3 * (w as usize)) {
            Ok(rows) => {
                let pal: Vec<u8> = Vec::new();
                Ok(pcx_to_image(w, h, false, &rows, &pal))
            },
            Err((s, e)) => Err(stage_message(s, e.as_str())),
        },
    }
}

} // verus!
