//! The SGI (Silicon Graphics) image format: header, raw and run-length
//! encoded channel planes, stored bottom row first.

use vstd::prelude::*;
use crate::pixels::{RgbaPixels, DecodedImage, lemma_cell_index};
use crate::text::{decimal, push_decimal, push_str};

verus! {

/// Big-endian 16-bit value at `i`.
pub open spec fn be16(d: Seq<u8>, i: int) -> nat {
    (d[i] * 256 + d[i + 1]) as nat
}

/// Big-endian 32-bit value at `i`.
pub open spec fn be32(d: Seq<u8>, i: int) -> nat {
    (d[i] * 16777216 + d[i + 1] * 65536 + d[i + 2] * 256 + d[i + 3]) as nat
}

pub open spec fn sgi_width(d: Seq<u8>) -> nat {
    be16(d, 6)
}

pub open spec fn sgi_height(d: Seq<u8>) -> nat {
    be16(d, 8)
}

pub open spec fn sgi_channels(d: Seq<u8>) -> nat {
    be16(d, 10)
}

/// Why `d` is not a readable SGI image, or `None` when it is one.
pub open spec fn sgi_error(d: Seq<u8>) -> Option<Seq<char>> {
    let w = sgi_width(d);
    let h = sgi_height(d);
    let ch = sgi_channels(d);
    if d.len() < 512 {
        Some("SGI: file too small"@)
    } else if be16(d, 0) != 474 {
        Some("SGI: bad magic "@ + decimal(be16(d, 0)) + ", expected 474"@)
    } else if w == 0 || h == 0 || ch == 0 || ch > 4 {
        Some("SGI: invalid dimensions"@)
    } else if d[3] != 1 {
        Some("SGI: only 8-bit per channel supported"@)
    } else if d[2] == 0 {
        if 512 + ch * (w * h) > d.len() {
            Some("SGI: unexpected EOF"@)
        } else {
            None
        }
    } else if 512 + (h * ch) * 8 > d.len() {
        Some("SGI: offset table too large"@)
    } else {
        None
    }
}

/// Run-length decoding of one row from `src`, appending to `acc` until the
/// row holds `w` bytes, the data ends, or a packet of count 0 comes.
/// A packet byte `p` carries a count `p % 128`; with the high bit set the
/// count bytes that follow are copied, else the one byte that follows is
/// repeated count times.
pub open spec fn rle_decode(d: Seq<u8>, src: int, acc: Seq<u8>, w: int) -> Seq<u8>
    decreases d.len() - src,
{
    if src < 0 || src >= d.len() || acc.len() >= w {
        acc
    } else {
        let p = d[src];
        let count = (p % 128) as int;
        let n = if count < w - acc.len() { count } else { w - acc.len() };
        if count == 0 {
            acc
        } else if p >= 128 {
            let m = if n < d.len() - (src + 1) { n } else { d.len() - (src + 1) };
            rle_decode(d, src + 1 + m, acc + d.subrange(src + 1, src + 1 + m), w)
        } else if src + 1 < d.len() {
            rle_decode(d, src + 2, acc + Seq::new(n as nat, |i: int| d[src + 1]), w)
        } else {
            acc
        }
    }
}

/// `s` padded with zero bytes to length `w`.
pub open spec fn pad_zero(s: Seq<u8>, w: int) -> Seq<u8> {
    if s.len() >= w {
        s
    } else {
        s + Seq::new((w - s.len()) as nat, |i: int| 0u8)
    }
}

/// Byte `x` of row `y` of channel `c` (rows counted from the bottom).
pub open spec fn sgi_channel_byte(d: Seq<u8>, c: int, y: int, x: int) -> u8 {
    let w = sgi_width(d) as int;
    let h = sgi_height(d) as int;
    if d[2] == 0 {
        d[512 + c * (w * h) + y * w + x]
    } else {
        pad_zero(rle_decode(d, be32(d, 512 + (c * h + y) * 4) as int, Seq::empty(), w), w)[x]
    }
}

/// Component `k` (red, green, blue, alpha) of the pixel at output row `r`
/// (counted from the top), column `x`: missing channels repeat the last one
/// present, alpha defaults to 255.
pub open spec fn sgi_component(d: Seq<u8>, r: int, x: int, k: int) -> u8 {
    let h = sgi_height(d) as int;
    let ch = sgi_channels(d);
    let y = h - 1 - r;
    let red = sgi_channel_byte(d, 0, y, x);
    let green = if ch > 1 { sgi_channel_byte(d, 1, y, x) } else { red };
    let blue = if ch > 2 { sgi_channel_byte(d, 2, y, x) } else { green };
    let alpha = if ch > 3 { sgi_channel_byte(d, 3, y, x) } else { 255u8 };
    if k == 0 {
        red
    } else if k == 1 {
        green
    } else if k == 2 {
        blue
    } else {
        alpha
    }
}

/// The RGBA bytes of an SGI image, top row first.
pub open spec fn sgi_rgba(d: Seq<u8>) -> Seq<u8> {
    let w = sgi_width(d) as int;
    Seq::new((sgi_width(d) * sgi_height(d) * 4) as nat, |i: int| sgi_component(d, (i / 4) / w, (i / 4) % w, i % 4))
}

fn read_be16(data: &[u8], i: usize) -> (r: u64)
    requires
        i + 1 < data@.len(),
    ensures
        r == be16(data@, i as int),
        r < 65536,
{
    (data[i] as u64) * 256 + (data[i + 1] as u64)
}

fn read_be32(data: &[u8], i: u64) -> (r: u64)
    requires
        i + 3 < data@.len(),
    ensures
        r == be32(data@, i as int),
{
    let j = i as usize;
    (data[j] as u64) * 16777216 + (data[j + 1] as u64) * 65536 + (data[j + 2] as u64) * 256 + (data[j + 3] as u64)
}

/// Decodes one run-length encoded row of `w` bytes starting at `offset`.
fn rle_row(data: &[u8], offset: u64, w: u64) -> (row: Vec<u8>)
    requires
        w < 65536,
    ensures
        row@ == pad_zero(rle_decode(data@, offset as int, Seq::empty(), w as int), w as int),
        row@.len() == w,
{
    let ghost d = data@;
    let len = data.len() as u64;
    let mut acc: Vec<u8> = Vec::new();
    let mut src: u64 = offset;
    while src < len && (acc.len() as u64) < w
        invariant
            len == d.len(),
            d == data@,
            acc@.len() <= w,
            w < 65536,
            src >= offset,
            rle_decode(d, src as int, acc@, w as int) == rle_decode(d, offset as int, Seq::empty(), w as int),
        ensures
            acc@ == rle_decode(d, offset as int, Seq::empty(), w as int),
            acc@.len() <= w,
        decreases len - src,
    {
        let p = data[src as usize];
        let count = (p & 0x7f) as u64;
        let literal = (p & 0x80) != 0;
        proof {
            assert((p & 0x7f) == p % 128 && ((p & 0x80) != 0) == (p >= 128)) by (bit_vector);
        }
        if count == 0 {
            assert(rle_decode(d, src as int, acc@, w as int) == acc@);
            break;
        }
        let room = w - acc.len() as u64;
        let n = if count < room { count } else { room };
        if literal {
            let avail = len - (src + 1);
            let m = if n < avail { n } else { avail };
            let ghost before = acc@;
            let mut t: u64 = 0;
            while t < m
                invariant
                    t <= m,
                    src + 1 + m <= len,
                    len == d.len(),
                    d == data@,
                    acc@ == before + d.subrange(src + 1, src + 1 + t),
                decreases m - t,
            {
                acc.push(data[(src + 1 + t) as usize]);
                proof {
                    assert(d.subrange(src + 1, src + 1 + t + 1) =~= d.subrange(src + 1, src + 1 + t).push(d[src + 1 + t]));
                }
                t = t + 1;
            }
            src = src + 1 + m;
        } else {
            if src + 1 < len {
                let val = data[(src + 1) as usize];
                let ghost before = acc@;
                let mut t: u64 = 0;
                while t < n
                    invariant
                        t <= n,
                        acc@ == before + Seq::new(t as nat, |i: int| val),
                    decreases n - t,
                {
                    acc.push(val);
                    proof {
                        assert(Seq::new((t + 1) as nat, |i: int| val) =~= Seq::new(t as nat, |i: int| val).push(val));
                    }
                    t = t + 1;
                }
                proof {
                    assert(Seq::new(n as nat, |i: int| val) =~= Seq::new(n as nat, |i: int| d[src + 1]));
                }
                src = src + 2;
            } else {
                assert(rle_decode(d, src as int, acc@, w as int) == acc@);
                break;
            }
        }
    }
    let ghost decoded = acc@;
    let mut row = acc;
    while (row.len() as u64) < w
        invariant
            decoded.len() <= row@.len() <= w,
            w < 65536,
            row@ == decoded + Seq::new((row@.len() - decoded.len()) as nat, |i: int| 0u8),
        decreases w - row@.len(),
    {
        let ghost before = row@;
        row.push(0u8);
        proof {
            assert(Seq::new((row@.len() - decoded.len()) as nat, |i: int| 0u8)
                =~= Seq::new((before.len() - decoded.len()) as nat, |i: int| 0u8).push(0u8));
        }
    }
    proof {
        if decoded.len() >= w {
            assert(row@ =~= decoded);
        }
    }
    row
}

/// The byte at row `y`, column `x` of a plane `w` bytes wide.
pub open spec fn cell(plane: Seq<u8>, w: int, y: int, x: int) -> u8 {
    plane[y * w + x]
}

/// Byte `x` of row `y` of channel plane `c`, read from `planes`.
fn plane_byte(planes: &Vec<Vec<u8>>, c: usize, y: u64, x: u64, w: u64) -> (b: u8)
    requires
        c < planes@.len(),
        y < 65536,
        w < 65536,
        x < 65536,
        (y * w + x) < planes@[c as int]@.len(),
    ensures
        b == cell(planes@[c as int]@, w as int, y as int, x as int),
{
    proof {
        assert(y * w <= 65535 * 65535) by (nonlinear_arith)
            requires y < 65536, w < 65536;
    }
    planes[c][(y * w + x) as usize]
}

/// Decodes an SGI image from the bytes of its file.
pub fn parse_sgi(data: &[u8]) -> (r: Result<DecodedImage, String>)
    ensures
        match r {
            Err(m) => sgi_error(data@) == Some(m@),
            Ok(img) => {
                &&& sgi_error(data@).is_none()
                &&& img.pixels.width == sgi_width(data@)
                &&& img.pixels.height == sgi_height(data@)
                &&& img.pixels.data@ == sgi_rgba(data@)
                &&& img.pixels.wf()
                &&& img.format_name@ == "SGI"@
                &&& img.original_width == sgi_width(data@)
                &&& img.original_height == sgi_height(data@)
            },
        },
{
    let ghost d = data@;
    let len = data.len() as u64;
    if data.len() < 512 {
        return Err(String::from_str("SGI: file too small"));
    }
    let magic = read_be16(data, 0);
    if magic != 474 {
        let mut m = String::from_str("SGI: bad magic ");
        push_decimal(&mut m, magic);
        push_str(&mut m, ", expected 474");
        return Err(m);
    }
    let compression = data[2];
    let bpc = data[3];
    let width = read_be16(data, 6);
    let height = read_be16(data, 8);
    let channels = read_be16(data, 10);
    if width == 0 || height == 0 || channels == 0 || channels > 4 {
        return Err(String::from_str("SGI: invalid dimensions"));
    }
    if bpc != 1 {
        return Err(String::from_str("SGI: only 8-bit per channel supported"));
    }
    proof {
        assert(width * height < 65536 * 65536) by (nonlinear_arith)
            requires width < 65536, height < 65536;
    }
    let pixel_count = width * height;
    let mut planes: Vec<Vec<u8>> = Vec::new();
    proof {
        assert(channels * pixel_count <= 4 * pixel_count) by (nonlinear_arith)
            requires channels <= 4;
    }
    if compression == 0 {
        if 512 + channels * pixel_count > len {
            return Err(String::from_str("SGI: unexpected EOF"));
        }
        let mut c: u64 = 0;
        while c < channels
            invariant
                c <= channels <= 4,
                d == data@,
                len == d.len(),
                pixel_count == width * height,
                512 + channels * pixel_count <= len,
                planes@.len() == c,
                0 < width < 65536,
                0 < height < 65536,
                width == sgi_width(d),
                height == sgi_height(d),
                d[2] == 0,
                forall|cc: int| 0 <= cc < c ==> (#[trigger] planes@[cc])@.len() == pixel_count,
                forall|cc: int, y: int, x: int| 0 <= cc < c && 0 <= y < height && 0 <= x < width ==>
                    #[trigger] cell(planes@[cc]@, width as int, y, x) == sgi_channel_byte(d, cc, y, x),
            decreases channels - c,
        {
            proof {
                assert(512 + c * pixel_count + pixel_count <= len) by (nonlinear_arith)
                    requires c < channels, 512 + channels * pixel_count <= len;
            }
            let offset = 512 + c * pixel_count;
            let mut plane: Vec<u8> = Vec::new();
            let mut t: u64 = 0;
            while t < pixel_count
                invariant
                    t <= pixel_count,
                    offset + pixel_count <= len,
                    len == d.len(),
                    d == data@,
                    plane@ == d.subrange(offset as int, offset + t),
                decreases pixel_count - t,
            {
                plane.push(data[(offset + t) as usize]);
                proof {
                    assert(d.subrange(offset as int, offset + t + 1) =~= d.subrange(offset as int, offset + t).push(d[offset + t]));
                }
                t = t + 1;
            }
            proof {
                let pl = plane@;
                assert forall|y: int, x: int| 0 <= y < height && 0 <= x < width implies
                    #[trigger] cell(pl, width as int, y, x) == sgi_channel_byte(d, c as int, y, x) by {
                    assert(y * width + x < pixel_count) by (nonlinear_arith)
                        requires 0 <= y < height, 0 <= x < width, pixel_count == width * height;
                    assert(y * width + x >= 0) by (nonlinear_arith)
                        requires 0 <= y, 0 <= x, width > 0;
                }
            }
            planes.push(plane);
            proof {
                assert forall|cc: int, y: int, x: int| 0 <= cc < c + 1 && 0 <= y < height && 0 <= x < width implies
                    #[trigger] cell(planes@[cc]@, width as int, y, x) == sgi_channel_byte(d, cc, y, x) by {
                    if cc < c {
                    } else {
                        assert(planes@[cc]@ == plane@);
                    }
                }
            }
            c = c + 1;
        }
    } else {
        proof {
            assert(height * channels <= 65535 * 4) by (nonlinear_arith)
                requires height < 65536, channels <= 4;
        }
        let table_len = height * channels;
        if 512 + table_len * 8 > len {
            return Err(String::from_str("SGI: offset table too large"));
        }
        let mut c: u64 = 0;
        while c < channels
            invariant
                c <= channels <= 4,
                d == data@,
                len == d.len(),
                0 < width < 65536,
                0 < height < 65536,
                pixel_count == width * height,
                table_len == height * channels,
                512 + table_len * 8 <= len,
                planes@.len() == c,
                width == sgi_width(d),
                height == sgi_height(d),
                d[2] != 0,
                forall|cc: int, y: int, x: int| 0 <= cc < c && 0 <= y < height && 0 <= x < width ==>
                    #[trigger] cell(planes@[cc]@, width as int, y, x) == sgi_channel_byte(d, cc, y, x),
                forall|cc: int| 0 <= cc < c ==> (#[trigger] planes@[cc])@.len() == pixel_count,
            decreases channels - c,
        {
            let mut plane: Vec<u8> = Vec::new();
            let mut y: u64 = 0;
            while y < height
                invariant
                    y <= height,
                    c < channels <= 4,
                    d == data@,
                    len == d.len(),
                    0 < width < 65536,
                    0 < height < 65536,
                    table_len == height * channels,
                    512 + table_len * 8 <= len,
                    plane@.len() == y * width,
                    width == sgi_width(d),
                    height == sgi_height(d),
                    d[2] != 0,
                    forall|yy: int, x: int| 0 <= yy < y && 0 <= x < width ==>
                        #[trigger] cell(plane@, width as int, yy, x) == sgi_channel_byte(d, c as int, yy, x),
                decreases height - y,
            {
                proof {
                    assert(512 + (c * height + y) * 4 + 3 < len) by (nonlinear_arith)
                        requires c < channels, y < height, 512 + height * channels * 8 <= len;
                }
                let offset = read_be32(data, 512 + (c * height + y) * 4);
                let row = rle_row(data, offset, width);
                let ghost before = plane@;
                let mut x: u64 = 0;
                while x < width
                    invariant
                        x <= width,
                        0 < width < 65536,
                        row@.len() == width,
                        before.len() == y * width,
                        plane@ == before + row@.subrange(0, x as int),
                    decreases width - x,
                {
                    plane.push(row[x as usize]);
                    proof {
                        assert(row@.subrange(0, x + 1) =~= row@.subrange(0, x as int).push(row@[x as int]));
                    }
                    x = x + 1;
                }
                proof {
                    assert(row@.subrange(0, width as int) =~= row@);
                    assert((y + 1) * width == y * width + width) by (nonlinear_arith);
                    assert forall|yy: int, xx: int| 0 <= yy < y + 1 && 0 <= xx < width implies
                        #[trigger] cell(plane@, width as int, yy, xx) == sgi_channel_byte(d, c as int, yy, xx) by {
                        lemma_cell_index(yy, width as int, xx, 1, 0);
                        if yy < y {
                            assert(yy * width + xx < y * width) by (nonlinear_arith)
                                requires yy < y, 0 <= xx < width, yy >= 0;
                            assert(yy * width + xx >= 0) by (nonlinear_arith)
                                requires 0 <= yy, 0 <= xx, width > 0;
                            assert(plane@[yy * width + xx] == before[yy * width + xx]);
                            assert(cell(before, width as int, yy, xx) == sgi_channel_byte(d, c as int, yy, xx));
                        } else {
                            assert(yy == y);
                            assert(plane@[yy * width + xx] == row@[xx]);
                            assert(row@ == pad_zero(rle_decode(d, offset as int, Seq::empty(), width as int), width as int));
                            assert(offset == be32(d, 512 + (c * height + y) * 4));
                        }
                    }
                }
                y = y + 1;
            }
            proof {
                assert(height * width == width * height) by (nonlinear_arith);
                assert(plane@.len() == pixel_count);
            }
            planes.push(plane);
            proof {
                assert forall|cc: int, y: int, x: int| 0 <= cc < c + 1 && 0 <= y < height && 0 <= x < width implies
                    #[trigger] cell(planes@[cc]@, width as int, y, x) == sgi_channel_byte(d, cc, y, x) by {
                    if cc == c {
                        assert(planes@[cc]@ == plane@);
                    }
                }
            }
            c = c + 1;
        }
    }
    // Assemble the output, converting bottom-to-top rows to top-to-bottom.
    let mut rgba: Vec<u8> = Vec::new();
    let mut r: u64 = 0;
    while r < height
        invariant
            r <= height,
            d == data@,
            0 < width < 65536,
            0 < height < 65536,
            0 < channels <= 4,
            channels == sgi_channels(d),
            width == sgi_width(d),
            height == sgi_height(d),
            pixel_count == width * height,
            planes@.len() == channels,
            forall|cc: int| 0 <= cc < channels ==> (#[trigger] planes@[cc])@.len() == pixel_count,
            forall|cc: int, y: int, x: int| 0 <= cc < channels && 0 <= y < height && 0 <= x < width ==>
                #[trigger] cell(planes@[cc]@, width as int, y, x) == sgi_channel_byte(d, cc, y, x),
            rgba@ == sgi_rgba(d).subrange(0, r * width * 4),
        decreases height - r,
    {
        let y = height - 1 - r;
        let mut x: u64 = 0;
        while x < width
            invariant
                x <= width,
                r < height,
                y == height - 1 - r,
                d == data@,
                0 < width < 65536,
                0 < height < 65536,
                0 < channels <= 4,
                channels == sgi_channels(d),
                width == sgi_width(d),
                height == sgi_height(d),
                pixel_count == width * height,
                planes@.len() == channels,
                forall|cc: int| 0 <= cc < channels ==> (#[trigger] planes@[cc])@.len() == pixel_count,
                forall|cc: int, yy: int, xx: int| 0 <= cc < channels && 0 <= yy < height && 0 <= xx < width ==>
                    #[trigger] cell(planes@[cc]@, width as int, yy, xx) == sgi_channel_byte(d, cc, yy, xx),
                rgba@ == sgi_rgba(d).subrange(0, (r * width + x) * 4),
            decreases width - x,
        {
            proof {
                assert(y * width + x < pixel_count) by (nonlinear_arith)
                    requires y < height, x < width, pixel_count == width * height;
            }
            let red = plane_byte(&planes, 0, y, x, width);
            let green = if channels > 1 { plane_byte(&planes, 1, y, x, width) } else { red };
            let blue = if channels > 2 { plane_byte(&planes, 2, y, x, width) } else { green };
            let alpha = if channels > 3 { plane_byte(&planes, 3, y, x, width) } else { 255u8 };
            let ghost before = rgba@;
            rgba.push(red);
            rgba.push(green);
            rgba.push(blue);
            rgba.push(alpha);
            proof {
                let total = sgi_rgba(d);
                let base = (r * width + x) * 4;
                assert((r * width + x + 1) * 4 <= width * height * 4) by (nonlinear_arith)
                    requires r < height, x < width;
                lemma_cell_index(r as int, width as int, x as int, 4, 0);
                lemma_cell_index(r as int, width as int, x as int, 4, 1);
                lemma_cell_index(r as int, width as int, x as int, 4, 2);
                lemma_cell_index(r as int, width as int, x as int, 4, 3);
                assert(total[base] == sgi_component(d, r as int, x as int, 0));
                assert(total[base + 1] == sgi_component(d, r as int, x as int, 1));
                assert(total[base + 2] == sgi_component(d, r as int, x as int, 2));
                assert(total[base + 3] == sgi_component(d, r as int, x as int, 3));
                assert(red == sgi_component(d, r as int, x as int, 0));
                assert(green == sgi_component(d, r as int, x as int, 1));
                assert(blue == sgi_component(d, r as int, x as int, 2));
                assert(alpha == sgi_component(d, r as int, x as int, 3));
                assert(rgba@ =~= total.subrange(0, (r * width + x + 1) * 4));
            }
            x = x + 1;
        }
        proof {
            assert((r * width + width) * 4 == (r + 1) * width * 4) by (nonlinear_arith);
        }
        r = r + 1;
    }
    proof {
        assert(height * width * 4 == width * height * 4) by (nonlinear_arith);
        assert(sgi_rgba(d).len() == width * height * 4);
        assert(rgba@ =~= sgi_rgba(d));
    }
    let pixels = RgbaPixels { width: width as usize, height: height as usize, data: rgba };
    Ok(DecodedImage {
        pixels,
        format_name: String::from_str("SGI"),
        original_width: width as u32,
        original_height: height as u32,
    })
}

/// The channels of a readable SGI image make its pixels: row `r` from the
/// top is file row `h - 1 - r`; a one-channel image is grey (red, green and
/// blue all its one channel); with two channels the second gives green and
/// blue; with three or four, the first three give red, green and blue; the
/// fourth channel, where there is one, gives alpha, and otherwise every
/// pixel is opaque.
pub proof fn law_sgi_channels(d: Seq<u8>, r: int, x: int)
    requires
        sgi_error(d).is_none(),
        0 <= r < sgi_height(d),
        0 <= x < sgi_width(d),
    ensures
        ({
            let w = sgi_width(d) as int;
            let y = sgi_height(d) - 1 - r;
            let ch = sgi_channels(d);
            let at = |k: int| sgi_rgba(d)[(r * w + x) * 4 + k];
            &&& at(0) == sgi_channel_byte(d, 0, y, x)
            &&& ch == 1 ==> at(1) == sgi_channel_byte(d, 0, y, x) && at(2) == sgi_channel_byte(d, 0, y, x)
            &&& ch == 2 ==> at(1) == sgi_channel_byte(d, 1, y, x) && at(2) == sgi_channel_byte(d, 1, y, x)
            &&& ch >= 3 ==> at(1) == sgi_channel_byte(d, 1, y, x) && at(2) == sgi_channel_byte(d, 2, y, x)
            &&& ch == 4 ==> at(3) == sgi_channel_byte(d, 3, y, x)
            &&& ch < 4 ==> at(3) == 255u8
        }),
{
    let w = sgi_width(d) as int;
    let h = sgi_height(d) as int;
    assert forall|k: int| 0 <= k < 4 implies (r * w + x) * 4 + k < sgi_rgba(d).len()
        && #[trigger] sgi_rgba(d)[(r * w + x) * 4 + k] == sgi_component(d, r, x, k) by {
        lemma_cell_index(r, w, x, 4, k);
        assert((r + 1) * w * 4 <= h * w * 4) by (nonlinear_arith)
            requires r + 1 <= h, w >= 0;
        assert(h * w * 4 == w * h * 4) by (nonlinear_arith);
    }
}

} // verus!
