//! The XBM (X BitMap) format: C source text with `#define` sizes and a
//! comma-separated byte array, one bit per pixel, least significant first.

use vstd::prelude::*;
use crate::pixels::{RgbaPixels, DecodedImage, lemma_cell_index};
use crate::text::{
    chars_of, trim, trim_span, lines_of, next_line, starts_with, contains, contains_exec, parse_unsigned,
    parse_unsigned_span, find_char, lemma_find_char, find_from,
};
use crate::updater::{fields, lemma_fields_nonempty};

verus! {

/// Index of the last `c` in `s`, or -1 where there is none.
pub open spec fn last_index(s: Seq<char>, c: char) -> int
    decreases s.len(),
{
    if s.len() == 0 {
        -1
    } else if s.last() == c {
        s.len() - 1
    } else {
        last_index(s.drop_last(), c)
    }
}

pub proof fn lemma_last_index(s: Seq<char>, c: char)
    ensures
        -1 <= last_index(s, c) < s.len(),
        last_index(s, c) >= 0 ==> s[last_index(s, c)] == c,
        forall|k: int| last_index(s, c) < k < s.len() ==> s[k] != c,
    decreases s.len(),
{
    if s.len() > 0 && s.last() != c {
        lemma_last_index(s.drop_last(), c);
        assert forall|k: int| last_index(s, c) < k < s.len() implies s[k] != c by {
            if k < s.len() - 1 {
                assert(s.drop_last()[k] == s[k]);
            }
        }
    }
}

/// Finds the last `c` in `v[a..b]`; returns its index, or `None`.
pub fn rfind_in(v: &Vec<char>, a: usize, b: usize, c: char) -> (r: Option<usize>)
    requires
        a <= b <= v.len(),
    ensures
        match r {
            Some(k) => a <= k < b && k - a == last_index(v@.subrange(a as int, b as int), c),
            None => last_index(v@.subrange(a as int, b as int), c) == -1,
        },
{
    let ghost s = v@.subrange(a as int, b as int);
    let mut k = b;
    proof {
        lemma_last_index(s, c);
    }
    while k > a && v[k - 1] != c
        invariant
            a <= k <= b,
            b <= v.len(),
            s == v@.subrange(a as int, b as int),
            forall|t: int| k - a <= t < s.len() ==> s[t] != c,
        decreases k,
    {
        assert(s[k - 1 - a] == v@[k - 1]);
        k = k - 1;
    }
    proof {
        lemma_last_index(s, c);
        if k > a {
            assert(s[k - 1 - a] == v@[k - 1]);
        }
        if last_index(s, c) > k - 1 - a {
            assert(s[last_index(s, c)] == c);
        }
    }
    if k > a {
        Some(k - 1)
    } else {
        None
    }
}

/// The value a `#define` line sets, if `l` (trimmed) is one that mentions
/// `suffix`: the text after its last space, parsed as a number.
pub open spec fn define_line(l: Seq<char>, suffix: Seq<char>) -> bool {
    starts_with(l, "#define"@) && contains(l, suffix) && last_index(l, ' ') >= 0
}

/// The number the first `#define` line mentioning `suffix` gives.
pub open spec fn xbm_define_in(ls: Seq<Seq<char>>, suffix: Seq<char>) -> Option<nat>
    decreases ls.len(),
{
    if ls.len() == 0 {
        None
    } else if define_line(trim(ls[0]), suffix) {
        let l = trim(ls[0]);
        parse_unsigned(trim(l.skip(last_index(l, ' ') + 1)), 10, usize::MAX as nat)
    } else {
        xbm_define_in(ls.skip(1), suffix)
    }
}

pub proof fn lemma_define_bound(ls: Seq<Seq<char>>, suffix: Seq<char>)
    ensures
        xbm_define_in(ls, suffix) matches Some(x) ==> x <= usize::MAX,
    decreases ls.len(),
{
    if ls.len() > 0 && !define_line(trim(ls[0]), suffix) {
        lemma_define_bound(ls.skip(1), suffix);
    }
}

/// Reads the number of a `#define ... <suffix> <value>` line of XBM text.
pub fn parse_xbm_define(text: &str, suffix: &str) -> (r: Option<usize>)
    ensures
        match xbm_define_in(lines_of(text@), suffix@) {
            Some(x) => r == Some(x as usize),
            None => r.is_none(),
        },
{
    let v = chars_of(text);
    let sv = chars_of(suffix);
    let prefix = chars_of("#define");
    let mut pos: usize = 0;
    proof {
        assert(v@.skip(0) =~= v@);
    }
    while pos < v.len()
        invariant
            pos <= v.len(),
            v@ == text@,
            sv@ == suffix@,
            prefix@ == "#define"@,
            xbm_define_in(lines_of(text@), suffix@) == xbm_define_in(lines_of(v@.skip(pos as int)), suffix@),
        decreases v.len() - pos,
    {
        let (a, b, next) = next_line(&v, pos);
        let (ta, tb) = trim_span(&v, a, b);
        let ghost l = v@.subrange(ta as int, tb as int);
        proof {
            let ls = lines_of(v@.skip(pos as int));
            assert(ls[0] == v@.subrange(a as int, b as int));
            assert(ls.skip(1) =~= lines_of(v@.skip(next as int)));
            assert(l.take(prefix@.len() as int) =~= v@.subrange(0, tb as int).subrange(ta as int, ta + prefix@.len()) || true);
        }
        let has_prefix = crate::text::occurs_at_exec(&v, &prefix, ta, tb);
        proof {
            if ta + prefix@.len() <= tb {
                assert(v@.subrange(0, tb as int).subrange(ta as int, ta + prefix@.len()) =~= l.take(prefix@.len() as int));
            }
        }
        if has_prefix && contains_exec(&v, ta, tb, &sv) {
            let sp = rfind_in(&v, ta, tb, ' ');
            match sp {
                Some(k) => {
                    let (va, vb) = trim_span(&v, k + 1, tb);
                    proof {
                        assert(l.skip(last_index(l, ' ') + 1) =~= v@.subrange(k + 1, tb as int));
                    }
                    let parsed = parse_unsigned_span(&v, va, vb, 10, usize::MAX as u64);
                    return match parsed {
                        Some(x) => Some(x as usize),
                        None => None,
                    };
                },
                None => {},
            }
        }
        pos = next;
    }
    proof {
        assert(v@.skip(pos as int).len() == 0);
    }
    None
}

/// The number a piece of the XBM data array holds: `0x`/`0X` then hex
/// digits, or decimal digits; `None` when it is not a byte.
pub open spec fn xbm_piece(p: Seq<char>) -> Option<nat> {
    let s = trim(p);
    if starts_with(s, "0x"@) || starts_with(s, "0X"@) {
        parse_unsigned(s.skip(2), 16, 255)
    } else {
        parse_unsigned(s, 10, 255)
    }
}

/// The bytes of the XBM data array: each piece that reads as a byte.
pub open spec fn xbm_bytes(pieces: Seq<Seq<char>>) -> Seq<u8>
    decreases pieces.len(),
{
    if pieces.len() == 0 {
        Seq::empty()
    } else {
        let rest = xbm_bytes(pieces.skip(1));
        match xbm_piece(pieces[0]) {
            Some(b) => seq![b as u8] + rest,
            None => rest,
        }
    }
}

pub open spec fn xbm_width(t: Seq<char>) -> nat {
    xbm_define_in(lines_of(t), "width"@).unwrap()
}

pub open spec fn xbm_height(t: Seq<char>) -> nat {
    xbm_define_in(lines_of(t), "height"@).unwrap()
}

/// The text between the first `{` and the last `}`.
pub open spec fn xbm_data_text(t: Seq<char>) -> Seq<char> {
    t.subrange(find_char(t, '{') as int + 1, last_index(t, '}'))
}

/// Why `t` is not readable XBM, or `None`.
pub open spec fn xbm_error(t: Seq<char>) -> Option<Seq<char>> {
    if xbm_define_in(lines_of(t), "width"@).is_none() {
        Some("XBM: missing width"@)
    } else if xbm_define_in(lines_of(t), "height"@).is_none() {
        Some("XBM: missing height"@)
    } else if find_char(t, '{') >= t.len() {
        Some("XBM: no data block"@)
    } else if last_index(t, '}') < 0 {
        Some("XBM: no closing brace"@)
    } else {
        None
    }
}

/// Inputs the format reader can take: where the text is otherwise valid,
/// the data block's braces are in order and the image size is addressable.
pub open spec fn xbm_in_limits(t: Seq<char>) -> bool {
    xbm_error(t).is_none() ==> {
        &&& find_char(t, '{') + 1 <= last_index(t, '}')
        &&& xbm_width(t) * xbm_height(t) * 4 <= usize::MAX
        &&& xbm_width(t) + 7 <= usize::MAX
    }
}

/// Whether bit `k` (least significant first) of `b` is set.
pub open spec fn bit_set(b: u8, k: u8) -> bool {
    ((b >> k) & 1u8) != 0u8
}

/// Component `k` of the pixel at row `y`, column `x`: black where the bit
/// is set, white elsewhere (and where the data runs out), opaque.
pub open spec fn xbm_component(t: Seq<char>, y: int, x: int, k: int) -> u8 {
    let w = xbm_width(t) as int;
    let bytes = xbm_bytes(fields(xbm_data_text(t), ','));
    let row_bytes = (w + 7) / 8;
    let idx = y * row_bytes + x / 8;
    let set = idx < bytes.len() && bit_set(bytes[idx], (x % 8) as u8);
    if k == 3 {
        255
    } else if set {
        0
    } else {
        255
    }
}

/// The RGBA bytes of an XBM image.
pub open spec fn xbm_rgba(t: Seq<char>) -> Seq<u8> {
    let w = xbm_width(t) as int;
    Seq::new((xbm_width(t) * xbm_height(t) * 4) as nat, |i: int| xbm_component(t, (i / 4) / w, (i / 4) % w, i % 4))
}

fn piece_value(v: &Vec<char>, a: usize, b: usize) -> (r: Option<u8>)
    requires
        a <= b <= v.len(),
    ensures
        match xbm_piece(v@.subrange(a as int, b as int)) {
            Some(x) => r == Some(x as u8),
            None => r.is_none(),
        },
{
    let (ta, tb) = trim_span(v, a, b);
    let ghost s = v@.subrange(ta as int, tb as int);
    let is_hex = tb - ta >= 2 && v[ta] == '0' && (v[ta + 1] == 'x' || v[ta + 1] == 'X');
    proof {
        reveal_strlit("0x");
        reveal_strlit("0X");
        if s.len() >= 2 {
            assert(s[0] == v@[ta as int] && s[1] == v@[ta + 1]);
            assert(s.take(2)[0] == s[0] && s.take(2)[1] == s[1]);
            if s[0] == '0' && s[1] == 'x' {
                assert(s.take(2) =~= "0x"@);
            }
            if s[0] == '0' && s[1] == 'X' {
                assert(s.take(2) =~= "0X"@);
            }
        }
        if starts_with(s, "0x"@) {
            assert(s.take(2)[0] == "0x"@[0] && s.take(2)[1] == "0x"@[1]);
        }
        if starts_with(s, "0X"@) {
            assert(s.take(2)[0] == "0X"@[0] && s.take(2)[1] == "0X"@[1]);
        }
        assert(is_hex == (starts_with(s, "0x"@) || starts_with(s, "0X"@)));
    }
    if is_hex {
        proof {
            assert(s.skip(2) =~= v@.subrange(ta + 2, tb as int));
        }
        match parse_unsigned_span(v, ta + 2, tb, 16, 255) {
            Some(x) => Some(x as u8),
            None => None,
        }
    } else {
        match parse_unsigned_span(v, ta, tb, 10, 255) {
            Some(x) => Some(x as u8),
            None => None,
        }
    }
}

fn data_bytes(v: &Vec<char>, a: usize, b: usize) -> (r: Vec<u8>)
    requires
        a <= b <= v.len(),
    ensures
        r@ == xbm_bytes(fields(v@.subrange(a as int, b as int), ',')),
{
    let mut out: Vec<u8> = Vec::new();
    let mut i = a;
    let mut more = true;
    let ghost all = fields(v@.subrange(a as int, b as int), ',');
    while more
        invariant
            a <= i <= b,
            b <= v.len(),
            more ==> xbm_bytes(all) == out@ + xbm_bytes(fields(v@.subrange(i as int, b as int), ',')),
            !more ==> xbm_bytes(all) == out@,
        decreases (b - i) as int + (if more { 1int } else { 0int }),
    {
        let ghost s = v@.subrange(i as int, b as int);
        let j = find_from(v, ',', i, b);
        proof {
            lemma_fields_nonempty(s, ',');
            lemma_find_char(s, ',');
            assert(s.take(j - i) =~= v@.subrange(i as int, j as int));
            assert(fields(s, ',') =~= seq![fields(s, ',')[0]] + fields(s, ',').skip(1));
        }
        let pv = piece_value(v, i, j);
        let ghost before = out@;
        match pv {
            Some(x) => {
                out.push(x);
            },
            None => {},
        }
        if j < b {
            proof {
                assert(s.skip(j - i + 1) =~= v@.subrange(j + 1, b as int));
                assert(fields(s, ',').skip(1) =~= fields(v@.subrange(j + 1, b as int), ','));
                assert(xbm_bytes(fields(s, ',')) == (match xbm_piece(fields(s, ',')[0]) {
                    Some(x) => seq![x as u8],
                    None => Seq::<u8>::empty(),
                }) + xbm_bytes(fields(s, ',').skip(1)));
            }
            i = j + 1;
        } else {
            proof {
                assert(fields(s, ',').len() == 1);
                assert(fields(s, ',').skip(1) =~= Seq::<Seq<char>>::empty());
                assert(xbm_bytes(fields(s, ',')) == (match xbm_piece(fields(s, ',')[0]) {
                    Some(x) => seq![x as u8],
                    None => Seq::<u8>::empty(),
                }) + xbm_bytes(fields(s, ',').skip(1)));
            }
            more = false;
        }
    }
    out
}

/// Decodes an XBM image from its text.
pub fn load_xbm(text: &str) -> (r: Result<DecodedImage, String>)
    requires
        xbm_in_limits(text@),
    ensures
        match r {
            Err(m) => xbm_error(text@) == Some(m@),
            Ok(img) => {
                &&& xbm_error(text@).is_none()
                &&& img.pixels.width == xbm_width(text@)
                &&& img.pixels.height == xbm_height(text@)
                &&& img.pixels.data@ == xbm_rgba(text@)
                &&& img.pixels.wf()
                &&& img.format_name@ == "XBM"@
                &&& img.original_width == (xbm_width(text@) as u32)
                &&& img.original_height == (xbm_height(text@) as u32)
            },
        },
{
    let width = match parse_xbm_define(text, "width") {
        Some(w) => w,
        None => {
            proof { reveal_strlit("width"); }
            return Err(String::from_str("XBM: missing width"));
        },
    };
    let height = match parse_xbm_define(text, "height") {
        Some(h) => h,
        None => return Err(String::from_str("XBM: missing height")),
    };
    let v = chars_of(text);
    let n = v.len();
    let bs = find_from(&v, '{', 0, n);
    proof {
        assert(v@.subrange(0, n as int) =~= v@);
    }
    if bs == n {
        return Err(String::from_str("XBM: no data block"));
    }
    let be = match rfind_in(&v, 0, n, '}') {
        Some(k) => k,
        None => return Err(String::from_str("XBM: no closing brace")),
    };
    let bytes = data_bytes(&v, bs + 1, be);
    let ghost t = text@;
    let ghost bseq = xbm_bytes(fields(xbm_data_text(t), ','));
    assert(bytes@ == bseq);
    proof {
        lemma_define_bound(lines_of(t), "width"@);
        lemma_define_bound(lines_of(t), "height"@);
        assert(xbm_define_in(lines_of(t), "width"@) == Some(width as nat));
        assert(xbm_define_in(lines_of(t), "height"@) == Some(height as nat));
        assert(find_char(t, '{') < t.len());
        assert(last_index(t, '}') >= 0);
        assert(xbm_error(t).is_none());
    }
    let row_bytes = (width + 7) / 8;
    let mut rgba: Vec<u8> = Vec::new();
    let mut y: usize = 0;
    while y < height
        invariant
            y <= height,
            t == text@,
            width == xbm_width(t),
            height == xbm_height(t),
            width * height * 4 <= usize::MAX,
            row_bytes == (width + 7) / 8,
            bytes@ == bseq,
            bseq == xbm_bytes(fields(xbm_data_text(t), ',')),
            rgba@ == xbm_rgba(t).subrange(0, y * width * 4),
        decreases height - y,
    {
        let mut x: usize = 0;
        while x < width
            invariant
                x <= width,
                y < height,
                t == text@,
                width == xbm_width(t),
                height == xbm_height(t),
                width * height * 4 <= usize::MAX,
                row_bytes == (width + 7) / 8,
                bytes@ == bseq,
                bseq == xbm_bytes(fields(xbm_data_text(t), ',')),
                rgba@ == xbm_rgba(t).subrange(0, (y * width + x) * 4),
            decreases width - x,
        {
            proof {
                assert(y * row_bytes <= y * width) by (nonlinear_arith)
                    requires row_bytes <= width, y >= 0;
                assert(y * width + x < width * height) by (nonlinear_arith)
                    requires y < height, x < width;
            }
            let idx = y * row_bytes + x / 8;
            let bit = (x % 8) as u8;
            let set = idx < bytes.len() && ((bytes[idx] >> bit) & 1u8) != 0u8;
            let c: u8 = if set { 0 } else { 255 };
            rgba.push(c);
            rgba.push(c);
            rgba.push(c);
            rgba.push(255u8);
            proof {
                let total = xbm_rgba(t);
                let base = (y * width + x) * 4;
                assert((y * width + x + 1) * 4 <= width * height * 4) by (nonlinear_arith)
                    requires y < height, x < width;
                lemma_cell_index(y as int, width as int, x as int, 4, 0);
                lemma_cell_index(y as int, width as int, x as int, 4, 1);
                lemma_cell_index(y as int, width as int, x as int, 4, 2);
                lemma_cell_index(y as int, width as int, x as int, 4, 3);
                assert(total[base] == xbm_component(t, y as int, x as int, 0));
                assert(total[base + 1] == xbm_component(t, y as int, x as int, 1));
                assert(total[base + 2] == xbm_component(t, y as int, x as int, 2));
                assert(total[base + 3] == xbm_component(t, y as int, x as int, 3));
                assert(rgba@ =~= total.subrange(0, (y * width + x + 1) * 4));
            }
            x = x + 1;
        }
        proof {
            assert((y * width + width) * 4 == (y + 1) * width * 4) by (nonlinear_arith);
        }
        y = y + 1;
    }
    proof {
        assert(height * width * 4 == width * height * 4) by (nonlinear_arith);
        assert(rgba@ =~= xbm_rgba(t));
    }
    Ok(DecodedImage {
        pixels: RgbaPixels { width, height, data: rgba },
        format_name: String::from_str("XBM"),
        original_width: width as u32,
        original_height: height as u32,
    })
}


/// Whether `load_xbm` can take `text` (see `xbm_in_limits`).
pub fn xbm_within_limits(text: &str) -> (r: bool)
    ensures
        r == xbm_in_limits(text@),
{
    let width = match parse_xbm_define(text, "width") {
        Some(w) => w,
        None => return true,
    };
    let height = match parse_xbm_define(text, "height") {
        Some(h) => h,
        None => return true,
    };
    let v = chars_of(text);
    let n = v.len();
    let bs = find_from(&v, '{', 0, n);
    proof {
        assert(v@.subrange(0, n as int) =~= v@);
        lemma_define_bound(lines_of(text@), "width"@);
        lemma_define_bound(lines_of(text@), "height"@);
    }
    if bs == n {
        return true;
    }
    let be = match rfind_in(&v, 0, n, '}') {
        Some(k) => k,
        None => return true,
    };
    let wide = width as u128;
    proof {
        assert(width * height <= 0xffff_ffff_ffff_ffffu128 * 0xffff_ffff_ffff_ffffu128) by (nonlinear_arith)
            requires width <= 0xffff_ffff_ffff_ffffu128, height <= 0xffff_ffff_ffff_ffffu128;
    }
    let area = wide * (height as u128);
    bs + 1 <= be && area <= (usize::MAX as u128) / 4 && wide + 7 <= usize::MAX as u128
}

} // verus!
