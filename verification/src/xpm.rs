//! The XPM (X PixMap) format, version 3: C source text whose quoted strings
//! hold a header, a color table and the pixel rows.

use vstd::prelude::*;
use crate::pixels::{RgbaPixels, DecodedImage, lemma_cell_index};
use crate::text::{
    is_ws, is_ws_char, trim_start, radix_digit, parse_unsigned, parse_unsigned_span, decimal, push_decimal,
};
use crate::updater::first_ws;

verus! {

/// `c` is a hexadecimal digit.
pub open spec fn is_hex_digit(c: char) -> bool {
    radix_digit(c, 16).is_some()
}

/// The hex digits of `s`, in order.
pub open spec fn hex_digits(s: Seq<char>) -> Seq<char>
    decreases s.len(),
{
    if s.len() == 0 {
        Seq::empty()
    } else if is_hex_digit(s.last()) {
        hex_digits(s.drop_last()).push(s.last())
    } else {
        hex_digits(s.drop_last())
    }
}

/// Value of a hex digit.
pub open spec fn hv(c: char) -> nat {
    radix_digit(c, 16).unwrap()
}

/// The color that hex digits `h` name: `RRGGBB`, or `RGB` with each digit
/// doubled; anything else is gray. Always opaque.
pub open spec fn hex_color_of(h: Seq<char>) -> Seq<u8> {
    if h.len() == 6 {
        seq![(hv(h[0]) * 16 + hv(h[1])) as u8, (hv(h[2]) * 16 + hv(h[3])) as u8, (hv(h[4]) * 16 + hv(h[5])) as u8, 255u8]
    } else if h.len() == 3 {
        seq![(hv(h[0]) * 17) as u8, (hv(h[1]) * 17) as u8, (hv(h[2]) * 17) as u8, 255u8]
    } else {
        seq![128u8, 128u8, 128u8, 255u8]
    }
}

fn hex_digits_of(v: &Vec<char>) -> (r: Vec<u8>)
    ensures
        r@.len() == hex_digits(v@).len(),
        forall|k: int| 0 <= k < r@.len() ==> r@[k] as nat == #[trigger] hv(hex_digits(v@)[k]),
        forall|k: int| 0 <= k < r@.len() ==> r@[k] < 16,
{
    let mut r: Vec<u8> = Vec::new();
    let mut i: usize = 0;
    proof {
        assert(v@.subrange(0, 0) =~= Seq::<char>::empty());
    }
    while i < v.len()
        invariant
            i <= v.len(),
            r@.len() == hex_digits(v@.subrange(0, i as int)).len(),
            forall|k: int| 0 <= k < r@.len() ==> r@[k] as nat == #[trigger] hv(hex_digits(v@.subrange(0, i as int))[k]),
            forall|k: int| 0 <= k < r@.len() ==> r@[k] < 16,
        decreases v.len() - i,
    {
        let c = v[i];
        let ghost prev = v@.subrange(0, i as int);
        proof {
            assert(v@.subrange(0, i + 1).drop_last() =~= prev);
            assert(v@.subrange(0, i + 1).last() == c);
        }
        if '0' <= c && c <= '9' {
            r.push((c as u32 - '0' as u32) as u8);
        } else if 'a' <= c && c <= 'f' {
            r.push((c as u32 - 'a' as u32 + 10) as u8);
        } else if 'A' <= c && c <= 'F' {
            r.push((c as u32 - 'A' as u32 + 10) as u8);
        }
        proof {
            let hd = hex_digits(v@.subrange(0, i + 1));
            assert forall|k: int| 0 <= k < r@.len() implies r@[k] as nat == #[trigger] hv(hd[k]) by {
                if k < hex_digits(prev).len() {
                    assert(hd[k] == hex_digits(prev)[k]);
                }
            }
        }
        i = i + 1;
    }
    assert(v@.subrange(0, v@.len() as int) =~= v@);
    r
}

fn color_from_digits(d: &Vec<u8>, h: Ghost<Seq<char>>) -> (r: [u8; 4])
    requires
        d@.len() == h@.len(),
        forall|k: int| 0 <= k < d@.len() ==> d@[k] as nat == #[trigger] hv(h@[k]),
        forall|k: int| 0 <= k < d@.len() ==> d@[k] < 16,
    ensures
        r@ == hex_color_of(h@),
{
    if d.len() == 6 {
        let r = [d[0] * 16 + d[1], d[2] * 16 + d[3], d[4] * 16 + d[5], 255u8];
        assert(r@ =~= hex_color_of(h@));
        r
    } else if d.len() == 3 {
        let r = [d[0] * 17, d[1] * 17, d[2] * 17, 255u8];
        assert(r@ =~= hex_color_of(h@));
        r
    } else {
        let r = [128u8, 128u8, 128u8, 255u8];
        assert(r@ =~= hex_color_of(h@));
        r
    }
}

/// The color of an XPM color value such as `#FF8000` or `#F80`: the hex
/// digits of `s` (all of them, in order) read as `RRGGBB` or `RGB`.
pub fn parse_hex_color(s: &str) -> (r: [u8; 4])
    ensures
        r@ == hex_color_of(hex_digits(s@)),
{
    let v = crate::text::chars_of(s);
    let d = hex_digits_of(&v);
    color_from_digits(&d, Ghost(hex_digits(s@)))
}

// ---- byte-level splitting of the text ----

/// Index of the first `x` in `s`, or its length.
pub open spec fn index_of(s: Seq<u8>, x: u8) -> nat
    decreases s.len(),
{
    if s.len() == 0 {
        0
    } else if s[0] == x {
        0
    } else {
        1 + index_of(s.skip(1), x)
    }
}

pub proof fn lemma_index_of(s: Seq<u8>, x: u8)
    ensures
        index_of(s, x) <= s.len(),
        index_of(s, x) < s.len() ==> s[index_of(s, x) as int] == x,
        forall|k: int| 0 <= k < index_of(s, x) ==> s[k] != x,
    decreases s.len(),
{
    if s.len() > 0 && s[0] != x {
        lemma_index_of(s.skip(1), x);
        assert forall|k: int| 0 <= k < index_of(s, x) implies s[k] != x by {
            if k > 0 {
                assert(s.skip(1)[k - 1] == s[k]);
            }
        }
        if index_of(s, x) < s.len() {
            assert(s.skip(1)[index_of(s.skip(1), x) as int] == s[index_of(s, x) as int]);
        }
    }
}

/// The pieces of `s` between occurrences of `sep`.
pub open spec fn split_bytes(s: Seq<u8>, sep: u8) -> Seq<Seq<u8>>
    decreases s.len(),
{
    let i = index_of(s, sep);
    if i >= s.len() {
        seq![s]
    } else {
        proof {
            lemma_index_of(s, sep);
        }
        seq![s.take(i as int)] + split_bytes(s.skip(i as int + 1), sep)
    }
}

/// The quoted strings of XPM text: the pieces at odd positions when the
/// text is split at `"`.
pub open spec fn quoted_strings(d: Seq<u8>) -> Seq<Seq<u8>> {
    let ps = split_bytes(d, 34u8);
    Seq::new(ps.len() / 2, |i: int| ps[2 * i + 1])
}

/// Bytes read as characters (ASCII text).
pub open spec fn as_chars(b: Seq<u8>) -> Seq<char> {
    b.map_values(|x: u8| x as char)
}

/// The white-space-separated words of `s` (that of `split_whitespace`).
pub open spec fn words(s: Seq<char>) -> Seq<Seq<char>>
    decreases s.len(),
{
    let t = trim_start(s);
    proof {
        lemma_trim_start_len(s);
        lemma_first_ws(t);
    }
    if t.len() == 0 {
        Seq::empty()
    } else {
        seq![t.take(first_ws(t) as int)] + words(t.skip(first_ws(t) as int))
    }
}

pub proof fn lemma_trim_start_len(s: Seq<char>)
    ensures
        trim_start(s).len() <= s.len(),
        trim_start(s) == s.skip(s.len() - trim_start(s).len()),
        trim_start(s).len() > 0 ==> !is_ws(trim_start(s)[0]),
    decreases s.len(),
{
    if s.len() > 0 && is_ws(s[0]) {
        lemma_trim_start_len(s.skip(1));
        assert(s.skip(1).skip(s.skip(1).len() - trim_start(s.skip(1)).len()) =~= s.skip(s.len() - trim_start(s).len()));
    } else {
        assert(s.skip(0) =~= s);
    }
}

pub proof fn lemma_first_ws(l: Seq<char>)
    ensures
        first_ws(l) <= l.len(),
        l.len() > 0 && !is_ws(l[0]) ==> first_ws(l) >= 1,
        forall|k: int| 0 <= k < first_ws(l) ==> !is_ws(#[trigger] l[k]),
        first_ws(l) < l.len() ==> is_ws(l[first_ws(l) as int]),
    decreases l.len(),
{
    if l.len() > 0 && !is_ws(l[0]) {
        lemma_first_ws(l.skip(1));
        assert forall|k: int| 0 <= k < first_ws(l) implies !is_ws(#[trigger] l[k]) by {
            if k > 0 {
                assert(l.skip(1)[k - 1] == l[k]);
            }
        }
        if first_ws(l) < l.len() {
            assert(l.skip(1)[first_ws(l.skip(1)) as int] == l[first_ws(l) as int]);
        }
    }
}


/// The view of a list of byte vectors.
pub open spec fn views(v: Seq<Vec<u8>>) -> Seq<Seq<u8>> {
    v.map_values(|p: Vec<u8>| p@)
}

/// Splits `d` at `sep`.
pub fn split_at_byte(d: &[u8], sep: u8) -> (r: Vec<Vec<u8>>)
    ensures
        views(r@) == split_bytes(d@, sep),
{
    let n = d.len();
    let mut out: Vec<Vec<u8>> = Vec::new();
    let mut i: usize = 0;
    let mut more = true;
    proof {
        assert(d@.skip(0) =~= d@);
        assert(views(out@) =~= Seq::<Seq<u8>>::empty());
    }
    while more
        invariant
            i <= n,
            n == d@.len(),
            more ==> split_bytes(d@, sep) == views(out@) + split_bytes(d@.skip(i as int), sep),
            !more ==> split_bytes(d@, sep) == views(out@),
        decreases (n - i) as int + (if more { 1int } else { 0int }),
    {
        let ghost s = d@.skip(i as int);
        proof {
            lemma_index_of(s, sep);
        }
        let mut j = i;
        while j < n && d[j] != sep
            invariant
                i <= j <= n,
                n == d@.len(),
                s == d@.skip(i as int),
                j - i <= index_of(s, sep),
                index_of(s, sep) <= s.len(),
                forall|k: int| 0 <= k < index_of(s, sep) ==> s[k] != sep,
                index_of(s, sep) < s.len() ==> s[index_of(s, sep) as int] == sep,
            decreases n - j,
        {
            assert(s[j - i] == d@[j as int]);
            j = j + 1;
        }
        proof {
            if j < n {
                assert(s[j - i] == d@[j as int]);
            }
            if j - i < index_of(s, sep) {
                assert(s[j - i] == d@[j as int]);
            }
        }
        let mut piece: Vec<u8> = Vec::new();
        let mut k = i;
        while k < j
            invariant
                i <= k <= j,
                j <= n,
                n == d@.len(),
                piece@ == d@.subrange(i as int, k as int),
            decreases j - k,
        {
            piece.push(d[k]);
            k = k + 1;
        }
        let ghost before = views(out@);
        out.push(piece);
        proof {
            assert(views(out@) =~= before.push(d@.subrange(i as int, j as int)));
            assert(s.take(j - i) =~= d@.subrange(i as int, j as int));
        }
        if j < n {
            proof {
                assert(s.skip(j - i + 1) =~= d@.skip(j + 1));
                assert(split_bytes(s, sep) =~= seq![s.take(j - i)] + split_bytes(d@.skip(j + 1), sep));
            }
            i = j + 1;
        } else {
            proof {
                assert(s.take(j - i) =~= s);
                assert(split_bytes(s, sep) =~= seq![s]);
            }
            more = false;
        }
    }
    out
}

/// White-space-separated words of `v`, as spans.
pub fn word_spans(v: &Vec<char>) -> (r: Vec<(usize, usize)>)
    ensures
        r@.len() == words(v@).len(),
        forall|k: int| 0 <= k < r@.len() ==> (#[trigger] r@[k]).0 <= r@[k].1 <= v@.len()
            && v@.subrange(r@[k].0 as int, r@[k].1 as int) == words(v@)[k],
{
    let n = v.len();
    let mut out: Vec<(usize, usize)> = Vec::new();
    let mut i: usize = 0;
    let ghost mut done: Seq<Seq<char>> = Seq::empty();
    proof {
        assert(v@.skip(0) =~= v@);
    }
    loop
        invariant
            i <= n,
            n == v@.len(),
            words(v@) == done + words(v@.skip(i as int)),
            out@.len() == done.len(),
            forall|k: int| 0 <= k < out@.len() ==> (#[trigger] out@[k]).0 <= out@[k].1 <= v@.len()
                && v@.subrange(out@[k].0 as int, out@[k].1 as int) == done[k],
        decreases n - i,
    {
        let ghost s = v@.skip(i as int);
        let mut a = i;
        while a < n && is_ws_char(v[a])
            invariant
                i <= a <= n,
                n == v@.len(),
                s == v@.skip(i as int),
                trim_start(s) == trim_start(v@.skip(a as int)),
            decreases n - a,
        {
            assert(v@.skip(a as int)[0] == v@[a as int]);
            assert(v@.skip(a + 1) =~= v@.skip(a as int).skip(1));
            a = a + 1;
        }
        proof {
            if a < n {
                assert(v@.skip(a as int)[0] == v@[a as int]);
            }
            assert(trim_start(v@.skip(a as int)) == v@.skip(a as int));
            lemma_trim_start_len(s);
        }
        let ghost t = v@.skip(a as int);
        if a == n {
            proof {
                assert(t.len() == 0);
                assert(words(s) =~= Seq::<Seq<char>>::empty());
                assert(done + words(s) =~= done);
            }
            return out;
        }
        let mut b = a;
        proof {
            lemma_first_ws(t);
        }
        while b < n && !is_ws_char(v[b])
            invariant
                a <= b <= n,
                n == v@.len(),
                t == v@.skip(a as int),
                b - a <= first_ws(t),
                first_ws(t) <= t.len(),
                forall|k: int| 0 <= k < first_ws(t) ==> !is_ws(#[trigger] t[k]),
                first_ws(t) < t.len() ==> is_ws(t[first_ws(t) as int]),
            decreases n - b,
        {
            assert(t[b - a] == v@[b as int]);
            b = b + 1;
        }
        proof {
            if b < n {
                assert(t[b - a] == v@[b as int]);
            }
            if b - a < first_ws(t) {
                assert(t[b - a] == v@[b as int]);
            }
            assert(t.take(b - a) =~= v@.subrange(a as int, b as int));
            assert(t.skip(b - a) =~= v@.skip(b as int));
            assert(words(s) == seq![t.take(first_ws(t) as int)] + words(t.skip(first_ws(t) as int)));
            done = done.push(v@.subrange(a as int, b as int));
            assert(words(v@) =~= done + words(v@.skip(b as int)));
        }
        out.push((a, b));
        i = b;
    }
}

/// The `n` bytes of `s` from `i`.
pub open spec fn window(s: Seq<u8>, i: int, n: int) -> Seq<u8> {
    s.subrange(i, i + n)
}

/// `t` occurs in `s`.
pub open spec fn contains_bytes(s: Seq<u8>, t: Seq<u8>) -> bool {
    exists|i: int| 0 <= i && i + t.len() <= s.len() && #[trigger] window(s, i, t.len() as int) == t
}

fn contains_word(s: &Vec<u8>, from: usize, t: &Vec<u8>) -> (r: bool)
    requires
        from <= s.len(),
        t@.len() > 0,
    ensures
        r == contains_bytes(s@.skip(from as int), t@),
{
    let ghost rest = s@.skip(from as int);
    let n = s.len();
    if t.len() > n - from {
        proof {
            assert forall|i: int| !(0 <= i && i + t@.len() <= rest.len() && #[trigger] window(rest, i, t@.len() as int) == t@) by {}
        }
        return false;
    }
    let mut i = from;
    while i <= n - t.len()
        invariant
            from <= i <= n - t.len() + 1,
            t@.len() > 0,
            n == s@.len(),
            rest == s@.skip(from as int),
            t@.len() <= n - from,
            forall|u: int| 0 <= u < i - from ==> #[trigger] window(rest, u, t@.len() as int) != t@,
        decreases n - i,
    {
        let mut k: usize = 0;
        let mut same = true;
        while k < t.len()
            invariant
                k <= t.len(),
                i + t.len() <= n,
                n == s@.len(),
                same == forall|u: int| 0 <= u < k ==> s@[i + u] == t@[u],
            decreases t.len() - k,
        {
            if s[i + k] != t[k] {
                same = false;
            }
            k = k + 1;
        }
        proof {
            assert(window(rest, i - from, t@.len() as int) =~= s@.subrange(i as int, i + t@.len()));
            if same {
                assert(s@.subrange(i as int, i + t@.len()) =~= t@);
            } else {
                let u = choose|u: int| 0 <= u < t@.len() && s@[i + u] != t@[u];
                assert(s@.subrange(i as int, i + t@.len())[u] != t@[u]);
            }
        }
        if same {
            return true;
        }
        i = i + 1;
    }
    proof {
        assert forall|u: int| !(0 <= u && u + t@.len() <= rest.len() && #[trigger] window(rest, u, t@.len() as int) == t@) by {
            if 0 <= u && u + t@.len() <= rest.len() {
                assert(u < i - from);
            }
        }
    }
    false
}

/// The color a color-table line gives after its key (`cpp` bytes): the hex
/// color after the first `#`, else transparent for `None`/`none`, else gray.
pub open spec fn line_color(line: Seq<u8>, cpp: nat) -> Seq<u8> {
    let rest = line.skip(cpp as int);
    let p = index_of(rest, 35u8);
    if p < rest.len() {
        hex_color_of(hex_digits(as_chars(rest.skip(p as int))))
    } else if contains_bytes(rest, seq![78u8, 111u8, 110u8, 101u8]) || contains_bytes(rest, seq![110u8, 111u8, 110u8, 101u8]) {
        seq![0u8, 0u8, 0u8, 0u8]
    } else {
        seq![128u8, 128u8, 128u8, 255u8]
    }
}

/// The color table from the first `n` color lines `lines`: (key, color) for
/// each line at least `cpp` bytes long, in order.
pub open spec fn color_table(lines: Seq<Seq<u8>>, n: nat, cpp: nat) -> Seq<(Seq<u8>, Seq<u8>)>
    decreases n,
{
    if n == 0 {
        Seq::empty()
    } else {
        let t = color_table(lines, (n - 1) as nat, cpp);
        let line = lines[n - 1];
        if line.len() < cpp {
            t
        } else {
            t.push((line.take(cpp as int), line_color(line, cpp)))
        }
    }
}

/// The color of `key`: that of its last entry in the table, else opaque black.
pub open spec fn table_lookup(t: Seq<(Seq<u8>, Seq<u8>)>, key: Seq<u8>) -> Seq<u8>
    decreases t.len(),
{
    if t.len() == 0 {
        seq![0u8, 0u8, 0u8, 255u8]
    } else if t.last().0 == key {
        t.last().1
    } else {
        table_lookup(t.drop_last(), key)
    }
}

/// The key of pixel `x` of a row: its `cpp` bytes, or a single space where
/// the row is too short.
pub open spec fn pixel_key(line: Seq<u8>, x: nat, cpp: nat) -> Seq<u8> {
    if x * cpp + cpp <= line.len() {
        line.subrange((x * cpp) as int, (x * cpp + cpp) as int)
    } else {
        seq![32u8]
    }
}

/// The words of the header string, read as UTF-8 text.
pub open spec fn xpm_header(d: Seq<u8>) -> Seq<Seq<char>> {
    words(vstd::utf8::decode_utf8(quoted_strings(d)[0]))
}

/// The pieces of UTF-8 text split at `"` are UTF-8 text.
pub proof fn lemma_pieces_utf8(d: Seq<u8>)
    requires
        vstd::utf8::valid_utf8(d),
    ensures
        forall|k: int| 0 <= k < split_bytes(d, 34u8).len() ==> vstd::utf8::valid_utf8(#[trigger] split_bytes(d, 34u8)[k]),
    decreases d.len(),
{
    let i = index_of(d, 34u8);
    lemma_index_of(d, 34u8);
    if i < d.len() {
        let ii = i as int;
        vstd::utf8::is_char_boundary_iff_not_is_continuation_byte(d, ii);
        vstd::utf8::valid_utf8_split(d, ii);
        assert(d.take(ii) =~= d.subrange(0, ii));
        let t = d.subrange(ii, d.len() as int);
        assert(t[0] == 34u8);
        assert(vstd::utf8::length_of_first_scalar(t) == 1);
        assert(vstd::utf8::pop_first_scalar(t) =~= d.skip(ii + 1));
        lemma_pieces_utf8(d.skip(ii + 1));
        let rest = split_bytes(d.skip(ii + 1), 34u8);
        assert(split_bytes(d, 34u8) == seq![d.take(ii)] + rest);
        assert forall|k: int| 0 <= k < split_bytes(d, 34u8).len() implies vstd::utf8::valid_utf8(
            #[trigger] split_bytes(d, 34u8)[k],
        ) by {
            if k > 0 {
                assert(split_bytes(d, 34u8)[k] == rest[k - 1]);
            }
        }
    }
}

/// Calls `std::str::from_utf8` on bytes that are UTF-8 text.
/// Stated: the text is the bytes decoded as UTF-8.
#[verifier::external_body]
fn text_of_utf8(b: &[u8]) -> (r: &str)
    requires
        vstd::utf8::valid_utf8(b@),
    ensures
        r@ == vstd::utf8::decode_utf8(b@),
{
    match std::str::from_utf8(b) {
        Ok(t) => t,
        Err(_) => "",
    }
}

pub open spec fn header_num(d: Seq<u8>, k: int) -> Option<nat> {
    parse_unsigned(xpm_header(d)[k], 10, usize::MAX as nat)
}

pub open spec fn xpm_width(d: Seq<u8>) -> nat { header_num(d, 0).unwrap() }
pub open spec fn xpm_height(d: Seq<u8>) -> nat { header_num(d, 1).unwrap() }
pub open spec fn xpm_ncolors(d: Seq<u8>) -> nat { header_num(d, 2).unwrap() }
pub open spec fn xpm_cpp(d: Seq<u8>) -> nat { header_num(d, 3).unwrap() }

/// Why the header or color table of `d` is unreadable, or `None`.
pub open spec fn xpm_table_error(d: Seq<u8>) -> Option<Seq<char>> {
    let q = quoted_strings(d);
    if q.len() == 0 {
        Some("XPM: no data strings"@)
    } else if xpm_header(d).len() < 4 {
        Some("XPM: invalid header"@)
    } else if header_num(d, 0).is_none() {
        Some("XPM: bad width"@)
    } else if header_num(d, 1).is_none() {
        Some("XPM: bad height"@)
    } else if header_num(d, 2).is_none() {
        Some("XPM: bad ncolors"@)
    } else if header_num(d, 3).is_none() {
        Some("XPM: bad cpp"@)
    } else if xpm_ncolors(d) > q.len() - 1 {
        Some("XPM: missing color line "@ + decimal((q.len() - 1) as nat))
    } else {
        None
    }
}

/// Why `d` is not a readable XPM image, or `None`.
pub open spec fn xpm_error(d: Seq<u8>) -> Option<Seq<char>> {
    let q = quoted_strings(d);
    if xpm_table_error(d).is_some() {
        xpm_table_error(d)
    } else if xpm_height(d) > q.len() - 1 - xpm_ncolors(d) {
        Some("XPM: missing row "@ + decimal((q.len() - 1 - xpm_ncolors(d)) as nat))
    } else {
        None
    }
}

/// Inputs the reader can take: once the header and color table read, the
/// image size is addressable, and so are the keys of a row where one is read.
pub open spec fn xpm_in_limits(d: Seq<u8>) -> bool {
    xpm_table_error(d).is_none() ==> {
        &&& xpm_width(d) * xpm_height(d) * 4 <= usize::MAX
        &&& (xpm_height(d) > 0 && quoted_strings(d).len() - 1 - xpm_ncolors(d) > 0) ==> xpm_width(d) * xpm_cpp(d) <= usize::MAX
    }
}

/// Component `k` of the pixel at row `y`, column `x`.
pub open spec fn xpm_component(d: Seq<u8>, y: int, x: int, k: int) -> u8 {
    let q = quoted_strings(d);
    let nc = xpm_ncolors(d);
    let cpp = xpm_cpp(d);
    let table = color_table(q.skip(1), nc, cpp);
    table_lookup(table, pixel_key(q[1 + nc + y], x as nat, cpp))[k]
}

/// The RGBA bytes of an XPM image.
pub open spec fn xpm_rgba(d: Seq<u8>) -> Seq<u8> {
    let w = xpm_width(d) as int;
    Seq::new((xpm_width(d) * xpm_height(d) * 4) as nat, |i: int| xpm_component(d, (i / 4) / w, (i / 4) % w, i % 4))
}


/// The views of a color table.
pub open spec fn table_views(t: Seq<(Vec<u8>, [u8; 4])>) -> Seq<(Seq<u8>, Seq<u8>)> {
    t.map_values(|e: (Vec<u8>, [u8; 4])| (e.0@, e.1@))
}

fn bytes_as_chars(b: &Vec<u8>, from: usize) -> (r: Vec<char>)
    requires
        from <= b.len(),
    ensures
        r@ == as_chars(b@.skip(from as int)),
{
    let mut r: Vec<char> = Vec::new();
    let mut k = from;
    while k < b.len()
        invariant
            from <= k <= b.len(),
            r@ == as_chars(b@.subrange(from as int, k as int)),
        decreases b.len() - k,
    {
        r.push(b[k] as char);
        proof {
            assert(as_chars(b@.subrange(from as int, k + 1)) =~= as_chars(b@.subrange(from as int, k as int)).push(b@[k as int] as char));
        }
        k = k + 1;
    }
    assert(b@.subrange(from as int, b@.len() as int) =~= b@.skip(from as int));
    r
}

fn line_color_exec(line: &Vec<u8>, cpp: usize) -> (r: [u8; 4])
    requires
        cpp <= line.len(),
    ensures
        r@ == line_color(line@, cpp as nat),
{
    let ghost rest = line@.skip(cpp as int);
    let mut p = cpp;
    proof {
        lemma_index_of(rest, 35u8);
    }
    while p < line.len() && line[p] != 35u8
        invariant
            cpp <= p <= line.len(),
            rest == line@.skip(cpp as int),
            p - cpp <= index_of(rest, 35u8),
            index_of(rest, 35u8) <= rest.len(),
            forall|k: int| 0 <= k < index_of(rest, 35u8) ==> rest[k] != 35u8,
            index_of(rest, 35u8) < rest.len() ==> rest[index_of(rest, 35u8) as int] == 35u8,
        decreases line.len() - p,
    {
        assert(rest[p - cpp] == line@[p as int]);
        p = p + 1;
    }
    proof {
        if p < line.len() {
            assert(rest[p - cpp] == line@[p as int]);
        }
        if p - cpp < index_of(rest, 35u8) {
            assert(rest[p - cpp] == line@[p as int]);
        }
    }
    if p < line.len() {
        let cs = bytes_as_chars(line, p);
        proof {
            assert(line@.skip(p as int) =~= rest.skip(p - cpp));
        }
        let d = hex_digits_of(&cs);
        color_from_digits(&d, Ghost(hex_digits(cs@)))
    } else {
        let upper: Vec<u8> = vec![78u8, 111u8, 110u8, 101u8];
        let lower: Vec<u8> = vec![110u8, 111u8, 110u8, 101u8];
        proof {
            assert(upper@ =~= seq![78u8, 111u8, 110u8, 101u8]);
            assert(lower@ =~= seq![110u8, 111u8, 110u8, 101u8]);
        }
        if contains_word(line, cpp, &upper) || contains_word(line, cpp, &lower) {
            let r = [0u8, 0u8, 0u8, 0u8];
            assert(r@ =~= seq![0u8, 0u8, 0u8, 0u8]);
            r
        } else {
            let r = [128u8, 128u8, 128u8, 255u8];
            assert(r@ =~= seq![128u8, 128u8, 128u8, 255u8]);
            r
        }
    }
}

fn copy_span(b: &Vec<u8>, from: usize, to: usize) -> (r: Vec<u8>)
    requires
        from <= to <= b.len(),
    ensures
        r@ == b@.subrange(from as int, to as int),
{
    let mut r: Vec<u8> = Vec::new();
    let mut k = from;
    while k < to
        invariant
            from <= k <= to,
            to <= b.len(),
            r@ == b@.subrange(from as int, k as int),
        decreases to - k,
    {
        r.push(b[k]);
        k = k + 1;
    }
    r
}

fn same_bytes(a: &Vec<u8>, b: &Vec<u8>) -> (r: bool)
    ensures
        r == (a@ == b@),
{
    if a.len() != b.len() {
        return false;
    }
    let mut k: usize = 0;
    while k < a.len()
        invariant
            k <= a.len(),
            a.len() == b.len(),
            forall|u: int| 0 <= u < k ==> a@[u] == b@[u],
        decreases a.len() - k,
    {
        if a[k] != b[k] {
            return false;
        }
        k = k + 1;
    }
    assert(a@ =~= b@);
    true
}

fn lookup(table: &Vec<(Vec<u8>, [u8; 4])>, key: &Vec<u8>) -> (r: [u8; 4])
    ensures
        r@ == table_lookup(table_views(table@), key@),
{
    let ghost tv = table_views(table@);
    let mut k = table.len();
    proof {
        assert(tv.take(k as int) =~= tv);
    }
    while k > 0
        invariant
            k <= table.len(),
            tv == table_views(table@),
            table_lookup(tv, key@) == table_lookup(tv.take(k as int), key@),
        decreases k,
    {
        let ghost t = tv.take(k as int);
        assert(t.last() == tv[k - 1]);
        assert(t.drop_last() =~= tv.take(k - 1));
        if same_bytes(&table[k - 1].0, key) {
            return table[k - 1].1;
        }
        k = k - 1;
    }
    let r = [0u8, 0u8, 0u8, 255u8];
    assert(r@ =~= seq![0u8, 0u8, 0u8, 255u8]);
    r
}

/// Decodes an XPM image from its text, given as UTF-8 bytes.
pub fn load_xpm(data: &[u8]) -> (r: Result<DecodedImage, String>)
    requires
        vstd::utf8::valid_utf8(data@),
        xpm_in_limits(data@),
    ensures
        match r {
            Err(m) => xpm_error(data@) == Some(m@),
            Ok(img) => {
                &&& xpm_error(data@).is_none()
                &&& img.pixels.width == xpm_width(data@)
                &&& img.pixels.height == xpm_height(data@)
                &&& img.pixels.data@ == xpm_rgba(data@)
                &&& img.pixels.wf()
                &&& img.format_name@ == "XPM"@
                &&& img.original_width == (xpm_width(data@) as u32)
                &&& img.original_height == (xpm_height(data@) as u32)
            },
        },
{
    let ghost d = data@;
    let pieces = split_at_byte(data, 34u8);
    let ghost ps = split_bytes(d, 34u8);
    let ghost q = quoted_strings(d);
    assert(views(pieces@) == ps);
    assert(forall|i: int| 0 <= i < q.len() ==> #[trigger] q[i] == pieces@[2 * i + 1]@) by {
        assert forall|i: int| 0 <= i < q.len() implies #[trigger] q[i] == pieces@[2 * i + 1]@ by {
            assert(views(pieces@)[2 * i + 1] == pieces@[2 * i + 1]@);
        }
    }
    let plen = pieces.len();
    let nq = plen / 2;
    if nq == 0 {
        return Err(String::from_str("XPM: no data strings"));
    }
    proof {
        lemma_pieces_utf8(d);
        assert(views(pieces@)[1] == pieces@[1]@);
    }
    let hdr = crate::text::chars_of(text_of_utf8(pieces[1].as_slice()));
    let spans = word_spans(&hdr);
    if spans.len() < 4 {
        return Err(String::from_str("XPM: invalid header"));
    }
    let width = match parse_unsigned_span(&hdr, spans[0].0, spans[0].1, 10, usize::MAX as u64) {
        Some(x) => x as usize,
        None => return Err(String::from_str("XPM: bad width")),
    };
    let height = match parse_unsigned_span(&hdr, spans[1].0, spans[1].1, 10, usize::MAX as u64) {
        Some(x) => x as usize,
        None => return Err(String::from_str("XPM: bad height")),
    };
    let ncolors = match parse_unsigned_span(&hdr, spans[2].0, spans[2].1, 10, usize::MAX as u64) {
        Some(x) => x as usize,
        None => return Err(String::from_str("XPM: bad ncolors")),
    };
    let cpp = match parse_unsigned_span(&hdr, spans[3].0, spans[3].1, 10, usize::MAX as u64) {
        Some(x) => x as usize,
        None => return Err(String::from_str("XPM: bad cpp")),
    };
    if ncolors > nq - 1 {
        let mut m = String::from_str("XPM: missing color line ");
        push_decimal(&mut m, (nq - 1) as u64);
        return Err(m);
    }
    let mut table: Vec<(Vec<u8>, [u8; 4])> = Vec::new();
    let mut i: usize = 0;
    while i < ncolors
        invariant
            i <= ncolors <= nq - 1,
            nq == pieces@.len() / 2,
            plen == pieces@.len(),
            nq == q.len(),
            q == quoted_strings(d),
            forall|k: int| 0 <= k < q.len() ==> #[trigger] q[k] == pieces@[2 * k + 1]@,
            table_views(table@) == color_table(q.skip(1), i as nat, cpp as nat),
        decreases ncolors - i,
    {
        assert(2 * (1 + i) + 1 < pieces@.len());
        let off = i + 1;
        assert(off + off + 1 < pieces@.len());
        let line = &pieces[off + off + 1];
        assert(q.skip(1)[i as int] == q[1 + i]);
        let ghost before = table_views(table@);
        if line.len() >= cpp {
            let key = copy_span(line, 0, cpp);
            let color = line_color_exec(line, cpp);
            table.push((key, color));
            proof {
                assert(table_views(table@) =~= before.push((line@.take(cpp as int), line_color(line@, cpp as nat))));
            }
        }
        i = i + 1;
    }
    if height > nq - 1 - ncolors {
        let mut m = String::from_str("XPM: missing row ");
        push_decimal(&mut m, (nq - 1 - ncolors) as u64);
        return Err(m);
    }
    let ghost table_spec = color_table(q.skip(1), ncolors as nat, cpp as nat);
    let mut rgba: Vec<u8> = Vec::new();
    let mut y: usize = 0;
    while y < height
        invariant
            y <= height,
            d == data@,
            nq == q.len(),
            q == quoted_strings(d),
            width == xpm_width(d),
            height == xpm_height(d),
            ncolors == xpm_ncolors(d),
            cpp == xpm_cpp(d),
            height <= nq - 1 - ncolors,
            nq == pieces@.len() / 2,
            plen == pieces@.len(),
            width * height * 4 <= usize::MAX,
            height > 0 ==> width * cpp <= usize::MAX,
            forall|k: int| 0 <= k < q.len() ==> #[trigger] q[k] == pieces@[2 * k + 1]@,
            table_views(table@) == table_spec,
            table_spec == color_table(q.skip(1), ncolors as nat, cpp as nat),
            rgba@ == xpm_rgba(d).subrange(0, y * width * 4),
        decreases height - y,
    {
        assert(2 * (1 + ncolors + y) + 1 < pieces@.len());
        let line = &pieces[2 * (1 + ncolors + y) + 1];
        assert(line@ == q[1 + ncolors + y]);
        let mut x: usize = 0;
        while x < width
            invariant
                x <= width,
                y < height,
                d == data@,
                width == xpm_width(d),
                height == xpm_height(d),
                ncolors == xpm_ncolors(d),
                cpp == xpm_cpp(d),
                q == quoted_strings(d),
                line@ == q[1 + ncolors + y],
                width * height * 4 <= usize::MAX,
                width * cpp <= usize::MAX,
                table_views(table@) == table_spec,
                table_spec == color_table(q.skip(1), ncolors as nat, cpp as nat),
                rgba@ == xpm_rgba(d).subrange(0, (y * width + x) * 4),
            decreases width - x,
        {
            proof {
                assert(x * cpp + cpp <= width * cpp) by (nonlinear_arith)
                    requires x < width;
                assert((y * width + x + 1) * 4 <= width * height * 4) by (nonlinear_arith)
                    requires y < height, x < width;
            }
            let start = x * cpp;
            let key = if start + cpp <= line.len() {
                copy_span(line, start, start + cpp)
            } else {
                let k: Vec<u8> = vec![32u8];
                assert(k@ =~= seq![32u8]);
                k
            };
            assert(key@ == pixel_key(line@, x as nat, cpp as nat));
            let color = lookup(&table, &key);
            rgba.push(color[0]);
            rgba.push(color[1]);
            rgba.push(color[2]);
            rgba.push(color[3]);
            proof {
                let total = xpm_rgba(d);
                let base = (y * width + x) * 4;
                lemma_cell_index(y as int, width as int, x as int, 4, 0);
                lemma_cell_index(y as int, width as int, x as int, 4, 1);
                lemma_cell_index(y as int, width as int, x as int, 4, 2);
                lemma_cell_index(y as int, width as int, x as int, 4, 3);
                assert(total[base] == xpm_component(d, y as int, x as int, 0));
                assert(total[base + 1] == xpm_component(d, y as int, x as int, 1));
                assert(total[base + 2] == xpm_component(d, y as int, x as int, 2));
                assert(total[base + 3] == xpm_component(d, y as int, x as int, 3));
                assert(rgba@ =~= total.subrange(0, (y * width + x + 1) * 4));
            }
            x = x + 1;
        }
        proof {
            assert((y * width + width) * 4 == (y + 1) * width * 4) by (nonlinear_arith);
        }
        y = y + 1;
    }
    proof {
        assert(height * width * 4 == width * height * 4) by (nonlinear_arith);
        assert(rgba@ =~= xpm_rgba(d));
    }
    Ok(DecodedImage {
        pixels: RgbaPixels { width, height, data: rgba },
        format_name: String::from_str("XPM"),
        original_width: width as u32,
        original_height: height as u32,
    })
}


/// Whether `load_xpm` can take the UTF-8 text `data` (see `xpm_in_limits`).
pub fn xpm_within_limits(data: &[u8]) -> (r: bool)
    requires
        vstd::utf8::valid_utf8(data@),
    ensures
        r == xpm_in_limits(data@),
{
    let ghost d = data@;
    let pieces = split_at_byte(data, 34u8);
    let ghost q = quoted_strings(d);
    assert(forall|i: int| 0 <= i < q.len() ==> #[trigger] q[i] == pieces@[2 * i + 1]@) by {
        assert forall|i: int| 0 <= i < q.len() implies #[trigger] q[i] == pieces@[2 * i + 1]@ by {
            assert(views(pieces@)[2 * i + 1] == pieces@[2 * i + 1]@);
        }
    }
    let nq = pieces.len() / 2;
    if nq == 0 {
        return true;
    }
    proof {
        lemma_pieces_utf8(d);
        assert(views(pieces@)[1] == pieces@[1]@);
    }
    let hdr = crate::text::chars_of(text_of_utf8(pieces[1].as_slice()));
    let spans = word_spans(&hdr);
    if spans.len() < 4 {
        return true;
    }
    let w = parse_unsigned_span(&hdr, spans[0].0, spans[0].1, 10, usize::MAX as u64);
    let h = parse_unsigned_span(&hdr, spans[1].0, spans[1].1, 10, usize::MAX as u64);
    let nc = parse_unsigned_span(&hdr, spans[2].0, spans[2].1, 10, usize::MAX as u64);
    let cpp = parse_unsigned_span(&hdr, spans[3].0, spans[3].1, 10, usize::MAX as u64);
    match (w, h, nc, cpp) {
        (Some(w), Some(h), Some(nc), Some(cpp)) => {
            let nq64 = nq as u64;
            if nc > nq64 - 1 {
                return true;
            }
            let wide = w as u128;
            proof {
                assert(w * h <= 0xffff_ffff_ffff_ffffu128 * 0xffff_ffff_ffff_ffffu128) by (nonlinear_arith)
                    requires w <= 0xffff_ffff_ffff_ffffu128, h <= 0xffff_ffff_ffff_ffffu128;
                assert(w * cpp <= 0xffff_ffff_ffff_ffffu128 * 0xffff_ffff_ffff_ffffu128) by (nonlinear_arith)
                    requires w <= 0xffff_ffff_ffff_ffffu128, cpp <= 0xffff_ffff_ffff_ffffu128;
            }
            let area = wide * (h as u128);
            let size_ok = area <= (usize::MAX as u128) / 4;
            let keys_ok = !(h > 0 && nq64 - 1 - nc > 0) || wide * (cpp as u128) <= usize::MAX as u128;
            size_ok && keys_ok
        },
        _ => true,
    }
}

} // verus!
