//! The updater's decisions: comparing versions, reading a release
//! description, reading a checksum sidecar and checking a download.

use vstd::prelude::*;
use sha2::Digest;
use crate::text::{
    chars_of, trim, trim_span, find_char, lemma_find_char, find_from, all_digits, decimal_value,
    parse_digits, lines_of, next_line, lowercase_of, str_lowercase, str_eq, push_str, push_char,
    string_from,
};
use crate::natord::{digit_run, lemma_digit_run_bounds, collect_number, suffix_at};

verus! {

/// What the updater found about a newer release.
#[derive(Debug)]
pub struct UpdateInfo {
    pub latest_version: String,
    pub release_url: String,
    pub asset_name: Option<String>,
    pub asset_url: Option<String>,
    pub sha256_url: Option<String>,
    pub can_auto_install: bool,
}

/// State of an install started from the user interface.
#[derive(Debug)]
pub enum InstallStatus {
    Idle,
    Busy,
    Failed(String),
}

/// One asset of a release, as the releases API describes it (a field that
/// is absent or not text is `None`).
pub struct ReleaseAsset {
    pub name: Option<String>,
    pub download_url: Option<String>,
}

/// A release as the releases API describes it (a field that is absent or
/// not of the expected kind is `None`).
pub struct ReleaseData {
    pub tag_name: Option<String>,
    pub html_url: Option<String>,
    pub assets: Option<Vec<ReleaseAsset>>,
}

/// `s` without its leading `v` and `V` characters.
pub open spec fn strip_leading_v(s: Seq<char>) -> Seq<char>
    decreases s.len(),
{
    if s.len() > 0 && (s[0] == 'v' || s[0] == 'V') {
        strip_leading_v(s.skip(1))
    } else {
        s
    }
}

/// The pieces of `s` between occurrences of `sep` (that of `str::split`).
pub open spec fn fields(s: Seq<char>, sep: char) -> Seq<Seq<char>>
    decreases s.len(),
{
    let i = find_char(s, sep);
    if i >= s.len() {
        seq![s]
    } else {
        proof {
            lemma_find_char(s, sep);
        }
        seq![s.take(i as int)] + fields(s.skip(i as int + 1), sep)
    }
}

pub proof fn lemma_fields_nonempty(s: Seq<char>, sep: char)
    ensures
        fields(s, sep).len() >= 1,
        fields(s, sep)[0] == s.take(find_char(s, sep) as int),
{
    lemma_find_char(s, sep);
    if find_char(s, sep) >= s.len() {
        assert(s.take(s.len() as int) =~= s);
    }
}

/// The number a version field starts with: its leading digits read in
/// decimal, or 0 where there are none or they do not fit in a `u64`.
pub open spec fn part_number(part: Seq<char>) -> u64 {
    let d = part.take(digit_run(part) as int);
    if d.len() > 0 && decimal_value(d) <= u64::MAX {
        decimal_value(d) as u64
    } else {
        0
    }
}

/// The text of a version once trimmed and stripped of leading `v`s.
pub open spec fn version_text(v: Seq<char>) -> Seq<char> {
    strip_leading_v(trim(v))
}

/// Number of the `k`-th dot-separated field of `t`, 0 where it is missing.
pub open spec fn field_number(t: Seq<char>, k: int) -> u64 {
    if k < fields(t, '.').len() {
        part_number(fields(t, '.')[k])
    } else {
        0
    }
}

/// The (major, minor, patch) numbers of a version text.
pub open spec fn parsed_version(v: Seq<char>) -> (u64, u64, u64) {
    let t = version_text(v);
    (field_number(t, 0), field_number(t, 1), field_number(t, 2))
}

/// `a` is later than `b`, comparing major, then minor, then patch.
pub open spec fn version_after(a: (u64, u64, u64), b: (u64, u64, u64)) -> bool {
    a.0 > b.0 || (a.0 == b.0 && (a.1 > b.1 || (a.1 == b.1 && a.2 > b.2)))
}

/// "Newer than" is a strict order on versions: never true of a version and
/// itself, never both ways, and carried along a chain; of two versions
/// that differ, one is newer.
pub proof fn law_version_order(a: (u64, u64, u64), b: (u64, u64, u64), c: (u64, u64, u64))
    ensures
        !version_after(a, a),
        version_after(a, b) ==> !version_after(b, a),
        version_after(a, b) && version_after(b, c) ==> version_after(a, c),
        a != b ==> version_after(a, b) || version_after(b, a),
{
}

fn part_number_at(c: &Vec<char>, i: usize, j: usize) -> (r: u64)
    requires
        i <= j <= c.len(),
    ensures
        r == part_number(c@.subrange(i as int, j as int)),
{
    let ghost part = c@.subrange(i as int, j as int);
    let mut k = i;
    proof {
        lemma_digit_run_bounds(part);
    }
    while k < j && '0' <= c[k] && c[k] <= '9'
        invariant
            i <= k <= j,
            j <= c.len(),
            part == c@.subrange(i as int, j as int),
            k - i <= digit_run(part),
            digit_run(part) <= part.len(),
            forall|t: int| 0 <= t < digit_run(part) ==> crate::text::is_digit(#[trigger] part[t]),
            digit_run(part) < part.len() ==> !crate::text::is_digit(part[digit_run(part) as int]),
        decreases j - k,
    {
        proof {
            assert(part[k - i] == c@[k as int]);
            if k - i == digit_run(part) {
                assert(false);
            }
        }
        k = k + 1;
    }
    proof {
        if k - i < digit_run(part) {
            assert(part[k - i] == c@[k as int]);
        }
        assert(part.take(digit_run(part) as int) =~= c@.subrange(i as int, k as int));
    }
    match parse_digits(c, i, k, u64::MAX) {
        Some(x) => x,
        None => 0,
    }
}

/// Reads the field of `c[i..e]` up to the first `.`: its number, where the
/// next field starts, and whether there is one.
fn read_field(c: &Vec<char>, i: usize, e: usize) -> (r: (u64, usize, bool))
    requires
        i <= e <= c.len(),
    ensures
        r.0 == part_number(fields(c@.subrange(i as int, e as int), '.')[0]),
        r.2 ==> r.1 <= e && fields(c@.subrange(r.1 as int, e as int), '.') == fields(c@.subrange(i as int, e as int), '.').skip(1),
        !r.2 ==> fields(c@.subrange(i as int, e as int), '.').len() == 1,
{
    let ghost s = c@.subrange(i as int, e as int);
    let j = find_from(c, '.', i, e);
    proof {
        lemma_fields_nonempty(s, '.');
        lemma_find_char(s, '.');
        assert(s.take(j - i) =~= c@.subrange(i as int, j as int));
    }
    let value = part_number_at(c, i, j);
    if j < e {
        proof {
            assert(s.skip(j - i + 1) =~= c@.subrange(j + 1, e as int));
            assert(fields(s, '.') == seq![s.take(j - i)] + fields(s.skip(j - i + 1), '.'));
            assert(fields(s, '.').skip(1) =~= fields(s.skip(j - i + 1), '.'));
        }
        (value, j + 1, true)
    } else {
        (value, e, false)
    }
}

/// Parses a version such as `"v1.2.3"` into (major, minor, patch); missing
/// or unreadable fields count as 0.
pub fn parse_version(v: &str) -> (r: (u64, u64, u64))
    ensures
        r == parsed_version(v@),
{
    let c = chars_of(v);
    let (a, e) = trim_span(&c, 0, c.len());
    let mut i = a;
    proof {
        assert(c@.subrange(0, c@.len() as int) =~= c@);
    }
    while i < e && (c[i] == 'v' || c[i] == 'V')
        invariant
            a <= i <= e,
            e <= c.len(),
            version_text(v@) == strip_leading_v(c@.subrange(i as int, e as int)),
        decreases e - i,
    {
        assert(c@.subrange(i + 1, e as int) =~= c@.subrange(i as int, e as int).skip(1));
        i = i + 1;
    }
    let ghost t = c@.subrange(i as int, e as int);
    assert(version_text(v@) == t);
    let (major, i1, more1) = read_field(&c, i, e);
    let ghost f = fields(t, '.');
    proof {
        lemma_fields_nonempty(t, '.');
    }
    if !more1 {
        return (major, 0, 0);
    }
    let (minor, i2, more2) = read_field(&c, i1, e);
    proof {
        lemma_fields_nonempty(c@.subrange(i1 as int, e as int), '.');
        assert(f.skip(1)[0] == f[1]);
    }
    if !more2 {
        return (major, minor, 0);
    }
    let (patch, _i3, _more3) = read_field(&c, i2, e);
    proof {
        lemma_fields_nonempty(c@.subrange(i2 as int, e as int), '.');
        assert(f.skip(1).skip(1)[0] == f[2]);
    }
    (major, minor, patch)
}

/// Whether version `latest` is later than version `current`.
pub fn version_newer(latest: &str, current: &str) -> (r: bool)
    ensures
        r == version_after(parsed_version(latest@), parsed_version(current@)),
{
    let a = parse_version(latest);
    let b = parse_version(current);
    a.0 > b.0 || (a.0 == b.0 && (a.1 > b.1 || (a.1 == b.1 && a.2 > b.2)))
}


/// The text of an optional field, or the empty text.
pub open spec fn text_or_empty(o: Option<String>) -> Seq<char> {
    match o {
        Some(s) => s@,
        None => Seq::empty(),
    }
}

/// `s` ends with `t`.
pub open spec fn ends_with(s: Seq<char>, t: Seq<char>) -> bool {
    s.len() >= t.len() && s.skip(s.len() - t.len()) == t
}

/// Index of the first element of `s` that satisfies `pred`, or -1.
pub open spec fn first_match<A>(s: Seq<A>, pred: spec_fn(A) -> bool) -> int
    decreases s.len(),
{
    if s.len() == 0 {
        -1
    } else if pred(s[0]) {
        0
    } else {
        let r = first_match(s.skip(1), pred);
        if r < 0 {
            -1
        } else {
            r + 1
        }
    }
}

pub proof fn lemma_first_match<A>(s: Seq<A>, pred: spec_fn(A) -> bool)
    ensures
        -1 <= first_match(s, pred) < s.len(),
        first_match(s, pred) >= 0 ==> pred(s[first_match(s, pred)]),
        forall|k: int| 0 <= k < s.len() && (first_match(s, pred) < 0 || k < first_match(s, pred)) ==> !pred(#[trigger] s[k]),
    decreases s.len(),
{
    if s.len() > 0 && !pred(s[0]) {
        lemma_first_match(s.skip(1), pred);
        assert forall|k: int| 0 <= k < s.len() && (first_match(s, pred) < 0 || k < first_match(s, pred)) implies !pred(#[trigger] s[k]) by {
            if k > 0 {
                assert(s.skip(1)[k - 1] == s[k]);
            }
        }
    }
}

/// The repository whose releases the updater follows.
pub open spec fn repository_path() -> Seq<char> {
    "Sin213/cove-image-viewer"@
}

/// The version that a release's tag names (the tag without leading `v`s).
pub open spec fn release_version(rel: ReleaseData) -> Seq<char> {
    strip_leading_v(text_or_empty(rel.tag_name))
}

/// The release is newer than `current` (and names a version at all).
pub open spec fn offers_update(rel: ReleaseData, current: Seq<char>) -> bool {
    release_version(rel).len() > 0 && version_after(parsed_version(release_version(rel)), parsed_version(current))
}

/// The release page: the API's `html_url`, or the tag's page.
pub open spec fn release_page(rel: ReleaseData) -> Seq<char> {
    match rel.html_url {
        Some(u) => u@,
        None => "https://github.com/"@ + repository_path() + "/releases/tag/"@ + text_or_empty(rel.tag_name),
    }
}

/// The asset is an AppImage (its name, lower-cased, ends in `.appimage`).
pub open spec fn is_appimage(a: ReleaseAsset) -> bool {
    ends_with(lowercase_of(text_or_empty(a.name)), ".appimage"@)
}

/// The asset is named `name` once lower-cased.
pub open spec fn named(a: ReleaseAsset, name: Seq<char>) -> bool {
    lowercase_of(text_or_empty(a.name)) == name
}

/// The assets of a release (none where the API gave no list).
pub open spec fn release_assets(rel: ReleaseData) -> Seq<ReleaseAsset> {
    match rel.assets {
        Some(v) => v@,
        None => Seq::empty(),
    }
}

/// Selects AppImage assets.
pub open spec fn appimage_pred() -> spec_fn(ReleaseAsset) -> bool {
    |a: ReleaseAsset| is_appimage(a)
}

/// Selects assets named `name` once lower-cased.
pub open spec fn named_pred(name: Seq<char>) -> spec_fn(ReleaseAsset) -> bool {
    |a: ReleaseAsset| named(a, name)
}

/// What `evaluate_release` reports of a release that offers an update.
pub open spec fn update_matches(info: UpdateInfo, rel: ReleaseData, appimage_install: bool) -> bool {
    let assets = release_assets(rel);
    let ai = first_match(assets, appimage_pred());
    &&& info.latest_version@ == release_version(rel)
    &&& info.release_url@ == release_page(rel)
    &&& if ai < 0 {
        info.asset_name.is_none() && info.asset_url.is_none() && info.sha256_url.is_none()
    } else {
        let name = text_or_empty(assets[ai].name);
        let sidecar = lowercase_of(name + ".sha256"@);
        let si = first_match(assets, named_pred(sidecar));
        &&& info.asset_name matches Some(n) && n@ == name
        &&& match assets[ai].download_url {
            Some(u) => info.asset_url matches Some(x) && x@ == u@,
            None => info.asset_url.is_none(),
        }
        &&& if si < 0 {
            info.sha256_url.is_none()
        } else {
            match assets[si].download_url {
                Some(u) => info.sha256_url matches Some(x) && x@ == u@,
                None => info.sha256_url.is_none(),
            }
        }
    }
    &&& info.can_auto_install == (appimage_install && info.asset_url.is_some() && info.sha256_url.is_some())
}

fn copy_opt(o: &Option<String>) -> (r: Option<String>)
    ensures
        match o {
            Some(s) => r matches Some(x) && x@ == s@,
            None => r.is_none(),
        },
{
    match o {
        Some(s) => Some(s.clone()),
        None => None,
    }
}

fn text_of(o: &Option<String>) -> (r: String)
    ensures
        r@ == text_or_empty(*o),
{
    match o {
        Some(s) => s.clone(),
        None => {
            proof {
                reveal_strlit("");
                assert(""@ =~= Seq::<char>::empty());
            }
            String::from_str("")
        },
    }
}

/// `s` ends with `t`.
pub fn ends_with_text(s: &str, t: &str) -> (r: bool)
    ensures
        r == ends_with(s@, t@),
{
    let sv = chars_of(s);
    let tv = chars_of(t);
    if sv.len() < tv.len() {
        return false;
    }
    let off = sv.len() - tv.len();
    let mut k: usize = 0;
    while k < tv.len()
        invariant
            sv@ == s@,
            tv@ == t@,
            off == sv.len() - tv.len(),
            k <= tv.len(),
            forall|u: int| 0 <= u < k ==> sv@[off + u] == tv@[u],
        decreases tv.len() - k,
    {
        if sv[off + k] != tv[k] {
            assert(s@.skip(off as int)[k as int] == sv@[off + k]);
            return false;
        }
        k = k + 1;
    }
    assert(s@.skip(off as int) =~= t@);
    true
}

fn find_appimage(assets: &Vec<ReleaseAsset>) -> (r: Option<usize>)
    ensures
        match r {
            Some(k) => first_match(assets@, appimage_pred()) == k,
            None => first_match(assets@, appimage_pred()) < 0,
        },
{
    let ghost pred = appimage_pred();
    proof {
        lemma_first_match(assets@, pred);
    }
    let mut k: usize = 0;
    while k < assets.len()
        invariant
            k <= assets.len(),
            pred == appimage_pred(),
            forall|u: int| 0 <= u < k ==> !pred(#[trigger] assets@[u]),
            -1 <= first_match(assets@, pred) < assets@.len(),
            first_match(assets@, pred) >= 0 ==> pred(assets@[first_match(assets@, pred)]),
            forall|u: int| 0 <= u < assets@.len() && (first_match(assets@, pred) < 0 || u < first_match(assets@, pred)) ==> !pred(#[trigger] assets@[u]),
        decreases assets.len() - k,
    {
        let name = text_of(&assets[k].name);
        let lower = str_lowercase(name.as_str());
        proof {
            reveal_strlit(".appimage");
        }
        if ends_with_text(lower.as_str(), ".appimage") {
            assert(pred(assets@[k as int]));
            return Some(k);
        }
        k = k + 1;
    }
    None
}

fn find_named(assets: &Vec<ReleaseAsset>, target: &String) -> (r: Option<usize>)
    ensures
        match r {
            Some(k) => first_match(assets@, named_pred(target@)) == k,
            None => first_match(assets@, named_pred(target@)) < 0,
        },
{
    let ghost pred = named_pred(target@);
    proof {
        lemma_first_match(assets@, pred);
    }
    let mut k: usize = 0;
    while k < assets.len()
        invariant
            k <= assets.len(),
            pred == named_pred(target@),
            forall|u: int| 0 <= u < k ==> !pred(#[trigger] assets@[u]),
            -1 <= first_match(assets@, pred) < assets@.len(),
            first_match(assets@, pred) >= 0 ==> pred(assets@[first_match(assets@, pred)]),
            forall|u: int| 0 <= u < assets@.len() && (first_match(assets@, pred) < 0 || u < first_match(assets@, pred)) ==> !pred(#[trigger] assets@[u]),
        decreases assets.len() - k,
    {
        let name = text_of(&assets[k].name);
        let lower = str_lowercase(name.as_str());
        if str_eq(lower.as_str(), target.as_str()) {
            assert(pred(assets@[k as int]));
            return Some(k);
        }
        k = k + 1;
    }
    None
}

/// Decides what a release offers: `None` unless it names a version later
/// than `current`; otherwise the version, the release page, and the
/// AppImage asset with its `.sha256` sidecar where the release has them.
/// `appimage_install` tells whether this copy runs as an AppImage.
pub fn evaluate_release(rel: &ReleaseData, current: &str, appimage_install: bool) -> (r: Option<UpdateInfo>)
    ensures
        match r {
            Some(info) => offers_update(*rel, current@) && update_matches(info, *rel, appimage_install),
            None => !offers_update(*rel, current@),
        },
{
    let tag = text_of(&rel.tag_name);
    let tv = chars_of(tag.as_str());
    let mut i: usize = 0;
    proof {
        assert(tv@.skip(0) =~= tv@);
    }
    while i < tv.len() && (tv[i] == 'v' || tv[i] == 'V')
        invariant
            i <= tv.len(),
            tv@ == text_or_empty(rel.tag_name),
            release_version(*rel) == strip_leading_v(tv@.skip(i as int)),
        decreases tv.len() - i,
    {
        assert(tv@.skip(i + 1) =~= tv@.skip(i as int).skip(1));
        i = i + 1;
    }
    let mut rest: Vec<char> = Vec::new();
    let mut k = i;
    while k < tv.len()
        invariant
            i <= k <= tv.len(),
            rest@ == tv@.subrange(i as int, k as int),
        decreases tv.len() - k,
    {
        rest.push(tv[k]);
        k = k + 1;
    }
    assert(rest@ =~= tv@.skip(i as int));
    let latest = string_from(&rest);
    if rest.len() == 0 || !version_newer(latest.as_str(), current) {
        return None;
    }
    let release_url = match &rel.html_url {
        Some(u) => u.clone(),
        None => {
            let mut s = String::from_str("https://github.com/");
            push_str(&mut s, "Sin213/cove-image-viewer");
            push_str(&mut s, "/releases/tag/");
            push_str(&mut s, tag.as_str());
            s
        },
    };
    let mut asset_name: Option<String> = None;
    let mut asset_url: Option<String> = None;
    let mut sha256_url: Option<String> = None;
    match &rel.assets {
        Some(assets) => {
            match find_appimage(assets) {
                Some(ai) => {
                    proof {
                        lemma_first_match(assets@, appimage_pred());
                    }
                    let name = text_of(&assets[ai].name);
                    let mut sidecar_raw = name.clone();
                    push_str(&mut sidecar_raw, ".sha256");
                    let sidecar = str_lowercase(sidecar_raw.as_str());
                    proof {
                        lemma_first_match(assets@, named_pred(sidecar@));
                    }
                    match find_named(assets, &sidecar) {
                        Some(si) => {
                            sha256_url = copy_opt(&assets[si].download_url);
                        },
                        None => {},
                    }
                    asset_url = copy_opt(&assets[ai].download_url);
                    asset_name = Some(name);
                },
                None => {},
            }
        },
        None => {
            proof {
                assert(first_match(Seq::<ReleaseAsset>::empty(), appimage_pred()) == -1);
            }
        },
    }
    let can_auto_install = appimage_install && asset_url.is_some() && sha256_url.is_some();
    Some(UpdateInfo { latest_version: latest, release_url, asset_name, asset_url, sha256_url, can_auto_install })
}


/// `c` is an ASCII hexadecimal digit.
pub open spec fn is_hex(c: char) -> bool {
    ('0' <= c && c <= '9') || ('a' <= c && c <= 'f') || ('A' <= c && c <= 'F')
}

/// The first white-space-separated word of `l`.
pub open spec fn first_word(l: Seq<char>) -> Seq<char> {
    l.take(first_ws(l) as int)
}

/// Index of the first white-space character of `l`, or its length.
pub open spec fn first_ws(l: Seq<char>) -> nat
    decreases l.len(),
{
    if l.len() == 0 {
        0
    } else if crate::text::is_ws(l[0]) {
        0
    } else {
        1 + first_ws(l.skip(1))
    }
}

/// The text `format!("{:?}", s)` gives for a string: quoted, with escapes.
pub uninterp spec fn debug_text(s: Seq<char>) -> Seq<char>;

/// Formats `s` with `{:?}` (that of `<str as Debug>::fmt`).
/// Stated: the result is `debug_text(s)`.
#[verifier::external_body]
fn debug_quote(s: &str) -> (r: String)
    ensures
        r@ == debug_text(s@),
{
    format!("{s:?}")
}

/// What a sidecar's first non-blank (trimmed) line `l` gives: its first
/// word in lower case when that is 64 hex digits, else an error naming it.
pub open spec fn judge_line(l: Seq<char>) -> Result<Seq<char>, Seq<char>> {
    let token = first_word(l);
    if token.len() == 64 && forall|k: int| 0 <= k < 64 ==> is_hex(#[trigger] token[k]) {
        Ok(token.map_values(|c: char| crate::text::ascii_lower(c)))
    } else {
        Err("unrecognized sidecar contents: "@ + debug_text(l))
    }
}

/// The verdict on the lines `ls` of a sidecar: that of the first line that
/// is not blank, or "empty sidecar".
pub open spec fn sidecar_verdict(ls: Seq<Seq<char>>) -> Result<Seq<char>, Seq<char>>
    decreases ls.len(),
{
    if ls.len() == 0 {
        Err("empty sidecar"@)
    } else if trim(ls[0]).len() == 0 {
        sidecar_verdict(ls.skip(1))
    } else {
        judge_line(trim(ls[0]))
    }
}

fn judge_span(v: &Vec<char>, a: usize, b: usize) -> (r: Result<String, String>)
    requires
        a < b <= v.len(),
    ensures
        match (r, judge_line(v@.subrange(a as int, b as int))) {
            (Ok(x), Ok(y)) => x@ == y,
            (Err(x), Err(y)) => x@ == y,
            _ => false,
        },
{
    let ghost l = v@.subrange(a as int, b as int);
    let mut e = a;
    assert(l.skip(0) =~= l);
    while e < b && !crate::text::is_ws_char(v[e])
        invariant
            a <= e <= b,
            b <= v.len(),
            l == v@.subrange(a as int, b as int),
            e - a <= first_ws(l),
            first_ws(l) == (e - a) + first_ws(l.skip(e - a)),
        decreases b - e,
    {
        proof {
            assert(l.skip(e - a)[0] == v@[e as int]);
            assert(l.skip(e - a).skip(1) =~= l.skip(e - a + 1));
        }
        e = e + 1;
    }
    proof {
        if e < b {
            assert(l.skip(e - a)[0] == v@[e as int]);
        } else {
            assert(l.skip(e - a).len() == 0);
        }
        assert(first_word(l) =~= v@.subrange(a as int, e as int));
    }
    let ghost token = v@.subrange(a as int, e as int);
    let mut ok = e - a == 64;
    let mut k = a;
    while ok && k < e
        invariant
            a <= k <= e,
            e <= v.len(),
            token == v@.subrange(a as int, e as int),
            ok ==> e - a == 64,
            ok ==> forall|t: int| 0 <= t < k - a ==> is_hex(#[trigger] token[t]),
            !ok ==> !(token.len() == 64 && forall|t: int| 0 <= t < 64 ==> is_hex(#[trigger] token[t])),
        decreases e - k,
    {
        let c = v[k];
        assert(token[k - a] == c);
        if !(('0' <= c && c <= '9') || ('a' <= c && c <= 'f') || ('A' <= c && c <= 'F')) {
            ok = false;
        }
        k = k + 1;
    }
    if ok {
        let mut out = String::new();
        let mut t = a;
        while t < e
            invariant
                a <= t <= e,
                e <= v.len(),
                token == v@.subrange(a as int, e as int),
                out@ == token.subrange(0, t - a).map_values(|c: char| crate::text::ascii_lower(c)),
            decreases e - t,
        {
            let c = v[t];
            let lc = if 'A' <= c && c <= 'Z' { ((c as u32) + 32) as u8 as char } else { c };
            proof {
                assert(token[t - a] == c);
                assert(token.subrange(0, t + 1 - a).map_values(|c: char| crate::text::ascii_lower(c))
                    =~= token.subrange(0, t - a).map_values(|c: char| crate::text::ascii_lower(c)).push(crate::text::ascii_lower(c)));
                if 'A' <= c && c <= 'Z' {
                    assert(((c as u32) + 32) as u8 as char == ((c as int) + 32) as char);
                }
            }
            push_char(&mut out, lc);
            t = t + 1;
        }
        assert(token.subrange(0, e - a) =~= token);
        Ok(out)
    } else {
        let mut msg = String::from_str("unrecognized sidecar contents: ");
        let line = string_from(&slice_chars(v, a, b));
        let quoted = debug_quote(line.as_str());
        push_str(&mut msg, quoted.as_str());
        Err(msg)
    }
}

/// The characters of `v` in `[a, b)`.
pub fn slice_chars(v: &Vec<char>, a: usize, b: usize) -> (r: Vec<char>)
    requires
        a <= b <= v.len(),
    ensures
        r@ == v@.subrange(a as int, b as int),
{
    let mut r: Vec<char> = Vec::new();
    let mut k = a;
    while k < b
        invariant
            a <= k <= b,
            b <= v.len(),
            r@ == v@.subrange(a as int, k as int),
        decreases b - k,
    {
        r.push(v[k]);
        k = k + 1;
    }
    r
}

/// Reads the expected SHA-256 from a `.sha256` sidecar: the first word of
/// its first non-blank line, which must be 64 hex digits (returned in lower
/// case).
pub fn parse_sidecar(text: &str) -> (r: Result<String, String>)
    ensures
        match (r, sidecar_verdict(lines_of(text@))) {
            (Ok(x), Ok(y)) => x@ == y,
            (Err(x), Err(y)) => x@ == y,
            _ => false,
        },
{
    let v = chars_of(text);
    let mut pos: usize = 0;
    proof {
        assert(v@.skip(0) =~= v@);
    }
    while pos < v.len()
        invariant
            pos <= v.len(),
            v@ == text@,
            sidecar_verdict(lines_of(text@)) == sidecar_verdict(lines_of(v@.skip(pos as int))),
        decreases v.len() - pos,
    {
        let (a, b, next) = next_line(&v, pos);
        let (ta, tb) = trim_span(&v, a, b);
        proof {
            let ls = lines_of(v@.skip(pos as int));
            assert(ls[0] == v@.subrange(a as int, b as int));
            assert(ls.skip(1) =~= lines_of(v@.skip(next as int)));
        }
        if ta < tb {
            return judge_span(&v, ta, tb);
        }
        pos = next;
    }
    proof {
        assert(v@.skip(pos as int).len() == 0);
        reveal_strlit("empty sidecar");
    }
    Err(String::from_str("empty sidecar"))
}

/// The SHA-256 digest of `data` (32 bytes).
pub uninterp spec fn sha256_spec(data: Seq<u8>) -> Seq<u8>;

/// Calls `sha2::Sha256::digest`.
/// Stated: the result is `sha256_spec(data)` and has 32 bytes, the size of
/// a SHA-256 digest.
#[verifier::external_body]
fn sha256_digest(data: &[u8]) -> (r: Vec<u8>)
    ensures
        r@ == sha256_spec(data@),
        r@.len() == 32,
{
    sha2::Sha256::digest(data).to_vec()
}

/// The lower-case hex digit for `d < 16`.
pub open spec fn hex_char(d: nat) -> char {
    if d < 10 {
        (('0' as int) + d) as char
    } else {
        (('a' as int) + d - 10) as char
    }
}

/// Lower-case hex text of bytes, two digits per byte (that of `{:x}`).
pub open spec fn hex_text(b: Seq<u8>) -> Seq<char>
    decreases b.len(),
{
    if b.len() == 0 {
        Seq::empty()
    } else {
        hex_text(b.drop_last()) + seq![hex_char((b.last() / 16) as nat), hex_char((b.last() % 16) as nat)]
    }
}

fn hex_digit(d: u8) -> (c: char)
    requires
        d < 16,
    ensures
        c == hex_char(d as nat),
{
    if d < 10 {
        (48u8 + d) as char
    } else {
        (87u8 + d) as char
    }
}

/// Lower-case hex text of `b`.
pub fn hex_lower(b: &[u8]) -> (s: String)
    ensures
        s@ == hex_text(b@),
{
    let mut s = String::new();
    let mut k: usize = 0;
    while k < b.len()
        invariant
            k <= b.len(),
            s@ == hex_text(b@.subrange(0, k as int)),
        decreases b.len() - k,
    {
        let x = b[k];
        proof {
            assert(b@.subrange(0, k + 1).drop_last() =~= b@.subrange(0, k as int));
        }
        push_char(&mut s, hex_digit(x / 16));
        push_char(&mut s, hex_digit(x % 16));
        k = k + 1;
    }
    assert(b@.subrange(0, b@.len() as int) =~= b@);
    s
}

/// The SHA-256 of `data` as lower-case hex.
pub fn sha256_hex(data: &[u8]) -> (s: String)
    ensures
        s@ == hex_text(sha256_spec(data@)),
        s@.len() == 64,
{
    let d = sha256_digest(data);
    proof {
        lemma_hex_len(d@);
    }
    hex_lower(d.as_slice())
}

proof fn lemma_hex_len(b: Seq<u8>)
    ensures
        hex_text(b).len() == 2 * b.len(),
    decreases b.len(),
{
    if b.len() > 0 {
        lemma_hex_len(b.drop_last());
    }
}

/// Checks a download against the expected SHA-256 (lower-case hex): `Ok`
/// when they agree, else an error naming both.
pub fn verify_download(data: &[u8], expected: &str) -> (r: Result<(), String>)
    ensures
        r is Ok <==> hex_text(sha256_spec(data@)) == expected@,
        r matches Err(m) ==> m@ == "sha256 mismatch: expected "@ + expected@ + ", got "@ + hex_text(sha256_spec(data@)),
{
    let actual = sha256_hex(data);
    if str_eq(actual.as_str(), expected) {
        Ok(())
    } else {
        let mut msg = String::from_str("sha256 mismatch: expected ");
        push_str(&mut msg, expected);
        push_str(&mut msg, ", got ");
        push_str(&mut msg, actual.as_str());
        Err(msg)
    }
}

/// What an install needs from an update: the asset's name, its URL and its
/// sidecar's URL; `None` when one of them is missing.
pub fn install_request(info: &UpdateInfo) -> (r: Option<(String, String, String)>)
    ensures
        match r {
            Some((n, u, s)) => {
                &&& info.asset_name matches Some(n0) && n@ == n0@
                &&& info.asset_url matches Some(u0) && u@ == u0@
                &&& info.sha256_url matches Some(s0) && s@ == s0@
            },
            None => info.asset_name.is_none() || info.asset_url.is_none() || info.sha256_url.is_none(),
        },
{
    match (&info.asset_name, &info.asset_url, &info.sha256_url) {
        (Some(n), Some(u), Some(s)) => Some((n.clone(), u.clone(), s.clone())),
        _ => None,
    }
}

/// The updater's state as the user interface sees it: what the release
/// check found, how an install is going, and whether the notice was
/// dismissed.
pub struct Updater {
    pub info: Option<UpdateInfo>,
    pub status: InstallStatus,
    pub dismissed: bool,
}

impl Updater {
    /// The state when the release check starts: nothing found, no install
    /// running, nothing dismissed.
    pub fn start() -> (u: Updater)
        ensures
            u.info.is_none(),
            u.status is Idle,
            !u.dismissed,
    {
        Updater { info: None, status: InstallStatus::Idle, dismissed: false }
    }

    /// Records what the release check found.
    pub fn release_found(&mut self, info: UpdateInfo)
        ensures
            final(self).info == Some(info),
            final(self).status == old(self).status,
            final(self).dismissed == old(self).dismissed,
    {
        self.info = Some(info);
    }

    /// Starts an install of `info`: where its asset name, asset URL and
    /// sidecar URL are all known, the state becomes busy and the three are
    /// handed back for the download; otherwise nothing changes.
    pub fn install(&mut self, info: &UpdateInfo) -> (r: Option<(String, String, String)>)
        ensures
            match r {
                Some((n, u, s)) => {
                    &&& info.asset_name matches Some(n0) && n@ == n0@
                    &&& info.asset_url matches Some(u0) && u@ == u0@
                    &&& info.sha256_url matches Some(s0) && s@ == s0@
                    &&& final(self).status is Busy
                },
                None => {
                    &&& info.asset_name.is_none() || info.asset_url.is_none() || info.sha256_url.is_none()
                    &&& final(self).status == old(self).status
                },
            },
            final(self).info == old(self).info,
            final(self).dismissed == old(self).dismissed,
    {
        let r = install_request(info);
        if r.is_some() {
            self.status = InstallStatus::Busy;
        }
        r
    }

    /// Records that the install failed with `error`.
    pub fn install_failed(&mut self, error: String)
        ensures
            final(self).status matches InstallStatus::Failed(e) && e == error,
            final(self).info == old(self).info,
            final(self).dismissed == old(self).dismissed,
    {
        self.status = InstallStatus::Failed(error);
    }

    /// Hides the update notice.
    pub fn dismiss(&mut self)
        ensures
            final(self).dismissed,
            final(self).info == old(self).info,
            final(self).status == old(self).status,
    {
        self.dismissed = true;
    }
}

/// The name under which a download is staged next to its target:
/// `.{asset_name}.part`.
pub fn staging_name(asset_name: &str) -> (r: String)
    ensures
        r@ == seq!['.'] + asset_name@ + ".part"@,
{
    let mut s = String::new();
    push_char(&mut s, '.');
    push_str(&mut s, asset_name);
    push_str(&mut s, ".part");
    s
}

} // verus!
