//! File-name helpers: the extension of a file name and the list of
//! extensions that the viewer opens.

use vstd::prelude::*;
use crate::text::{chars_of, string_from, str_eq, str_lowercase, lowercase_of};

verus! {

/// Index of the last `.` in `s`, or -1 where there is none.
pub open spec fn last_dot(s: Seq<char>) -> int
    decreases s.len(),
{
    if s.len() == 0 {
        -1
    } else if s.last() == '.' {
        s.len() - 1
    } else {
        last_dot(s.drop_last())
    }
}

pub proof fn lemma_last_dot(s: Seq<char>)
    ensures
        -1 <= last_dot(s) < s.len(),
        last_dot(s) >= 0 ==> s[last_dot(s)] == '.',
        forall|k: int| last_dot(s) < k < s.len() ==> s[k] != '.',
    decreases s.len(),
{
    if s.len() > 0 && s.last() != '.' {
        lemma_last_dot(s.drop_last());
        assert forall|k: int| last_dot(s) < k < s.len() implies s[k] != '.' by {
            if k < s.len() - 1 {
                assert(s.drop_last()[k] == s[k]);
            }
        }
    }
}

/// The extension of a file name, as `Path::extension` gives it: the text
/// after the last `.`, where that dot is not the first character; none for
/// `..`.
pub open spec fn file_extension(name: Seq<char>) -> Option<Seq<char>> {
    if name == seq!['.', '.'] {
        None
    } else if last_dot(name) <= 0 {
        None
    } else {
        Some(name.skip(last_dot(name) + 1))
    }
}

/// The extension of a file name, or the empty text where it has none.
pub open spec fn extension_text(name: Seq<char>) -> Seq<char> {
    match file_extension(name) {
        Some(e) => e,
        None => Seq::empty(),
    }
}

/// The extension of the file name `name` (see `file_extension`).
pub fn extension_of(name: &str) -> (r: Option<String>)
    ensures
        match r {
            Some(e) => file_extension(name@) == Some(e@),
            None => file_extension(name@).is_none(),
        },
{
    let v = chars_of(name);
    let n = v.len();
    if n == 2 && v[0] == '.' && v[1] == '.' {
        assert(v@ =~= seq!['.', '.']);
        return None;
    }
    let mut k: usize = n;
    while k > 0 && v[k - 1] != '.'
        invariant
            k <= n,
            n == v@.len(),
            forall|t: int| k <= t < n ==> v@[t] != '.',
        decreases k,
    {
        k = k - 1;
    }
    proof {
        lemma_last_dot(v@);
        if k > 0 {
            assert(v@[k - 1] == '.');
        }
        assert(last_dot(v@) == k - 1) by {
            if last_dot(v@) > k - 1 {
                assert(v@[last_dot(v@)] == '.');
            }
        }
    }
    if k <= 1 {
        return None;
    }
    let mut ext: Vec<char> = Vec::new();
    let mut t: usize = k;
    while t < n
        invariant
            k <= t <= n,
            n == v@.len(),
            ext@ == v@.subrange(k as int, t as int),
        decreases n - t,
    {
        ext.push(v[t]);
        t = t + 1;
    }
    assert(ext@ =~= v@.skip(k as int));
    Some(string_from(&ext))
}

/// The extensions (in lower case) of the formats the viewer opens.
pub open spec fn supported_list() -> Seq<&'static str> {
    seq![
        "jpg", "jpeg", "jpe", "jfif", "png", "apng", "gif", "bmp", "dib", "tif", "tiff", "webp",
        "ico", "cur", "ppm", "pgm", "pbm", "pam", "pnm", "dds", "tga", "ff", "exr", "qoi", "hdr",
        "svg", "svgz", "jxl", "psd", "psb", "pcx",
        "cr2", "nef", "arw", "dng", "orf", "rw2", "raf", "pef", "srw", "mrw", "erf", "kdc", "dcr",
        "raw", "3fr", "ari", "bay", "cap", "crw", "dcs", "drf", "fff", "iiq", "mos", "mef", "nrw",
        "ptx", "pxn", "r3d", "rwl", "rwz", "sr2", "srf", "x3f",
        "heic", "heif", "avif", "hif",
        "jp2", "j2k", "j2c", "jpx", "jpf", "jpm",
        "xbm", "xpm", "sgi", "rgb", "rgba", "bw", "int", "inta",
    ]
}

/// `e` is one of the supported extensions.
pub open spec fn is_supported_extension(e: Seq<char>) -> bool {
    exists|k: int| 0 <= k < supported_list().len() && (#[trigger] supported_list()[k])@ == e
}

/// A file of this name is one the viewer opens: its extension, lower-cased,
/// is in the supported list.
pub open spec fn is_supported_name(name: Seq<char>) -> bool {
    match file_extension(name) {
        Some(e) => is_supported_extension(lowercase_of(e)),
        None => false,
    }
}

fn supported_extensions() -> (v: Vec<&'static str>)
    ensures
        v@ == supported_list(),
{
    vec![
        "jpg", "jpeg", "jpe", "jfif", "png", "apng", "gif", "bmp", "dib", "tif", "tiff", "webp",
        "ico", "cur", "ppm", "pgm", "pbm", "pam", "pnm", "dds", "tga", "ff", "exr", "qoi", "hdr",
        "svg", "svgz", "jxl", "psd", "psb", "pcx",
        "cr2", "nef", "arw", "dng", "orf", "rw2", "raf", "pef", "srw", "mrw", "erf", "kdc", "dcr",
        "raw", "3fr", "ari", "bay", "cap", "crw", "dcs", "drf", "fff", "iiq", "mos", "mef", "nrw",
        "ptx", "pxn", "r3d", "rwl", "rwz", "sr2", "srf", "x3f",
        "heic", "heif", "avif", "hif",
        "jp2", "j2k", "j2c", "jpx", "jpf", "jpm",
        "xbm", "xpm", "sgi", "rgb", "rgba", "bw", "int", "inta",
    ]
}

/// `e` is in `list`.
pub fn contains_str(list: &Vec<&'static str>, e: &str) -> (r: bool)
    ensures
        r == exists|k: int| 0 <= k < list@.len() && (#[trigger] list@[k])@ == e@,
{
    let mut k: usize = 0;
    while k < list.len()
        invariant
            k <= list.len(),
            forall|t: int| 0 <= t < k ==> (#[trigger] list@[t])@ != e@,
        decreases list.len() - k,
    {
        if str_eq(list[k], e) {
            return true;
        }
        k = k + 1;
    }
    false
}

/// Whether the viewer opens a file of this name.
pub fn is_supported(name: &str) -> (r: bool)
    ensures
        r == is_supported_name(name@),
{
    match extension_of(name) {
        Some(e) => {
            let lower = str_lowercase(e.as_str());
            let list = supported_extensions();
            contains_str(&list, lower.as_str())
        },
        None => false,
    }
}

} // verus!
