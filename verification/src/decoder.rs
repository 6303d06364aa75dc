//! Format dispatch and the decoders that work on a file's bytes: which
//! decoder an extension selects, format names, the fallback message, the
//! general image decoder (by extension), the HEIF decoder, how a decoder's
//! outcome becomes an image, the embedded JPEG of camera RAW files, and the conversion of
//! JPEG 2000 and PCX samples to RGBA.

use vstd::prelude::*;
use crate::pixels::{RgbaPixels, DecodedImage, lemma_cell_index};
use crate::text::{lowercase_of, uppercase_of, str_lowercase, str_uppercase, str_eq, push_str};

verus! {

/// The decoder the viewer tries first for a file.
#[derive(Clone, Copy, Debug, PartialEq, Eq, Structural)]
pub enum DecoderKind {
    Heif,
    Svg,
    Jxl,
    Psd,
    Raw,
    Pcx,
    Jp2,
    Xbm,
    Xpm,
    Sgi,
    ImageCrate,
}

/// The extensions, lower case, that select each dedicated decoder.
pub open spec fn extensions_of(k: DecoderKind) -> Seq<&'static str> {
    match k {
        DecoderKind::Heif => seq!["heic", "heif", "avif", "hif"],
        DecoderKind::Svg => seq!["svg", "svgz"],
        DecoderKind::Jxl => seq!["jxl"],
        DecoderKind::Psd => seq!["psd", "psb"],
        DecoderKind::Raw => seq![
            "cr2", "nef", "arw", "dng", "orf", "rw2", "raf", "pef", "srw", "mrw", "erf", "kdc", "dcr",
            "raw", "3fr", "ari", "bay", "cap", "crw", "dcs", "drf", "fff", "iiq", "mos", "mef", "nrw",
            "ptx", "pxn", "r3d", "rwl", "rwz", "sr2", "srf", "x3f",
        ],
        DecoderKind::Pcx => seq!["pcx"],
        DecoderKind::Jp2 => seq!["jp2", "j2k", "j2c", "jpx", "jpf", "jpm"],
        DecoderKind::Xbm => seq!["xbm"],
        DecoderKind::Xpm => seq!["xpm"],
        DecoderKind::Sgi => seq!["sgi", "rgb", "rgba", "bw", "int", "inta"],
        DecoderKind::ImageCrate => seq![],
    }
}

/// `e` is in `list`.
pub open spec fn listed(list: Seq<&'static str>, e: Seq<char>) -> bool {
    exists|k: int| 0 <= k < list.len() && (#[trigger] list[k])@ == e
}

/// The decoder for a lower-case extension: the dedicated one that lists it,
/// else the general image decoder.
pub open spec fn decoder_of(e: Seq<char>) -> DecoderKind {
    if listed(extensions_of(DecoderKind::Heif), e) {
        DecoderKind::Heif
    } else if listed(extensions_of(DecoderKind::Svg), e) {
        DecoderKind::Svg
    } else if listed(extensions_of(DecoderKind::Jxl), e) {
        DecoderKind::Jxl
    } else if listed(extensions_of(DecoderKind::Psd), e) {
        DecoderKind::Psd
    } else if listed(extensions_of(DecoderKind::Raw), e) {
        DecoderKind::Raw
    } else if listed(extensions_of(DecoderKind::Pcx), e) {
        DecoderKind::Pcx
    } else if listed(extensions_of(DecoderKind::Jp2), e) {
        DecoderKind::Jp2
    } else if listed(extensions_of(DecoderKind::Xbm), e) {
        DecoderKind::Xbm
    } else if listed(extensions_of(DecoderKind::Xpm), e) {
        DecoderKind::Xpm
    } else if listed(extensions_of(DecoderKind::Sgi), e) {
        DecoderKind::Sgi
    } else {
        DecoderKind::ImageCrate
    }
}

fn list_for(k: DecoderKind) -> (v: Vec<&'static str>)
    ensures
        v@ == extensions_of(k),
{
    match k {
        DecoderKind::Heif => vec!["heic", "heif", "avif", "hif"],
        DecoderKind::Svg => vec!["svg", "svgz"],
        DecoderKind::Jxl => vec!["jxl"],
        DecoderKind::Psd => vec!["psd", "psb"],
        DecoderKind::Raw => vec![
            "cr2", "nef", "arw", "dng", "orf", "rw2", "raf", "pef", "srw", "mrw", "erf", "kdc", "dcr",
            "raw", "3fr", "ari", "bay", "cap", "crw", "dcs", "drf", "fff", "iiq", "mos", "mef", "nrw",
            "ptx", "pxn", "r3d", "rwl", "rwz", "sr2", "srf", "x3f",
        ],
        DecoderKind::Pcx => vec!["pcx"],
        DecoderKind::Jp2 => vec!["jp2", "j2k", "j2c", "jpx", "jpf", "jpm"],
        DecoderKind::Xbm => vec!["xbm"],
        DecoderKind::Xpm => vec!["xpm"],
        DecoderKind::Sgi => vec!["sgi", "rgb", "rgba", "bw", "int", "inta"],
        DecoderKind::ImageCrate => vec![],
    }
}

fn in_list(k: DecoderKind, e: &str) -> (r: bool)
    ensures
        r == listed(extensions_of(k), e@),
{
    let list = list_for(k);
    crate::paths::contains_str(&list, e)
}

/// The decoder for a file extension, compared without regard to case
/// (`None` where the path has no extension that is text).
pub fn decoder_for(ext: Option<&str>) -> (r: DecoderKind)
    ensures
        r == match ext {
            Some(e) => decoder_of(lowercase_of(e@)),
            None => decoder_of(Seq::empty()),
        },
{
    let lower = match ext {
        Some(e) => str_lowercase(e),
        None => {
            proof {
                reveal_strlit("");
                assert(""@ =~= Seq::<char>::empty());
            }
            String::from_str("")
        },
    };
    let e = lower.as_str();
    if in_list(DecoderKind::Heif, e) {
        DecoderKind::Heif
    } else if in_list(DecoderKind::Svg, e) {
        DecoderKind::Svg
    } else if in_list(DecoderKind::Jxl, e) {
        DecoderKind::Jxl
    } else if in_list(DecoderKind::Psd, e) {
        DecoderKind::Psd
    } else if in_list(DecoderKind::Raw, e) {
        DecoderKind::Raw
    } else if in_list(DecoderKind::Pcx, e) {
        DecoderKind::Pcx
    } else if in_list(DecoderKind::Jp2, e) {
        DecoderKind::Jp2
    } else if in_list(DecoderKind::Xbm, e) {
        DecoderKind::Xbm
    } else if in_list(DecoderKind::Xpm, e) {
        DecoderKind::Xpm
    } else if in_list(DecoderKind::Sgi, e) {
        DecoderKind::Sgi
    } else {
        DecoderKind::ImageCrate
    }
}

proof fn lemma_listed_heif(e: Seq<char>)
    ensures
        listed(extensions_of(DecoderKind::Heif), e) <==> (e == "heic"@ ||
            e == "heif"@ ||
            e == "avif"@ ||
            e == "hif"@),
{
    let l = extensions_of(DecoderKind::Heif);
    if listed(l, e) {
        let i = choose|i: int| 0 <= i < l.len() && (#[trigger] l[i])@ == e;
        if i == 0 {
        } else if i == 1 {
        } else if i == 2 {
        } else if i == 3 {
        }
    }
    if e == "heic"@ {
        assert(l[0]@ == e);
    } else if e == "heif"@ {
        assert(l[1]@ == e);
    } else if e == "avif"@ {
        assert(l[2]@ == e);
    } else if e == "hif"@ {
        assert(l[3]@ == e);
    }
}

proof fn lemma_listed_svg(e: Seq<char>)
    ensures
        listed(extensions_of(DecoderKind::Svg), e) <==> (e == "svg"@ ||
            e == "svgz"@),
{
    let l = extensions_of(DecoderKind::Svg);
    if listed(l, e) {
        let i = choose|i: int| 0 <= i < l.len() && (#[trigger] l[i])@ == e;
        if i == 0 {
        } else if i == 1 {
        }
    }
    if e == "svg"@ {
        assert(l[0]@ == e);
    } else if e == "svgz"@ {
        assert(l[1]@ == e);
    }
}

proof fn lemma_listed_jxl(e: Seq<char>)
    ensures
        listed(extensions_of(DecoderKind::Jxl), e) <==> (e == "jxl"@),
{
    let l = extensions_of(DecoderKind::Jxl);
    if listed(l, e) {
        let i = choose|i: int| 0 <= i < l.len() && (#[trigger] l[i])@ == e;
        if i == 0 {
        }
    }
    if e == "jxl"@ {
        assert(l[0]@ == e);
    }
}

proof fn lemma_listed_psd(e: Seq<char>)
    ensures
        listed(extensions_of(DecoderKind::Psd), e) <==> (e == "psd"@ ||
            e == "psb"@),
{
    let l = extensions_of(DecoderKind::Psd);
    if listed(l, e) {
        let i = choose|i: int| 0 <= i < l.len() && (#[trigger] l[i])@ == e;
        if i == 0 {
        } else if i == 1 {
        }
    }
    if e == "psd"@ {
        assert(l[0]@ == e);
    } else if e == "psb"@ {
        assert(l[1]@ == e);
    }
}

proof fn lemma_listed_raw(e: Seq<char>)
    ensures
        listed(extensions_of(DecoderKind::Raw), e) <==> (e == "cr2"@ ||
            e == "nef"@ ||
            e == "arw"@ ||
            e == "dng"@ ||
            e == "orf"@ ||
            e == "rw2"@ ||
            e == "raf"@ ||
            e == "pef"@ ||
            e == "srw"@ ||
            e == "mrw"@ ||
            e == "erf"@ ||
            e == "kdc"@ ||
            e == "dcr"@ ||
            e == "raw"@ ||
            e == "3fr"@ ||
            e == "ari"@ ||
            e == "bay"@ ||
            e == "cap"@ ||
            e == "crw"@ ||
            e == "dcs"@ ||
            e == "drf"@ ||
            e == "fff"@ ||
            e == "iiq"@ ||
            e == "mos"@ ||
            e == "mef"@ ||
            e == "nrw"@ ||
            e == "ptx"@ ||
            e == "pxn"@ ||
            e == "r3d"@ ||
            e == "rwl"@ ||
            e == "rwz"@ ||
            e == "sr2"@ ||
            e == "srf"@ ||
            e == "x3f"@),
{
    let l = extensions_of(DecoderKind::Raw);
    if listed(l, e) {
        let i = choose|i: int| 0 <= i < l.len() && (#[trigger] l[i])@ == e;
        if i == 0 {
        } else if i == 1 {
        } else if i == 2 {
        } else if i == 3 {
        } else if i == 4 {
        } else if i == 5 {
        } else if i == 6 {
        } else if i == 7 {
        } else if i == 8 {
        } else if i == 9 {
        } else if i == 10 {
        } else if i == 11 {
        } else if i == 12 {
        } else if i == 13 {
        } else if i == 14 {
        } else if i == 15 {
        } else if i == 16 {
        } else if i == 17 {
        } else if i == 18 {
        } else if i == 19 {
        } else if i == 20 {
        } else if i == 21 {
        } else if i == 22 {
        } else if i == 23 {
        } else if i == 24 {
        } else if i == 25 {
        } else if i == 26 {
        } else if i == 27 {
        } else if i == 28 {
        } else if i == 29 {
        } else if i == 30 {
        } else if i == 31 {
        } else if i == 32 {
        } else if i == 33 {
        }
    }
    if e == "cr2"@ {
        assert(l[0]@ == e);
    } else if e == "nef"@ {
        assert(l[1]@ == e);
    } else if e == "arw"@ {
        assert(l[2]@ == e);
    } else if e == "dng"@ {
        assert(l[3]@ == e);
    } else if e == "orf"@ {
        assert(l[4]@ == e);
    } else if e == "rw2"@ {
        assert(l[5]@ == e);
    } else if e == "raf"@ {
        assert(l[6]@ == e);
    } else if e == "pef"@ {
        assert(l[7]@ == e);
    } else if e == "srw"@ {
        assert(l[8]@ == e);
    } else if e == "mrw"@ {
        assert(l[9]@ == e);
    } else if e == "erf"@ {
        assert(l[10]@ == e);
    } else if e == "kdc"@ {
        assert(l[11]@ == e);
    } else if e == "dcr"@ {
        assert(l[12]@ == e);
    } else if e == "raw"@ {
        assert(l[13]@ == e);
    } else if e == "3fr"@ {
        assert(l[14]@ == e);
    } else if e == "ari"@ {
        assert(l[15]@ == e);
    } else if e == "bay"@ {
        assert(l[16]@ == e);
    } else if e == "cap"@ {
        assert(l[17]@ == e);
    } else if e == "crw"@ {
        assert(l[18]@ == e);
    } else if e == "dcs"@ {
        assert(l[19]@ == e);
    } else if e == "drf"@ {
        assert(l[20]@ == e);
    } else if e == "fff"@ {
        assert(l[21]@ == e);
    } else if e == "iiq"@ {
        assert(l[22]@ == e);
    } else if e == "mos"@ {
        assert(l[23]@ == e);
    } else if e == "mef"@ {
        assert(l[24]@ == e);
    } else if e == "nrw"@ {
        assert(l[25]@ == e);
    } else if e == "ptx"@ {
        assert(l[26]@ == e);
    } else if e == "pxn"@ {
        assert(l[27]@ == e);
    } else if e == "r3d"@ {
        assert(l[28]@ == e);
    } else if e == "rwl"@ {
        assert(l[29]@ == e);
    } else if e == "rwz"@ {
        assert(l[30]@ == e);
    } else if e == "sr2"@ {
        assert(l[31]@ == e);
    } else if e == "srf"@ {
        assert(l[32]@ == e);
    } else if e == "x3f"@ {
        assert(l[33]@ == e);
    }
}

proof fn lemma_listed_pcx(e: Seq<char>)
    ensures
        listed(extensions_of(DecoderKind::Pcx), e) <==> (e == "pcx"@),
{
    let l = extensions_of(DecoderKind::Pcx);
    if listed(l, e) {
        let i = choose|i: int| 0 <= i < l.len() && (#[trigger] l[i])@ == e;
        if i == 0 {
        }
    }
    if e == "pcx"@ {
        assert(l[0]@ == e);
    }
}

proof fn lemma_listed_jp2(e: Seq<char>)
    ensures
        listed(extensions_of(DecoderKind::Jp2), e) <==> (e == "jp2"@ ||
            e == "j2k"@ ||
            e == "j2c"@ ||
            e == "jpx"@ ||
            e == "jpf"@ ||
            e == "jpm"@),
{
    let l = extensions_of(DecoderKind::Jp2);
    if listed(l, e) {
        let i = choose|i: int| 0 <= i < l.len() && (#[trigger] l[i])@ == e;
        if i == 0 {
        } else if i == 1 {
        } else if i == 2 {
        } else if i == 3 {
        } else if i == 4 {
        } else if i == 5 {
        }
    }
    if e == "jp2"@ {
        assert(l[0]@ == e);
    } else if e == "j2k"@ {
        assert(l[1]@ == e);
    } else if e == "j2c"@ {
        assert(l[2]@ == e);
    } else if e == "jpx"@ {
        assert(l[3]@ == e);
    } else if e == "jpf"@ {
        assert(l[4]@ == e);
    } else if e == "jpm"@ {
        assert(l[5]@ == e);
    }
}

proof fn lemma_listed_xbm(e: Seq<char>)
    ensures
        listed(extensions_of(DecoderKind::Xbm), e) <==> (e == "xbm"@),
{
    let l = extensions_of(DecoderKind::Xbm);
    if listed(l, e) {
        let i = choose|i: int| 0 <= i < l.len() && (#[trigger] l[i])@ == e;
        if i == 0 {
        }
    }
    if e == "xbm"@ {
        assert(l[0]@ == e);
    }
}

proof fn lemma_listed_xpm(e: Seq<char>)
    ensures
        listed(extensions_of(DecoderKind::Xpm), e) <==> (e == "xpm"@),
{
    let l = extensions_of(DecoderKind::Xpm);
    if listed(l, e) {
        let i = choose|i: int| 0 <= i < l.len() && (#[trigger] l[i])@ == e;
        if i == 0 {
        }
    }
    if e == "xpm"@ {
        assert(l[0]@ == e);
    }
}

proof fn lemma_listed_sgi(e: Seq<char>)
    ensures
        listed(extensions_of(DecoderKind::Sgi), e) <==> (e == "sgi"@ ||
            e == "rgb"@ ||
            e == "rgba"@ ||
            e == "bw"@ ||
            e == "int"@ ||
            e == "inta"@),
{
    let l = extensions_of(DecoderKind::Sgi);
    if listed(l, e) {
        let i = choose|i: int| 0 <= i < l.len() && (#[trigger] l[i])@ == e;
        if i == 0 {
        } else if i == 1 {
        } else if i == 2 {
        } else if i == 3 {
        } else if i == 4 {
        } else if i == 5 {
        }
    }
    if e == "sgi"@ {
        assert(l[0]@ == e);
    } else if e == "rgb"@ {
        assert(l[1]@ == e);
    } else if e == "rgba"@ {
        assert(l[2]@ == e);
    } else if e == "bw"@ {
        assert(l[3]@ == e);
    } else if e == "int"@ {
        assert(l[4]@ == e);
    } else if e == "inta"@ {
        assert(l[5]@ == e);
    }
}

/// Each extension of a HEIF, HEIC and AVIF file, written out, selects the HEIF, HEIC and AVIF
/// decoder.
pub proof fn law_heif_extensions(e: Seq<char>)
    requires
        e == "heic"@ ||
            e == "heif"@ ||
            e == "avif"@ ||
            e == "hif"@,
    ensures
        decoder_of(e) == DecoderKind::Heif,
{
    lemma_listed_heif(e);
    if e == "heic"@ {
        reveal_strlit("heic");
        assert(e.len() == 4 && e[0] == 'h' && e[1] == 'e' && e[2] == 'i' && e[3] == 'c');
    } else if e == "heif"@ {
        reveal_strlit("heif");
        assert(e.len() == 4 && e[0] == 'h' && e[1] == 'e' && e[2] == 'i' && e[3] == 'f');
    } else if e == "avif"@ {
        reveal_strlit("avif");
        assert(e.len() == 4 && e[0] == 'a' && e[1] == 'v' && e[2] == 'i' && e[3] == 'f');
    } else if e == "hif"@ {
        reveal_strlit("hif");
        assert(e.len() == 3 && e[0] == 'h' && e[1] == 'i' && e[2] == 'f');
    }
}

/// Each extension of an SVG file, written out, selects the SVG
/// decoder.
pub proof fn law_svg_extensions(e: Seq<char>)
    requires
        e == "svg"@ ||
            e == "svgz"@,
    ensures
        decoder_of(e) == DecoderKind::Svg,
{
    reveal_strlit("heic");
    reveal_strlit("heif");
    reveal_strlit("avif");
    reveal_strlit("hif");
    lemma_listed_heif(e);
    lemma_listed_svg(e);
    if e == "svg"@ {
        reveal_strlit("svg");
        assert(e.len() == 3 && e[0] == 's' && e[1] == 'v' && e[2] == 'g');
    } else if e == "svgz"@ {
        reveal_strlit("svgz");
        assert(e.len() == 4 && e[0] == 's' && e[1] == 'v' && e[2] == 'g' && e[3] == 'z');
    }
}

/// Each extension of a JPEG XL file, written out, selects the JPEG XL
/// decoder.
pub proof fn law_jxl_extensions(e: Seq<char>)
    requires
        e == "jxl"@,
    ensures
        decoder_of(e) == DecoderKind::Jxl,
{
    reveal_strlit("heic");
    reveal_strlit("heif");
    reveal_strlit("avif");
    reveal_strlit("hif");
    reveal_strlit("svg");
    reveal_strlit("svgz");
    lemma_listed_heif(e);
    lemma_listed_svg(e);
    lemma_listed_jxl(e);
    if e == "jxl"@ {
        reveal_strlit("jxl");
        assert(e.len() == 3 && e[0] == 'j' && e[1] == 'x' && e[2] == 'l');
    }
}

/// Each extension of a Photoshop file, written out, selects the Photoshop
/// decoder.
pub proof fn law_psd_extensions(e: Seq<char>)
    requires
        e == "psd"@ ||
            e == "psb"@,
    ensures
        decoder_of(e) == DecoderKind::Psd,
{
    reveal_strlit("heic");
    reveal_strlit("heif");
    reveal_strlit("avif");
    reveal_strlit("hif");
    reveal_strlit("svg");
    reveal_strlit("svgz");
    reveal_strlit("jxl");
    lemma_listed_heif(e);
    lemma_listed_svg(e);
    lemma_listed_jxl(e);
    lemma_listed_psd(e);
    if e == "psd"@ {
        reveal_strlit("psd");
        assert(e.len() == 3 && e[0] == 'p' && e[1] == 's' && e[2] == 'd');
    } else if e == "psb"@ {
        reveal_strlit("psb");
        assert(e.len() == 3 && e[0] == 'p' && e[1] == 's' && e[2] == 'b');
    }
}

/// Each extension of a camera RAW file, written out, selects the camera RAW
/// decoder.
pub proof fn law_raw_extensions(e: Seq<char>)
    requires
        e == "cr2"@ ||
            e == "nef"@ ||
            e == "arw"@ ||
            e == "dng"@ ||
            e == "orf"@ ||
            e == "rw2"@ ||
            e == "raf"@ ||
            e == "pef"@ ||
            e == "srw"@ ||
            e == "mrw"@ ||
            e == "erf"@ ||
            e == "kdc"@ ||
            e == "dcr"@ ||
            e == "raw"@ ||
            e == "3fr"@ ||
            e == "ari"@ ||
            e == "bay"@ ||
            e == "cap"@ ||
            e == "crw"@ ||
            e == "dcs"@ ||
            e == "drf"@ ||
            e == "fff"@ ||
            e == "iiq"@ ||
            e == "mos"@ ||
            e == "mef"@ ||
            e == "nrw"@ ||
            e == "ptx"@ ||
            e == "pxn"@ ||
            e == "r3d"@ ||
            e == "rwl"@ ||
            e == "rwz"@ ||
            e == "sr2"@ ||
            e == "srf"@ ||
            e == "x3f"@,
    ensures
        decoder_of(e) == DecoderKind::Raw,
{
    reveal_strlit("heic");
    reveal_strlit("heif");
    reveal_strlit("avif");
    reveal_strlit("hif");
    reveal_strlit("svg");
    reveal_strlit("svgz");
    reveal_strlit("jxl");
    reveal_strlit("psd");
    reveal_strlit("psb");
    lemma_listed_heif(e);
    lemma_listed_svg(e);
    lemma_listed_jxl(e);
    lemma_listed_psd(e);
    lemma_listed_raw(e);
    if e == "cr2"@ {
        reveal_strlit("cr2");
        assert(e.len() == 3 && e[0] == 'c' && e[1] == 'r' && e[2] == '2');
    } else if e == "nef"@ {
        reveal_strlit("nef");
        assert(e.len() == 3 && e[0] == 'n' && e[1] == 'e' && e[2] == 'f');
    } else if e == "arw"@ {
        reveal_strlit("arw");
        assert(e.len() == 3 && e[0] == 'a' && e[1] == 'r' && e[2] == 'w');
    } else if e == "dng"@ {
        reveal_strlit("dng");
        assert(e.len() == 3 && e[0] == 'd' && e[1] == 'n' && e[2] == 'g');
    } else if e == "orf"@ {
        reveal_strlit("orf");
        assert(e.len() == 3 && e[0] == 'o' && e[1] == 'r' && e[2] == 'f');
    } else if e == "rw2"@ {
        reveal_strlit("rw2");
        assert(e.len() == 3 && e[0] == 'r' && e[1] == 'w' && e[2] == '2');
    } else if e == "raf"@ {
        reveal_strlit("raf");
        assert(e.len() == 3 && e[0] == 'r' && e[1] == 'a' && e[2] == 'f');
    } else if e == "pef"@ {
        reveal_strlit("pef");
        assert(e.len() == 3 && e[0] == 'p' && e[1] == 'e' && e[2] == 'f');
    } else if e == "srw"@ {
        reveal_strlit("srw");
        assert(e.len() == 3 && e[0] == 's' && e[1] == 'r' && e[2] == 'w');
    } else if e == "mrw"@ {
        reveal_strlit("mrw");
        assert(e.len() == 3 && e[0] == 'm' && e[1] == 'r' && e[2] == 'w');
    } else if e == "erf"@ {
        reveal_strlit("erf");
        assert(e.len() == 3 && e[0] == 'e' && e[1] == 'r' && e[2] == 'f');
    } else if e == "kdc"@ {
        reveal_strlit("kdc");
        assert(e.len() == 3 && e[0] == 'k' && e[1] == 'd' && e[2] == 'c');
    } else if e == "dcr"@ {
        reveal_strlit("dcr");
        assert(e.len() == 3 && e[0] == 'd' && e[1] == 'c' && e[2] == 'r');
    } else if e == "raw"@ {
        reveal_strlit("raw");
        assert(e.len() == 3 && e[0] == 'r' && e[1] == 'a' && e[2] == 'w');
    } else if e == "3fr"@ {
        reveal_strlit("3fr");
        assert(e.len() == 3 && e[0] == '3' && e[1] == 'f' && e[2] == 'r');
    } else if e == "ari"@ {
        reveal_strlit("ari");
        assert(e.len() == 3 && e[0] == 'a' && e[1] == 'r' && e[2] == 'i');
    } else if e == "bay"@ {
        reveal_strlit("bay");
        assert(e.len() == 3 && e[0] == 'b' && e[1] == 'a' && e[2] == 'y');
    } else if e == "cap"@ {
        reveal_strlit("cap");
        assert(e.len() == 3 && e[0] == 'c' && e[1] == 'a' && e[2] == 'p');
    } else if e == "crw"@ {
        reveal_strlit("crw");
        assert(e.len() == 3 && e[0] == 'c' && e[1] == 'r' && e[2] == 'w');
    } else if e == "dcs"@ {
        reveal_strlit("dcs");
        assert(e.len() == 3 && e[0] == 'd' && e[1] == 'c' && e[2] == 's');
    } else if e == "drf"@ {
        reveal_strlit("drf");
        assert(e.len() == 3 && e[0] == 'd' && e[1] == 'r' && e[2] == 'f');
    } else if e == "fff"@ {
        reveal_strlit("fff");
        assert(e.len() == 3 && e[0] == 'f' && e[1] == 'f' && e[2] == 'f');
    } else if e == "iiq"@ {
        reveal_strlit("iiq");
        assert(e.len() == 3 && e[0] == 'i' && e[1] == 'i' && e[2] == 'q');
    } else if e == "mos"@ {
        reveal_strlit("mos");
        assert(e.len() == 3 && e[0] == 'm' && e[1] == 'o' && e[2] == 's');
    } else if e == "mef"@ {
        reveal_strlit("mef");
        assert(e.len() == 3 && e[0] == 'm' && e[1] == 'e' && e[2] == 'f');
    } else if e == "nrw"@ {
        reveal_strlit("nrw");
        assert(e.len() == 3 && e[0] == 'n' && e[1] == 'r' && e[2] == 'w');
    } else if e == "ptx"@ {
        reveal_strlit("ptx");
        assert(e.len() == 3 && e[0] == 'p' && e[1] == 't' && e[2] == 'x');
    } else if e == "pxn"@ {
        reveal_strlit("pxn");
        assert(e.len() == 3 && e[0] == 'p' && e[1] == 'x' && e[2] == 'n');
    } else if e == "r3d"@ {
        reveal_strlit("r3d");
        assert(e.len() == 3 && e[0] == 'r' && e[1] == '3' && e[2] == 'd');
    } else if e == "rwl"@ {
        reveal_strlit("rwl");
        assert(e.len() == 3 && e[0] == 'r' && e[1] == 'w' && e[2] == 'l');
    } else if e == "rwz"@ {
        reveal_strlit("rwz");
        assert(e.len() == 3 && e[0] == 'r' && e[1] == 'w' && e[2] == 'z');
    } else if e == "sr2"@ {
        reveal_strlit("sr2");
        assert(e.len() == 3 && e[0] == 's' && e[1] == 'r' && e[2] == '2');
    } else if e == "srf"@ {
        reveal_strlit("srf");
        assert(e.len() == 3 && e[0] == 's' && e[1] == 'r' && e[2] == 'f');
    } else if e == "x3f"@ {
        reveal_strlit("x3f");
        assert(e.len() == 3 && e[0] == 'x' && e[1] == '3' && e[2] == 'f');
    }
}

/// Each extension of a PCX file, written out, selects the PCX
/// decoder.
pub proof fn law_pcx_extensions(e: Seq<char>)
    requires
        e == "pcx"@,
    ensures
        decoder_of(e) == DecoderKind::Pcx,
{
    reveal_strlit("heic");
    reveal_strlit("heif");
    reveal_strlit("avif");
    reveal_strlit("hif");
    reveal_strlit("svg");
    reveal_strlit("svgz");
    reveal_strlit("jxl");
    reveal_strlit("psd");
    reveal_strlit("psb");
    reveal_strlit("cr2");
    reveal_strlit("nef");
    reveal_strlit("arw");
    reveal_strlit("dng");
    reveal_strlit("orf");
    reveal_strlit("rw2");
    reveal_strlit("raf");
    reveal_strlit("pef");
    reveal_strlit("srw");
    reveal_strlit("mrw");
    reveal_strlit("erf");
    reveal_strlit("kdc");
    reveal_strlit("dcr");
    reveal_strlit("raw");
    reveal_strlit("3fr");
    reveal_strlit("ari");
    reveal_strlit("bay");
    reveal_strlit("cap");
    reveal_strlit("crw");
    reveal_strlit("dcs");
    reveal_strlit("drf");
    reveal_strlit("fff");
    reveal_strlit("iiq");
    reveal_strlit("mos");
    reveal_strlit("mef");
    reveal_strlit("nrw");
    reveal_strlit("ptx");
    reveal_strlit("pxn");
    reveal_strlit("r3d");
    reveal_strlit("rwl");
    reveal_strlit("rwz");
    reveal_strlit("sr2");
    reveal_strlit("srf");
    reveal_strlit("x3f");
    lemma_listed_heif(e);
    lemma_listed_svg(e);
    lemma_listed_jxl(e);
    lemma_listed_psd(e);
    lemma_listed_raw(e);
    lemma_listed_pcx(e);
    if e == "pcx"@ {
        reveal_strlit("pcx");
        assert(e.len() == 3 && e[0] == 'p' && e[1] == 'c' && e[2] == 'x');
    }
}

/// Each extension of a JPEG 2000 file, written out, selects the JPEG 2000
/// decoder.
pub proof fn law_jp2_extensions(e: Seq<char>)
    requires
        e == "jp2"@ ||
            e == "j2k"@ ||
            e == "j2c"@ ||
            e == "jpx"@ ||
            e == "jpf"@ ||
            e == "jpm"@,
    ensures
        decoder_of(e) == DecoderKind::Jp2,
{
    reveal_strlit("heic");
    reveal_strlit("heif");
    reveal_strlit("avif");
    reveal_strlit("hif");
    reveal_strlit("svg");
    reveal_strlit("svgz");
    reveal_strlit("jxl");
    reveal_strlit("psd");
    reveal_strlit("psb");
    reveal_strlit("cr2");
    reveal_strlit("nef");
    reveal_strlit("arw");
    reveal_strlit("dng");
    reveal_strlit("orf");
    reveal_strlit("rw2");
    reveal_strlit("raf");
    reveal_strlit("pef");
    reveal_strlit("srw");
    reveal_strlit("mrw");
    reveal_strlit("erf");
    reveal_strlit("kdc");
    reveal_strlit("dcr");
    reveal_strlit("raw");
    reveal_strlit("3fr");
    reveal_strlit("ari");
    reveal_strlit("bay");
    reveal_strlit("cap");
    reveal_strlit("crw");
    reveal_strlit("dcs");
    reveal_strlit("drf");
    reveal_strlit("fff");
    reveal_strlit("iiq");
    reveal_strlit("mos");
    reveal_strlit("mef");
    reveal_strlit("nrw");
    reveal_strlit("ptx");
    reveal_strlit("pxn");
    reveal_strlit("r3d");
    reveal_strlit("rwl");
    reveal_strlit("rwz");
    reveal_strlit("sr2");
    reveal_strlit("srf");
    reveal_strlit("x3f");
    reveal_strlit("pcx");
    lemma_listed_heif(e);
    lemma_listed_svg(e);
    lemma_listed_jxl(e);
    lemma_listed_psd(e);
    lemma_listed_raw(e);
    lemma_listed_pcx(e);
    lemma_listed_jp2(e);
    if e == "jp2"@ {
        reveal_strlit("jp2");
        assert(e.len() == 3 && e[0] == 'j' && e[1] == 'p' && e[2] == '2');
    } else if e == "j2k"@ {
        reveal_strlit("j2k");
        assert(e.len() == 3 && e[0] == 'j' && e[1] == '2' && e[2] == 'k');
    } else if e == "j2c"@ {
        reveal_strlit("j2c");
        assert(e.len() == 3 && e[0] == 'j' && e[1] == '2' && e[2] == 'c');
    } else if e == "jpx"@ {
        reveal_strlit("jpx");
        assert(e.len() == 3 && e[0] == 'j' && e[1] == 'p' && e[2] == 'x');
    } else if e == "jpf"@ {
        reveal_strlit("jpf");
        assert(e.len() == 3 && e[0] == 'j' && e[1] == 'p' && e[2] == 'f');
    } else if e == "jpm"@ {
        reveal_strlit("jpm");
        assert(e.len() == 3 && e[0] == 'j' && e[1] == 'p' && e[2] == 'm');
    }
}

/// Each extension of an X bitmap file, written out, selects the X bitmap
/// decoder.
pub proof fn law_xbm_extensions(e: Seq<char>)
    requires
        e == "xbm"@,
    ensures
        decoder_of(e) == DecoderKind::Xbm,
{
    reveal_strlit("heic");
    reveal_strlit("heif");
    reveal_strlit("avif");
    reveal_strlit("hif");
    reveal_strlit("svg");
    reveal_strlit("svgz");
    reveal_strlit("jxl");
    reveal_strlit("psd");
    reveal_strlit("psb");
    reveal_strlit("cr2");
    reveal_strlit("nef");
    reveal_strlit("arw");
    reveal_strlit("dng");
    reveal_strlit("orf");
    reveal_strlit("rw2");
    reveal_strlit("raf");
    reveal_strlit("pef");
    reveal_strlit("srw");
    reveal_strlit("mrw");
    reveal_strlit("erf");
    reveal_strlit("kdc");
    reveal_strlit("dcr");
    reveal_strlit("raw");
    reveal_strlit("3fr");
    reveal_strlit("ari");
    reveal_strlit("bay");
    reveal_strlit("cap");
    reveal_strlit("crw");
    reveal_strlit("dcs");
    reveal_strlit("drf");
    reveal_strlit("fff");
    reveal_strlit("iiq");
    reveal_strlit("mos");
    reveal_strlit("mef");
    reveal_strlit("nrw");
    reveal_strlit("ptx");
    reveal_strlit("pxn");
    reveal_strlit("r3d");
    reveal_strlit("rwl");
    reveal_strlit("rwz");
    reveal_strlit("sr2");
    reveal_strlit("srf");
    reveal_strlit("x3f");
    reveal_strlit("pcx");
    reveal_strlit("jp2");
    reveal_strlit("j2k");
    reveal_strlit("j2c");
    reveal_strlit("jpx");
    reveal_strlit("jpf");
    reveal_strlit("jpm");
    lemma_listed_heif(e);
    lemma_listed_svg(e);
    lemma_listed_jxl(e);
    lemma_listed_psd(e);
    lemma_listed_raw(e);
    lemma_listed_pcx(e);
    lemma_listed_jp2(e);
    lemma_listed_xbm(e);
    if e == "xbm"@ {
        reveal_strlit("xbm");
        assert(e.len() == 3 && e[0] == 'x' && e[1] == 'b' && e[2] == 'm');
    }
}

/// Each extension of an X pixmap file, written out, selects the X pixmap
/// decoder.
pub proof fn law_xpm_extensions(e: Seq<char>)
    requires
        e == "xpm"@,
    ensures
        decoder_of(e) == DecoderKind::Xpm,
{
    reveal_strlit("heic");
    reveal_strlit("heif");
    reveal_strlit("avif");
    reveal_strlit("hif");
    reveal_strlit("svg");
    reveal_strlit("svgz");
    reveal_strlit("jxl");
    reveal_strlit("psd");
    reveal_strlit("psb");
    reveal_strlit("cr2");
    reveal_strlit("nef");
    reveal_strlit("arw");
    reveal_strlit("dng");
    reveal_strlit("orf");
    reveal_strlit("rw2");
    reveal_strlit("raf");
    reveal_strlit("pef");
    reveal_strlit("srw");
    reveal_strlit("mrw");
    reveal_strlit("erf");
    reveal_strlit("kdc");
    reveal_strlit("dcr");
    reveal_strlit("raw");
    reveal_strlit("3fr");
    reveal_strlit("ari");
    reveal_strlit("bay");
    reveal_strlit("cap");
    reveal_strlit("crw");
    reveal_strlit("dcs");
    reveal_strlit("drf");
    reveal_strlit("fff");
    reveal_strlit("iiq");
    reveal_strlit("mos");
    reveal_strlit("mef");
    reveal_strlit("nrw");
    reveal_strlit("ptx");
    reveal_strlit("pxn");
    reveal_strlit("r3d");
    reveal_strlit("rwl");
    reveal_strlit("rwz");
    reveal_strlit("sr2");
    reveal_strlit("srf");
    reveal_strlit("x3f");
    reveal_strlit("pcx");
    reveal_strlit("jp2");
    reveal_strlit("j2k");
    reveal_strlit("j2c");
    reveal_strlit("jpx");
    reveal_strlit("jpf");
    reveal_strlit("jpm");
    reveal_strlit("xbm");
    lemma_listed_heif(e);
    lemma_listed_svg(e);
    lemma_listed_jxl(e);
    lemma_listed_psd(e);
    lemma_listed_raw(e);
    lemma_listed_pcx(e);
    lemma_listed_jp2(e);
    lemma_listed_xbm(e);
    lemma_listed_xpm(e);
    if e == "xpm"@ {
        reveal_strlit("xpm");
        assert(e.len() == 3 && e[0] == 'x' && e[1] == 'p' && e[2] == 'm');
    }
}

/// Each extension of a SGI file, written out, selects the SGI
/// decoder.
pub proof fn law_sgi_extensions(e: Seq<char>)
    requires
        e == "sgi"@ ||
            e == "rgb"@ ||
            e == "rgba"@ ||
            e == "bw"@ ||
            e == "int"@ ||
            e == "inta"@,
    ensures
        decoder_of(e) == DecoderKind::Sgi,
{
    reveal_strlit("heic");
    reveal_strlit("heif");
    reveal_strlit("avif");
    reveal_strlit("hif");
    reveal_strlit("svg");
    reveal_strlit("svgz");
    reveal_strlit("jxl");
    reveal_strlit("psd");
    reveal_strlit("psb");
    reveal_strlit("cr2");
    reveal_strlit("nef");
    reveal_strlit("arw");
    reveal_strlit("dng");
    reveal_strlit("orf");
    reveal_strlit("rw2");
    reveal_strlit("raf");
    reveal_strlit("pef");
    reveal_strlit("srw");
    reveal_strlit("mrw");
    reveal_strlit("erf");
    reveal_strlit("kdc");
    reveal_strlit("dcr");
    reveal_strlit("raw");
    reveal_strlit("3fr");
    reveal_strlit("ari");
    reveal_strlit("bay");
    reveal_strlit("cap");
    reveal_strlit("crw");
    reveal_strlit("dcs");
    reveal_strlit("drf");
    reveal_strlit("fff");
    reveal_strlit("iiq");
    reveal_strlit("mos");
    reveal_strlit("mef");
    reveal_strlit("nrw");
    reveal_strlit("ptx");
    reveal_strlit("pxn");
    reveal_strlit("r3d");
    reveal_strlit("rwl");
    reveal_strlit("rwz");
    reveal_strlit("sr2");
    reveal_strlit("srf");
    reveal_strlit("x3f");
    reveal_strlit("pcx");
    reveal_strlit("jp2");
    reveal_strlit("j2k");
    reveal_strlit("j2c");
    reveal_strlit("jpx");
    reveal_strlit("jpf");
    reveal_strlit("jpm");
    reveal_strlit("xbm");
    reveal_strlit("xpm");
    lemma_listed_heif(e);
    lemma_listed_svg(e);
    lemma_listed_jxl(e);
    lemma_listed_psd(e);
    lemma_listed_raw(e);
    lemma_listed_pcx(e);
    lemma_listed_jp2(e);
    lemma_listed_xbm(e);
    lemma_listed_xpm(e);
    lemma_listed_sgi(e);
    if e == "sgi"@ {
        reveal_strlit("sgi");
        assert(e.len() == 3 && e[0] == 's' && e[1] == 'g' && e[2] == 'i');
    } else if e == "rgb"@ {
        reveal_strlit("rgb");
        assert(e.len() == 3 && e[0] == 'r' && e[1] == 'g' && e[2] == 'b');
    } else if e == "rgba"@ {
        reveal_strlit("rgba");
        assert(e.len() == 4 && e[0] == 'r' && e[1] == 'g' && e[2] == 'b' && e[3] == 'a');
    } else if e == "bw"@ {
        reveal_strlit("bw");
        assert(e.len() == 2 && e[0] == 'b' && e[1] == 'w');
    } else if e == "int"@ {
        reveal_strlit("int");
        assert(e.len() == 3 && e[0] == 'i' && e[1] == 'n' && e[2] == 't');
    } else if e == "inta"@ {
        reveal_strlit("inta");
        assert(e.len() == 4 && e[0] == 'i' && e[1] == 'n' && e[2] == 't' && e[3] == 'a');
    }
}

/// Any extension outside the dedicated decoders' lists selects the general
/// image decoder.
pub proof fn law_other_extensions(e: Seq<char>)
    requires
        !(e == "heic"@ ||
            e == "heif"@ ||
            e == "avif"@ ||
            e == "hif"@ ||
            e == "svg"@ ||
            e == "svgz"@ ||
            e == "jxl"@ ||
            e == "psd"@ ||
            e == "psb"@ ||
            e == "cr2"@ ||
            e == "nef"@ ||
            e == "arw"@ ||
            e == "dng"@ ||
            e == "orf"@ ||
            e == "rw2"@ ||
            e == "raf"@ ||
            e == "pef"@ ||
            e == "srw"@ ||
            e == "mrw"@ ||
            e == "erf"@ ||
            e == "kdc"@ ||
            e == "dcr"@ ||
            e == "raw"@ ||
            e == "3fr"@ ||
            e == "ari"@ ||
            e == "bay"@ ||
            e == "cap"@ ||
            e == "crw"@ ||
            e == "dcs"@ ||
            e == "drf"@ ||
            e == "fff"@ ||
            e == "iiq"@ ||
            e == "mos"@ ||
            e == "mef"@ ||
            e == "nrw"@ ||
            e == "ptx"@ ||
            e == "pxn"@ ||
            e == "r3d"@ ||
            e == "rwl"@ ||
            e == "rwz"@ ||
            e == "sr2"@ ||
            e == "srf"@ ||
            e == "x3f"@ ||
            e == "pcx"@ ||
            e == "jp2"@ ||
            e == "j2k"@ ||
            e == "j2c"@ ||
            e == "jpx"@ ||
            e == "jpf"@ ||
            e == "jpm"@ ||
            e == "xbm"@ ||
            e == "xpm"@ ||
            e == "sgi"@ ||
            e == "rgb"@ ||
            e == "rgba"@ ||
            e == "bw"@ ||
            e == "int"@ ||
            e == "inta"@),
    ensures
        decoder_of(e) == DecoderKind::ImageCrate,
{
    lemma_listed_heif(e);
    lemma_listed_svg(e);
    lemma_listed_jxl(e);
    lemma_listed_psd(e);
    lemma_listed_raw(e);
    lemma_listed_pcx(e);
    lemma_listed_jp2(e);
    lemma_listed_xbm(e);
    lemma_listed_xpm(e);
    lemma_listed_sgi(e);
}

/// The format name of a HEIF-family file: `AVIF`, `HEIC`, else `HEIF`.
pub open spec fn heif_name(ext: Option<Seq<char>>) -> Seq<char> {
    let e = lowercase_of(match ext {
        Some(x) => x,
        None => "heif"@,
    });
    if e == "avif"@ {
        "AVIF"@
    } else if e == "heic"@ {
        "HEIC"@
    } else {
        "HEIF"@
    }
}

/// The format name of a HEIF-family file from its extension.
pub fn heif_format_name(ext: Option<&str>) -> (r: String)
    ensures
        r@ == heif_name(match ext {
            Some(x) => Some(x@),
            None => None,
        }),
{
    let lower = match ext {
        Some(e) => str_lowercase(e),
        None => str_lowercase("heif"),
    };
    if str_eq(lower.as_str(), "avif") {
        String::from_str("AVIF")
    } else if str_eq(lower.as_str(), "heic") {
        String::from_str("HEIC")
    } else {
        String::from_str("HEIF")
    }
}

/// The format name the general decoder reports: the extension in upper
/// case, or `Unknown`.
pub fn image_format_name(ext: Option<&str>) -> (r: String)
    ensures
        r@ == match ext {
            Some(e) => uppercase_of(e@),
            None => "Unknown"@,
        },
{
    match ext {
        Some(e) => str_uppercase(e),
        None => String::from_str("Unknown"),
    }
}

/// The error of a failed load where the general decoder also failed:
/// `"{first} (fallback also failed: {second})"`.
pub fn fallback_message(first: &str, second: &str) -> (r: String)
    ensures
        r@ == first@ + " (fallback also failed: "@ + second@ + ")"@,
{
    let mut m = String::from_str(first);
    push_str(&mut m, " (fallback also failed: ");
    push_str(&mut m, second);
    push_str(&mut m, ")");
    m
}

/// An image built from RGBA bytes: `w` by `h`, named `name`.
pub fn to_color_image(w: u32, h: u32, rgba: Vec<u8>, name: &str) -> (img: DecodedImage)
    requires
        rgba@.len() == w * h * 4,
    ensures
        img.pixels.width == w,
        img.pixels.height == h,
        img.pixels.data@ == rgba@,
        img.pixels.wf(),
        img.format_name@ == name@,
        img.original_width == w,
        img.original_height == h,
{
    DecodedImage {
        pixels: RgbaPixels { width: w as usize, height: h as usize, data: rgba },
        format_name: String::from_str(name),
        original_width: w,
        original_height: h,
    }
}

/// What the general image decoder makes of bytes whose format it guesses
/// from their first bytes: width, height and RGBA bytes, or its error.
pub uninterp spec fn image_decode(data: Seq<u8>) -> Result<(u32, u32, Seq<u8>), Seq<char>>;

/// Calls `image::load_from_memory` and converts the image with
/// `DynamicImage::into_rgba8`.
/// Stated: the outcome is `image_decode(data)`; nothing is claimed of the
/// buffer's length.
#[verifier::external_body]
fn decode_guessing_format(data: &[u8]) -> (r: Result<(u32, u32, Vec<u8>), String>)
    ensures
        outcome_view(r) == image_decode(data@),
{
    match image::load_from_memory(data) {
        Ok(img) => {
            let rgba = img.into_rgba8();
            Ok((rgba.width(), rgba.height(), rgba.into_raw()))
        },
        Err(e) => Err(e.to_string()),
    }
}

/// What the general image decoder makes of bytes read as the format that
/// the file extension `ext` names; an extension it does not know gives its
/// error.
pub uninterp spec fn image_decode_as(data: Seq<u8>, ext: Seq<char>) -> Result<(u32, u32, Seq<u8>), Seq<char>>;

/// Calls `image::ImageFormat::from_extension` on `ext`; where that names a
/// format, `image::ImageReader::with_format` on the bytes, `decode` and
/// `DynamicImage::into_rgba8`; where it names none, the `Unsupported` error
/// that `ImageReader` gives a path with an extension it does not know.
/// Stated: the outcome is `image_decode_as(data, ext)`; nothing is claimed
/// of the buffer's length.
#[verifier::external_body]
fn decode_by_extension(data: &[u8], ext: &str) -> (r: Result<(u32, u32, Vec<u8>), String>)
    ensures
        outcome_view(r) == image_decode_as(data@, ext@),
{
    let decoded = match image::ImageFormat::from_extension(ext) {
        Some(f) => image::ImageReader::with_format(std::io::Cursor::new(data), f).decode(),
        None => Err(image::ImageError::Unsupported(image::error::ImageFormatHint::PathExtension(ext.into()).into())),
    };
    match decoded {
        Ok(img) => {
            let rgba = img.into_rgba8();
            Ok((rgba.width(), rgba.height(), rgba.into_raw()))
        },
        Err(e) => Err(e.to_string()),
    }
}

/// The text of the error the general decoder gives when it is given no
/// format to read the bytes as.
pub open spec fn format_unknown_text() -> Seq<char> {
    "The image format could not be determined"@
}

/// Calls `image::ImageReader::new` on the bytes and `decode` with no format
/// set, which its documentation says ends in an `Unsupported` error; the
/// crate's `Display` for that error (`error.rs`, an unknown format hint)
/// is the text of `format_unknown_text`.
/// Stated: the call fails, with that text.
#[verifier::external_body]
fn decode_without_format(data: &[u8]) -> (r: Result<(u32, u32, Vec<u8>), String>)
    ensures
        match r {
            Ok(_) => false,
            Err(e) => e@ == format_unknown_text(),
        },
{
    match image::ImageReader::new(std::io::Cursor::new(data)).decode() {
        Ok(img) => {
            let rgba = img.into_rgba8();
            Ok((rgba.width(), rgba.height(), rgba.into_raw()))
        },
        Err(e) => Err(e.to_string()),
    }
}

/// A decoder's outcome with its buffers taken by their views.
pub open spec fn outcome_view(o: Result<(u32, u32, Vec<u8>), String>) -> Result<(u32, u32, Seq<u8>), Seq<char>> {
    match o {
        Ok((w, h, px)) => Ok((w, h, px@)),
        Err(e) => Err(e@),
    }
}

/// How a decoder's outcome becomes the viewer's: the pixels under `name`,
/// or the decoder's error after `prefix`; a pixel buffer of the wrong size
/// is reported as such.
pub open spec fn decoded_as(
    outcome: Result<(u32, u32, Seq<u8>), Seq<char>>,
    prefix: Seq<char>,
    r: Result<DecodedImage, String>,
    name: Seq<char>,
) -> bool {
    match outcome {
        Ok((w, h, px)) => if px.len() == w * h * 4 {
            r matches Ok(img) && img.pixels.width == w && img.pixels.height == h && img.pixels.data@ == px
                && img.pixels.wf() && img.format_name@ == name && img.original_width == w && img.original_height == h
        } else {
            r matches Err(m) && m@ == prefix + "pixel buffer does not match the image size"@
        },
        Err(e) => r matches Err(m) && m@ == prefix + e,
    }
}

/// Turns a decoder's outcome (width, height and RGBA bytes, or its error
/// text) into the viewer's image named `name`, or into an error that starts
/// with `prefix`. The PSD decoder hands its results here.
pub fn image_from_outcome(
    outcome: Result<(u32, u32, Vec<u8>), String>,
    prefix: &str,
    name: &str,
) -> (r: Result<DecodedImage, String>)
    ensures
        decoded_as(outcome_view(outcome), prefix@, r, name@),
{
    match outcome {
        Ok((w, h, px)) => {
            proof {
                assert(w * h <= 0xffff_ffffu64 * 0xffff_ffffu64) by (nonlinear_arith)
                    requires w <= 0xffff_ffffu64, h <= 0xffff_ffffu64;
            }
            if (px.len() as u128) == (w as u128) * (h as u128) * 4 {
                Ok(to_color_image(w, h, px, name))
            } else {
                let mut m = String::from_str(prefix);
                push_str(&mut m, "pixel buffer does not match the image size");
                Err(m)
            }
        },
        Err(e) => {
            let mut m = String::from_str(prefix);
            push_str(&mut m, e.as_str());
            Err(m)
        },
    }
}

/// Index of the first end-of-image marker `FF D9` at or after `j`, or -1.
pub open spec fn end_marker(d: Seq<u8>, j: int) -> int
    decreases d.len() - j,
{
    if j < 0 || j + 1 >= d.len() {
        -1
    } else if d[j] == 0xFFu8 && d[j + 1] == 0xD9u8 {
        j
    } else {
        end_marker(d, j + 1)
    }
}

pub proof fn lemma_end_marker(d: Seq<u8>, j: int)
    ensures
        end_marker(d, j) == -1 || (j <= end_marker(d, j) && end_marker(d, j) + 1 < d.len()),
    decreases d.len() - j,
{
    if !(j < 0 || j + 1 >= d.len()) && !(d[j] == 0xFFu8 && d[j + 1] == 0xD9u8) {
        lemma_end_marker(d, j + 1);
    }
}

/// Length of a span, 0 for none.
pub open spec fn span_len(b: Option<(int, int)>) -> int {
    match b {
        Some((s, e)) => e - s,
        None => 0,
    }
}

/// The longest embedded JPEG (from an `FF D8` start marker to the next
/// `FF D9` end marker, both included) found scanning from `i`, where
/// `best` is the longest found before; on equal lengths the earlier stays.
pub open spec fn scan_jpeg(d: Seq<u8>, i: int, best: Option<(int, int)>) -> Option<(int, int)>
    decreases d.len() - i,
{
    if i < 0 || i + 1 >= d.len() {
        best
    } else if d[i] == 0xFFu8 && d[i + 1] == 0xD8u8 {
        let e = end_marker(d, i + 2);
        proof {
            lemma_end_marker(d, i + 2);
        }
        if e < 0 {
            best
        } else {
            let nb = if e + 2 - i > span_len(best) { Some((i, e + 2)) } else { best };
            scan_jpeg(d, e + 2, nb)
        }
    } else {
        scan_jpeg(d, i + 1, best)
    }
}

/// The longest JPEG embedded in `data`, as a span.
pub fn find_embedded_jpeg(data: &[u8]) -> (r: Option<(usize, usize)>)
    ensures
        match r {
            Some((s, e)) => scan_jpeg(data@, 0, None) == Some((s as int, e as int)) && s <= e <= data@.len(),
            None => scan_jpeg(data@, 0, None).is_none(),
        },
{
    let ghost d = data@;
    let n = data.len();
    let mut best: Option<(usize, usize)> = None;
    let mut i: usize = 0;
    while i < n && n - i > 1
        invariant
            d == data@,
            n == d.len(),
            i <= n,
            match best {
                Some((s, e)) => s <= e <= n,
                None => true,
            },
            scan_jpeg(d, 0, None) == scan_jpeg(d, i as int, match best {
                Some((s, e)) => Some((s as int, e as int)),
                None => None,
            }),
        decreases n - i,
    {
        if data[i] == 0xFF && data[i + 1] == 0xD8 {
            let start = i;
            let mut j = i + 2;
            proof {
                lemma_end_marker(d, (i + 2) as int);
            }
            while j < n && n - j > 1 && !(data[j] == 0xFF && data[j + 1] == 0xD9)
                invariant
                    d == data@,
                    n == d.len(),
                    j <= n,
                    start + 2 <= j,
                    end_marker(d, start + 2) == end_marker(d, j as int),
                decreases n - j,
            {
                j = j + 1;
            }
            if j < n && n - j > 1 {
                let len = j + 2 - start;
                let cur = match best {
                    Some((s, e)) => e - s,
                    None => 0,
                };
                if len > cur {
                    best = Some((start, j + 2));
                }
                i = j + 2;
            } else {
                assert(end_marker(d, j as int) == -1);
                return best;
            }
        } else {
            i = i + 1;
        }
    }
    best
}

/// Minimum length of an embedded JPEG worth showing.
pub open spec fn preview_min() -> int {
    32000
}

/// Shows a camera RAW file through the largest JPEG embedded in it, when
/// that is over 32000 bytes long.
pub fn raw_preview(data: &[u8]) -> (r: Result<DecodedImage, String>)
    ensures
        match scan_jpeg(data@, 0, None) {
            Some((s, e)) => if e - s > preview_min() {
                decoded_as(image_decode(data@.subrange(s, e)), "preview: "@, r, "RAW"@)
            } else {
                r matches Err(m) && m@ == "no usable preview"@
            },
            None => r matches Err(m) && m@ == "no usable preview"@,
        },
{
    match find_embedded_jpeg(data) {
        Some((s, e)) => {
            if e - s > 32000 {
                let jpeg = &data[s..e];
                image_from_outcome(decode_guessing_format(jpeg), "preview: ", "RAW")
            } else {
                Err(String::from_str("no usable preview"))
            }
        },
        None => Err(String::from_str("no usable preview")),
    }
}

/// What the HEIF decoder makes of a file's bytes, as RGBA: width, height
/// and bytes, or the text of its error.
pub uninterp spec fn heif_decode_of(data: Seq<u8>) -> Result<(u32, u32, Seq<u8>), Seq<char>>;

/// Calls `heic::DecoderConfig::new().decode` with `heic::PixelLayout::Rgba8`
/// and takes the output's width, height and data.
/// Stated: the outcome is `heif_decode_of(data)`; nothing is claimed of the
/// buffer's length.
#[verifier::external_body]
fn decode_heif(data: &[u8]) -> (r: Result<(u32, u32, Vec<u8>), String>)
    ensures
        outcome_view(r) == heif_decode_of(data@),
{
    match heic::DecoderConfig::new().decode(data, heic::PixelLayout::Rgba8) {
        Ok(out) => Ok((out.width, out.height, out.data)),
        Err(e) => Err(e.to_string()),
    }
}

/// Decodes a HEIF, HEIC or AVIF file from its bytes; the image is named by
/// the extension `ext` (see `heif_format_name`), and errors carry the
/// prefix `heic: `.
pub fn load_heif(data: &[u8], ext: Option<&str>) -> (r: Result<DecodedImage, String>)
    ensures
        decoded_as(heif_decode_of(data@), "heic: "@, r, heif_name(ext_view(ext))),
{
    let name = heif_format_name(ext);
    image_from_outcome(decode_heif(data), "heic: ", name.as_str())
}

/// An optional extension by its view.
pub open spec fn ext_view(ext: Option<&str>) -> Option<Seq<char>> {
    match ext {
        Some(e) => Some(e@),
        None => None,
    }
}

/// The name the general decoder reports a format by: the extension in
/// upper case, or `Unknown`.
pub open spec fn format_name_of(ext: Option<Seq<char>>) -> Seq<char> {
    match ext {
        Some(e) => uppercase_of(e),
        None => "Unknown"@,
    }
}

/// What the general decoder makes of a file's bytes: read as the format
/// its extension names, or, where the path has no extension (or an empty
/// one), the error of a decoder given no format.
pub open spec fn general_decode(data: Seq<u8>, ext: Option<Seq<char>>) -> Result<(u32, u32, Seq<u8>), Seq<char>> {
    match ext {
        Some(e) => if e.len() > 0 {
            image_decode_as(data, e)
        } else {
            Err(format_unknown_text())
        },
        None => Err(format_unknown_text()),
    }
}

/// Decodes a file's bytes with the general decoder, in the format that the
/// file's extension `ext` names; the image is named by the extension in
/// upper case (see `image_format_name`), and errors carry the prefix
/// `image: `.
pub fn load_encoded(data: &[u8], ext: Option<&str>) -> (r: Result<DecodedImage, String>)
    ensures
        decoded_as(general_decode(data@, ext_view(ext)), "image: "@, r, format_name_of(ext_view(ext))),
{
    let name = image_format_name(ext);
    let outcome = match ext {
        Some(e) => if e.is_empty() {
            decode_without_format(data)
        } else {
            decode_by_extension(data, e)
        },
        None => decode_without_format(data),
    };
    image_from_outcome(outcome, "image: ", name.as_str())
}

/// What a load gives after the fallback: the first decoder's image where it
/// succeeded, else the general decoder's (see `load_encoded`), else the two
/// errors in one message.
pub open spec fn with_fallback_spec(
    first: Result<DecodedImage, String>,
    data: Seq<u8>,
    ext: Option<Seq<char>>,
    r: Result<DecodedImage, String>,
) -> bool {
    let outcome = general_decode(data, ext);
    match first {
        Ok(img) => r == Ok::<DecodedImage, String>(img),
        Err(e1) => match outcome {
            Ok((w, h, px)) => if px.len() == w * h * 4 {
                decoded_as(outcome, "image: "@, r, format_name_of(ext))
            } else {
                r matches Err(m) && m@ == e1@ + " (fallback also failed: "@ + "image: "@
                    + "pixel buffer does not match the image size"@ + ")"@
            },
            Err(e2) => r matches Err(m) && m@ == e1@ + " (fallback also failed: "@ + "image: "@ + e2 + ")"@,
        },
    }
}

/// Falls back on the general decoder where the first one failed (see
/// `with_fallback_spec`).
pub fn with_fallback(first: Result<DecodedImage, String>, data: &[u8], ext: Option<&str>) -> (r: Result<
    DecodedImage,
    String,
>)
    ensures
        with_fallback_spec(first, data@, ext_view(ext), r),
{
    match first {
        Ok(img) => Ok(img),
        Err(e1) => {
            match load_encoded(data, ext) {
                Ok(img) => Ok(img),
                Err(e2) => {
                    let m = fallback_message(e1.as_str(), e2.as_str());
                    proof {
                        let a = e1@;
                        let b = " (fallback also failed: "@;
                        let c = "image: "@;
                        let d = ")"@;
                        match general_decode(data@, ext_view(ext)) {
                            Ok((w, h, px)) => {
                                let x = "pixel buffer does not match the image size"@;
                                if px.len() == w * h * 4 {
                                } else {
                                    assert(e2@ == c + x);
                                    assert(m@ =~= a + b + c + x + d);
                                }
                            },
                            Err(x) => {
                                assert(e2@ == c + x);
                                assert(m@ =~= a + b + c + x + d);
                            },
                        }
                    }
                    Err(m)
                },
            }
        },
    }
}

/// One component of a decoded JPEG 2000 image: its precision in bits and
/// its samples, row by row.
pub struct Jp2Component {
    pub prec: u32,
    pub data: Vec<i32>,
}

/// 2 to the power `n`.
pub open spec fn pow2(n: nat) -> nat
    decreases n,
{
    if n == 0 {
        1
    } else {
        2 * pow2((n - 1) as nat)
    }
}

/// A JPEG 2000 sample as an 8-bit value: clamped where the precision is at
/// most 8 bits, else scaled from the precision's range to 0..=255.
pub open spec fn jp2_sample(val: i32, prec: u32) -> u8 {
    if prec <= 8 {
        if val < 0 {
            0
        } else if val > 255 {
            255
        } else {
            val as u8
        }
    } else {
        let scaled = (val as int) * 255 / ((pow2(prec as nat) - 1) as int);
        if scaled > 255 {
            255
        } else {
            scaled as u8
        }
    }
}

/// The components that make up the output: the first four.
pub open spec fn used(comps: Seq<Jp2Component>) -> int {
    if comps.len() < 4 { comps.len() as int } else { 4 }
}

/// The inputs `jp2_to_image` takes: each component in use holds a sample
/// for every pixel, and one of more than 8 bits has under 64 bits and no
/// negative samples.
pub open spec fn jp2_well_formed(w: nat, h: nat, comps: Seq<Jp2Component>) -> bool {
    &&& w * h * 4 <= usize::MAX
    &&& forall|c: int| 0 <= c < used(comps) ==> (#[trigger] comps[c]).data@.len() >= w * h
    &&& forall|c: int| 0 <= c < used(comps) && (#[trigger] comps[c]).prec > 8 ==> {
        &&& comps[c].prec < 64
        &&& forall|i: int| 0 <= i < w * h ==> comps[c].data@[i] >= 0
    }
}

/// Component `k` of pixel `i`: red, green and blue from components 0, 1 and
/// 2 (a missing one repeats the previous), alpha from component 3 or 255.
pub open spec fn jp2_component(comps: Seq<Jp2Component>, i: int, k: int) -> u8 {
    let n = comps.len();
    let get = |c: int| jp2_sample(comps[c].data@[i], comps[c].prec);
    let red = get(0);
    let green = if n > 1 { get(1) } else { red };
    let blue = if n > 2 { get(2) } else { green };
    let alpha = if n > 3 { get(3) } else { 255u8 };
    if k == 0 { red } else if k == 1 { green } else if k == 2 { blue } else { alpha }
}

/// Width of the area `x0..x1` (0 where `x1 < x0`).
pub open spec fn extent(a: u32, b: u32) -> nat {
    if b >= a { (b - a) as nat } else { 0 }
}

fn sample_of(comp: &Jp2Component, i: usize) -> (r: u8)
    requires
        i < comp.data@.len(),
        comp.prec > 8 ==> comp.prec < 64 && comp.data@[i as int] >= 0,
    ensures
        r == jp2_sample(comp.data@[i as int], comp.prec),
{
    let val = comp.data[i];
    let prec = comp.prec;
    if prec <= 8 {
        if val < 0 {
            0
        } else if val > 255 {
            255
        } else {
            val as u8
        }
    } else {
        proof {
            lemma_pow2_bounds(prec as nat);
        }
        let denom = pow2_exec(prec) - 1;
        let scaled = (val as u64) * 255 / denom;
        if scaled > 255 {
            255
        } else {
            scaled as u8
        }
    }
}

proof fn lemma_pow2_bounds(n: nat)
    ensures
        pow2(n) >= 1,
        n >= 1 ==> pow2(n) >= 2,
    decreases n,
{
    if n > 0 {
        lemma_pow2_bounds((n - 1) as nat);
    }
}

proof fn lemma_pow2_mono(a: nat, b: nat)
    requires
        a <= b,
    ensures
        pow2(a) <= pow2(b),
    decreases b,
{
    if a < b {
        lemma_pow2_mono(a, (b - 1) as nat);
    }
}

proof fn lemma_pow2_63()
    ensures
        pow2(63) == 0x8000_0000_0000_0000,
{
    reveal_with_fuel(pow2, 64);
}

fn pow2_exec(n: u32) -> (r: u64)
    requires
        n < 64,
    ensures
        r == pow2(n as nat),
{
    let mut r: u64 = 1;
    let mut k: u32 = 0;
    while k < n
        invariant
            k <= n < 64,
            r == pow2(k as nat),
        decreases n - k,
    {
        proof {
            lemma_pow2_mono((k + 1) as nat, 63);
            lemma_pow2_63();
        }
        r = r * 2;
        k = k + 1;
    }
    r
}

/// Builds the RGBA image of decoded JPEG 2000 components over the area
/// `x0..x1` by `y0..y1`.
pub fn jp2_to_image(x0: u32, x1: u32, y0: u32, y1: u32, comps: &Vec<Jp2Component>) -> (r: Result<DecodedImage, String>)
    requires
        jp2_well_formed(extent(x0, x1), extent(y0, y1), comps@),
    ensures
        (extent(x0, x1) == 0 || extent(y0, y1) == 0 || comps@.len() == 0) ==> (r matches Err(m) && m@ == "JP2: invalid dimensions"@),
        !(extent(x0, x1) == 0 || extent(y0, y1) == 0 || comps@.len() == 0) ==> (r matches Ok(img) && {
            &&& img.pixels.width == extent(x0, x1)
            &&& img.pixels.height == extent(y0, y1)
            &&& img.pixels.wf()
            &&& img.format_name@ == "JPEG 2000"@
            &&& img.original_width == extent(x0, x1)
            &&& img.original_height == extent(y0, y1)
            &&& forall|i: int, k: int| 0 <= i < extent(x0, x1) * extent(y0, y1) && 0 <= k < 4 ==>
                #[trigger] img.pixels.data@[i * 4 + k] == jp2_component(comps@, i, k)
        }),
{
    let width = x1.saturating_sub(x0);
    let height = y1.saturating_sub(y0);
    let n = comps.len();
    if width == 0 || height == 0 || n == 0 {
        return Err(String::from_str("JP2: invalid dimensions"));
    }
    let count = (width as usize) * (height as usize);
    let mut rgba: Vec<u8> = Vec::new();
    let mut i: usize = 0;
    while i < count
        invariant
            i <= count,
            count == width * height,
            n == comps@.len(),
            n > 0,
            jp2_well_formed(width as nat, height as nat, comps@),
            rgba@.len() == i * 4,
            forall|p: int, k: int| 0 <= p < i && 0 <= k < 4 ==> #[trigger] rgba@[p * 4 + k] == jp2_component(comps@, p, k),
        decreases count - i,
    {
        proof {
            assert(used(comps@) >= 1);
            assert(comps@[0].data@.len() >= width * height);
        }
        let red = sample_of(&comps[0], i);
        let green = if n > 1 { sample_of(&comps[1], i) } else { red };
        let blue = if n > 2 { sample_of(&comps[2], i) } else { green };
        let alpha = if n > 3 { sample_of(&comps[3], i) } else { 255u8 };
        let ghost before = rgba@;
        rgba.push(red);
        rgba.push(green);
        rgba.push(blue);
        rgba.push(alpha);
        proof {
            assert forall|p: int, k: int| 0 <= p < i + 1 && 0 <= k < 4 implies #[trigger] rgba@[p * 4 + k] == jp2_component(comps@, p, k) by {
                if p < i {
                    assert(p * 4 + k < i * 4);
                    assert(rgba@[p * 4 + k] == before[p * 4 + k]);
                }
            }
        }
        i = i + 1;
    }
    proof {
        assert(count * 4 == width * height * 4);
    }
    Ok(DecodedImage {
        pixels: RgbaPixels { width: width as usize, height: height as usize, data: rgba },
        format_name: String::from_str("JPEG 2000"),
        original_width: width,
        original_height: height,
    })
}

/// Builds the RGBA image of a PCX file from its rows: palette indices
/// looked up in the 256-color palette, or interleaved RGB; always opaque.
pub fn pcx_to_image(width: u16, height: u16, paletted: bool, rows: &Vec<Vec<u8>>, palette: &Vec<u8>) -> (img: DecodedImage)
    requires
        rows@.len() == height,
        forall|y: int| 0 <= y < height ==> (#[trigger] rows@[y])@.len() == if paletted { width as int } else { 3 * width },
        paletted ==> palette@.len() == 768,
    ensures
        img.pixels.width == width,
        img.pixels.height == height,
        img.pixels.wf(),
        img.format_name@ == "PCX"@,
        img.original_width == width,
        img.original_height == height,
        forall|y: int, x: int, k: int| 0 <= y < height && 0 <= x < width && 0 <= k < 4 ==>
            #[trigger] img.pixels.data@[(y * width + x) * 4 + k] == if k == 3 {
                255u8
            } else if paletted {
                palette@[rows@[y]@[x] * 3 + k]
            } else {
                rows@[y]@[x * 3 + k]
            },
{
    let w = width as usize;
    let h = height as usize;
    let mut rgba: Vec<u8> = Vec::new();
    let mut y: usize = 0;
    while y < h
        invariant
            y <= h,
            w == width,
            h == height,
            rows@.len() == height,
            forall|yy: int| 0 <= yy < height ==> (#[trigger] rows@[yy])@.len() == if paletted { width as int } else { 3 * width },
            paletted ==> palette@.len() == 768,
            rgba@.len() == y * w * 4,
            forall|yy: int, x: int, k: int| 0 <= yy < y && 0 <= x < width && 0 <= k < 4 ==>
                #[trigger] rgba@[(yy * width + x) * 4 + k] == if k == 3 {
                    255u8
                } else if paletted {
                    palette@[rows@[yy]@[x] * 3 + k]
                } else {
                    rows@[yy]@[x * 3 + k]
                },
        decreases h - y,
    {
        let row = &rows[y];
        let mut x: usize = 0;
        while x < w
            invariant
                x <= w,
                y < h,
                w == width,
                h == height,
                row@ == rows@[y as int]@,
                row@.len() == if paletted { width as int } else { 3 * width },
                paletted ==> palette@.len() == 768,
                rgba@.len() == (y * w + x) * 4,
                forall|yy: int, xx: int, k: int| 0 <= yy < y && 0 <= xx < width && 0 <= k < 4 ==>
                    #[trigger] rgba@[(yy * width + xx) * 4 + k] == if k == 3 {
                        255u8
                    } else if paletted {
                        palette@[rows@[yy]@[xx] * 3 + k]
                    } else {
                        rows@[yy]@[xx * 3 + k]
                    },
                forall|xx: int, k: int| 0 <= xx < x && 0 <= k < 4 ==>
                    #[trigger] rgba@[(y * width + xx) * 4 + k] == if k == 3 {
                        255u8
                    } else if paletted {
                        palette@[rows@[y as int]@[xx] * 3 + k]
                    } else {
                        rows@[y as int]@[xx * 3 + k]
                    },
            decreases w - x,
        {
            let (r, g, b) = if paletted {
                let pi = (row[x] as usize) * 3;
                (palette[pi], palette[pi + 1], palette[pi + 2])
            } else {
                (row[x * 3], row[x * 3 + 1], row[x * 3 + 2])
            };
            let ghost before = rgba@;
            rgba.push(r);
            rgba.push(g);
            rgba.push(b);
            rgba.push(255u8);
            proof {
                assert forall|yy: int, xx: int, k: int| 0 <= yy < y && 0 <= xx < width && 0 <= k < 4 implies
                    #[trigger] rgba@[(yy * width + xx) * 4 + k] == if k == 3 {
                        255u8
                    } else if paletted {
                        palette@[rows@[yy]@[xx] * 3 + k]
                    } else {
                        rows@[yy]@[xx * 3 + k]
                    } by {
                    assert((yy * width + xx) * 4 + k < (y * width) * 4) by (nonlinear_arith)
                        requires yy < y, 0 <= xx < width, 0 <= k < 4, yy >= 0;
                    assert(rgba@[(yy * width + xx) * 4 + k] == before[(yy * width + xx) * 4 + k]);
                }
                assert forall|xx: int, k: int| 0 <= xx < x + 1 && 0 <= k < 4 implies
                    #[trigger] rgba@[(y * width + xx) * 4 + k] == if k == 3 {
                        255u8
                    } else if paletted {
                        palette@[rows@[y as int]@[xx] * 3 + k]
                    } else {
                        rows@[y as int]@[xx * 3 + k]
                    } by {
                    if xx < x {
                        assert((y * width + xx) * 4 + k < (y * width + x) * 4);
                        assert(rgba@[(y * width + xx) * 4 + k] == before[(y * width + xx) * 4 + k]);
                    }
                }
            }
            x = x + 1;
        }
        proof {
            assert((y * w + w) * 4 == (y + 1) * w * 4) by (nonlinear_arith);
        }
        y = y + 1;
    }
    proof {
        assert(h * w * 4 == w * h * 4) by (nonlinear_arith);
    }
    DecodedImage {
        pixels: RgbaPixels { width: w, height: h, data: rgba },
        format_name: String::from_str("PCX"),
        original_width: width as u32,
        original_height: height as u32,
    }
}

} // verus!
