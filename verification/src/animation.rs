//! Animated images: GIF, animated WebP and APNG, decoded frame by frame
//! with each frame's delay.

use vstd::prelude::*;
use image::AnimationDecoder;
use crate::pixels::{RgbaPixels, AnimatedFrame, frame_delay, frame_delay_ms};
use crate::text::{lowercase_of, str_lowercase, str_eq};

verus! {

/// A decoded frame: width, height, RGBA bytes, and its delay as
/// `numerator / denominator` milliseconds.
pub type RawFrame = (u32, u32, Vec<u8>, u32, u32);

/// The view of a decoded frame.
pub type RawFrameView = (u32, u32, Seq<u8>, u32, u32);

/// The views of decoded frames.
pub open spec fn frame_views(v: Seq<RawFrame>) -> Seq<RawFrameView> {
    Seq::new(v.len(), |i: int| (v[i].0, v[i].1, v[i].2@, v[i].3, v[i].4))
}

/// The frames the GIF decoder gives for a file's bytes, `None` where it
/// fails.
pub uninterp spec fn gif_frames_of(data: Seq<u8>) -> Option<Seq<(u32, u32, Seq<u8>, u32, u32)>>;

/// Whether the WebP decoder accepts the bytes (`None` where not), and
/// whether the image is animated.
pub uninterp spec fn webp_animated_of(data: Seq<u8>) -> Option<bool>;

/// The frames the WebP decoder gives for a file's bytes.
pub uninterp spec fn webp_frames_of(data: Seq<u8>) -> Option<Seq<(u32, u32, Seq<u8>, u32, u32)>>;

/// Whether the PNG decoder accepts the bytes (`None` where not), and
/// whether the image is an APNG.
pub uninterp spec fn apng_of(data: Seq<u8>) -> Option<bool>;

/// The frames the APNG decoder gives for a file's bytes.
pub uninterp spec fn apng_frames_of(data: Seq<u8>) -> Option<Seq<(u32, u32, Seq<u8>, u32, u32)>>;

/// Calls `GifDecoder::new` and `into_frames`, reading each frame's delay
/// with `Delay::numer_denom_ms` and its pixels with `Frame::into_buffer`.
/// Stated: the outcome is `gif_frames_of(data)`.
#[verifier::external_body]
fn gif_frames(data: &[u8]) -> (r: Option<Vec<RawFrame>>)
    ensures
        match r {
            Some(v) => gif_frames_of(data@) == Some(frame_views(v@)),
            None => gif_frames_of(data@).is_none(),
        },
{
    let dec = image::codecs::gif::GifDecoder::new(std::io::Cursor::new(data)).ok()?;
    let mut out = Vec::new();
    for f in dec.into_frames() {
        let f = f.ok()?;
        let (n, d) = f.delay().numer_denom_ms();
        let b = f.into_buffer();
        out.push((b.width(), b.height(), b.into_raw(), n, d));
    }
    Some(out)
}

/// Calls `WebPDecoder::new` and `has_animation`.
/// Stated: the outcome is `webp_animated_of(data)`.
#[verifier::external_body]
fn webp_animated(data: &[u8]) -> (r: Option<bool>)
    ensures
        r == webp_animated_of(data@),
{
    image::codecs::webp::WebPDecoder::new(std::io::Cursor::new(data)).ok().map(|d| d.has_animation())
}

/// Calls `WebPDecoder::new` and `into_frames`, as `gif_frames` does.
/// Stated: the outcome is `webp_frames_of(data)`.
#[verifier::external_body]
fn webp_frames(data: &[u8]) -> (r: Option<Vec<RawFrame>>)
    ensures
        match r {
            Some(v) => webp_frames_of(data@) == Some(frame_views(v@)),
            None => webp_frames_of(data@).is_none(),
        },
{
    let dec = image::codecs::webp::WebPDecoder::new(std::io::Cursor::new(data)).ok()?;
    let mut out = Vec::new();
    for f in dec.into_frames() {
        let f = f.ok()?;
        let (n, d) = f.delay().numer_denom_ms();
        let b = f.into_buffer();
        out.push((b.width(), b.height(), b.into_raw(), n, d));
    }
    Some(out)
}

/// Calls `PngDecoder::new` and `is_apng` (an error of the latter read as
/// not animated). Stated: the outcome is `apng_of(data)`.
#[verifier::external_body]
fn png_is_apng(data: &[u8]) -> (r: Option<bool>)
    ensures
        r == apng_of(data@),
{
    image::codecs::png::PngDecoder::new(std::io::Cursor::new(data)).ok().map(|d| d.is_apng().unwrap_or(false))
}

/// Calls `PngDecoder::new`, `apng` and `into_frames`, as `gif_frames`
/// does. Stated: the outcome is `apng_frames_of(data)`.
#[verifier::external_body]
fn apng_frames(data: &[u8]) -> (r: Option<Vec<RawFrame>>)
    ensures
        match r {
            Some(v) => apng_frames_of(data@) == Some(frame_views(v@)),
            None => apng_frames_of(data@).is_none(),
        },
{
    let dec = image::codecs::png::PngDecoder::new(std::io::Cursor::new(data)).ok()?.apng().ok()?;
    let mut out = Vec::new();
    for f in dec.into_frames() {
        let f = f.ok()?;
        let (n, d) = f.delay().numer_denom_ms();
        let b = f.into_buffer();
        out.push((b.width(), b.height(), b.into_raw(), n, d));
    }
    Some(out)
}

/// The decoded frames of an animated file by its (lower-cased) extension:
/// GIF always, WebP and PNG only where the file is animated; `None` for
/// other extensions and where decoding fails.
pub open spec fn raw_animation(data: Seq<u8>, ext: Seq<char>) -> Option<Seq<RawFrameView>> {
    if ext == "gif"@ {
        gif_frames_of(data)
    } else if ext == "webp"@ {
        if webp_animated_of(data) == Some(true) {
            webp_frames_of(data)
        } else {
            None
        }
    } else if ext == "png"@ || ext == "apng"@ {
        if apng_of(data) == Some(true) {
            apng_frames_of(data)
        } else {
            None
        }
    } else {
        None
    }
}

/// A decoded frame's pixel buffer holds its width times height pixels.
pub open spec fn frame_fits(f: RawFrameView) -> bool {
    f.2.len() == (f.0 as nat) * (f.1 as nat) * 4
}

/// The animation shown for decoded frames: where there is more than one
/// and every buffer fits its size, the frames with their delays (see
/// `frame_delay`); else none.
pub open spec fn animation_of(frames: Option<Seq<RawFrameView>>) -> Option<Seq<RawFrameView>> {
    match frames {
        Some(fs) => if fs.len() > 1 && forall|i: int| 0 <= i < fs.len() ==> frame_fits(#[trigger] fs[i]) {
            Some(fs)
        } else {
            None
        },
        None => None,
    }
}

fn all_fit(v: &Vec<RawFrame>) -> (r: bool)
    ensures
        r == forall|i: int| 0 <= i < v@.len() ==> frame_fits(#[trigger] frame_views(v@)[i]),
{
    let ghost fv = frame_views(v@);
    let n = v.len();
    let mut k: usize = 0;
    while k < n
        invariant
            fv == frame_views(v@),
            n == v@.len(),
            k <= n,
            forall|i: int| 0 <= i < k ==> frame_fits(#[trigger] fv[i]),
        decreases n - k,
    {
        let w = v[k].0 as u64;
        let h = v[k].1 as u64;
        proof {
            assert(w * h <= 0xffff_ffff_ffff_ffffu64) by (nonlinear_arith)
                requires w <= 0xffff_ffffu64, h <= 0xffff_ffffu64;
            assert(w * h * 4 <= 0xffff_ffff_ffff_ffff_ffffu128) by (nonlinear_arith)
                requires w <= 0xffff_ffffu64, h <= 0xffff_ffffu64;
        }
        if (v[k].2.len() as u128) != (w as u128) * (h as u128) * 4 {
            assert(fv[k as int].2.len() == v@[k as int].2@.len());
            assert(!frame_fits(fv[k as int]));
            return false;
        }
        k = k + 1;
    }
    true
}

/// The frames shown for decoded frames (see `animation_of`), each with
/// its delay in milliseconds.
pub fn frames_to_animation(frames: Option<Vec<RawFrame>>) -> (r: Option<Vec<AnimatedFrame>>)
    ensures
        match animation_of(
            match frames {
                Some(v) => Some(frame_views(v@)),
                None => None,
            },
        ) {
            Some(fs) => r matches Some(out) && out@.len() == fs.len() && forall|i: int|
                0 <= i < fs.len() ==> {
                    &&& (#[trigger] out@[i]).pixels.width == fs[i].0
                    &&& out@[i].pixels.height == fs[i].1
                    &&& out@[i].pixels.data@ == fs[i].2
                    &&& out@[i].pixels.wf()
                    &&& out@[i].delay_ms == frame_delay(fs[i].3, fs[i].4)
                },
            None => r is None,
        },
{
    let v = match frames {
        Some(v) => v,
        None => return None,
    };
    let ghost fv = frame_views(v@);
    if v.len() <= 1 {
        return None;
    }
    let n = v.len();
    if !all_fit(&v) {
        return None;
    }
    let mut rest = v;
    let ghost orig = fv;
    let mut backwards: Vec<AnimatedFrame> = Vec::new();
    while rest.len() > 0
        invariant
            n == orig.len(),
            orig == frame_views(v@),
            forall|i: int| 0 <= i < n ==> frame_fits(#[trigger] orig[i]),
            rest@.len() + backwards@.len() == n,
            forall|i: int| 0 <= i < rest@.len() ==> #[trigger] rest@[i] == v@[i],
            forall|i: int| 0 <= i < backwards@.len() ==> {
                &&& (#[trigger] backwards@[i]).pixels.width == orig[n - 1 - i].0
                &&& backwards@[i].pixels.height == orig[n - 1 - i].1
                &&& backwards@[i].pixels.data@ == orig[n - 1 - i].2
                &&& backwards@[i].pixels.wf()
                &&& backwards@[i].delay_ms == frame_delay(orig[n - 1 - i].3, orig[n - 1 - i].4)
            },
        decreases rest@.len(),
    {
        let ghost k = rest@.len() - 1;
        let f = rest.pop().unwrap();
        proof {
            assert(f == v@[k]);
            assert(frame_fits(orig[k]));
        }
        let (w, h, px, numer, denom) = f;
        let frame = AnimatedFrame {
            pixels: RgbaPixels { width: w as usize, height: h as usize, data: px },
            delay_ms: frame_delay_ms(numer, denom),
        };
        backwards.push(frame);
    }
    let mut out: Vec<AnimatedFrame> = Vec::new();
    while backwards.len() > 0
        invariant
            n == orig.len(),
            backwards@.len() + out@.len() == n,
            forall|i: int| 0 <= i < backwards@.len() ==> {
                &&& (#[trigger] backwards@[i]).pixels.width == orig[n - 1 - i].0
                &&& backwards@[i].pixels.height == orig[n - 1 - i].1
                &&& backwards@[i].pixels.data@ == orig[n - 1 - i].2
                &&& backwards@[i].pixels.wf()
                &&& backwards@[i].delay_ms == frame_delay(orig[n - 1 - i].3, orig[n - 1 - i].4)
            },
            forall|i: int| 0 <= i < out@.len() ==> {
                &&& (#[trigger] out@[i]).pixels.width == orig[i].0
                &&& out@[i].pixels.height == orig[i].1
                &&& out@[i].pixels.data@ == orig[i].2
                &&& out@[i].pixels.wf()
                &&& out@[i].delay_ms == frame_delay(orig[i].3, orig[i].4)
            },
        decreases backwards@.len(),
    {
        let ghost k = backwards@.len() - 1;
        let f = backwards.pop().unwrap();
        proof {
            assert(n - 1 - k == out@.len());
        }
        out.push(f);
    }
    Some(out)
}

/// Decodes the frames of an animated GIF, WebP or PNG from its bytes,
/// choosing the decoder by the extension (compared without regard to
/// case); `None` where the file is not animated, has a single frame, or
/// fails to decode (see `raw_animation` and `animation_of`).
pub fn load_animated(data: &[u8], ext: Option<&str>) -> (r: Option<Vec<AnimatedFrame>>)
    ensures
        match animation_of(
            match ext {
                Some(e) => raw_animation(data@, lowercase_of(e@)),
                None => raw_animation(data@, Seq::empty()),
            },
        ) {
            Some(fs) => r matches Some(out) && out@.len() == fs.len() && forall|i: int|
                0 <= i < fs.len() ==> {
                    &&& (#[trigger] out@[i]).pixels.width == fs[i].0
                    &&& out@[i].pixels.height == fs[i].1
                    &&& out@[i].pixels.data@ == fs[i].2
                    &&& out@[i].delay_ms == frame_delay(fs[i].3, fs[i].4)
                },
            None => r is None,
        },
{
    let lower = match ext {
        Some(e) => str_lowercase(e),
        None => {
            proof {
                reveal_strlit("");
                assert(""@ =~= Seq::<char>::empty());
            }
            String::from_str("")
        },
    };
    let e = lower.as_str();
    let frames = if str_eq(e, "gif") {
        gif_frames(data)
    } else if str_eq(e, "webp") {
        match webp_animated(data) {
            Some(true) => webp_frames(data),
            _ => None,
        }
    } else if str_eq(e, "png") || str_eq(e, "apng") {
        match png_is_apng(data) {
            Some(true) => apng_frames(data),
            _ => None,
        }
    } else {
        None
    };
    frames_to_animation(frames)
}

} // verus!
