//! The cache of decoded images: least recently used first out, within a
//! budget of pixel bytes given when it is made (256 MiB in the viewer).

use vstd::prelude::*;
use crate::pixels::{RgbaPixels, DecodedImage};
use std::collections::VecDeque;

verus! {

/// The viewer's budget for the cache: the most pixel bytes it holds (more
/// only while its one entry is larger on its own).
pub const MAX_BYTES: usize = 268435456;

/// A decoded image as the cache keeps it: a still image, or the frames of
/// an animation with their delays in milliseconds.
#[derive(Debug)]
pub enum CachedImage {
    Static(DecodedImage),
    Animated(Vec<(RgbaPixels, u32)>),
}

/// Two pixel buffers hold the same image.
pub open spec fn same_pixels(a: RgbaPixels, b: RgbaPixels) -> bool {
    a.width == b.width && a.height == b.height && a.data@ == b.data@
}

/// Two cached images are the same image.
pub open spec fn same_image(a: CachedImage, b: CachedImage) -> bool {
    match (a, b) {
        (CachedImage::Static(x), CachedImage::Static(y)) => {
            &&& same_pixels(x.pixels, y.pixels)
            &&& x.format_name@ == y.format_name@
            &&& x.original_width == y.original_width
            &&& x.original_height == y.original_height
        },
        (CachedImage::Animated(f), CachedImage::Animated(g)) => {
            &&& f@.len() == g@.len()
            &&& forall|i: int| 0 <= i < f@.len() ==> same_pixels(#[trigger] f@[i].0, g@[i].0) && f@[i].1 == g@[i].1
        },
        _ => false,
    }
}

/// Pixel bytes of `frames`' first `n` frames: width times height times 4
/// for each.
pub open spec fn frames_bytes(frames: Seq<(RgbaPixels, u32)>, n: int) -> nat
    decreases n,
{
    if n <= 0 {
        0
    } else {
        frames_bytes(frames, n - 1) + (frames[n - 1].0.width as nat) * (frames[n - 1].0.height as nat) * 4
    }
}

/// Pixel bytes of a cached image, by the sizes it states.
pub open spec fn image_bytes(c: CachedImage) -> nat {
    match c {
        CachedImage::Static(d) => (d.pixels.width as nat) * (d.pixels.height as nat) * 4,
        CachedImage::Animated(f) => frames_bytes(f@, f@.len() as int),
    }
}

/// The size the cache counts for an image: its pixel bytes, at most
/// `usize::MAX`.
pub open spec fn counted_size(c: CachedImage) -> nat {
    if image_bytes(c) <= usize::MAX {
        image_bytes(c)
    } else {
        usize::MAX as nat
    }
}

fn pixel_bytes(p: &RgbaPixels) -> (r: Option<usize>)
    ensures
        match r {
            Some(v) => v == p.width * p.height * 4,
            None => p.width * p.height * 4 > usize::MAX,
        },
{
    match p.width.checked_mul(p.height) {
        Some(a) => match a.checked_mul(4) {
            Some(v) => Some(v),
            None => None,
        },
        None => {
            proof {
                assert(p.width * p.height * 4 >= p.width * p.height) by (nonlinear_arith)
                    requires p.width * p.height >= 0;
            }
            None
        },
    }
}

impl CachedImage {
    /// The size the cache counts for this image (see `counted_size`).
    pub fn byte_size(&self) -> (r: usize)
        ensures
            r == counted_size(*self),
    {
        match self {
            CachedImage::Static(d) => match pixel_bytes(&d.pixels) {
                Some(b) => b,
                None => usize::MAX,
            },
            CachedImage::Animated(frames) => {
                let mut total: usize = 0;
                let mut over = false;
                let mut i: usize = 0;
                while i < frames.len()
                    invariant
                        i <= frames@.len(),
                        over ==> frames_bytes(frames@, i as int) > usize::MAX,
                        !over ==> total == frames_bytes(frames@, i as int),
                    decreases frames@.len() - i,
                {
                    if !over {
                        match pixel_bytes(&frames[i].0) {
                            Some(b) => {
                                if b <= usize::MAX - total {
                                    total = total + b;
                                } else {
                                    over = true;
                                }
                            },
                            None => {
                                over = true;
                            },
                        }
                    } else {
                        proof {
                            lemma_frames_bytes_monotone(frames@, i as int, i + 1);
                        }
                    }
                    i = i + 1;
                }
                if over {
                    proof {
                        lemma_frames_bytes_monotone(frames@, frames@.len() as int, frames@.len() as int);
                    }
                    usize::MAX
                } else {
                    total
                }
            },
        }
    }
}

proof fn lemma_frames_bytes_monotone(frames: Seq<(RgbaPixels, u32)>, i: int, n: int)
    requires
        i <= n,
    ensures
        frames_bytes(frames, i) <= frames_bytes(frames, n),
    decreases n - i,
{
    if i < n {
        lemma_frames_bytes_monotone(frames, i, n - 1);
    }
}

fn clone_pixels(p: &RgbaPixels) -> (r: RgbaPixels)
    ensures
        same_pixels(r, *p),
{
    let data = p.data.clone();
    proof {
        assert(data@ =~= p.data@);
    }
    RgbaPixels { width: p.width, height: p.height, data }
}

/// A copy of a cached image.
pub fn clone_image(c: &CachedImage) -> (r: CachedImage)
    ensures
        same_image(r, *c),
{
    match c {
        CachedImage::Static(d) => CachedImage::Static(
            DecodedImage {
                pixels: clone_pixels(&d.pixels),
                format_name: d.format_name.clone(),
                original_width: d.original_width,
                original_height: d.original_height,
            },
        ),
        CachedImage::Animated(frames) => {
            let mut out: Vec<(RgbaPixels, u32)> = Vec::new();
            let mut i: usize = 0;
            while i < frames.len()
                invariant
                    i <= frames@.len(),
                    out@.len() == i,
                    forall|k: int| 0 <= k < i ==> same_pixels(#[trigger] out@[k].0, frames@[k].0) && out@[k].1
                        == frames@[k].1,
                decreases frames@.len() - i,
            {
                let p = clone_pixels(&frames[i].0);
                out.push((p, frames[i].1));
                i = i + 1;
            }
            CachedImage::Animated(out)
        },
    }
}

struct Entry {
    path: String,
    data: CachedImage,
    byte_size: usize,
}

/// The cached images by path, least recently used first, the pixel bytes
/// they count, and the budget of bytes.
pub struct ImageCache {
    entries: VecDeque<Entry>,
    current_bytes: usize,
    max_bytes: usize,
}

/// Total counted size of the entries of a model.
pub open spec fn total_bytes(s: Seq<(Seq<char>, CachedImage)>) -> nat
    decreases s.len(),
{
    if s.len() == 0 {
        0
    } else {
        total_bytes(s.drop_last()) + counted_size(s.last().1)
    }
}

/// No path occurs twice.
pub open spec fn distinct_paths(s: Seq<(Seq<char>, CachedImage)>) -> bool {
    forall|i: int, j: int| 0 <= i < j < s.len() ==> (#[trigger] s[i]).0 != (#[trigger] s[j]).0
}

/// Where `p` is in the model.
pub open spec fn index_of_path(s: Seq<(Seq<char>, CachedImage)>, p: Seq<char>) -> Option<int> {
    if exists|i: int| 0 <= i < s.len() && (#[trigger] s[i]).0 == p {
        Some(choose|i: int| 0 <= i < s.len() && (#[trigger] s[i]).0 == p)
    } else {
        None
    }
}

/// The model without the entry for `p`.
pub open spec fn without_path(s: Seq<(Seq<char>, CachedImage)>, p: Seq<char>) -> Seq<(Seq<char>, CachedImage)> {
    match index_of_path(s, p) {
        Some(i) => s.remove(i),
        None => s,
    }
}

/// Eviction before adding an image of counted size `size`: the least
/// recently used entries leave until the total leaves room within the
/// budget `cap`, or none is left.
pub open spec fn evicted(s: Seq<(Seq<char>, CachedImage)>, size: nat, cap: nat) -> Seq<(Seq<char>, CachedImage)>
    decreases s.len(),
{
    if s.len() == 0 || total_bytes(s) + size <= cap {
        s
    } else {
        evicted(s.skip(1), size, cap)
    }
}

/// The model after `put(p, d)` in a cache with budget `cap`: the old entry
/// for `p` goes, entries are evicted to make room, and `(p, d)` joins as
/// most recently used.
pub open spec fn after_put(s: Seq<(Seq<char>, CachedImage)>, p: Seq<char>, d: CachedImage, cap: nat) -> Seq<
    (Seq<char>, CachedImage),
> {
    evicted(without_path(s, p), counted_size(d), cap).push((p, d))
}

/// The model after a `get` of the entry at `i`: it becomes the most
/// recently used.
pub open spec fn after_touch(s: Seq<(Seq<char>, CachedImage)>, i: int) -> Seq<(Seq<char>, CachedImage)> {
    s.remove(i).push(s[i])
}

impl ImageCache {
    /// The cached images in order of use, least recent first, with their
    /// paths.
    pub closed spec fn model(&self) -> Seq<(Seq<char>, CachedImage)> {
        self.entries@.map_values(|e: Entry| (e.path@, e.data))
    }

    /// The bytes the cache counts.
    pub closed spec fn bytes(&self) -> nat {
        self.current_bytes as nat
    }

    /// The budget of bytes the cache was made with.
    pub closed spec fn cap(&self) -> nat {
        self.max_bytes as nat
    }

    /// Each entry counts its image's size, the total is their sum, and no
    /// path occurs twice.
    pub closed spec fn wf(&self) -> bool {
        &&& forall|i: int| 0 <= i < self.entries@.len() ==> (#[trigger] self.entries@[i]).byte_size
            == counted_size(self.entries@[i].data)
        &&& self.current_bytes == total_bytes(self.model())
        &&& distinct_paths(self.model())
    }

    /// In a well-formed cache no path occurs twice.
    pub proof fn lemma_paths_distinct(&self)
        requires
            self.wf(),
        ensures
            distinct_paths(self.model()),
    {
    }

    /// An empty cache with a budget of `max_bytes` pixel bytes.
    pub fn new(max_bytes: usize) -> (c: ImageCache)
        ensures
            c.wf(),
            c.model() == Seq::<(Seq<char>, CachedImage)>::empty(),
            distinct_paths(c.model()),
            c.bytes() == 0,
            c.cap() == max_bytes,
    {
        let c = ImageCache { entries: VecDeque::new(), current_bytes: 0, max_bytes };
        assert(c.model() =~= Seq::<(Seq<char>, CachedImage)>::empty());
        c
    }

    fn position(&self, path: &str) -> (r: Option<usize>)
        requires
            self.wf(),
        ensures
            match r {
                Some(i) => i < self.model().len() && self.model()[i as int].0 == path@ && index_of_path(
                    self.model(),
                    path@,
                ) == Some(i as int),
                None => index_of_path(self.model(), path@).is_none(),
            },
    {
        let mut i: usize = 0;
        while i < self.entries.len()
            invariant
                self.wf(),
                i <= self.entries@.len(),
                forall|k: int| 0 <= k < i ==> (#[trigger] self.model()[k]).0 != path@,
            decreases self.entries@.len() - i,
        {
            if crate::text::str_eq(self.entries[i].path.as_str(), path) {
                proof {
                    assert(self.model()[i as int].0 == path@);
                    let j = index_of_path(self.model(), path@)->0;
                    assert(self.model()[j].0 == path@);
                    if j != i as int {
                        assert(self.model()[j].0 != self.model()[i as int].0);
                    }
                }
                return Some(i);
            }
            i = i + 1;
        }
        None
    }

    /// Whether an image for `path` is cached.
    pub fn contains(&self, path: &str) -> (r: bool)
        requires
            self.wf(),
        ensures
            r == index_of_path(self.model(), path@).is_some(),
    {
        self.position(path).is_some()
    }

    /// A copy of the image cached for `path`, which becomes the most
    /// recently used; `None` where there is none, the cache unchanged.
    pub fn get(&mut self, path: &str) -> (r: Option<CachedImage>)
        requires
            old(self).wf(),
        ensures
            final(self).wf(),
            distinct_paths(final(self).model()),
            final(self).bytes() == old(self).bytes(),
            final(self).cap() == old(self).cap(),
            match index_of_path(old(self).model(), path@) {
                Some(i) => {
                    &&& r matches Some(c) && same_image(c, old(self).model()[i].1)
                    &&& final(self).model() == after_touch(old(self).model(), i)
                },
                None => r is None && final(self).model() == old(self).model(),
            },
    {
        match self.position(path) {
            Some(i) => {
                let ghost m0 = self.model();
                let entry = self.entries.remove(i).unwrap();
                let data = clone_image(&entry.data);
                self.entries.push_back(entry);
                proof {
                    assert(self.model() =~= after_touch(m0, i as int));
                    lemma_total_touch(m0, i as int);
                    lemma_distinct_touch(m0, i as int);
                }
                Some(data)
            },
            None => None,
        }
    }

    /// Caches `data` for `path` (see `after_put`).
    pub fn put(&mut self, path: String, data: CachedImage)
        requires
            old(self).wf(),
        ensures
            final(self).wf(),
            distinct_paths(final(self).model()),
            final(self).model() == after_put(old(self).model(), path@, data, old(self).cap()),
            final(self).bytes() == total_bytes(final(self).model()),
            final(self).cap() == old(self).cap(),
    {
        let ghost m0 = self.model();
        match self.position(path.as_str()) {
            Some(i) => {
                let old_entry = self.entries.remove(i).unwrap();
                proof {
                    assert(self.model() =~= m0.remove(i as int));
                    lemma_total_remove(m0, i as int);
                    lemma_distinct_remove(m0, i as int);
                    lemma_index_none_after_remove(m0, i as int);
                }
                self.current_bytes = self.current_bytes - old_entry.byte_size;
            },
            None => {},
        }
        let ghost m1 = self.model();
        assert(m1 == without_path(m0, path@));
        let size = data.byte_size();
        let cap = self.max_bytes;
        while self.entries.len() > 0 && self.current_bytes as u128 + size as u128 > cap as u128
            invariant
                self.wf(),
                self.max_bytes == cap,
                size == counted_size(data),
                evicted(m1, size as nat, cap as nat) == evicted(self.model(), size as nat, cap as nat),
                index_of_path(self.model(), path@).is_none(),
            decreases self.entries@.len(),
        {
            let ghost m = self.model();
            let ev = self.entries.pop_front().unwrap();
            proof {
                assert(self.model() =~= m.skip(1));
                assert(m.skip(1) =~= m.remove(0));
                lemma_total_remove(m, 0);
                lemma_distinct_remove(m, 0);
                lemma_index_none_skip(m, path@);
            }
            self.current_bytes = self.current_bytes - ev.byte_size;
        }
        let ghost m2 = self.model();
        assert(evicted(m2, size as nat, cap as nat) == m2);
        proof {
            lemma_total_fits(m2, size as nat, cap as nat);
        }
        self.current_bytes = self.current_bytes + size;
        let ghost p = path@;
        self.entries.push_back(Entry { path, data, byte_size: size });
        proof {
            assert(self.model() =~= m2.push((p, data)));
            lemma_total_push(m2, (p, data));
            lemma_distinct_push(m2, p, data);
        }
    }
}

proof fn lemma_total_push(s: Seq<(Seq<char>, CachedImage)>, e: (Seq<char>, CachedImage))
    ensures
        total_bytes(s.push(e)) == total_bytes(s) + counted_size(e.1),
{
    assert(s.push(e).drop_last() =~= s);
}

proof fn lemma_total_remove(s: Seq<(Seq<char>, CachedImage)>, i: int)
    requires
        0 <= i < s.len(),
    ensures
        total_bytes(s) == total_bytes(s.remove(i)) + counted_size(s[i].1),
    decreases s.len(),
{
    if i < s.len() - 1 {
        lemma_total_remove(s.drop_last(), i);
        assert(s.remove(i).drop_last() =~= s.drop_last().remove(i));
        assert(s.remove(i).last() == s.last());
    } else {
        assert(s.remove(i) =~= s.drop_last());
    }
}

proof fn lemma_total_touch(s: Seq<(Seq<char>, CachedImage)>, i: int)
    requires
        0 <= i < s.len(),
    ensures
        total_bytes(after_touch(s, i)) == total_bytes(s),
{
    lemma_total_remove(s, i);
    lemma_total_push(s.remove(i), s[i]);
}

proof fn lemma_distinct_remove(s: Seq<(Seq<char>, CachedImage)>, i: int)
    requires
        0 <= i < s.len(),
        distinct_paths(s),
    ensures
        distinct_paths(s.remove(i)),
{
    let r = s.remove(i);
    assert forall|a: int, b: int| 0 <= a < b < r.len() implies (#[trigger] r[a]).0 != (#[trigger] r[b]).0 by {
        let a1 = if a < i { a } else { a + 1 };
        let b1 = if b < i { b } else { b + 1 };
        assert(r[a] == s[a1]);
        assert(r[b] == s[b1]);
        assert(s[a1].0 != s[b1].0);
    }
}

proof fn lemma_distinct_push(s: Seq<(Seq<char>, CachedImage)>, p: Seq<char>, d: CachedImage)
    requires
        distinct_paths(s),
        index_of_path(s, p).is_none(),
    ensures
        distinct_paths(s.push((p, d))),
{
    let r = s.push((p, d));
    assert forall|a: int, b: int| 0 <= a < b < r.len() implies (#[trigger] r[a]).0 != (#[trigger] r[b]).0 by {
        if b == s.len() {
            assert(r[a] == s[a]);
            if s[a].0 == p {
                assert(exists|k: int| 0 <= k < s.len() && (#[trigger] s[k]).0 == p);
            }
        } else {
            assert(r[a] == s[a] && r[b] == s[b]);
        }
    }
}

proof fn lemma_distinct_touch(s: Seq<(Seq<char>, CachedImage)>, i: int)
    requires
        0 <= i < s.len(),
        distinct_paths(s),
    ensures
        distinct_paths(after_touch(s, i)),
{
    lemma_distinct_remove(s, i);
    let r = s.remove(i);
    if exists|k: int| 0 <= k < r.len() && (#[trigger] r[k]).0 == s[i].0 {
        let k = choose|k: int| 0 <= k < r.len() && (#[trigger] r[k]).0 == s[i].0;
        let k1 = if k < i { k } else { k + 1 };
        assert(r[k] == s[k1]);
        if k1 < i {
            assert(s[k1].0 != s[i].0);
        } else {
            assert(s[i].0 != s[k1].0);
        }
    }
    lemma_distinct_push(r, s[i].0, s[i].1);
}

proof fn lemma_index_none_after_remove(s: Seq<(Seq<char>, CachedImage)>, i: int)
    requires
        0 <= i < s.len(),
        distinct_paths(s),
    ensures
        index_of_path(s.remove(i), s[i].0).is_none(),
{
    let r = s.remove(i);
    if exists|k: int| 0 <= k < r.len() && (#[trigger] r[k]).0 == s[i].0 {
        let k = choose|k: int| 0 <= k < r.len() && (#[trigger] r[k]).0 == s[i].0;
        let k1 = if k < i { k } else { k + 1 };
        assert(r[k] == s[k1]);
        if k1 < i {
            assert(s[k1].0 != s[i].0);
        } else {
            assert(s[i].0 != s[k1].0);
        }
    }
}

proof fn lemma_index_none_skip(s: Seq<(Seq<char>, CachedImage)>, p: Seq<char>)
    requires
        s.len() > 0,
        index_of_path(s, p).is_none(),
    ensures
        index_of_path(s.skip(1), p).is_none(),
{
    if exists|k: int| 0 <= k < s.skip(1).len() && (#[trigger] s.skip(1)[k]).0 == p {
        let k = choose|k: int| 0 <= k < s.skip(1).len() && (#[trigger] s.skip(1)[k]).0 == p;
        assert(s[k + 1].0 == p);
    }
}

proof fn lemma_total_fits(s: Seq<(Seq<char>, CachedImage)>, size: nat, cap: nat)
    requires
        evicted(s, size, cap) == s,
        size <= usize::MAX,
    ensures
        s.len() == 0 || total_bytes(s) + size <= cap,
{
    if s.len() > 0 && total_bytes(s) + size > cap {
        lemma_evicted_shorter(s.skip(1), size, cap);
    }
}

proof fn lemma_evicted_shorter(s: Seq<(Seq<char>, CachedImage)>, size: nat, cap: nat)
    ensures
        evicted(s, size, cap).len() <= s.len(),
    decreases s.len(),
{
    if !(s.len() == 0 || total_bytes(s) + size <= cap) {
        lemma_evicted_shorter(s.skip(1), size, cap);
    }
}

proof fn lemma_evicted_suffix(s: Seq<(Seq<char>, CachedImage)>, size: nat, cap: nat)
    ensures
        exists|k: int| 0 <= k <= s.len() && evicted(s, size, cap) == #[trigger] s.skip(k),
    decreases s.len(),
{
    if s.len() == 0 || total_bytes(s) + size <= cap {
        assert(s.skip(0) =~= s);
    } else {
        lemma_evicted_suffix(s.skip(1), size, cap);
        let k = choose|k: int| 0 <= k <= s.skip(1).len() && evicted(s.skip(1), size, cap) == #[trigger] s.skip(1).skip(k);
        assert(s.skip(1).skip(k) =~= s.skip(k + 1));
    }
}

proof fn lemma_evicted_fits(s: Seq<(Seq<char>, CachedImage)>, size: nat, cap: nat)
    ensures
        evicted(s, size, cap).len() == 0 || total_bytes(evicted(s, size, cap)) + size <= cap,
    decreases s.len(),
{
    if !(s.len() == 0 || total_bytes(s) + size <= cap) {
        lemma_evicted_fits(s.skip(1), size, cap);
    }
}

proof fn lemma_distinct_skip(s: Seq<(Seq<char>, CachedImage)>, k: int)
    requires
        distinct_paths(s),
        0 <= k <= s.len(),
    ensures
        distinct_paths(s.skip(k)),
{
    let r = s.skip(k);
    assert forall|a: int, b: int| 0 <= a < b < r.len() implies (#[trigger] r[a]).0 != (#[trigger] r[b]).0 by {
        assert(r[a] == s[a + k] && r[b] == s[b + k]);
    }
}

proof fn lemma_without_path(s: Seq<(Seq<char>, CachedImage)>, p: Seq<char>)
    requires
        distinct_paths(s),
    ensures
        distinct_paths(without_path(s, p)),
        index_of_path(without_path(s, p), p).is_none(),
{
    match index_of_path(s, p) {
        Some(i) => {
            lemma_distinct_remove(s, i);
            lemma_index_none_after_remove(s, i);
        },
        None => {},
    }
}

/// After `put(p, d)`, whatever the budget, the entry for `p` is `d`, the
/// most recently used: a `get(p)` right after gives `d` back.
pub proof fn law_get_after_put(s: Seq<(Seq<char>, CachedImage)>, p: Seq<char>, d: CachedImage, cap: nat)
    requires
        distinct_paths(s),
    ensures
        index_of_path(after_put(s, p, d, cap), p) == Some(after_put(s, p, d, cap).len() - 1),
        after_put(s, p, d, cap).last() == (p, d),
{
    let t = without_path(s, p);
    lemma_without_path(s, p);
    let e = evicted(t, counted_size(d), cap);
    lemma_evicted_suffix(t, counted_size(d), cap);
    let k = choose|k: int| 0 <= k <= t.len() && e == #[trigger] t.skip(k);
    lemma_distinct_skip(t, k);
    assert(index_of_path(e, p).is_none()) by {
        if exists|j: int| 0 <= j < e.len() && (#[trigger] e[j]).0 == p {
            let j = choose|j: int| 0 <= j < e.len() && (#[trigger] e[j]).0 == p;
            assert(t[j + k].0 == p);
        }
    }
    lemma_distinct_push(e, p, d);
    let r = e.push((p, d));
    assert(r[r.len() - 1].0 == p);
    let i = index_of_path(r, p)->0;
    if i != r.len() - 1 {
        assert(r[i].0 != r[r.len() - 1].0);
    }
}

/// After any `put`, the cache holds at most its budget `cap`, unless the
/// image just put is alone in it.
pub proof fn law_put_within_budget(s: Seq<(Seq<char>, CachedImage)>, p: Seq<char>, d: CachedImage, cap: nat)
    ensures
        total_bytes(after_put(s, p, d, cap)) <= cap || after_put(s, p, d, cap).len() == 1,
{
    let t = without_path(s, p);
    let e = evicted(t, counted_size(d), cap);
    lemma_evicted_fits(t, counted_size(d), cap);
    lemma_total_push(e, (p, d));
}

/// `put` only evicts the least recently used entries: what stays of the
/// others keeps its order and is a most recently used part of them.
pub proof fn law_put_evicts_oldest(s: Seq<(Seq<char>, CachedImage)>, p: Seq<char>, d: CachedImage, cap: nat)
    ensures
        exists|k: int|
            0 <= k <= without_path(s, p).len() && after_put(s, p, d, cap).drop_last() == #[trigger] without_path(
                s,
                p,
            ).skip(k),
{
    let t = without_path(s, p);
    lemma_evicted_suffix(t, counted_size(d), cap);
    assert(after_put(s, p, d, cap).drop_last() =~= evicted(t, counted_size(d), cap));
}

/// A `get` that finds its image keeps every cached image and the total,
/// and makes that image the most recently used.
pub proof fn law_get_keeps_contents(s: Seq<(Seq<char>, CachedImage)>, i: int)
    requires
        0 <= i < s.len(),
    ensures
        after_touch(s, i).len() == s.len(),
        after_touch(s, i).last() == s[i],
        total_bytes(after_touch(s, i)) == total_bytes(s),
        after_touch(s, i).to_multiset() == s.to_multiset(),
{
    lemma_total_touch(s, i);
    let r = s.remove(i);
    assert(s =~= s.take(i) + s.skip(i));
    assert(r =~= s.take(i) + s.skip(i + 1));
    assert(s.skip(i) =~= seq![s[i]] + s.skip(i + 1));
    vstd::seq_lib::lemma_multiset_commutative(s.take(i), s.skip(i));
    vstd::seq_lib::lemma_multiset_commutative(s.take(i), s.skip(i + 1));
    vstd::seq_lib::lemma_multiset_commutative(seq![s[i]], s.skip(i + 1));
    assert(r.push(s[i]) =~= r + seq![s[i]]);
    vstd::seq_lib::lemma_multiset_commutative(r, seq![s[i]]);
}

} // verus!
