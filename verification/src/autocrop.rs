//! Auto-crop: finding the content of an image against its background.
//!
//! The background colour is the most frequent colour of the four corner
//! squares; a pixel is content where it is opaque and differs from the
//! background by more than the tolerance in a channel. Rows and columns
//! dense in content make the core of the subject; the core grows over rows
//! and columns with any content as long as no gap of empty ones is too
//! wide, and the crop is the box of the content inside, with padding.

use vstd::prelude::*;
use crate::pixels::{RgbaPixels, lemma_cell_index};

verus! {

/// How auto-crop tells content from background.
#[derive(Debug)]
pub struct AutoCropOptions {
    /// Largest difference per channel that still counts as background.
    pub tolerance: u8,
    /// Pixels kept around the content.
    pub padding: u32,
}

impl Default for AutoCropOptions {
    /// A tolerance of 30 and a padding of 4 pixels.
    fn default() -> (o: Self)
        ensures
            o.tolerance == 30,
            o.padding == 4,
    {
        AutoCropOptions { tolerance: 30, padding: 4 }
    }
}

/// A crop box within an image of `original_width` by `original_height`.
#[derive(Debug)]
pub struct CropResult {
    pub x: u32,
    pub y: u32,
    pub width: u32,
    pub height: u32,
    pub original_width: u32,
    pub original_height: u32,
}

/// The limits that depend on the image's size: the content count from which
/// a row or column belongs to the core, and the widest gap of empty rows
/// or columns the growth of the core bridges.
#[derive(Debug)]
pub struct CropLimits {
    pub row_threshold: u32,
    pub col_threshold: u32,
    pub row_gap_limit: u32,
    pub col_gap_limit: u32,
}

/// The cell at column `x` and row `y` of a grid `w` cells wide.
pub open spec fn cell(m: Seq<bool>, w: int, x: int, y: int) -> bool {
    m[y * w + x]
}

/// Number of set cells among the first `n` of row `y`.
pub open spec fn row_count(m: Seq<bool>, w: int, y: int, n: int) -> nat
    decreases n,
{
    if n <= 0 {
        0
    } else {
        row_count(m, w, y, n - 1) + if cell(m, w, n - 1, y) { 1nat } else { 0nat }
    }
}

/// Number of set cells among the first `n` of column `x`.
pub open spec fn col_count(m: Seq<bool>, w: int, x: int, n: int) -> nat
    decreases n,
{
    if n <= 0 {
        0
    } else {
        col_count(m, w, x, n - 1) + if cell(m, w, x, n - 1) { 1nat } else { 0nat }
    }
}

/// The number of set cells of each row.
pub open spec fn row_counts(m: Seq<bool>, w: int, h: int) -> Seq<nat> {
    Seq::new(h as nat, |y: int| row_count(m, w, y, w))
}

/// The number of set cells of each column.
pub open spec fn col_counts(m: Seq<bool>, w: int, h: int) -> Seq<nat> {
    Seq::new(w as nat, |x: int| col_count(m, w, x, h))
}

/// The first index from `i` on whose value is at least `t`.
pub open spec fn first_at_least(s: Seq<nat>, t: nat, i: int) -> Option<int>
    decreases s.len() - i,
{
    if i < 0 || i >= s.len() {
        None
    } else if s[i] >= t {
        Some(i)
    } else {
        first_at_least(s, t, i + 1)
    }
}

/// The last index below `i` whose value is at least `t`.
pub open spec fn last_at_least(s: Seq<nat>, t: nat, i: int) -> Option<int>
    decreases i,
{
    if i <= 0 || i > s.len() {
        None
    } else if s[i - 1] >= t {
        Some(i - 1)
    } else {
        last_at_least(s, t, i - 1)
    }
}

/// Where the core starts: the first line whose count reaches the
/// threshold, or else the first line with any content.
pub open spec fn core_first(s: Seq<nat>, t: nat) -> Option<int> {
    match first_at_least(s, t, 0) {
        Some(i) => Some(i),
        None => first_at_least(s, 1, 0),
    }
}

/// Where the core ends: the last line whose count reaches the threshold,
/// or else the last line with any content.
pub open spec fn core_last(s: Seq<nat>, t: nat) -> Option<int> {
    match last_at_least(s, t, s.len() as int) {
        Some(i) => Some(i),
        None => last_at_least(s, 1, s.len() as int),
    }
}

/// Growth of the core towards index 0: walking down from `r`, with `lo`
/// the lowest line with content so far and `gap` the empty lines since,
/// each line with content joins (with the lines between) and the walk
/// stops once more than `limit` empty lines follow each other.
pub open spec fn reach_back(s: Seq<nat>, r: int, lo: int, gap: nat, limit: nat) -> int
    decreases r,
{
    if r <= 0 {
        lo
    } else if s[r - 1] > 0 {
        reach_back(s, r - 1, r - 1, 0, limit)
    } else if gap + 1 > limit {
        lo
    } else {
        reach_back(s, r - 1, lo, gap + 1, limit)
    }
}

/// Growth of the core towards the end, as `reach_back` in the other
/// direction: `r` is the next line to look at, `hi` the highest line with
/// content so far.
pub open spec fn reach_forward(s: Seq<nat>, r: int, hi: int, gap: nat, limit: nat) -> int
    decreases s.len() - r,
{
    if r >= s.len() || r < 0 {
        hi
    } else if s[r] > 0 {
        reach_forward(s, r + 1, r, 0, limit)
    } else if gap + 1 > limit {
        hi
    } else {
        reach_forward(s, r + 1, hi, gap + 1, limit)
    }
}

/// Column `x` has a set cell in rows `y0..=y1`.
pub open spec fn col_hit(m: Seq<bool>, w: int, x: int, y0: int, y1: int) -> bool {
    exists|y: int| y0 <= y <= y1 && #[trigger] cell(m, w, x, y)
}

/// Row `y` has a set cell in columns `x0..=x1`.
pub open spec fn row_hit(m: Seq<bool>, w: int, y: int, x0: int, x1: int) -> bool {
    exists|x: int| x0 <= x <= x1 && #[trigger] cell(m, w, x, y)
}

/// The leftmost column of `x..=x1` with a set cell in rows `y0..=y1`.
pub open spec fn first_hit_col(m: Seq<bool>, w: int, x: int, x1: int, y0: int, y1: int) -> Option<int>
    decreases x1 - x + 1,
{
    if x > x1 {
        None
    } else if col_hit(m, w, x, y0, y1) {
        Some(x)
    } else {
        first_hit_col(m, w, x + 1, x1, y0, y1)
    }
}

/// The rightmost column of `x0..=x` with a set cell in rows `y0..=y1`.
pub open spec fn last_hit_col(m: Seq<bool>, w: int, x0: int, x: int, y0: int, y1: int) -> Option<int>
    decreases x - x0 + 1,
{
    if x < x0 {
        None
    } else if col_hit(m, w, x, y0, y1) {
        Some(x)
    } else {
        last_hit_col(m, w, x0, x - 1, y0, y1)
    }
}

/// The top row of `y..=y1` with a set cell in columns `x0..=x1`.
pub open spec fn first_hit_row(m: Seq<bool>, w: int, y: int, y1: int, x0: int, x1: int) -> Option<int>
    decreases y1 - y + 1,
{
    if y > y1 {
        None
    } else if row_hit(m, w, y, x0, x1) {
        Some(y)
    } else {
        first_hit_row(m, w, y + 1, y1, x0, x1)
    }
}

/// The bottom row of `y0..=y` with a set cell in columns `x0..=x1`.
pub open spec fn last_hit_row(m: Seq<bool>, w: int, y0: int, y: int, x0: int, x1: int) -> Option<int>
    decreases y - y0 + 1,
{
    if y < y0 {
        None
    } else if row_hit(m, w, y, x0, x1) {
        Some(y)
    } else {
        last_hit_row(m, w, y0, y - 1, x0, x1)
    }
}

/// The crop box `(x, y, width, height)` around the set cells `left..=right`
/// by `top..=bottom` of a `w` by `h` grid, grown by `pad` on each side
/// within the grid.
pub open spec fn padded_box(left: int, right: int, top: int, bottom: int, w: int, h: int, pad: int) -> (
    int,
    int,
    int,
    int,
) {
    let x1 = if left >= pad { left - pad } else { 0 };
    let y1 = if top >= pad { top - pad } else { 0 };
    let x2 = if right + 1 + pad <= w { right + 1 + pad } else { w };
    let y2 = if bottom + 1 + pad <= h { bottom + 1 + pad } else { h };
    (x1, y1, x2 - x1, y2 - y1)
}

/// The region `(x0, x1, y0, y1)` (bounds included) in which the crop box
/// is taken: the core rows and columns, grown across small gaps; `None`
/// where a core cannot be found.
pub open spec fn grown_region(m: Seq<bool>, w: int, h: int, lim: CropLimits) -> Option<(int, int, int, int)> {
    let rc = row_counts(m, w, h);
    let cc = col_counts(m, w, h);
    match (
        core_first(rc, lim.row_threshold as nat),
        core_last(rc, lim.row_threshold as nat),
        core_first(cc, lim.col_threshold as nat),
        core_last(cc, lim.col_threshold as nat),
    ) {
        (Some(r0), Some(r1), Some(c0), Some(c1)) => Some(
            (
                reach_back(cc, c0, c0, 0, lim.col_gap_limit as nat),
                reach_forward(cc, c1 + 1, c1, 0, lim.col_gap_limit as nat),
                reach_back(rc, r0, r0, 0, lim.row_gap_limit as nat),
                reach_forward(rc, r1 + 1, r1, 0, lim.row_gap_limit as nat),
            ),
        ),
        _ => None,
    }
}

/// The crop box of the content of a `w` by `h` grid whose set cells are
/// content: the box of the set cells inside the grown region (see
/// `grown_region`), padded; `None` where there is no content there.
pub open spec fn mask_bounds(m: Seq<bool>, w: int, h: int, pad: nat, lim: CropLimits) -> Option<
    (int, int, int, int),
> {
    match grown_region(m, w, h, lim) {
        Some((x0, x1, y0, y1)) => match (
            first_hit_col(m, w, x0, x1, y0, y1),
            last_hit_col(m, w, x0, x1, y0, y1),
            first_hit_row(m, w, y0, y1, x0, x1),
            last_hit_row(m, w, y0, y1, x0, x1),
        ) {
            (Some(left), Some(right), Some(top), Some(bottom)) => Some(
                padded_box(left, right, top, bottom, w, h, pad as int),
            ),
            _ => None,
        },
        None => None,
    }
}

/// The values of `v` as natural numbers.
pub open spec fn as_nats(v: Seq<u32>) -> Seq<nat> {
    Seq::new(v.len(), |i: int| v[i] as nat)
}

/// The grid `w` wide holding `m` is `h` rows high, and its sizes fit.
pub open spec fn grid_ok(m: Seq<bool>, w: int, h: int) -> bool {
    &&& 0 < w <= u32::MAX
    &&& 0 <= h <= u32::MAX
    &&& m.len() == w * h
    &&& m.len() <= usize::MAX
}

proof fn lemma_cell_in(m: Seq<bool>, w: int, h: int, x: int, y: int)
    requires
        grid_ok(m, w, h),
        0 <= x < w,
        0 <= y < h,
    ensures
        0 <= y * w + x < m.len(),
{
    lemma_cell_index(y, w, x, 1, 0);
    assert((y + 1) * w <= h * w) by (nonlinear_arith)
        requires y + 1 <= h, w > 0;
    assert(y * w >= 0) by (nonlinear_arith)
        requires y >= 0, w > 0;
}

proof fn lemma_row_count_bound(m: Seq<bool>, w: int, y: int, n: int)
    ensures
        row_count(m, w, y, n) <= if n < 0 { 0 } else { n },
    decreases n,
{
    if n > 0 {
        lemma_row_count_bound(m, w, y, n - 1);
    }
}

proof fn lemma_col_count_bound(m: Seq<bool>, w: int, x: int, n: int)
    ensures
        col_count(m, w, x, n) <= if n < 0 { 0 } else { n },
    decreases n,
{
    if n > 0 {
        lemma_col_count_bound(m, w, x, n - 1);
    }
}

fn row_counts_of(m: &Vec<bool>, w: usize, h: usize) -> (v: Vec<u32>)
    requires
        grid_ok(m@, w as int, h as int),
    ensures
        as_nats(v@) == row_counts(m@, w as int, h as int),
{
    let mut v: Vec<u32> = Vec::new();
    let mut y: usize = 0;
    while y < h
        invariant
            grid_ok(m@, w as int, h as int),
            y <= h,
            v@.len() == y,
            forall|k: int| 0 <= k < y ==> v@[k] as nat == row_count(m@, w as int, k, w as int),
        decreases h - y,
    {
        let mut c: u32 = 0;
        let mut x: usize = 0;
        while x < w
            invariant
                grid_ok(m@, w as int, h as int),
                y < h,
                x <= w,
                c == row_count(m@, w as int, y as int, x as int),
            decreases w - x,
        {
            proof {
                lemma_cell_in(m@, w as int, h as int, x as int, y as int);
                lemma_row_count_bound(m@, w as int, y as int, x as int);
            }
            if m[y * w + x] {
                c = c + 1;
            }
            x = x + 1;
        }
        v.push(c);
        y = y + 1;
    }
    assert(as_nats(v@) =~= row_counts(m@, w as int, h as int));
    v
}

fn col_counts_of(m: &Vec<bool>, w: usize, h: usize) -> (v: Vec<u32>)
    requires
        grid_ok(m@, w as int, h as int),
    ensures
        as_nats(v@) == col_counts(m@, w as int, h as int),
{
    let mut v: Vec<u32> = Vec::new();
    let mut x: usize = 0;
    while x < w
        invariant
            grid_ok(m@, w as int, h as int),
            x <= w,
            v@.len() == x,
            forall|k: int| 0 <= k < x ==> v@[k] as nat == col_count(m@, w as int, k, h as int),
        decreases w - x,
    {
        let mut c: u32 = 0;
        let mut y: usize = 0;
        while y < h
            invariant
                grid_ok(m@, w as int, h as int),
                x < w,
                y <= h,
                c == col_count(m@, w as int, x as int, y as int),
            decreases h - y,
        {
            proof {
                lemma_cell_in(m@, w as int, h as int, x as int, y as int);
                lemma_col_count_bound(m@, w as int, x as int, y as int);
            }
            if m[y * w + x] {
                c = c + 1;
            }
            y = y + 1;
        }
        v.push(c);
        x = x + 1;
    }
    assert(as_nats(v@) =~= col_counts(m@, w as int, h as int));
    v
}

fn first_reaching(v: &Vec<u32>, t: u32) -> (r: Option<usize>)
    ensures
        match r {
            Some(i) => first_at_least(as_nats(v@), t as nat, 0) == Some(i as int),
            None => first_at_least(as_nats(v@), t as nat, 0).is_none(),
        },
{
    let ghost s = as_nats(v@);
    let mut i: usize = 0;
    while i < v.len()
        invariant
            s == as_nats(v@),
            i <= v.len(),
            first_at_least(s, t as nat, 0) == first_at_least(s, t as nat, i as int),
        decreases v.len() - i,
    {
        if v[i] >= t {
            return Some(i);
        }
        i = i + 1;
    }
    None
}

fn last_reaching(v: &Vec<u32>, t: u32) -> (r: Option<usize>)
    ensures
        match r {
            Some(i) => last_at_least(as_nats(v@), t as nat, v@.len() as int) == Some(i as int),
            None => last_at_least(as_nats(v@), t as nat, v@.len() as int).is_none(),
        },
{
    let ghost s = as_nats(v@);
    let mut i: usize = v.len();
    while i > 0
        invariant
            s == as_nats(v@),
            i <= v.len(),
            last_at_least(s, t as nat, v@.len() as int) == last_at_least(s, t as nat, i as int),
        decreases i,
    {
        if v[i - 1] >= t {
            return Some(i - 1);
        }
        i = i - 1;
    }
    None
}

fn core_start(v: &Vec<u32>, t: u32) -> (r: Option<usize>)
    ensures
        match r {
            Some(i) => core_first(as_nats(v@), t as nat) == Some(i as int),
            None => core_first(as_nats(v@), t as nat).is_none(),
        },
{
    match first_reaching(v, t) {
        Some(i) => Some(i),
        None => first_reaching(v, 1),
    }
}

fn core_end(v: &Vec<u32>, t: u32) -> (r: Option<usize>)
    ensures
        match r {
            Some(i) => core_last(as_nats(v@), t as nat) == Some(i as int),
            None => core_last(as_nats(v@), t as nat).is_none(),
        },
{
    match last_reaching(v, t) {
        Some(i) => Some(i),
        None => last_reaching(v, 1),
    }
}

proof fn lemma_reach_back_range(s: Seq<nat>, r: int, lo: int, gap: nat, limit: nat)
    requires
        0 <= r <= lo,
    ensures
        0 <= reach_back(s, r, lo, gap, limit) <= lo,
    decreases r,
{
    if r > 0 {
        if s[r - 1] > 0 {
            lemma_reach_back_range(s, r - 1, r - 1, 0, limit);
        } else if gap + 1 <= limit {
            lemma_reach_back_range(s, r - 1, lo, gap + 1, limit);
        }
    }
}

proof fn lemma_reach_forward_range(s: Seq<nat>, r: int, hi: int, gap: nat, limit: nat)
    requires
        0 <= hi < r <= s.len() || (0 <= hi && r == hi + 1 && hi < s.len()),
    ensures
        hi <= reach_forward(s, r, hi, gap, limit) < s.len(),
    decreases s.len() - r,
{
    if r < s.len() {
        if s[r] > 0 {
            lemma_reach_forward_range(s, r + 1, r, 0, limit);
        } else if gap + 1 <= limit {
            lemma_reach_forward_range(s, r + 1, hi, gap + 1, limit);
        }
    }
}

fn grow_back(v: &Vec<u32>, start: usize, limit: u32) -> (r: usize)
    requires
        start < v.len(),
    ensures
        r == reach_back(as_nats(v@), start as int, start as int, 0, limit as nat),
        r <= start,
{
    let ghost s = as_nats(v@);
    let mut lo = start;
    let mut gap: usize = 0;
    let mut r = start;
    proof {
        lemma_reach_back_range(s, start as int, start as int, 0, limit as nat);
    }
    while r > 0
        invariant
            s == as_nats(v@),
            start < v.len(),
            r <= lo <= start,
            gap <= start - r,
            reach_back(s, start as int, start as int, 0, limit as nat) == reach_back(
                s,
                r as int,
                lo as int,
                gap as nat,
                limit as nat,
            ),
        decreases r,
    {
        if v[r - 1] > 0 {
            lo = r - 1;
            gap = 0;
        } else {
            if gap + 1 > limit as usize {
                return lo;
            }
            gap = gap + 1;
        }
        r = r - 1;
    }
    lo
}

fn grow_forward(v: &Vec<u32>, end: usize, limit: u32) -> (r: usize)
    requires
        end < v.len(),
    ensures
        r == reach_forward(as_nats(v@), end + 1, end as int, 0, limit as nat),
        end <= r < v.len(),
{
    let ghost s = as_nats(v@);
    let mut hi = end;
    let mut gap: usize = 0;
    let mut r = end + 1;
    proof {
        lemma_reach_forward_range(s, end + 1, end as int, 0, limit as nat);
    }
    while r < v.len()
        invariant
            s == as_nats(v@),
            end < v.len(),
            end <= hi < r <= v.len(),
            gap <= r - end,
            reach_forward(s, end + 1, end as int, 0, limit as nat) == reach_forward(
                s,
                r as int,
                hi as int,
                gap as nat,
                limit as nat,
            ),
        decreases v.len() - r,
    {
        if v[r] > 0 {
            hi = r;
            gap = 0;
        } else {
            if gap + 1 > limit as usize {
                return hi;
            }
            gap = gap + 1;
        }
        r = r + 1;
    }
    hi
}

fn column_has(m: &Vec<bool>, w: usize, h: usize, x: usize, y0: usize, y1: usize) -> (r: bool)
    requires
        grid_ok(m@, w as int, h as int),
        x < w,
        y1 < h,
    ensures
        r == col_hit(m@, w as int, x as int, y0 as int, y1 as int),
{
    if y0 > y1 {
        return false;
    }
    let mut y = y0;
    while y <= y1
        invariant
            grid_ok(m@, w as int, h as int),
            x < w,
            y1 < h,
            y0 <= y <= y1 + 1,
            forall|k: int| y0 <= k < y ==> !#[trigger] cell(m@, w as int, x as int, k),
        decreases y1 + 1 - y,
    {
        proof {
            lemma_cell_in(m@, w as int, h as int, x as int, y as int);
        }
        if m[y * w + x] {
            assert(cell(m@, w as int, x as int, y as int));
            return true;
        }
        y = y + 1;
    }
    false
}

fn row_has(m: &Vec<bool>, w: usize, h: usize, y: usize, x0: usize, x1: usize) -> (r: bool)
    requires
        grid_ok(m@, w as int, h as int),
        y < h,
        x1 < w,
    ensures
        r == row_hit(m@, w as int, y as int, x0 as int, x1 as int),
{
    if x0 > x1 {
        return false;
    }
    let mut x = x0;
    while x <= x1
        invariant
            grid_ok(m@, w as int, h as int),
            y < h,
            x1 < w,
            x0 <= x <= x1 + 1,
            forall|k: int| x0 <= k < x ==> !#[trigger] cell(m@, w as int, k, y as int),
        decreases x1 + 1 - x,
    {
        proof {
            lemma_cell_in(m@, w as int, h as int, x as int, y as int);
        }
        if m[y * w + x] {
            assert(cell(m@, w as int, x as int, y as int));
            return true;
        }
        x = x + 1;
    }
    false
}

fn leftmost(m: &Vec<bool>, w: usize, h: usize, x0: usize, x1: usize, y0: usize, y1: usize) -> (r: Option<usize>)
    requires
        grid_ok(m@, w as int, h as int),
        x1 < w,
        y1 < h,
    ensures
        match r {
            Some(x) => first_hit_col(m@, w as int, x0 as int, x1 as int, y0 as int, y1 as int) == Some(x as int),
            None => first_hit_col(m@, w as int, x0 as int, x1 as int, y0 as int, y1 as int).is_none(),
        },
{
    if x0 > x1 {
        return None;
    }
    let mut x = x0;
    while x <= x1
        invariant
            grid_ok(m@, w as int, h as int),
            x1 < w,
            y1 < h,
            x0 <= x <= x1 + 1,
            first_hit_col(m@, w as int, x0 as int, x1 as int, y0 as int, y1 as int) == first_hit_col(
                m@,
                w as int,
                x as int,
                x1 as int,
                y0 as int,
                y1 as int,
            ),
        decreases x1 + 1 - x,
    {
        if column_has(m, w, h, x, y0, y1) {
            return Some(x);
        }
        x = x + 1;
    }
    None
}

fn rightmost(m: &Vec<bool>, w: usize, h: usize, x0: usize, x1: usize, y0: usize, y1: usize) -> (r: Option<usize>)
    requires
        grid_ok(m@, w as int, h as int),
        x1 < w,
        y1 < h,
    ensures
        match r {
            Some(x) => last_hit_col(m@, w as int, x0 as int, x1 as int, y0 as int, y1 as int) == Some(x as int),
            None => last_hit_col(m@, w as int, x0 as int, x1 as int, y0 as int, y1 as int).is_none(),
        },
{
    let mut x = x1 + 1;
    while x > x0
        invariant
            grid_ok(m@, w as int, h as int),
            x1 < w,
            y1 < h,
            x <= x1 + 1,
            last_hit_col(m@, w as int, x0 as int, x1 as int, y0 as int, y1 as int) == last_hit_col(
                m@,
                w as int,
                x0 as int,
                x - 1,
                y0 as int,
                y1 as int,
            ),
        decreases x,
    {
        if column_has(m, w, h, x - 1, y0, y1) {
            return Some(x - 1);
        }
        x = x - 1;
    }
    None
}

fn topmost(m: &Vec<bool>, w: usize, h: usize, y0: usize, y1: usize, x0: usize, x1: usize) -> (r: Option<usize>)
    requires
        grid_ok(m@, w as int, h as int),
        x1 < w,
        y1 < h,
    ensures
        match r {
            Some(y) => first_hit_row(m@, w as int, y0 as int, y1 as int, x0 as int, x1 as int) == Some(y as int),
            None => first_hit_row(m@, w as int, y0 as int, y1 as int, x0 as int, x1 as int).is_none(),
        },
{
    if y0 > y1 {
        return None;
    }
    let mut y = y0;
    while y <= y1
        invariant
            grid_ok(m@, w as int, h as int),
            x1 < w,
            y1 < h,
            y0 <= y <= y1 + 1,
            first_hit_row(m@, w as int, y0 as int, y1 as int, x0 as int, x1 as int) == first_hit_row(
                m@,
                w as int,
                y as int,
                y1 as int,
                x0 as int,
                x1 as int,
            ),
        decreases y1 + 1 - y,
    {
        if row_has(m, w, h, y, x0, x1) {
            return Some(y);
        }
        y = y + 1;
    }
    None
}

fn bottommost(m: &Vec<bool>, w: usize, h: usize, y0: usize, y1: usize, x0: usize, x1: usize) -> (r: Option<usize>)
    requires
        grid_ok(m@, w as int, h as int),
        x1 < w,
        y1 < h,
    ensures
        match r {
            Some(y) => last_hit_row(m@, w as int, y0 as int, y1 as int, x0 as int, x1 as int) == Some(y as int),
            None => last_hit_row(m@, w as int, y0 as int, y1 as int, x0 as int, x1 as int).is_none(),
        },
{
    let mut y = y1 + 1;
    while y > y0
        invariant
            grid_ok(m@, w as int, h as int),
            x1 < w,
            y1 < h,
            y <= y1 + 1,
            last_hit_row(m@, w as int, y0 as int, y1 as int, x0 as int, x1 as int) == last_hit_row(
                m@,
                w as int,
                y0 as int,
                y - 1,
                x0 as int,
                x1 as int,
            ),
        decreases y,
    {
        if row_has(m, w, h, y - 1, x0, x1) {
            return Some(y - 1);
        }
        y = y - 1;
    }
    None
}

proof fn lemma_first_range(s: Seq<nat>, t: nat, i: int)
    ensures
        first_at_least(s, t, i) matches Some(j) ==> i <= j < s.len(),
    decreases s.len() - i,
{
    if !(i < 0 || i >= s.len()) && s[i] < t {
        lemma_first_range(s, t, i + 1);
    }
}

proof fn lemma_last_range(s: Seq<nat>, t: nat, i: int)
    ensures
        last_at_least(s, t, i) matches Some(j) ==> 0 <= j < i,
    decreases i,
{
    if !(i <= 0 || i > s.len()) && s[i - 1] < t {
        lemma_last_range(s, t, i - 1);
    }
}

proof fn lemma_first_hit_col_range(m: Seq<bool>, w: int, x: int, x1: int, y0: int, y1: int)
    ensures
        first_hit_col(m, w, x, x1, y0, y1) matches Some(j) ==> x <= j <= x1,
    decreases x1 - x + 1,
{
    if x <= x1 && !col_hit(m, w, x, y0, y1) {
        lemma_first_hit_col_range(m, w, x + 1, x1, y0, y1);
    }
}

proof fn lemma_last_hit_col_range(m: Seq<bool>, w: int, x0: int, x: int, y0: int, y1: int)
    ensures
        last_hit_col(m, w, x0, x, y0, y1) matches Some(j) ==> x0 <= j <= x,
    decreases x - x0 + 1,
{
    if x >= x0 && !col_hit(m, w, x, y0, y1) {
        lemma_last_hit_col_range(m, w, x0, x - 1, y0, y1);
    }
}

proof fn lemma_first_hit_row_range(m: Seq<bool>, w: int, y: int, y1: int, x0: int, x1: int)
    ensures
        first_hit_row(m, w, y, y1, x0, x1) matches Some(j) ==> y <= j <= y1,
    decreases y1 - y + 1,
{
    if y <= y1 && !row_hit(m, w, y, x0, x1) {
        lemma_first_hit_row_range(m, w, y + 1, y1, x0, x1);
    }
}

proof fn lemma_last_hit_row_range(m: Seq<bool>, w: int, y0: int, y: int, x0: int, x1: int)
    ensures
        last_hit_row(m, w, y0, y, x0, x1) matches Some(j) ==> y0 <= j <= y,
    decreases y - y0 + 1,
{
    if y >= y0 && !row_hit(m, w, y, x0, x1) {
        lemma_last_hit_row_range(m, w, y0, y - 1, x0, x1);
    }
}

/// The crop box lies inside the grid and is not empty.
pub proof fn lemma_mask_bounds_inside(m: Seq<bool>, w: int, h: int, pad: nat, lim: CropLimits)
    requires
        grid_ok(m, w, h),
    ensures
        mask_bounds(m, w, h, pad, lim) matches Some((x, y, cw, ch)) ==> {
            &&& 0 <= x && 0 < cw && x + cw <= w
            &&& 0 <= y && 0 < ch && y + ch <= h
        },
{
    let rc = row_counts(m, w, h);
    let cc = col_counts(m, w, h);
    let rt = lim.row_threshold as nat;
    let ct = lim.col_threshold as nat;
    lemma_first_range(rc, rt, 0);
    lemma_first_range(rc, 1, 0);
    lemma_last_range(rc, rt, rc.len() as int);
    lemma_last_range(rc, 1, rc.len() as int);
    lemma_first_range(cc, ct, 0);
    lemma_first_range(cc, 1, 0);
    lemma_last_range(cc, ct, cc.len() as int);
    lemma_last_range(cc, 1, cc.len() as int);
    if let (Some(r0), Some(r1), Some(c0), Some(c1)) = (
        core_first(rc, rt),
        core_last(rc, rt),
        core_first(cc, ct),
        core_last(cc, ct),
    ) {
        let y0 = reach_back(rc, r0, r0, 0, lim.row_gap_limit as nat);
        let y1 = reach_forward(rc, r1 + 1, r1, 0, lim.row_gap_limit as nat);
        let x0 = reach_back(cc, c0, c0, 0, lim.col_gap_limit as nat);
        let x1 = reach_forward(cc, c1 + 1, c1, 0, lim.col_gap_limit as nat);
        lemma_reach_back_range(rc, r0, r0, 0, lim.row_gap_limit as nat);
        lemma_reach_forward_range(rc, r1 + 1, r1, 0, lim.row_gap_limit as nat);
        lemma_reach_back_range(cc, c0, c0, 0, lim.col_gap_limit as nat);
        lemma_reach_forward_range(cc, c1 + 1, c1, 0, lim.col_gap_limit as nat);
        lemma_first_hit_col_range(m, w, x0, x1, y0, y1);
        lemma_last_hit_col_range(m, w, x0, x1, y0, y1);
        lemma_first_hit_row_range(m, w, y0, y1, x0, x1);
        lemma_last_hit_row_range(m, w, y0, y1, x0, x1);
        if let (Some(left), Some(right), Some(top), Some(bottom)) = (
            first_hit_col(m, w, x0, x1, y0, y1),
            last_hit_col(m, w, x0, x1, y0, y1),
            first_hit_row(m, w, y0, y1, x0, x1),
            last_hit_row(m, w, y0, y1, x0, x1),
        ) {
            lemma_first_hit_col_found(m, w, x0, x1, y0, y1);
            lemma_first_hit_row_found(m, w, y0, y1, x0, x1);
            assert(left <= right) by {
                assert(col_hit(m, w, left, y0, y1));
                if right < left {
                    lemma_last_hit_col_absent(m, w, x0, x1, y0, y1, left);
                }
            }
            assert(top <= bottom) by {
                assert(row_hit(m, w, top, x0, x1));
                if bottom < top {
                    lemma_last_hit_row_absent(m, w, y0, y1, x0, x1, top);
                }
            }
        }
    }
}

proof fn lemma_first_hit_col_found(m: Seq<bool>, w: int, x: int, x1: int, y0: int, y1: int)
    ensures
        first_hit_col(m, w, x, x1, y0, y1) matches Some(j) ==> col_hit(m, w, j, y0, y1),
    decreases x1 - x + 1,
{
    if x <= x1 && !col_hit(m, w, x, y0, y1) {
        lemma_first_hit_col_found(m, w, x + 1, x1, y0, y1);
    }
}

proof fn lemma_first_hit_row_found(m: Seq<bool>, w: int, y: int, y1: int, x0: int, x1: int)
    ensures
        first_hit_row(m, w, y, y1, x0, x1) matches Some(j) ==> row_hit(m, w, j, x0, x1),
    decreases y1 - y + 1,
{
    if y <= y1 && !row_hit(m, w, y, x0, x1) {
        lemma_first_hit_row_found(m, w, y + 1, y1, x0, x1);
    }
}

/// Columns above the last hit (up to `x`) have no content.
proof fn lemma_last_hit_col_absent(m: Seq<bool>, w: int, x0: int, x: int, y0: int, y1: int, k: int)
    requires
        x0 <= k <= x,
        col_hit(m, w, k, y0, y1),
    ensures
        last_hit_col(m, w, x0, x, y0, y1) matches Some(j) && k <= j,
    decreases x - x0 + 1,
{
    if !col_hit(m, w, x, y0, y1) {
        lemma_last_hit_col_absent(m, w, x0, x - 1, y0, y1, k);
    }
}

proof fn lemma_last_hit_row_absent(m: Seq<bool>, w: int, y0: int, y: int, x0: int, x1: int, k: int)
    requires
        y0 <= k <= y,
        row_hit(m, w, k, x0, x1),
    ensures
        last_hit_row(m, w, y0, y, x0, x1) matches Some(j) && k <= j,
    decreases y - y0 + 1,
{
    if !row_hit(m, w, y, x0, x1) {
        lemma_last_hit_row_absent(m, w, y0, y - 1, x0, x1, k);
    }
}

/// The crop box of the content of a grid of flags (see `mask_bounds`),
/// for an image of `w` by `h` pixels.
pub fn bounds_from_mask(m: &Vec<bool>, w: usize, h: usize, padding: u32, lim: &CropLimits) -> (r: Option<
    CropResult,
>)
    requires
        grid_ok(m@, w as int, h as int),
    ensures
        match (r, mask_bounds(m@, w as int, h as int, padding as nat, *lim)) {
            (Some(c), Some((x, y, cw, ch))) => {
                &&& c.x == x && c.y == y && c.width == cw && c.height == ch
                &&& c.original_width == w && c.original_height == h
            },
            (None, None) => true,
            _ => false,
        },
{
    proof {
        lemma_mask_bounds_inside(m@, w as int, h as int, padding as nat, *lim);
    }
    let rc = row_counts_of(m, w, h);
    let cc = col_counts_of(m, w, h);
    let ghost rcs = as_nats(rc@);
    let ghost ccs = as_nats(cc@);
    proof {
        lemma_first_range(rcs, lim.row_threshold as nat, 0);
        lemma_first_range(rcs, 1, 0);
        lemma_last_range(rcs, lim.row_threshold as nat, rcs.len() as int);
        lemma_last_range(rcs, 1, rcs.len() as int);
        lemma_first_range(ccs, lim.col_threshold as nat, 0);
        lemma_first_range(ccs, 1, 0);
        lemma_last_range(ccs, lim.col_threshold as nat, ccs.len() as int);
        lemma_last_range(ccs, 1, ccs.len() as int);
    }
    let r0 = match core_start(&rc, lim.row_threshold) {
        Some(i) => i,
        None => return None,
    };
    let r1 = match core_end(&rc, lim.row_threshold) {
        Some(i) => i,
        None => return None,
    };
    let c0 = match core_start(&cc, lim.col_threshold) {
        Some(i) => i,
        None => return None,
    };
    let c1 = match core_end(&cc, lim.col_threshold) {
        Some(i) => i,
        None => return None,
    };
    let y0 = grow_back(&rc, r0, lim.row_gap_limit);
    let y1 = grow_forward(&rc, r1, lim.row_gap_limit);
    let x0 = grow_back(&cc, c0, lim.col_gap_limit);
    let x1 = grow_forward(&cc, c1, lim.col_gap_limit);
    let left = match leftmost(m, w, h, x0, x1, y0, y1) {
        Some(v) => v,
        None => return None,
    };
    let right = match rightmost(m, w, h, x0, x1, y0, y1) {
        Some(v) => v,
        None => return None,
    };
    let top = match topmost(m, w, h, y0, y1, x0, x1) {
        Some(v) => v,
        None => return None,
    };
    let bottom = match bottommost(m, w, h, y0, y1, x0, x1) {
        Some(v) => v,
        None => return None,
    };
    proof {
        lemma_first_hit_col_range(m@, w as int, x0 as int, x1 as int, y0 as int, y1 as int);
        lemma_last_hit_col_range(m@, w as int, x0 as int, x1 as int, y0 as int, y1 as int);
        lemma_first_hit_row_range(m@, w as int, y0 as int, y1 as int, x0 as int, x1 as int);
        lemma_last_hit_row_range(m@, w as int, y0 as int, y1 as int, x0 as int, x1 as int);
    }
    let pad = padding as u64;
    let xa: u64 = if left as u64 >= pad { left as u64 - pad } else { 0 };
    let ya: u64 = if top as u64 >= pad { top as u64 - pad } else { 0 };
    let xb: u64 = if right as u64 + 1 + pad <= w as u64 { right as u64 + 1 + pad } else { w as u64 };
    let yb: u64 = if bottom as u64 + 1 + pad <= h as u64 { bottom as u64 + 1 + pad } else { h as u64 };
    Some(CropResult {
        x: xa as u32,
        y: ya as u32,
        width: (xb - xa) as u32,
        height: (yb - ya) as u32,
        original_width: w as u32,
        original_height: h as u32,
    })
}

/// A pixel's red, green, blue and alpha values.
#[derive(Clone, Copy, Debug, PartialEq, Eq, Structural)]
pub struct Rgba {
    pub r: u8,
    pub g: u8,
    pub b: u8,
    pub a: u8,
}

/// Pixel `i` of RGBA bytes.
pub open spec fn pixel_at(d: Seq<u8>, i: int) -> Rgba {
    Rgba { r: d[4 * i], g: d[4 * i + 1], b: d[4 * i + 2], a: d[4 * i + 3] }
}

/// The distance between two channel values.
pub open spec fn diff(a: u8, b: u8) -> int {
    if a >= b {
        a - b
    } else {
        b - a
    }
}

/// A pixel is background where it is fully transparent or within the
/// tolerance of the background colour in every channel.
pub open spec fn is_bg(p: Rgba, bg: Rgba, tol: u8) -> bool {
    p.a == 0 || (diff(p.r, bg.r) <= tol && diff(p.g, bg.g) <= tol && diff(p.b, bg.b) <= tol && diff(
        p.a,
        bg.a,
    ) <= tol)
}

/// Whether pixel `p` is background against `bg` (see `is_bg`).
pub fn is_background(p: Rgba, bg: Rgba, tolerance: u8) -> (r: bool)
    ensures
        r == is_bg(p, bg, tolerance),
{
    if p.a == 0 {
        return true;
    }
    let t = tolerance as i16;
    let dr = p.r as i16 - bg.r as i16;
    let dg = p.g as i16 - bg.g as i16;
    let db = p.b as i16 - bg.b as i16;
    let da = p.a as i16 - bg.a as i16;
    (if dr < 0 { -dr } else { dr }) <= t && (if dg < 0 { -dg } else { dg }) <= t && (if db < 0 {
        -db
    } else {
        db
    }) <= t && (if da < 0 { -da } else { da }) <= t
}

/// Which of the first `n` pixels of RGBA bytes are content against `bg`.
pub open spec fn content_mask(d: Seq<u8>, n: int, bg: Rgba, tol: u8) -> Seq<bool> {
    Seq::new(n as nat, |i: int| !is_bg(pixel_at(d, i), bg, tol))
}

fn pixel_of(d: &Vec<u8>, i: usize) -> (p: Rgba)
    requires
        4 * i + 3 < d@.len(),
        d@.len() <= usize::MAX,
    ensures
        p == pixel_at(d@, i as int),
{
    Rgba { r: d[4 * i], g: d[4 * i + 1], b: d[4 * i + 2], a: d[4 * i + 3] }
}

fn content_mask_of(img: &RgbaPixels, bg: Rgba, tolerance: u8) -> (m: Vec<bool>)
    requires
        img.wf(),
    ensures
        m@ == content_mask(img.data@, img.width * img.height, bg, tolerance),
        m@.len() == img.width * img.height,
{
    let n = img.data.len() / 4;
    let mut m: Vec<bool> = Vec::new();
    let mut i: usize = 0;
    while i < n
        invariant
            img.wf(),
            img.data@.len() <= usize::MAX,
            n == img.width * img.height,
            i <= n,
            m@.len() == i,
            forall|k: int| 0 <= k < i ==> m@[k] == !is_bg(pixel_at(img.data@, k), bg, tolerance),
        decreases n - i,
    {
        let p = pixel_of(&img.data, i);
        m.push(!is_background(p, bg, tolerance));
        i = i + 1;
    }
    assert(m@ =~= content_mask(img.data@, img.width * img.height, bg, tolerance));
    m
}

/// The side of the corner squares sampled for the background: 8, or the
/// image's smaller side where that is less.
pub open spec fn sample_side(w: int, h: int) -> int {
    if w < 8 && w <= h {
        w
    } else if h < 8 {
        h
    } else {
        8
    }
}

/// The pixel index of sample `j`: the corner squares top left, top right,
/// bottom left and bottom right in turn, each row by row.
pub open spec fn sample_pos(w: int, h: int, j: int) -> int {
    let s = sample_side(w, h);
    let c = j / (s * s);
    let r = j % (s * s);
    let cx = if c == 1 || c == 3 { w - s } else { 0 };
    let cy = if c >= 2 { h - s } else { 0 };
    (cy + r / s) * w + cx + r % s
}

/// The sampled corner pixels of an image.
pub open spec fn samples(img: RgbaPixels) -> Seq<Rgba> {
    let s = sample_side(img.width as int, img.height as int);
    Seq::new(
        (4 * s * s) as nat,
        |j: int| pixel_at(img.data@, sample_pos(img.width as int, img.height as int, j)),
    )
}

/// How often `c` occurs among the first `n` of `s`.
pub open spec fn count_in(s: Seq<Rgba>, c: Rgba, n: int) -> nat
    decreases n,
{
    if n <= 0 {
        0
    } else {
        count_in(s, c, n - 1) + if s[n - 1] == c { 1nat } else { 0nat }
    }
}

/// The colour at `j` is as frequent in `s` as any other.
pub open spec fn is_mode_at(s: Seq<Rgba>, j: int) -> bool {
    forall|k: int| 0 <= k < s.len() ==> count_in(s, #[trigger] s[k], s.len() as int) <= count_in(
        s,
        s[j],
        s.len() as int,
    )
}

/// The first position of a most frequent colour of `s`.
pub open spec fn first_mode(s: Seq<Rgba>) -> int {
    choose|j: int| 0 <= j < s.len() && is_mode_at(s, j) && forall|k: int| 0 <= k < j ==> !is_mode_at(s, k)
}

/// The background colour of an image: the most frequent colour among the
/// corner samples, the earliest sampled on a tie; transparent black for an
/// empty image.
pub open spec fn background(img: RgbaPixels) -> Rgba {
    if img.width == 0 || img.height == 0 {
        Rgba { r: 0, g: 0, b: 0, a: 0 }
    } else {
        samples(img)[first_mode(samples(img))]
    }
}

proof fn lemma_count_bound(s: Seq<Rgba>, c: Rgba, n: int)
    ensures
        count_in(s, c, n) <= if n < 0 { 0 } else { n },
    decreases n,
{
    if n > 0 {
        lemma_count_bound(s, c, n - 1);
    }
}

proof fn lemma_sample_in(w: int, h: int, j: int)
    requires
        w > 0,
        h > 0,
        0 <= j < 4 * sample_side(w, h) * sample_side(w, h),
    ensures
        0 <= sample_pos(w, h, j) < w * h,
{
    let s = sample_side(w, h);
    assert(0 < s <= 8 && s <= w && s <= h);
    let c = j / (s * s);
    let r = j % (s * s);
    assert(s * s > 0) by (nonlinear_arith)
        requires s > 0;
    assert(0 <= c < 4) by (nonlinear_arith)
        requires c == j / (s * s), s * s > 0, 0 <= j < 4 * s * s;
    assert(0 <= r < s * s);
    assert(0 <= r / s < s) by (nonlinear_arith)
        requires 0 <= r < s * s, s > 0;
    assert(0 <= r % s < s) by (nonlinear_arith)
        requires s > 0, r >= 0;
    let cx = if c == 1 || c == 3 { w - s } else { 0 };
    let cy = if c >= 2 { h - s } else { 0 };
    lemma_cell_index(cy + r / s, w, cx + r % s, 1, 0);
    assert((cy + r / s + 1) * w <= h * w) by (nonlinear_arith)
        requires cy + r / s + 1 <= h, w > 0;
    assert((cy + r / s) * w >= 0) by (nonlinear_arith)
        requires cy + r / s >= 0, w > 0;
}

fn sample_pixels(img: &RgbaPixels) -> (v: Vec<Rgba>)
    requires
        img.wf(),
        img.width > 0,
        img.height > 0,
    ensures
        v@ == samples(*img),
{
    let w = img.width;
    let h = img.height;
    let s: usize = if w < 8 && w <= h {
        w
    } else if h < 8 {
        h
    } else {
        8
    };
    assert(4 * s * s <= 256) by (nonlinear_arith)
        requires s <= 8;
    let n = 4 * s * s;
    let dlen = img.data.len();
    let mut v: Vec<Rgba> = Vec::new();
    let mut j: usize = 0;
    while j < n
        invariant
            img.wf(),
            dlen == img.data@.len(),
            w == img.width,
            h == img.height,
            w > 0,
            h > 0,
            s == sample_side(w as int, h as int),
            0 < s <= 8,
            s <= w,
            s <= h,
            n == 4 * s * s,
            j <= n,
            v@.len() == j,
            forall|k: int| 0 <= k < j ==> v@[k] == pixel_at(img.data@, sample_pos(w as int, h as int, k)),
        decreases n - j,
    {
        proof {
            lemma_sample_in(w as int, h as int, j as int);
        }
        assert(0 < s * s <= 64) by (nonlinear_arith)
            requires 0 < s <= 8;
        let c = j / (s * s);
        let r = j % (s * s);
        let cx = if c == 1 || c == 3 { w - s } else { 0 };
        let cy = if c >= 2 { h - s } else { 0 };
        proof {
            let ss = (s * s) as int;
            assert(4 * s * s == 4 * ss) by (nonlinear_arith)
                requires ss == s * s;
            assert(0 <= c < 4) by (nonlinear_arith)
                requires c as int == (j as int) / ss, ss > 0, 0 <= j < 4 * ss;
            assert(r / s < s) by (nonlinear_arith)
                requires 0 <= r < ss, ss == s * s, s > 0;
            assert((cy + r / s) * w + cx + r % s == sample_pos(w as int, h as int, j as int));
            assert((cy + r / s) * w <= (cy + r / s) * w + cx + r % s);
            assert(w * h * 4 <= usize::MAX);
        }
        let pos = (cy + r / s) * w + cx + r % s;
        proof {
            assert(pos == sample_pos(w as int, h as int, j as int));
            assert(4 * pos + 3 < img.data@.len()) by (nonlinear_arith)
                requires pos < w * h, img.data@.len() == w * h * 4;
        }
        v.push(pixel_of(&img.data, pos));
        j = j + 1;
    }
    assert(v@ =~= samples(*img));
    v
}

/// The background colour of an image (see `background`).
pub fn detect_background(img: &RgbaPixels) -> (bg: Rgba)
    requires
        img.wf(),
    ensures
        bg == background(*img),
{
    if img.width == 0 || img.height == 0 {
        return Rgba { r: 0, g: 0, b: 0, a: 0 };
    }
    let v = sample_pixels(img);
    let ghost sv = v@;
    let n = v.len();
    let mut counts: Vec<usize> = Vec::new();
    let mut j: usize = 0;
    while j < n
        invariant
            sv == v@,
            n == v@.len(),
            j <= n,
            counts@.len() == j,
            forall|k: int| 0 <= k < j ==> counts@[k] == count_in(sv, sv[k], n as int),
        decreases n - j,
    {
        let mut c: usize = 0;
        let mut k: usize = 0;
        while k < n
            invariant
                sv == v@,
                n == v@.len(),
                j < n,
                k <= n,
                c == count_in(sv, sv[j as int], k as int),
            decreases n - k,
        {
            proof {
                lemma_count_bound(sv, sv[j as int], k as int);
            }
            if v[k] == v[j] {
                c = c + 1;
            }
            k = k + 1;
        }
        counts.push(c);
        j = j + 1;
    }
    let mut best: usize = 0;
    let mut i: usize = 1;
    proof {
        assert(n > 0) by (nonlinear_arith)
            requires n == 4 * sample_side(img.width as int, img.height as int) * sample_side(
                img.width as int,
                img.height as int,
            ), sample_side(img.width as int, img.height as int) > 0;
    }
    while i < n
        invariant
            sv == v@,
            n == v@.len(),
            counts@.len() == n,
            forall|k: int| 0 <= k < n ==> counts@[k] == count_in(sv, sv[k], n as int),
            0 <= best < i <= n,
            forall|k: int| 0 <= k < i ==> counts@[k] <= counts@[best as int],
            forall|k: int| 0 <= k < best ==> counts@[k] < counts@[best as int],
        decreases n - i,
    {
        if counts[i] > counts[best] {
            best = i;
        }
        i = i + 1;
    }
    proof {
        assert(is_mode_at(sv, best as int)) by {
            assert forall|k: int| 0 <= k < sv.len() implies count_in(sv, #[trigger] sv[k], sv.len() as int)
                <= count_in(sv, sv[best as int], sv.len() as int) by {
                assert(counts@[k] <= counts@[best as int]);
            }
        }
        assert forall|k: int| 0 <= k < best implies !is_mode_at(sv, k) by {
            assert(counts@[k] < counts@[best as int]);
            assert(count_in(sv, sv[best as int], sv.len() as int) > count_in(sv, sv[k], sv.len() as int));
        }
        let fm = first_mode(sv);
        assert(0 <= fm < sv.len() && is_mode_at(sv, fm) && forall|k: int| 0 <= k < fm ==> !is_mode_at(sv, k));
        if fm < best {
            assert(!is_mode_at(sv, fm));
        }
        if best < fm {
            assert(!is_mode_at(sv, best as int));
        }
        assert(fm == best);
    }
    v[best]
}

/// The crop box of an image's content (see `mask_bounds`), with pixels
/// that are content against the background colour set in the grid.
pub open spec fn content_bounds(img: RgbaPixels, opts: AutoCropOptions, lim: CropLimits) -> Option<
    (int, int, int, int),
> {
    if img.width == 0 || img.height == 0 {
        None
    } else {
        mask_bounds(
            content_mask(img.data@, img.width * img.height, background(img), opts.tolerance),
            img.width as int,
            img.height as int,
            opts.padding as nat,
            lim,
        )
    }
}

/// The crop box of an image's content as a `CropResult` (see
/// `content_bounds`).
pub open spec fn content_crop(img: RgbaPixels, opts: AutoCropOptions, lim: CropLimits) -> Option<CropResult> {
    match content_bounds(img, opts, lim) {
        Some((x, y, cw, ch)) => Some(
            CropResult {
                x: x as u32,
                y: y as u32,
                width: cw as u32,
                height: ch as u32,
                original_width: img.width as u32,
                original_height: img.height as u32,
            },
        ),
        None => None,
    }
}

/// The crop box of an image's content (see `content_bounds`); `None` where
/// the image is empty or entirely background. The box lies inside the
/// image and is not empty.
pub fn find_content_bounds(img: &RgbaPixels, opts: &AutoCropOptions, lim: &CropLimits) -> (r: Option<
    CropResult,
>)
    requires
        img.wf(),
        img.width <= u32::MAX,
        img.height <= u32::MAX,
    ensures
        r == content_crop(*img, *opts, *lim),
        r matches Some(c) ==> c.width > 0 && c.height > 0 && c.x + c.width <= c.original_width && c.y
            + c.height <= c.original_height && c.original_width == img.width && c.original_height
            == img.height,
{
    if img.width == 0 || img.height == 0 {
        return None;
    }
    let bg = detect_background(img);
    let m = content_mask_of(img, bg, opts.tolerance);
    proof {
        lemma_mask_bounds_inside(m@, img.width as int, img.height as int, opts.padding as nat, *lim);
    }
    bounds_from_mask(&m, img.width, img.height, opts.padding, lim)
}

impl CropResult {
    /// The box covers the whole image.
    pub open spec fn covers_all(&self) -> bool {
        self.width == self.original_width && self.height == self.original_height
    }

    /// Whether the box covers the whole image.
    pub fn is_whole(&self) -> (r: bool)
        ensures
            r == self.covers_all(),
    {
        self.width == self.original_width && self.height == self.original_height
    }

    /// The box keeps more than 90% of the image's area.
    pub open spec fn keeps_most(&self) -> bool {
        10 * (self.width * self.height) > 9 * (self.original_width * self.original_height)
    }

    /// Whether the box keeps more than 90% of the image's area.
    pub fn keeps_most_area(&self) -> (r: bool)
        ensures
            r == self.keeps_most(),
    {
        let a = self.width as u128;
        let b = self.height as u128;
        let c = self.original_width as u128;
        let d = self.original_height as u128;
        proof {
            assert(a * b <= 0xffff_ffffu128 * 0xffff_ffffu128) by (nonlinear_arith)
                requires a <= 0xffff_ffffu128, b <= 0xffff_ffffu128;
            assert(c * d <= 0xffff_ffffu128 * 0xffff_ffffu128) by (nonlinear_arith)
                requires c <= 0xffff_ffffu128, d <= 0xffff_ffffu128;
        }
        let kept = a * b;
        let all = c * d;
        10 * kept > 9 * all
    }
}

/// The crop auto-crop settles on: none where no content was found; where
/// the content box keeps more than 90% of the image, the focus crop if
/// there is one, else the content box; otherwise the content box.
pub open spec fn chosen_crop(bounds: Option<CropResult>, focus: Option<CropResult>) -> Option<CropResult> {
    match bounds {
        Some(b) => if b.keeps_most() {
            match focus {
                Some(f) => Some(f),
                None => Some(b),
            }
        } else {
            Some(b)
        },
        None => None,
    }
}

/// Whether the focus crop is worth computing for the content box found:
/// only where the box keeps more than 90% of the image.
pub fn needs_focus_crop(bounds: &Option<CropResult>) -> (r: bool)
    ensures
        r == (bounds matches Some(b) && b.keeps_most()),
{
    match bounds {
        Some(b) => b.keeps_most_area(),
        None => false,
    }
}

/// The crop auto-crop settles on (see `chosen_crop`).
pub fn choose_crop(bounds: Option<CropResult>, focus: Option<CropResult>) -> (r: Option<CropResult>)
    ensures
        r == chosen_crop(bounds, focus),
{
    match bounds {
        Some(b) => {
            if b.keeps_most_area() {
                match focus {
                    Some(f) => Some(f),
                    None => Some(b),
                }
            } else {
                Some(b)
            }
        },
        None => None,
    }
}

/// The part of an image inside a crop box.
pub fn crop_pixels(img: &RgbaPixels, c: &CropResult) -> (out: RgbaPixels)
    requires
        img.wf(),
        c.x + c.width <= img.width,
        c.y + c.height <= img.height,
    ensures
        out.width == c.width,
        out.height == c.height,
        out.wf(),
        forall|y: int, x: int, k: int|
            0 <= y < c.height && 0 <= x < c.width && 0 <= k < 4 ==> #[trigger] out.data@[(y * c.width + x) * 4
                + k] == img.data@[((c.y + y) * img.width + c.x + x) * 4 + k],
{
    let w = img.width;
    let cw = c.width as usize;
    let ch = c.height as usize;
    let cx = c.x as usize;
    let cy = c.y as usize;
    let dlen = img.data.len();
    let mut data: Vec<u8> = Vec::new();
    let mut y: usize = 0;
    while y < ch
        invariant
            img.wf(),
            dlen == img.data@.len(),
            w == img.width,
            cw == c.width,
            ch == c.height,
            cx == c.x,
            cy == c.y,
            c.x + c.width <= img.width,
            c.y + c.height <= img.height,
            y <= ch,
            data@.len() == y * cw * 4,
            forall|yy: int, x: int, k: int|
                0 <= yy < y && 0 <= x < cw && 0 <= k < 4 ==> #[trigger] data@[(yy * cw + x) * 4 + k]
                    == img.data@[((cy + yy) * w + cx + x) * 4 + k],
        decreases ch - y,
    {
        let mut x: usize = 0;
        while x < cw
            invariant
                img.wf(),
                dlen == img.data@.len(),
                w == img.width,
                cw == c.width,
                ch == c.height,
                cx == c.x,
                cy == c.y,
                c.x + c.width <= img.width,
                c.y + c.height <= img.height,
                y < ch,
                x <= cw,
                data@.len() == (y * cw + x) * 4,
                forall|yy: int, xx: int, k: int|
                    0 <= yy < y && 0 <= xx < cw && 0 <= k < 4 ==> #[trigger] data@[(yy * cw + xx) * 4 + k]
                        == img.data@[((cy + yy) * w + cx + xx) * 4 + k],
                forall|xx: int, k: int|
                    0 <= xx < x && 0 <= k < 4 ==> #[trigger] data@[(y * cw + xx) * 4 + k]
                        == img.data@[((cy + y) * w + cx + xx) * 4 + k],
            decreases cw - x,
        {
            proof {
                lemma_cell_index((cy + y) as int, w as int, (cx + x) as int, 4, 3);
                assert(((cy + y) + 1) * w * 4 <= img.height * w * 4) by (nonlinear_arith)
                    requires cy + y + 1 <= img.height, w >= 0;
                assert(img.height * w * 4 == img.data@.len()) by (nonlinear_arith)
                    requires img.data@.len() == w * img.height * 4;
            }
            let base = ((cy + y) * w + cx + x) * 4;
            let ghost before = data@;
            data.push(img.data[base]);
            data.push(img.data[base + 1]);
            data.push(img.data[base + 2]);
            data.push(img.data[base + 3]);
            proof {
                assert forall|yy: int, xx: int, k: int|
                    0 <= yy < y && 0 <= xx < cw && 0 <= k < 4 implies #[trigger] data@[(yy * cw + xx) * 4 + k]
                        == img.data@[((cy + yy) * w + cx + xx) * 4 + k] by {
                    assert((yy * cw + xx) * 4 + k < (y * cw) * 4) by (nonlinear_arith)
                        requires yy < y, 0 <= xx < cw, 0 <= k < 4, yy >= 0;
                    assert(data@[(yy * cw + xx) * 4 + k] == before[(yy * cw + xx) * 4 + k]);
                }
                assert forall|xx: int, k: int|
                    0 <= xx < x + 1 && 0 <= k < 4 implies #[trigger] data@[(y * cw + xx) * 4 + k]
                        == img.data@[((cy + y) * w + cx + xx) * 4 + k] by {
                    if xx < x {
                        assert((y * cw + xx) * 4 + k < (y * cw + x) * 4);
                        assert(data@[(y * cw + xx) * 4 + k] == before[(y * cw + xx) * 4 + k]);
                    } else {
                        assert((y * cw + xx) * 4 + k == (y * cw + x) * 4 + k);
                    }
                }
            }
            x = x + 1;
        }
        proof {
            assert((y * cw + cw) * 4 == (y + 1) * cw * 4) by (nonlinear_arith);
        }
        y = y + 1;
    }
    proof {
        assert(ch * cw * 4 == cw * ch * 4) by (nonlinear_arith);
    }
    RgbaPixels { width: cw, height: ch, data }
}

/// Auto-crops decoded pixels: the chosen crop (see `chosen_crop`) of the
/// content box and the focus crop given, with the cropped pixels; `None`
/// where nothing is found or the crop is the whole image. The focus crop
/// must lie inside the image.
pub fn auto_crop_pixels(
    img: &RgbaPixels,
    opts: &AutoCropOptions,
    lim: &CropLimits,
    focus: Option<CropResult>,
) -> (r: Option<(RgbaPixels, CropResult)>)
    requires
        img.wf(),
        img.width <= u32::MAX,
        img.height <= u32::MAX,
        focus matches Some(f) ==> f.x + f.width <= img.width && f.y + f.height <= img.height
            && f.original_width == img.width && f.original_height == img.height,
    ensures
        r matches Some((px, c)) ==> {
            &&& px.width == c.width && px.height == c.height && px.wf()
            &&& !c.covers_all()
            &&& forall|y: int, x: int, k: int|
                0 <= y < c.height && 0 <= x < c.width && 0 <= k < 4 ==> #[trigger] px.data@[(y * c.width
                    + x) * 4 + k] == img.data@[((c.y + y) * img.width + c.x + x) * 4 + k]
        },
        match chosen_crop(content_crop(*img, *opts, *lim), focus) {
            Some(c) => if c.covers_all() {
                r is None
            } else {
                r matches Some((_, c2)) && c2 == c
            },
            None => r is None,
        },
{
    let bounds = find_content_bounds(img, opts, lim);
    let chosen = choose_crop(bounds, focus);
    match chosen {
        Some(c) => {
            if c.is_whole() {
                None
            } else {
                let px = crop_pixels(img, &c);
                Some((px, c))
            }
        },
        None => None,
    }
}

/// The extensions, lower case, of the images a folder auto-crop takes.
pub open spec fn batch_extensions() -> Seq<&'static str> {
    seq!["png", "jpg", "jpeg", "bmp", "tiff", "tif", "pnm", "pbm", "pgm", "ppm"]
}

/// A file a folder auto-crop takes: its extension, lower-cased, is one of
/// `batch_extensions`.
pub open spec fn is_batch_name(name: Seq<char>) -> bool {
    match crate::paths::file_extension(name) {
        Some(e) => exists|k: int|
            0 <= k < batch_extensions().len() && (#[trigger] batch_extensions()[k])@ == crate::text::lowercase_of(e),
        None => false,
    }
}

/// Whether a folder auto-crop takes the file of this name.
pub fn is_batch_image(name: &str) -> (r: bool)
    ensures
        r == is_batch_name(name@),
{
    match crate::paths::extension_of(name) {
        Some(e) => {
            let lower = crate::text::str_lowercase(e.as_str());
            let list = vec!["png", "jpg", "jpeg", "bmp", "tiff", "tif", "pnm", "pbm", "pgm", "ppm"];
            assert(list@ == batch_extensions());
            crate::paths::contains_str(&list, lower.as_str())
        },
        None => false,
    }
}

/// The name of the cropped copy of a single file: the name up to its last
/// `.`, then `_cropped.`, then the file's extension (`png` where it has
/// none).
pub open spec fn cropped_name(name: Seq<char>) -> Seq<char> {
    let d = crate::paths::last_dot(name);
    let stem = if d >= 0 { name.take(d) } else { name };
    let ext = match crate::paths::file_extension(name) {
        Some(e) => e,
        None => "png"@,
    };
    stem + "_cropped."@ + ext
}

/// The name of the cropped copy of a single file (see `cropped_name`).
pub fn cropped_file_name(name: &str) -> (r: String)
    ensures
        r@ == cropped_name(name@),
{
    let v = crate::text::chars_of(name);
    let mut k: usize = v.len();
    while k > 0 && v[k - 1] != '.'
        invariant
            k <= v@.len(),
            forall|t: int| k <= t < v@.len() ==> v@[t] != '.',
        decreases k,
    {
        k = k - 1;
    }
    proof {
        crate::paths::lemma_last_dot(v@);
        if k > 0 {
            assert(v@[k - 1] == '.');
        }
        assert(crate::paths::last_dot(v@) == k - 1) by {
            if crate::paths::last_dot(v@) > k - 1 {
                assert(v@[crate::paths::last_dot(v@)] == '.');
            }
        }
    }
    let stem_end = if k > 0 { k - 1 } else { v.len() };
    let mut r = crate::text::string_from(&v.as_slice()[0..stem_end]);
    crate::text::push_str(&mut r, "_cropped.");
    match crate::paths::extension_of(name) {
        Some(e) => crate::text::push_str(&mut r, e.as_str()),
        None => crate::text::push_str(&mut r, "png"),
    }
    proof {
        if k > 0 {
            assert(v@.subrange(0, stem_end as int) =~= v@.take(k - 1));
        } else {
            assert(v@.subrange(0, stem_end as int) =~= v@);
        }
    }
    r
}

/// The tally of a folder auto-crop: images cropped, images skipped because
/// they are entirely background (an error that mentions `background`), and
/// other errors.
pub open spec fn tally(results: Seq<Result<CropResult, String>>) -> (nat, nat, nat)
    decreases results.len(),
{
    if results.len() == 0 {
        (0, 0, 0)
    } else {
        let (c, s, e) = tally(results.drop_last());
        match results.last() {
            Ok(_) => (c + 1, s, e),
            Err(m) => if crate::text::contains(m@, "background"@) {
                (c, s + 1, e)
            } else {
                (c, s, e + 1)
            },
        }
    }
}

/// Counts the outcome of a folder auto-crop (see `tally`).
pub fn count_outcomes(results: &Vec<Result<CropResult, String>>) -> (r: (usize, usize, usize))
    ensures
        r.0 == tally(results@).0,
        r.1 == tally(results@).1,
        r.2 == tally(results@).2,
{
    let word = crate::text::chars_of("background");
    let mut c: usize = 0;
    let mut s: usize = 0;
    let mut e: usize = 0;
    let mut i: usize = 0;
    while i < results.len()
        invariant
            i <= results@.len(),
            word@ == "background"@,
            (c as nat, s as nat, e as nat) == tally(results@.take(i as int)),
            c + s + e == i,
        decreases results@.len() - i,
    {
        assert(results@.take(i + 1).drop_last() =~= results@.take(i as int));
        match &results[i] {
            Ok(_) => {
                c = c + 1;
            },
            Err(m) => {
                let mv = crate::text::chars_of(m.as_str());
                if crate::text::contains_exec(&mv, 0, mv.len(), &word) {
                    s = s + 1;
                } else {
                    e = e + 1;
                }
                assert(mv@.subrange(0, mv@.len() as int) =~= mv@);
            },
        }
        i = i + 1;
    }
    assert(results@.take(results@.len() as int) =~= results@);
    (c, s, e)
}

/// A crop saved under this name is written as JPEG (without alpha): its
/// extension, lower-cased, is `jpg` or `jpeg`.
pub open spec fn is_jpeg_name(name: Seq<char>) -> bool {
    match crate::paths::file_extension(name) {
        Some(e) => crate::text::lowercase_of(e) == "jpg"@ || crate::text::lowercase_of(e) == "jpeg"@,
        None => false,
    }
}

/// Whether a crop saved under this name is written as JPEG.
pub fn saves_as_jpeg(name: &str) -> (r: bool)
    ensures
        r == is_jpeg_name(name@),
{
    match crate::paths::extension_of(name) {
        Some(e) => {
            let lower = crate::text::str_lowercase(e.as_str());
            crate::text::str_eq(lower.as_str(), "jpg") || crate::text::str_eq(lower.as_str(), "jpeg")
        },
        None => false,
    }
}

proof fn lemma_first_hit_col_before(m: Seq<bool>, w: int, x: int, x1: int, y0: int, y1: int, k: int)
    requires
        x <= k <= x1,
        col_hit(m, w, k, y0, y1),
    ensures
        first_hit_col(m, w, x, x1, y0, y1) matches Some(j) && j <= k,
    decreases k - x,
{
    if !col_hit(m, w, x, y0, y1) {
        lemma_first_hit_col_before(m, w, x + 1, x1, y0, y1, k);
    }
}

proof fn lemma_first_hit_row_before(m: Seq<bool>, w: int, y: int, y1: int, x0: int, x1: int, k: int)
    requires
        y <= k <= y1,
        row_hit(m, w, k, x0, x1),
    ensures
        first_hit_row(m, w, y, y1, x0, x1) matches Some(j) && j <= k,
    decreases k - y,
{
    if !row_hit(m, w, y, x0, x1) {
        lemma_first_hit_row_before(m, w, y + 1, y1, x0, x1, k);
    }
}

proof fn lemma_region_inside(m: Seq<bool>, w: int, h: int, lim: CropLimits)
    requires
        grid_ok(m, w, h),
    ensures
        grown_region(m, w, h, lim) matches Some((x0, x1, y0, y1)) ==> 0 <= x0 && x1 < w && 0 <= y0 && y1 < h,
{
    let rc = row_counts(m, w, h);
    let cc = col_counts(m, w, h);
    let rt = lim.row_threshold as nat;
    let ct = lim.col_threshold as nat;
    lemma_first_range(rc, rt, 0);
    lemma_first_range(rc, 1, 0);
    lemma_last_range(rc, rt, rc.len() as int);
    lemma_last_range(rc, 1, rc.len() as int);
    lemma_first_range(cc, ct, 0);
    lemma_first_range(cc, 1, 0);
    lemma_last_range(cc, ct, cc.len() as int);
    lemma_last_range(cc, 1, cc.len() as int);
    if let (Some(r0), Some(r1), Some(c0), Some(c1)) = (
        core_first(rc, rt),
        core_last(rc, rt),
        core_first(cc, ct),
        core_last(cc, ct),
    ) {
        lemma_reach_back_range(rc, r0, r0, 0, lim.row_gap_limit as nat);
        lemma_reach_forward_range(rc, r1 + 1, r1, 0, lim.row_gap_limit as nat);
        lemma_reach_back_range(cc, c0, c0, 0, lim.col_gap_limit as nat);
        lemma_reach_forward_range(cc, c1 + 1, c1, 0, lim.col_gap_limit as nat);
    }
}

/// The crop keeps the content it looks at: every set cell inside the
/// grown region lies inside the crop box, which then exists.
pub proof fn law_crop_keeps_content(m: Seq<bool>, w: int, h: int, pad: nat, lim: CropLimits, x: int, y: int)
    requires
        grid_ok(m, w, h),
        grown_region(m, w, h, lim) matches Some((x0, x1, y0, y1)) && x0 <= x <= x1 && y0 <= y <= y1,
        cell(m, w, x, y),
    ensures
        mask_bounds(m, w, h, pad, lim) matches Some((bx, by, bw, bh)) && bx <= x < bx + bw && by <= y < by
            + bh,
{
    lemma_region_inside(m, w, h, lim);
    let (x0, x1, y0, y1) = grown_region(m, w, h, lim)->0;
    assert(col_hit(m, w, x, y0, y1));
    assert(row_hit(m, w, y, x0, x1));
    lemma_first_hit_col_before(m, w, x0, x1, y0, y1, x);
    lemma_last_hit_col_absent(m, w, x0, x1, y0, y1, x);
    lemma_first_hit_row_before(m, w, y0, y1, x0, x1, y);
    lemma_last_hit_row_absent(m, w, y0, y1, x0, x1, y);
}

proof fn lemma_no_hit_col(m: Seq<bool>, w: int, h: int, x: int, x1: int, y0: int, y1: int)
    requires
        grid_ok(m, w, h),
        0 <= x,
        x1 < w,
        0 <= y0,
        y1 < h,
        forall|i: int| 0 <= i < m.len() ==> !m[i],
    ensures
        first_hit_col(m, w, x, x1, y0, y1).is_none(),
    decreases x1 - x + 1,
{
    if x <= x1 {
        assert forall|y: int| y0 <= y <= y1 implies !#[trigger] cell(m, w, x, y) by {
            lemma_cell_in(m, w, h, x, y);
        }
        lemma_no_hit_col(m, w, h, x + 1, x1, y0, y1);
    }
}

/// A grid without content gives no crop box.
pub proof fn law_no_content_no_crop(m: Seq<bool>, w: int, h: int, pad: nat, lim: CropLimits)
    requires
        grid_ok(m, w, h),
        forall|i: int| 0 <= i < m.len() ==> !m[i],
    ensures
        mask_bounds(m, w, h, pad, lim).is_none(),
{
    lemma_region_inside(m, w, h, lim);
    if let Some((x0, x1, y0, y1)) = grown_region(m, w, h, lim) {
        lemma_no_hit_col(m, w, h, x0, x1, y0, y1);
    }
}

/// An image whose every pixel is background gives no crop.
pub proof fn law_uniform_image_no_crop(img: RgbaPixels, opts: AutoCropOptions, lim: CropLimits)
    requires
        img.wf(),
        img.width <= u32::MAX,
        img.height <= u32::MAX,
        img.data@.len() <= usize::MAX,
        forall|i: int| 0 <= i < img.width * img.height ==> is_bg(#[trigger] pixel_at(img.data@, i), background(img), opts.tolerance),
    ensures
        content_crop(img, opts, lim).is_none(),
{
    if img.width > 0 && img.height > 0 {
        let m = content_mask(img.data@, img.width * img.height, background(img), opts.tolerance);
        assert(m.len() == img.width * img.height);
        assert(img.width * img.height <= img.data@.len()) by (nonlinear_arith)
            requires img.data@.len() == img.width * img.height * 4;
        assert forall|i: int| 0 <= i < m.len() implies !m[i] by {
            assert(is_bg(pixel_at(img.data@, i), background(img), opts.tolerance));
        }
        law_no_content_no_crop(m, img.width as int, img.height as int, opts.padding as nat, lim);
    }
}

/// Lines `a..=b` of `s` hold some content.
pub open spec fn has_content(s: Seq<nat>, a: int, b: int) -> bool {
    exists|k: int| a <= k <= b && s[k] > 0
}

/// Nowhere in lines `from..to` of `s` do more than `limit` empty lines
/// follow each other.
pub open spec fn gaps_within(s: Seq<nat>, from: int, to: int, limit: nat) -> bool {
    forall|a: int, b: int| from <= a <= b < to && b - a + 1 > limit ==> #[trigger] has_content(s, a, b)
}

proof fn lemma_reach_forward_bridges(s: Seq<nat>, r: int, hi: int, gap: nat, limit: nat, j: int)
    requires
        0 <= hi < r <= j < s.len(),
        gap == r - hi - 1,
        gap <= limit,
        forall|k: int| hi < k < r ==> s[k] == 0,
        s[j] > 0,
        gaps_within(s, hi + 1, j, limit),
    ensures
        reach_forward(s, r, hi, gap, limit) >= j,
    decreases s.len() - r,
{
    if s[r] > 0 {
        if r == j {
            lemma_reach_forward_range(s, r + 1, r, 0, limit);
        } else {
            assert forall|a: int, b: int| r + 1 <= a <= b < j && b - a + 1 > limit implies #[trigger] has_content(
                s,
                a,
                b,
            ) by {
                assert(hi + 1 <= a);
            }
            lemma_reach_forward_bridges(s, r + 1, r, 0, limit, j);
        }
    } else if gap + 1 > limit {
        assert(has_content(s, hi + 1, r));
        let k = choose|k: int| hi + 1 <= k <= r && s[k] > 0;
        assert(s[k] == 0);
    } else {
        lemma_reach_forward_bridges(s, r + 1, hi, gap + 1, limit, j);
    }
}

proof fn lemma_reach_back_bridges(s: Seq<nat>, r: int, lo: int, gap: nat, limit: nat, j: int)
    requires
        0 <= j < r <= lo < s.len(),
        gap == lo - r,
        gap <= limit,
        forall|k: int| r <= k < lo ==> s[k] == 0,
        s[j] > 0,
        gaps_within(s, j + 1, lo, limit),
    ensures
        reach_back(s, r, lo, gap, limit) <= j,
    decreases r,
{
    if s[r - 1] > 0 {
        if r - 1 == j {
            lemma_reach_back_range(s, r - 1, r - 1, 0, limit);
        } else {
            assert forall|a: int, b: int| j + 1 <= a <= b < r - 1 && b - a + 1 > limit implies #[trigger] has_content(
                s,
                a,
                b,
            ) by {
                assert(b < lo);
            }
            lemma_reach_back_bridges(s, r - 1, r - 1, 0, limit, j);
        }
    } else if gap + 1 > limit {
        assert(has_content(s, r - 1, lo - 1));
        let k = choose|k: int| r - 1 <= k <= lo - 1 && s[k] > 0;
        assert(s[k] == 0);
    } else {
        lemma_reach_back_bridges(s, r - 1, lo, gap + 1, limit, j);
    }
}

/// Growth after the core bridges small gaps: a line with content after
/// the core's last line `e` is reached whenever no more than `limit` empty
/// lines follow each other between them.
pub proof fn law_growth_forward_bridges_gaps(s: Seq<nat>, e: int, j: int, limit: nat)
    requires
        0 <= e < j < s.len(),
        s[j] > 0,
        gaps_within(s, e + 1, j, limit),
    ensures
        reach_forward(s, e + 1, e, 0, limit) >= j,
{
    lemma_reach_forward_bridges(s, e + 1, e, 0, limit, j);
}

/// Growth before the core bridges small gaps: a line with content before
/// the core's first line `b` is reached whenever no more than `limit` empty
/// lines follow each other between them.
pub proof fn law_growth_back_bridges_gaps(s: Seq<nat>, b: int, j: int, limit: nat)
    requires
        0 <= j < b < s.len(),
        s[j] > 0,
        gaps_within(s, j + 1, b, limit),
    ensures
        reach_back(s, b, b, 0, limit) <= j,
{
    lemma_reach_back_bridges(s, b, b, 0, limit, j);
}

proof fn lemma_reach_forward_stops(s: Seq<nat>, r: int, hi: int, gap: nat, limit: nat)
    requires
        0 <= hi < r,
        gap == r - hi - 1,
        forall|k: int| hi < k < r && k < s.len() ==> s[k] == 0,
    ensures
        ({
            let e = reach_forward(s, r, hi, gap, limit);
            forall|k: int| e < k <= e + limit + 1 && k < s.len() ==> s[k] == 0
        }),
    decreases s.len() - r,
{
    if r < s.len() {
        if s[r] > 0 {
            lemma_reach_forward_stops(s, r + 1, r, 0, limit);
        } else if gap + 1 <= limit {
            lemma_reach_forward_stops(s, r + 1, hi, gap + 1, limit);
        }
    }
}

proof fn lemma_reach_back_stops(s: Seq<nat>, r: int, lo: int, gap: nat, limit: nat)
    requires
        0 <= r <= lo,
        gap == lo - r,
        forall|k: int| r <= k < lo ==> s[k] == 0,
    ensures
        ({
            let b = reach_back(s, r, lo, gap, limit);
            forall|k: int| b - limit - 1 <= k < b && k >= 0 ==> s[k] == 0
        }),
    decreases r,
{
    if r > 0 {
        if s[r - 1] > 0 {
            lemma_reach_back_stops(s, r - 1, r - 1, 0, limit);
        } else if gap + 1 <= limit {
            lemma_reach_back_stops(s, r - 1, lo, gap + 1, limit);
        }
    }
}

/// Growth stops only at a long enough gap: after the end it reaches from
/// the core's last line `e`, the next `limit + 1` lines (those that exist)
/// are empty; before the start it reaches from the first line `b`, so are
/// the `limit + 1` lines before it.
pub proof fn law_growth_stops_at_wide_gaps(s: Seq<nat>, e: int, b: int, limit: nat)
    requires
        0 <= e,
        0 <= b,
    ensures
        ({
            let x = reach_forward(s, e + 1, e, 0, limit);
            forall|k: int| x < k <= x + limit + 1 && k < s.len() ==> s[k] == 0
        }),
        ({
            let y = reach_back(s, b, b, 0, limit);
            forall|k: int| y - limit - 1 <= k < y && k >= 0 ==> s[k] == 0
        }),
{
    lemma_reach_forward_stops(s, e + 1, e, 0, limit);
    lemma_reach_back_stops(s, b, b, 0, limit);
}

} // verus!
