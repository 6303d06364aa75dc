//! How the viewer fits and orients an image: the fit modes and their
//! cycle, quarter-turn rotation and mirroring, the size an oriented image
//! takes, and which texture corner lands on each corner of the screen.

use vstd::prelude::*;

verus! {

/// How the image is scaled into the window.
#[derive(Clone, Copy, Debug, PartialEq, Eq, Structural)]
pub enum FitMode {
    FitWindow,
    FitWidth,
    FitHeight,
    ActualSize,
}

/// The mode the fit key switches to: actual size from fit-to-window, and
/// fit-to-window from any other.
pub open spec fn cycled(m: FitMode) -> FitMode {
    if m == FitMode::FitWindow {
        FitMode::ActualSize
    } else {
        FitMode::FitWindow
    }
}

/// The mode the fit key switches to (see `cycled`).
pub fn cycle_fit_mode(m: FitMode) -> (r: FitMode)
    ensures
        r == cycled(m),
{
    match m {
        FitMode::FitWindow => FitMode::ActualSize,
        _ => FitMode::FitWindow,
    }
}

/// The rotation after a quarter turn clockwise.
pub open spec fn turned_cw(r: int) -> int {
    (r + 90) % 360
}

/// The rotation after a quarter turn counter-clockwise.
pub open spec fn turned_ccw(r: int) -> int {
    (r + 270) % 360
}

/// A rotation the viewer uses: 0, 90, 180 or 270 degrees clockwise.
pub open spec fn is_quarter(r: int) -> bool {
    r == 0 || r == 90 || r == 180 || r == 270
}

/// The orientation of the image on screen: rotation in degrees clockwise,
/// then mirroring left-right and top-bottom.
#[derive(Clone, Copy, Debug, PartialEq, Eq, Structural)]
pub struct Orientation {
    pub rotation: i32,
    pub flip_h: bool,
    pub flip_v: bool,
}

/// A corner of the texture, as (u, v) with 0 or 1 in each.
pub type Corner = (u8, u8);

/// The texture corners shown at the top-left, top-right, bottom-right and
/// bottom-left corners of the screen for a rotation, before mirroring.
pub open spec fn rotated_corners(r: int) -> (Corner, Corner, Corner, Corner) {
    if r == 90 {
        ((0, 1), (0, 0), (1, 0), (1, 1))
    } else if r == 180 {
        ((1, 1), (0, 1), (0, 0), (1, 0))
    } else if r == 270 {
        ((1, 0), (1, 1), (0, 1), (0, 0))
    } else {
        ((0, 0), (1, 0), (1, 1), (0, 1))
    }
}

/// The corners after mirroring: left and right swap for `flip_h`, then
/// top and bottom for `flip_v`.
pub open spec fn mirrored(c: (Corner, Corner, Corner, Corner), flip_h: bool, flip_v: bool) -> (
    Corner,
    Corner,
    Corner,
    Corner,
) {
    let (tl, tr, br, bl) = c;
    let (tl, tr, br, bl) = if flip_h { (tr, tl, bl, br) } else { (tl, tr, br, bl) };
    if flip_v { (bl, br, tr, tl) } else { (tl, tr, br, bl) }
}

impl Orientation {
    /// The rotation is a quarter turn.
    pub open spec fn wf(&self) -> bool {
        is_quarter(self.rotation as int)
    }

    /// Upright and not mirrored.
    pub fn new() -> (o: Orientation)
        ensures
            o.rotation == 0,
            !o.flip_h,
            !o.flip_v,
            o.wf(),
    {
        Orientation { rotation: 0, flip_h: false, flip_v: false }
    }

    /// Turns the image a quarter clockwise.
    pub fn rotate_cw(&mut self)
        requires
            old(self).wf(),
        ensures
            final(self).rotation == turned_cw(old(self).rotation as int),
            final(self).flip_h == old(self).flip_h,
            final(self).flip_v == old(self).flip_v,
            final(self).wf(),
    {
        self.rotation = (self.rotation + 90) % 360;
    }

    /// Turns the image a quarter counter-clockwise.
    pub fn rotate_ccw(&mut self)
        requires
            old(self).wf(),
        ensures
            final(self).rotation == turned_ccw(old(self).rotation as int),
            final(self).flip_h == old(self).flip_h,
            final(self).flip_v == old(self).flip_v,
            final(self).wf(),
    {
        self.rotation = (self.rotation + 270) % 360;
    }

    /// Mirrors the image left-right.
    pub fn flip_horizontal(&mut self)
        ensures
            final(self).flip_h == !old(self).flip_h,
            final(self).rotation == old(self).rotation,
            final(self).flip_v == old(self).flip_v,
    {
        self.flip_h = !self.flip_h;
    }

    /// Mirrors the image top-bottom.
    pub fn flip_vertical(&mut self)
        ensures
            final(self).flip_v == !old(self).flip_v,
            final(self).rotation == old(self).rotation,
            final(self).flip_h == old(self).flip_h,
    {
        self.flip_v = !self.flip_v;
    }

    /// Whether the image shows on its side, so that its width and height
    /// swap on screen.
    pub fn swaps_sides(&self) -> (r: bool)
        ensures
            r == (self.rotation == 90 || self.rotation == 270),
    {
        self.rotation == 90 || self.rotation == 270
    }

    /// The width and height the image takes on screen.
    pub fn effective_size(&self, width: u32, height: u32) -> (r: (u32, u32))
        ensures
            r == if self.rotation == 90 || self.rotation == 270 {
                (height, width)
            } else {
                (width, height)
            },
    {
        if self.swaps_sides() {
            (height, width)
        } else {
            (width, height)
        }
    }

    /// The texture corners at the screen's top-left, top-right,
    /// bottom-right and bottom-left (see `rotated_corners` and
    /// `mirrored`).
    pub fn uv_corners(&self) -> (r: (Corner, Corner, Corner, Corner))
        ensures
            r == mirrored(rotated_corners(self.rotation as int), self.flip_h, self.flip_v),
    {
        let (tl, tr, br, bl) = if self.rotation == 90 {
            ((0u8, 1u8), (0u8, 0u8), (1u8, 0u8), (1u8, 1u8))
        } else if self.rotation == 180 {
            ((1u8, 1u8), (0u8, 1u8), (0u8, 0u8), (1u8, 0u8))
        } else if self.rotation == 270 {
            ((1u8, 0u8), (1u8, 1u8), (0u8, 1u8), (0u8, 0u8))
        } else {
            ((0u8, 0u8), (1u8, 0u8), (1u8, 1u8), (0u8, 1u8))
        };
        let (tl, tr, br, bl) = if self.flip_h {
            (tr, tl, bl, br)
        } else {
            (tl, tr, br, bl)
        };
        if self.flip_v {
            (bl, br, tr, tl)
        } else {
            (tl, tr, br, bl)
        }
    }
}

/// A quarter turn counter-clockwise undoes one clockwise, and the other
/// way round; four quarter turns the same way bring the image back.
pub proof fn law_rotation_inverse(r: int)
    requires
        is_quarter(r),
    ensures
        turned_ccw(turned_cw(r)) == r,
        turned_cw(turned_ccw(r)) == r,
        turned_cw(turned_cw(turned_cw(turned_cw(r)))) == r,
        is_quarter(turned_cw(r)),
        is_quarter(turned_ccw(r)),
{
}

/// A turned image shows on its side exactly when the image before it did
/// not.
pub proof fn law_rotation_swaps_sides(r: int)
    requires
        is_quarter(r),
    ensures
        (turned_cw(r) == 90 || turned_cw(r) == 270) == !(r == 90 || r == 270),
{
}

/// Mirroring twice the same way restores the corners.
pub proof fn law_mirror_involution(c: (Corner, Corner, Corner, Corner), flip_h: bool, flip_v: bool)
    ensures
        mirrored(mirrored(c, flip_h, flip_v), flip_h, flip_v) == c,
{
}

/// Whatever the orientation, the four screen corners show the four
/// different corners of the texture.
pub proof fn law_corners_distinct(r: int, flip_h: bool, flip_v: bool)
    ensures
        ({
            let (a, b, c, d) = mirrored(rotated_corners(r), flip_h, flip_v);
            &&& a != b && a != c && a != d && b != c && b != d && c != d
            &&& a.0 <= 1 && a.1 <= 1 && b.0 <= 1 && b.1 <= 1
            &&& c.0 <= 1 && c.1 <= 1 && d.0 <= 1 && d.1 <= 1
        }),
{
}

/// The corners follow the rotation: turning a quarter clockwise moves each
/// texture corner one screen corner on, clockwise.
pub proof fn law_corners_turn(r: int)
    requires
        is_quarter(r),
    ensures
        ({
            let (a, b, c, d) = rotated_corners(r);
            rotated_corners(turned_cw(r)) == (d, a, b, c)
        }),
{
}

/// A vertical flip swaps the top and bottom screen corners, whatever the
/// horizontal flip; a horizontal flip swaps the left and right ones,
/// whatever the vertical flip; with neither, the corners stay.
pub proof fn law_flips_swap_sides(c: (Corner, Corner, Corner, Corner), flip_h: bool, flip_v: bool)
    ensures
        ({
            let (tl, tr, br, bl) = mirrored(c, flip_h, flip_v);
            &&& mirrored(c, flip_h, !flip_v) == (bl, br, tr, tl)
            &&& mirrored(c, !flip_h, flip_v) == (tr, tl, bl, br)
        }),
        mirrored(c, false, false) == c,
{
}

/// Flipping the shown image vertically, alone, puts the texture's top
/// corners at the bottom of the screen and the other way round; flipping
/// it horizontally, alone, swaps left and right.
pub proof fn law_single_flips(r: int)
    ensures
        ({
            let (tl, tr, br, bl) = rotated_corners(r);
            &&& mirrored(rotated_corners(r), false, true) == (bl, br, tr, tl)
            &&& mirrored(rotated_corners(r), true, false) == (tr, tl, bl, br)
        }),
{
}

} // verus!
