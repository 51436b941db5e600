//! Geometry: crop, the eight dihedral orientations, resize and straighten.
//!
//! `crop` and `orient` move samples and never touch one. `resize` and
//! `straighten` resample with polynomial filters, each sample accumulated in
//! one fixed order.

use vstd::arithmetic::power2::pow2;
use vstd::prelude::*;

use crate::allocation::{image, permitted, refusal};
use crate::arith::{
    ceil, ceil_of, cos64, cos64_of, faithful, floor, floor64, floor64_of, floor_of, minus, minus64,
    minus64_of, minus_of, narrow, narrow_of, of_count, of_count64, of_count64_of, of_count_of,
    of_offset, of_offset_of, over, over64, over64_of, over_of, plus, plus_of, radians64,
    radians64_of, sin64, sin64_of, text, text_of, times, times64, times64_of, times_of, to_count64,
    to_count64_of, to_offset, to_offset_of, widen, widen_of, Arithmetic,
};
use crate::double;
use crate::error::{PhaiosError, Report};
use crate::raster::{
    has_lane, index_of, inside, is_tabulated, lane, nearest, same_cells, tabulate, tabulated, Image,
    Raster,
};
use crate::rounding::{
    ceil_halves, computes_exactly, count_exact64, count_is_finite, floor_halves, halves,
    halves_are_ordered, magnitude_halves, minus_exact64, minus_halves, narrow_exact, no_angle,
    offset_halves, one_is_one, over_exact64, over_itself, over_one, plus_halves, plus_zero, rounds,
    small_numbers, small_numbers64, sums_exactly, times_exact64, times_halves, times_one,
    times_zero, unit64, value, value64, values_are_ordered, values_are_ordered64, whole_count64,
    whole_halves, whole_offset, widen_exact,
};
use crate::single;
use crate::text::{decimal, put_decimal};

verus! {

/// One of the eight dihedral transforms of the frame. Rotations are clockwise.
#[derive(Clone, Copy, PartialEq, Eq, Structural, Hash, Debug)]
pub enum Orientation {
    /// No transform (Exif 1).
    Normal,
    /// Mirror left-right (Exif 2).
    FlipHorizontal,
    /// Rotate by a half turn (Exif 3).
    Rotate180,
    /// Mirror top-bottom (Exif 4).
    FlipVertical,
    /// Mirror about the main diagonal (Exif 5).
    Transpose,
    /// Rotate by a quarter turn clockwise (Exif 6).
    Rotate90,
    /// Mirror about the other diagonal (Exif 7).
    Transverse,
    /// Rotate by three quarter turns clockwise (Exif 8).
    Rotate270,
}

impl Default for Orientation {
    fn default() -> (r: Self)
        ensures
            r == Orientation::Normal,
    {
        Orientation::Normal
    }
}

impl Orientation {
    /// The value of the Exif orientation tag.
    pub open spec fn tag(self) -> int {
        match self {
            Orientation::Normal => 1,
            Orientation::FlipHorizontal => 2,
            Orientation::Rotate180 => 3,
            Orientation::FlipVertical => 4,
            Orientation::Transpose => 5,
            Orientation::Rotate90 => 6,
            Orientation::Transverse => 7,
            Orientation::Rotate270 => 8,
        }
    }

    /// Whether the transform exchanges rows and columns.
    pub open spec fn turns(self) -> bool {
        self is Transpose || self is Rotate90 || self is Transverse || self is Rotate270
    }

    /// Whether rows are read bottom-up, after any exchange.
    pub open spec fn from_bottom(self) -> bool {
        self is Rotate180 || self is FlipVertical || self is Transverse || self is Rotate270
    }

    /// Whether columns are read right to left, after any exchange.
    pub open spec fn from_right(self) -> bool {
        self is FlipHorizontal || self is Rotate180 || self is Rotate90 || self is Transverse
    }

    /// The transform that undoes this one.
    pub open spec fn undo(self) -> Orientation {
        match self {
            Orientation::Rotate90 => Orientation::Rotate270,
            Orientation::Rotate270 => Orientation::Rotate90,
            other => other,
        }
    }

    /// The transform of an Exif orientation tag, where the tag is one of 1..=8.
    pub fn from_exif(value: u16) -> (r: Option<Orientation>)
        ensures
            match r {
                Some(o) => o.tag() == value,
                None => !(1 <= value <= 8),
            },
    {
        match value {
            1 => Some(Orientation::Normal),
            2 => Some(Orientation::FlipHorizontal),
            3 => Some(Orientation::Rotate180),
            4 => Some(Orientation::FlipVertical),
            5 => Some(Orientation::Transpose),
            6 => Some(Orientation::Rotate90),
            7 => Some(Orientation::Transverse),
            8 => Some(Orientation::Rotate270),
            _ => None,
        }
    }

    /// The value of the Exif orientation tag.
    pub fn exif(self) -> (r: u16)
        ensures
            r == self.tag(),
    {
        match self {
            Orientation::Normal => 1,
            Orientation::FlipHorizontal => 2,
            Orientation::Rotate180 => 3,
            Orientation::FlipVertical => 4,
            Orientation::Transpose => 5,
            Orientation::Rotate90 => 6,
            Orientation::Transverse => 7,
            Orientation::Rotate270 => 8,
        }
    }

    /// The orientation that undoes this one: the quarter turns undo each other
    /// and the rest undo themselves.
    pub fn inverse(self) -> (r: Orientation)
        ensures
            r == self.undo(),
    {
        match self {
            Orientation::Rotate90 => Orientation::Rotate270,
            Orientation::Rotate270 => Orientation::Rotate90,
            other => other,
        }
    }

    /// Whether this transform swaps width and height.
    pub fn transposes(self) -> (r: bool)
        ensures
            r == self.turns(),
    {
        matches!(
            self,
            Orientation::Transpose | Orientation::Rotate90 | Orientation::Transverse
                | Orientation::Rotate270
        )
    }

    /// The transform as an exchange of rows and columns, a vertical mirror and
    /// a horizontal mirror, in that order.
    pub fn flags(self) -> (r: (bool, bool, bool))
        ensures
            r == (self.turns(), self.from_bottom(), self.from_right()),
    {
        match self {
            Orientation::Normal => (false, false, false),
            Orientation::FlipHorizontal => (false, false, true),
            Orientation::Rotate180 => (false, true, true),
            Orientation::FlipVertical => (false, true, false),
            Orientation::Transpose => (true, false, false),
            Orientation::Rotate90 => (true, false, true),
            Orientation::Transverse => (true, true, true),
            Orientation::Rotate270 => (true, true, false),
        }
    }
}

/// The shape of an oriented frame.
pub open spec fn oriented_shape(
    shape: (usize, usize, usize),
    orientation: Orientation,
) -> (usize, usize, usize) {
    if orientation.turns() {
        (shape.1, shape.0, shape.2)
    } else {
        shape
    }
}

/// The row and column that an oriented frame shows at row `y` and column `x`.
pub open spec fn shown_at(
    shape: (usize, usize, usize),
    orientation: Orientation,
    y: int,
    x: int,
) -> (int, int) {
    let to = oriented_shape(shape, orientation);
    let v = if orientation.from_bottom() {
        to.0 - 1 - y
    } else {
        y
    };
    let u = if orientation.from_right() {
        to.1 - 1 - x
    } else {
        x
    };
    if orientation.turns() {
        (u, v)
    } else {
        (v, u)
    }
}

/// A raster seen in another orientation.
pub open spec fn oriented<T>(r: Raster<T>, orientation: Orientation) -> Raster<T> {
    tabulate(
        oriented_shape(r.shape, orientation),
        |y: int, x: int, k: int|
            {
                let from = shown_at(r.shape, orientation, y, x);
                r.at(from.0, from.1, k)
            },
    )
}

/// Orienting and orienting back gives the frame again.
pub proof fn inverse_undoes_orient<T>(r: Raster<T>, orientation: Orientation)
    requires
        r.valid(),
    ensures
        oriented(oriented(r, orientation), orientation.undo()) == r,
{
    let there = oriented(r, orientation);
    let back = oriented(there, orientation.undo());
    unfold_oriented(r, orientation);
    unfold_oriented(there, orientation.undo());
    assert(back.shape == r.shape);
    assert forall|y: int, x: int, k: int| inside(r.shape, y, x, k) implies #[trigger] back.at(
        y,
        x,
        k,
    ) == r.at(y, x, k) by {
        let mid = shown_at(there.shape, orientation.undo(), y, x);
        assert(inside(there.shape, mid.0, mid.1, k));
        let from = shown_at(r.shape, orientation, mid.0, mid.1);
        assert(from == (y, x));
    }
    same_cells(back, r);
}

/// Four quarter turns give the frame again.
pub proof fn four_quarter_turns<T>(r: Raster<T>)
    requires
        r.valid(),
    ensures
        oriented(
            oriented(
                oriented(oriented(r, Orientation::Rotate90), Orientation::Rotate90),
                Orientation::Rotate90,
            ),
            Orientation::Rotate90,
        ) == r,
{
    let a = oriented(r, Orientation::Rotate90);
    let b = oriented(a, Orientation::Rotate90);
    let c = oriented(b, Orientation::Rotate90);
    unfold_oriented(r, Orientation::Rotate90);
    unfold_oriented(a, Orientation::Rotate90);
    two_quarter_turns(r);
    two_quarter_turns(b);
    inverse_undoes_orient(r, Orientation::Rotate180);
}

/// Two quarter turns are a half turn.
pub proof fn two_quarter_turns<T>(r: Raster<T>)
    requires
        r.valid(),
    ensures
        oriented(oriented(r, Orientation::Rotate90), Orientation::Rotate90) == oriented(
            r,
            Orientation::Rotate180,
        ),
{
    let a = oriented(r, Orientation::Rotate90);
    let b = oriented(a, Orientation::Rotate90);
    let half = oriented(r, Orientation::Rotate180);
    unfold_oriented(r, Orientation::Rotate90);
    unfold_oriented(a, Orientation::Rotate90);
    unfold_oriented(r, Orientation::Rotate180);
    assert forall|y: int, x: int, k: int| inside(b.shape, y, x, k) implies #[trigger] b.at(y, x, k)
        == half.at(y, x, k) by {
        let mid = shown_at(a.shape, Orientation::Rotate90, y, x);
        assert(inside(a.shape, mid.0, mid.1, k));
        assert(inside(half.shape, y, x, k));
    }
    same_cells(b, half);
}

/// Orienting moves samples and touches none: each cell of an oriented frame is
/// a cell of the frame.
pub proof fn unfold_oriented<T>(r: Raster<T>, orientation: Orientation)
    ensures
        oriented(r, orientation).valid(),
        oriented(r, orientation).shape == oriented_shape(r.shape, orientation),
        forall|y: int, x: int, k: int|
            inside(oriented_shape(r.shape, orientation), y, x, k) ==> {
                let from = shown_at(r.shape, orientation, y, x);
                &&& inside(r.shape, from.0, from.1, k)
                &&& #[trigger] oriented(r, orientation).at(y, x, k) == r.at(from.0, from.1, k)
            },
{
    let f = |y: int, x: int, k: int|
        {
            let from = shown_at(r.shape, orientation, y, x);
            r.at(from.0, from.1, k)
        };
    tabulated(oriented_shape(r.shape, orientation), f);
}

/// Applies one of the eight dihedral orientations.
///
/// A pure index permutation: no sample is touched.
pub fn orient(img: &Image, orientation: Orientation) -> (r: Result<Image, PhaiosError>)
    ensures
        match r {
            Ok(out) => out@ == oriented(img@, orientation) && permitted::<u32>(
                oriented_shape(img@.shape, orientation),
            ),
            Err(e) => refusal::<u32>(oriented_shape(img@.shape, orientation), e@),
        },
{
    let (h, w, c) = img.dim();
    let (transpose, flip_y, flip_x) = orientation.flags();
    let to = if transpose {
        (w, h, c)
    } else {
        (h, w, c)
    };
    let pick = |y: usize, x: usize, k: usize| -> (s: u32)
        requires
            inside(to, y as int, x as int, k as int),
            to == oriented_shape(img@.shape, orientation),
            transpose == orientation.turns(),
            flip_y == orientation.from_bottom(),
            flip_x == orientation.from_right(),
        ensures
            s == ({
                let at = shown_at(img@.shape, orientation, y as int, x as int);
                img@.at(at.0, at.1, k as int)
            }),
        {
            let v: usize = if flip_y {
                to.0 - 1 - y
            } else {
                y
            };
            let u: usize = if flip_x {
                to.1 - 1 - x
            } else {
                x
            };
            if transpose {
                img.cell(u, v, k)
            } else {
                img.cell(v, u, k)
            }
        };
    let r = image(to, pick);
    if let Ok(out) = &r {
        proof {
            is_tabulated(
                out@,
                |y: int, x: int, k: int|
                    {
                        let from = shown_at(img@.shape, orientation, y, x);
                        img@.at(from.0, from.1, k)
                    },
            );
        }
    }
    r
}

/// A crop rectangle in pixels of the frame. It has to lie inside the frame.
#[derive(Clone, Copy, Debug)]
pub struct CropParams {
    /// Left edge, from the left of the frame.
    pub x: u32,
    /// Top edge, from the top of the frame.
    pub y: u32,
    /// Width of the result.
    pub width: u32,
    /// Height of the result.
    pub height: u32,
}

impl CropParams {
    /// A rectangle from its top-left corner and its extents.
    pub fn new(x: u32, y: u32, width: u32, height: u32) -> (r: Self)
        ensures
            r == (CropParams { x, y, width, height }),
    {
        CropParams { x, y, width, height }
    }

    /// Whether all four fields match.
    pub fn __eq__(&self, other: &Self) -> (r: bool)
        ensures
            r == (*self == *other),
    {
        self.x == other.x && self.y == other.y && self.width == other.width && self.height
            == other.height
    }

    /// A debug representation.
    pub fn __repr__(&self) -> (r: String)
        ensures
            r@ == "CropParams(x="@ + decimal(self.x as nat) + ", y="@ + decimal(self.y as nat)
                + ", width="@ + decimal(self.width as nat) + ", height="@ + decimal(
                self.height as nat,
            ) + ")"@,
    {
        let mut out = String::from_str("CropParams(x=");
        put_decimal(&mut out, self.x as u64);
        out.append(", y=");
        put_decimal(&mut out, self.y as u64);
        out.append(", width=");
        put_decimal(&mut out, self.width as u64);
        out.append(", height=");
        put_decimal(&mut out, self.height as u64);
        out.append(")");
        out
    }
}

/// What is wrong with a crop of a frame, if anything: it reaches outside.
pub open spec fn crop_fault(shape: (usize, usize, usize), params: CropParams) -> Option<Report> {
    if params.x + params.width > shape.1 || params.y + params.height > shape.0 {
        Some(
            Report::Parameter(
                "crop rectangle "@ + decimal(params.width as nat) + "x"@ + decimal(
                    params.height as nat,
                ) + "+"@ + decimal(params.x as nat) + "+"@ + decimal(params.y as nat)
                    + " exceeds the "@ + decimal(shape.1 as nat) + "x"@ + decimal(shape.0 as nat)
                    + " frame"@,
            ),
        )
    } else {
        None
    }
}

/// Holds a crop rectangle to its frame.
pub fn validate_crop(shape: (usize, usize, usize), params: &CropParams) -> (r: Result<
    (),
    PhaiosError,
>)
    ensures
        match r {
            Ok(()) => crop_fault(shape, *params) is None,
            Err(e) => crop_fault(shape, *params) == Some(e@),
        },
{
    let right: u64 = params.x as u64 + params.width as u64;
    let bottom: u64 = params.y as u64 + params.height as u64;
    if right > shape.1 as u64 || bottom > shape.0 as u64 {
        let mut text = String::from_str("crop rectangle ");
        put_decimal(&mut text, params.width as u64);
        text.append("x");
        put_decimal(&mut text, params.height as u64);
        text.append("+");
        put_decimal(&mut text, params.x as u64);
        text.append("+");
        put_decimal(&mut text, params.y as u64);
        text.append(" exceeds the ");
        put_decimal(&mut text, shape.1 as u64);
        text.append("x");
        put_decimal(&mut text, shape.0 as u64);
        text.append(" frame");
        return Err(PhaiosError::Parameter(text));
    }
    Ok(())
}

/// The shape of a crop.
pub open spec fn cropped_shape(
    shape: (usize, usize, usize),
    params: CropParams,
) -> (usize, usize, usize) {
    (params.height as usize, params.width as usize, shape.2)
}

/// The part of a raster inside a rectangle.
pub open spec fn cropped<T>(r: Raster<T>, params: CropParams) -> Raster<T> {
    tabulate(
        cropped_shape(r.shape, params),
        |y: int, x: int, k: int| r.at(params.y + y, params.x + x, k),
    )
}

/// A crop of the whole frame is the frame.
pub proof fn full_crop_is_the_frame<T>(r: Raster<T>, params: CropParams)
    requires
        r.valid(),
        params.x == 0,
        params.y == 0,
        params.width == r.shape.1,
        params.height == r.shape.0,
    ensures
        cropped(r, params) == r,
{
    let f = |y: int, x: int, k: int| r.at(params.y + y, params.x + x, k);
    tabulated(cropped_shape(r.shape, params), f);
    same_cells(cropped(r, params), r);
}

/// A crop of a crop is the crop of the rectangle that the two compose to.
pub proof fn crops_compose<T>(r: Raster<T>, first: CropParams, second: CropParams, both: CropParams)
    requires
        crop_fault(r.shape, first) is None,
        crop_fault(cropped_shape(r.shape, first), second) is None,
        both.x == first.x + second.x,
        both.y == first.y + second.y,
        both.width == second.width,
        both.height == second.height,
    ensures
        crop_fault(r.shape, both) is None,
        cropped(cropped(r, first), second) == cropped(r, both),
{
    let inner = cropped(r, first);
    let twice = cropped(inner, second);
    let once = cropped(r, both);
    tabulated(
        cropped_shape(r.shape, first),
        |y: int, x: int, k: int| r.at(first.y + y, first.x + x, k),
    );
    tabulated(
        cropped_shape(inner.shape, second),
        |y: int, x: int, k: int| inner.at(second.y + y, second.x + x, k),
    );
    tabulated(
        cropped_shape(r.shape, both),
        |y: int, x: int, k: int| r.at(both.y + y, both.x + x, k),
    );
    assert forall|y: int, x: int, k: int| inside(twice.shape, y, x, k) implies #[trigger] twice.at(
        y,
        x,
        k,
    ) == once.at(y, x, k) by {
        assert(inside(inner.shape, second.y + y, second.x + x, k));
        assert(twice.at(y, x, k) == inner.at(second.y + y, second.x + x, k));
    }
    same_cells(twice, once);
}

/// Crops to a rectangle. A pure index copy; an empty rectangle is legal.
pub fn crop(img: &Image, params: &CropParams) -> (r: Result<Image, PhaiosError>)
    ensures
        match r {
            Ok(out) => crop_fault(img@.shape, *params) is None && permitted::<u32>(
                cropped_shape(img@.shape, *params),
            ) && out@ == cropped(img@, *params),
            Err(e) => match crop_fault(img@.shape, *params) {
                Some(fault) => e@ == fault,
                None => refusal::<u32>(cropped_shape(img@.shape, *params), e@),
            },
        },
{
    let (h, w, c) = img.dim();
    if let Err(e) = validate_crop((h, w, c), params) {
        return Err(e);
    }
    let (left, top) = (params.x as usize, params.y as usize);
    let to = (params.height as usize, params.width as usize, c);
    let pick = |y: usize, x: usize, k: usize| -> (s: u32)
        requires
            inside(to, y as int, x as int, k as int),
            to == cropped_shape(img@.shape, *params),
            crop_fault(img@.shape, *params) is None,
            left == params.x,
            top == params.y,
        ensures
            s == img@.at(params.y + y, params.x + x, k as int),
        { img.cell(top + y, left + x, k) };
    let r = image(to, pick);
    if let Ok(out) = &r {
        proof {
            is_tabulated(
                out@,
                |y: int, x: int, k: int| img@.at(params.y + y, params.x + x, k),
            );
        }
    }
    r
}

/// Resampling filter for [`resize`].
#[derive(Clone, Copy, PartialEq, Eq, Structural, Hash, Debug)]
pub enum ResizeFilter {
    /// Exact fractional pixel coverage: for downscaling.
    Area,
    /// Triangle filter.
    Bilinear,
    /// The cubic of Keys with a = -1/2: for upscaling.
    CatmullRom,
}

impl Default for ResizeFilter {
    fn default() -> (r: Self)
        ensures
            r == ResizeFilter::Area,
    {
        ResizeFilter::Area
    }
}

/// Parameters for [`resize`].
#[derive(Clone, Copy, Debug)]
pub struct ResizeParams {
    /// Target width in pixels.
    pub width: u32,
    /// Target height in pixels.
    pub height: u32,
    /// The resampling filter.
    pub filter: ResizeFilter,
}

/// How a filter prints.
pub open spec fn filter_name(filter: ResizeFilter) -> Seq<char> {
    match filter {
        ResizeFilter::Area => "Area"@,
        ResizeFilter::Bilinear => "Bilinear"@,
        ResizeFilter::CatmullRom => "CatmullRom"@,
    }
}

impl ResizeParams {
    /// Parameters from the target extents and the filter.
    pub fn new(width: u32, height: u32, filter: ResizeFilter) -> (r: Self)
        ensures
            r == (ResizeParams { width, height, filter }),
    {
        ResizeParams { width, height, filter }
    }

    /// Whether all fields match.
    pub fn __eq__(&self, other: &Self) -> (r: bool)
        ensures
            r == (*self == *other),
    {
        self.width == other.width && self.height == other.height && self.filter == other.filter
    }

    /// A debug representation.
    pub fn __repr__(&self) -> (r: String)
        ensures
            r@ == "ResizeParams(width="@ + decimal(self.width as nat) + ", height="@ + decimal(
                self.height as nat,
            ) + ", filter="@ + filter_name(self.filter) + ")"@,
    {
        let mut out = String::from_str("ResizeParams(width=");
        put_decimal(&mut out, self.width as u64);
        out.append(", height=");
        put_decimal(&mut out, self.height as u64);
        out.append(", filter=");
        let name: &str = match self.filter {
            ResizeFilter::Area => "Area",
            ResizeFilter::Bilinear => "Bilinear",
            ResizeFilter::CatmullRom => "CatmullRom",
        };
        out.append(name);
        out.append(")");
        out
    }
}

/// The pattern of 3/2.
pub const THREE_HALVES: u32 = 0x3FC0_0000;

/// The pattern of 5/2.
pub const FIVE_HALVES: u32 = 0x4020_0000;

/// The pattern of -1/2.
pub const MINUS_HALF: u32 = 0xBF00_0000;

/// The profile of a filter at distance `t`, in Horner form.
pub open spec fn filter_eval_of<A: Arithmetic>(filter: ResizeFilter, t: u32) -> u32 {
    let d = single::magnitude(t);
    match filter {
        ResizeFilter::Area => if single::at_most(d, single::HALF) {
            single::ONE
        } else {
            0
        },
        ResizeFilter::Bilinear => single::larger(minus_of::<A>(single::ONE, d), 0),
        ResizeFilter::CatmullRom => if single::at_most(d, single::ONE) {
            let p = minus_of::<A>(times_of::<A>(THREE_HALVES, d), FIVE_HALVES);
            plus_of::<A>(times_of::<A>(times_of::<A>(p, d), d), single::ONE)
        } else if single::less(d, single::TWO) {
            let p = plus_of::<A>(times_of::<A>(MINUS_HALF, d), FIVE_HALVES);
            let q = minus_of::<A>(times_of::<A>(p, d), single::FOUR);
            plus_of::<A>(times_of::<A>(q, d), single::TWO)
        } else {
            0
        },
    }
}

/// The profile of a filter at distance `t`.
pub fn filter_eval<A: Arithmetic>(filter: ResizeFilter, t: u32) -> (r: u32)
    requires
        faithful::<A>(),
    ensures
        r == filter_eval_of::<A>(filter, t),
{
    let d: u32 = single::magnitude(t);
    match filter {
        ResizeFilter::Area => if single::at_most(d, single::HALF) {
            single::ONE
        } else {
            0
        },
        ResizeFilter::Bilinear => single::larger(minus::<A>(single::ONE, d), 0),
        ResizeFilter::CatmullRom => if single::at_most(d, single::ONE) {
            let p: u32 = minus::<A>(times::<A>(THREE_HALVES, d), FIVE_HALVES);
            plus::<A>(times::<A>(times::<A>(p, d), d), single::ONE)
        } else if single::less(d, single::TWO) {
            let p: u32 = plus::<A>(times::<A>(MINUS_HALF, d), FIVE_HALVES);
            let q: u32 = minus::<A>(times::<A>(p, d), single::FOUR);
            plus::<A>(times::<A>(q, d), single::TWO)
        } else {
            0
        },
    }
}

/// The radius of a filter in source pixels at a scale; minification widens it.
pub open spec fn filter_support_of<A: Arithmetic>(filter: ResizeFilter, scale: u32) -> u32 {
    let base = match filter {
        ResizeFilter::Area => single::HALF,
        ResizeFilter::Bilinear => single::ONE,
        ResizeFilter::CatmullRom => single::TWO,
    };
    times_of::<A>(base, single::larger(scale, single::ONE))
}

/// The radius of a filter in source pixels at a scale, the ratio of the input's
/// length to the output's.
pub fn filter_support<A: Arithmetic>(filter: ResizeFilter, scale: u32) -> (r: u32)
    requires
        faithful::<A>(),
    ensures
        r == filter_support_of::<A>(filter, scale),
{
    let base: u32 = match filter {
        ResizeFilter::Area => single::HALF,
        ResizeFilter::Bilinear => single::ONE,
        ResizeFilter::CatmullRom => single::TWO,
    };
    times::<A>(base, single::larger(scale, single::ONE))
}

/// Where output place `i` of an axis is centred in the source, pixel centres
/// aligned: `(i + 1/2) * scale - 1/2`.
pub open spec fn centre_of<A: Arithmetic>(scale: u32, i: int) -> u32 {
    minus_of::<A>(
        times_of::<A>(plus_of::<A>(of_count_of::<A>(i as u64), single::HALF), scale),
        single::HALF,
    )
}

/// The centre of output place `i` in the source, and the distance unit there.
pub fn axis_taps<A: Arithmetic>(scale: u32, i: usize) -> (r: (u32, u32))
    requires
        faithful::<A>(),
    ensures
        r.0 == centre_of::<A>(scale, i as int),
        r.1 == single::larger(scale, single::ONE),
{
    let c: u32 = minus::<A>(
        times::<A>(plus::<A>(of_count::<A>(i as u64), single::HALF), scale),
        single::HALF,
    );
    (c, single::larger(scale, single::ONE))
}

/// The weight of source place `k` for an output centred at `centre`: the exact
/// overlap of the two footprints for the area filter when it minifies, and the
/// filter's profile otherwise.
pub open spec fn tap_weight<A: Arithmetic>(
    filter: ResizeFilter,
    scale: u32,
    centre: u32,
    k: int,
) -> u32 {
    let at = of_offset_of::<A>(k as i64);
    if filter == ResizeFilter::Area && single::less(single::ONE, scale) {
        let half = times_of::<A>(scale, single::HALF);
        let lo = single::larger(minus_of::<A>(at, single::HALF), minus_of::<A>(centre, half));
        let hi = single::smaller(plus_of::<A>(at, single::HALF), plus_of::<A>(centre, half));
        single::larger(minus_of::<A>(hi, lo), 0)
    } else {
        filter_eval_of::<A>(
            filter,
            over_of::<A>(minus_of::<A>(at, centre), single::larger(scale, single::ONE)),
        )
    }
}

fn tap<A: Arithmetic>(filter: ResizeFilter, scale: u32, centre: u32, denom: u32, k: i64) -> (r: u32)
    requires
        faithful::<A>(),
        denom == single::larger(scale, single::ONE),
    ensures
        r == tap_weight::<A>(filter, scale, centre, k as int),
{
    let at: u32 = of_offset::<A>(k);
    if filter == ResizeFilter::Area && single::less(single::ONE, scale) {
        let half: u32 = times::<A>(scale, single::HALF);
        let lo: u32 = single::larger(minus::<A>(at, single::HALF), minus::<A>(centre, half));
        let hi: u32 = single::smaller(plus::<A>(at, single::HALF), plus::<A>(centre, half));
        single::larger(minus::<A>(hi, lo), 0)
    } else {
        filter_eval::<A>(filter, over::<A>(minus::<A>(at, centre), denom))
    }
}

/// The weighted samples and the weights, each summed over the taps from
/// `first` up to `end`, in that order. Taps beyond the line read its ends, and
/// taps of weight zero are passed over.
pub open spec fn gathered<A: Arithmetic>(
    line: Seq<u32>,
    filter: ResizeFilter,
    scale: u32,
    centre: u32,
    first: int,
    end: int,
) -> (u32, u32)
    decreases end - first,
{
    if end <= first {
        (0, 0)
    } else {
        let (acc, sum) = gathered::<A>(line, filter, scale, centre, first, end - 1);
        let w = tap_weight::<A>(filter, scale, centre, end - 1);
        if single::same(w, 0) {
            (acc, sum)
        } else {
            (
                plus_of::<A>(acc, times_of::<A>(w, line[nearest(end - 1, line.len() as int)])),
                plus_of::<A>(sum, w),
            )
        }
    }
}

/// A line resampled at output place `i`: the weighted sum of its taps divided
/// by the sum of their weights, or zero where no tap weighs anything.
pub open spec fn resampled<A: Arithmetic>(
    line: Seq<u32>,
    filter: ResizeFilter,
    scale: u32,
    i: int,
) -> u32 {
    let centre = centre_of::<A>(scale, i);
    let support = filter_support_of::<A>(filter, scale);
    let first = to_offset_of::<A>(floor_of::<A>(minus_of::<A>(centre, support)));
    let last = to_offset_of::<A>(ceil_of::<A>(plus_of::<A>(centre, support)));
    let (acc, sum) = gathered::<A>(line, filter, scale, centre, first as int, last + 1);
    if single::same(sum, 0) {
        0
    } else {
        over_of::<A>(acc, sum)
    }
}

/// One sample of a resampled line of `src`.
fn resample<A: Arithmetic>(
    src: &Image,
    along_row: bool,
    j: usize,
    ch: usize,
    filter: ResizeFilter,
    scale: u32,
    i: usize,
) -> (r: u32)
    requires
        faithful::<A>(),
        has_lane(src@.shape, along_row, j as int, ch as int),
        lane(src@, along_row, j as int, ch as int).len() > 0,
    ensures
        r == resampled::<A>(
            lane(src@, along_row, j as int, ch as int),
            filter,
            scale,
            i as int,
        ),
{
    let ghost line = lane(src@, along_row, j as int, ch as int);
    let len: usize = src.lane_len(along_row);
    assert(len == line.len());
    let (centre, denom) = axis_taps::<A>(scale, i);
    let support: u32 = filter_support::<A>(filter, scale);
    let first: i64 = to_offset::<A>(floor::<A>(minus::<A>(centre, support)));
    let last: i64 = to_offset::<A>(ceil::<A>(plus::<A>(centre, support)));
    let mut acc: u32 = 0;
    let mut sum: u32 = 0;
    if first <= last {
        let mut k: i64 = first;
        loop
            invariant_except_break
                (acc, sum) == gathered::<A>(line, filter, scale, centre, first as int, k as int),
            invariant
                faithful::<A>(),
                first <= k <= last,
                len == line.len(),
                len > 0,
                denom == single::larger(scale, single::ONE),
                has_lane(src@.shape, along_row, j as int, ch as int),
                line == lane(src@, along_row, j as int, ch as int),
            ensures
                (acc, sum) == gathered::<A>(line, filter, scale, centre, first as int, last + 1),
            decreases last - k,
        {
            let w: u32 = tap::<A>(filter, scale, centre, denom, k);
            if !single::same(w, 0) {
                let kc: usize = if k < 0 {
                    0
                } else if k as u64 >= len as u64 {
                    len - 1
                } else {
                    k as usize
                };
                acc = plus::<A>(acc, times::<A>(w, src.on_lane(along_row, j, ch, kc)));
                sum = plus::<A>(sum, w);
            }
            if k == last {
                break;
            }
            k = k + 1;
        }
    }
    if single::same(sum, 0) {
        0
    } else {
        over::<A>(acc, sum)
    }
}

/// What is wrong with a resize, if anything.
pub open spec fn resize_fault(shape: (usize, usize, usize), params: ResizeParams) -> Option<
    Report,
> {
    if params.width == 0 || params.height == 0 {
        Some(
            Report::Parameter(
                "resize target "@ + decimal(params.width as nat) + "x"@ + decimal(
                    params.height as nat,
                ) + " has a zero dimension"@,
            ),
        )
    } else if shape.0 == 0 || shape.1 == 0 {
        Some(
            Report::Parameter(
                "cannot resize an empty "@ + decimal(shape.1 as nat) + "x"@ + decimal(
                    shape.0 as nat,
                ) + " image"@,
            ),
        )
    } else {
        None
    }
}

/// Holds a resize to targets and inputs that are not empty.
pub fn validate_resize(shape: (usize, usize, usize), params: &ResizeParams) -> (r: Result<
    (),
    PhaiosError,
>)
    ensures
        match r {
            Ok(()) => resize_fault(shape, *params) is None,
            Err(e) => resize_fault(shape, *params) == Some(e@),
        },
{
    if params.width == 0 || params.height == 0 {
        let mut text = String::from_str("resize target ");
        put_decimal(&mut text, params.width as u64);
        text.append("x");
        put_decimal(&mut text, params.height as u64);
        text.append(" has a zero dimension");
        return Err(PhaiosError::Parameter(text));
    }
    if shape.0 == 0 || shape.1 == 0 {
        let mut text = String::from_str("cannot resize an empty ");
        put_decimal(&mut text, shape.1 as u64);
        text.append("x");
        put_decimal(&mut text, shape.0 as u64);
        text.append(" image");
        return Err(PhaiosError::Parameter(text));
    }
    Ok(())
}

/// The ratio of an input length to an output length.
pub open spec fn axis_scale<A: Arithmetic>(from: int, to: int) -> u32 {
    over_of::<A>(of_count_of::<A>(from as u64), of_count_of::<A>(to as u64))
}

/// A raster with its rows resampled to a new width.
pub open spec fn resampled_rows<A: Arithmetic>(
    r: Raster<u32>,
    width: usize,
    filter: ResizeFilter,
) -> Raster<u32> {
    let scale = axis_scale::<A>(r.shape.1 as int, width as int);
    tabulate(
        (r.shape.0, width, r.shape.2),
        |y: int, x: int, k: int| resampled::<A>(lane(r, true, y, k), filter, scale, x),
    )
}

/// A raster with its columns resampled to a new height.
pub open spec fn resampled_columns<A: Arithmetic>(
    r: Raster<u32>,
    height: usize,
    filter: ResizeFilter,
) -> Raster<u32> {
    let scale = axis_scale::<A>(r.shape.0 as int, height as int);
    tabulate(
        (height, r.shape.1, r.shape.2),
        |y: int, x: int, k: int| resampled::<A>(lane(r, false, x, k), filter, scale, y),
    )
}

/// One pass of [`resize`]: every line in one direction resampled to `len`.
fn resample_axis<A: Arithmetic>(
    src: &Image,
    along_row: bool,
    len: usize,
    filter: ResizeFilter,
) -> (r: Result<Image, PhaiosError>)
    requires
        faithful::<A>(),
        src@.shape.0 > 0,
        src@.shape.1 > 0,
    ensures
        ({
            let to = if along_row {
                (src@.shape.0, len, src@.shape.2)
            } else {
                (len, src@.shape.1, src@.shape.2)
            };
            match r {
                Ok(out) => permitted::<u32>(to) && out@ == (if along_row {
                    resampled_rows::<A>(src@, len, filter)
                } else {
                    resampled_columns::<A>(src@, len, filter)
                }),
                Err(e) => refusal::<u32>(to, e@),
            }
        }),
{
    let (h, w, c) = src.dim();
    let from: usize = if along_row {
        w
    } else {
        h
    };
    let to = if along_row {
        (h, len, c)
    } else {
        (len, w, c)
    };
    let scale: u32 = over::<A>(of_count::<A>(from as u64), of_count::<A>(len as u64));
    let make = |y: usize, x: usize, k: usize| -> (s: u32)
        requires
            faithful::<A>(),
            inside(to, y as int, x as int, k as int),
            src@.shape.0 > 0,
            src@.shape.1 > 0,
            along_row ==> to == (src@.shape.0, len, src@.shape.2),
            !along_row ==> to == (len, src@.shape.1, src@.shape.2),
        ensures
            s == (if along_row {
                resampled::<A>(lane(src@, true, y as int, k as int), filter, scale, x as int)
            } else {
                resampled::<A>(lane(src@, false, x as int, k as int), filter, scale, y as int)
            }),
        {
            if along_row {
                resample::<A>(src, true, y, k, filter, scale, x)
            } else {
                resample::<A>(src, false, x, k, filter, scale, y)
            }
        };
    let r = image(to, make);
    if let Ok(out) = &r {
        proof {
            if along_row {
                is_tabulated(
                    out@,
                    |y: int, x: int, k: int|
                        resampled::<A>(lane(src@, true, y, k), filter, scale, x),
                );
            } else {
                is_tabulated(
                    out@,
                    |y: int, x: int, k: int|
                        resampled::<A>(lane(src@, false, x, k), filter, scale, y),
                );
            }
        }
    }
    r
}

/// Resamples to a new size with a separable filter: the rows, then the columns.
pub fn resize<A: Arithmetic>(img: &Image, params: &ResizeParams) -> (r: Result<Image, PhaiosError>)
    requires
        faithful::<A>(),
    ensures
        ({
            let mid = (img@.shape.0, params.width as usize, img@.shape.2);
            let to = (params.height as usize, params.width as usize, img@.shape.2);
            match r {
                Ok(out) => resize_fault(img@.shape, *params) is None && permitted::<u32>(mid)
                    && permitted::<u32>(to) && out@ == resampled_columns::<A>(
                    resampled_rows::<A>(img@, params.width as usize, params.filter),
                    params.height as usize,
                    params.filter,
                ),
                Err(e) => match resize_fault(img@.shape, *params) {
                    Some(fault) => e@ == fault,
                    None => refusal::<u32>(mid, e@) || permitted::<u32>(mid) && refusal::<u32>(
                        to,
                        e@,
                    ),
                },
            }
        }),
{
    let shape = img.dim();
    if let Err(e) = validate_resize(shape, params) {
        return Err(e);
    }
    match resample_axis::<A>(img, true, params.width as usize, params.filter) {
        Ok(mid) => resample_axis::<A>(&mid, false, params.height as usize, params.filter),
        Err(e) => Err(e),
    }
}

/// Parameters for [`straighten`].
#[derive(Clone, Copy, Debug)]
pub struct StraightenParams {
    /// The clockwise angle in degrees, a single-precision bit pattern.
    pub degrees: u32,
}

impl StraightenParams {
    /// Parameters from the clockwise angle in degrees.
    pub fn new(degrees: u32) -> (r: Self)
        ensures
            r == (StraightenParams { degrees }),
    {
        StraightenParams { degrees }
    }

    /// Whether the angles have the same bits.
    pub fn __eq__(&self, other: &Self) -> (r: bool)
        ensures
            r == (*self == *other),
    {
        self.degrees == other.degrees
    }

    /// A debug representation.
    pub fn __repr__<A: Arithmetic>(&self) -> (r: String)
        requires
            faithful::<A>(),
        ensures
            r@ == "StraightenParams(degrees="@ + text_of::<A>(self.degrees) + ")"@,
    {
        let mut out = String::from_str("StraightenParams(degrees=");
        out.append(text::<A>(self.degrees).as_str());
        out.append(")");
        out
    }
}

/// The pattern of 45.
pub const FORTY_FIVE: u32 = 0x4234_0000;

/// The double-precision pattern of 2.
pub const TWO64: u64 = 0x4000_0000_0000_0000;

/// The double-precision pattern of 1/2.
pub const HALF64: u64 = 0x3FE0_0000_0000_0000;

/// The extents `(width, height)` of the largest upright rectangle inside a
/// frame that is turned by an angle, before they are cut to whole pixels.
pub open spec fn inscribed<A: Arithmetic>(in_h: int, in_w: int, degrees: u32) -> (u64, u64) {
    let radians = radians64_of::<A>(widen_of::<A>(degrees));
    let sin = double::magnitude(sin64_of::<A>(radians));
    let cos = double::magnitude(cos64_of::<A>(radians));
    let w = of_count64_of::<A>(in_w as u64);
    let h = of_count64_of::<A>(in_h as u64);
    let upright = double::at_most(w, h);
    let (short, long) = if upright {
        (w, h)
    } else {
        (h, w)
    };
    if double::at_most(
        short,
        times64_of::<A>(times64_of::<A>(times64_of::<A>(TWO64, sin), cos), long),
    ) {
        let half = times64_of::<A>(HALF64, short);
        if upright {
            (over64_of::<A>(half, cos), over64_of::<A>(half, sin))
        } else {
            (over64_of::<A>(half, sin), over64_of::<A>(half, cos))
        }
    } else {
        let cos2 = minus64_of::<A>(times64_of::<A>(cos, cos), times64_of::<A>(sin, sin));
        (
            over64_of::<A>(minus64_of::<A>(times64_of::<A>(w, cos), times64_of::<A>(h, sin)), cos2),
            over64_of::<A>(minus64_of::<A>(times64_of::<A>(h, cos), times64_of::<A>(w, sin)), cos2),
        )
    }
}

fn inscribe<A: Arithmetic>(in_h: usize, in_w: usize, degrees: u32) -> (r: (u64, u64))
    requires
        faithful::<A>(),
    ensures
        r == inscribed::<A>(in_h as int, in_w as int, degrees),
{
    let radians: u64 = radians64::<A>(widen::<A>(degrees));
    let sin: u64 = double::magnitude(sin64::<A>(radians));
    let cos: u64 = double::magnitude(cos64::<A>(radians));
    let w: u64 = of_count64::<A>(in_w as u64);
    let h: u64 = of_count64::<A>(in_h as u64);
    let upright = double::at_most(w, h);
    let (short, long): (u64, u64) = if upright {
        (w, h)
    } else {
        (h, w)
    };
    if double::at_most(short, times64::<A>(times64::<A>(times64::<A>(TWO64, sin), cos), long)) {
        let half: u64 = times64::<A>(HALF64, short);
        if upright {
            (over64::<A>(half, cos), over64::<A>(half, sin))
        } else {
            (over64::<A>(half, sin), over64::<A>(half, cos))
        }
    } else {
        let cos2: u64 = minus64::<A>(times64::<A>(cos, cos), times64::<A>(sin, sin));
        (
            over64::<A>(minus64::<A>(times64::<A>(w, cos), times64::<A>(h, sin)), cos2),
            over64::<A>(minus64::<A>(times64::<A>(h, cos), times64::<A>(w, sin)), cos2),
        )
    }
}

/// A length cut to whole pixels.
pub open spec fn whole<A: Arithmetic>(length: u64) -> int {
    let n = to_count64_of::<A>(floor64_of::<A>(length));
    if n > usize::MAX {
        usize::MAX as int
    } else {
        n as int
    }
}

/// The height and width of a straightened frame. An empty frame stays empty.
pub open spec fn straightened_extents<A: Arithmetic>(in_h: int, in_w: int, degrees: u32) -> (
    int,
    int,
) {
    if in_h == 0 || in_w == 0 {
        (0, 0)
    } else {
        let to = inscribed::<A>(in_h, in_w, degrees);
        (whole::<A>(to.1), whole::<A>(to.0))
    }
}

/// What is wrong with straightening a frame, if anything.
pub open spec fn straighten_fault<A: Arithmetic>(
    in_h: int,
    in_w: int,
    degrees: u32,
) -> Option<Report> {
    let to = straightened_extents::<A>(in_h, in_w, degrees);
    if !single::is_finite(degrees) || single::less(FORTY_FIVE, single::magnitude(degrees)) {
        Some(
            Report::Parameter(
                "degrees is "@ + text_of::<A>(degrees)
                    + ", expected a finite angle in -45..=45 (compose with orient() for quarter turns)"@,
            ),
        )
    } else if to.0 == 0 || to.1 == 0 {
        Some(
            Report::Parameter(
                "straighten by "@ + text_of::<A>(degrees) + " deg leaves no whole pixel of the "@
                    + decimal(in_w as nat) + "x"@ + decimal(in_h as nat) + " frame"@,
            ),
        )
    } else {
        None
    }
}

/// The height and width of a straightened frame, and the sine and cosine of the
/// angle.
pub fn straighten_geometry<A: Arithmetic>(in_h: usize, in_w: usize, degrees: u32) -> (r: Result<
    (usize, usize, u32, u32),
    PhaiosError,
>)
    requires
        faithful::<A>(),
    ensures
        match r {
            Ok((out_h, out_w, sin, cos)) => {
                let to = straightened_extents::<A>(in_h as int, in_w as int, degrees);
                let radians = radians64_of::<A>(widen_of::<A>(degrees));
                &&& straighten_fault::<A>(in_h as int, in_w as int, degrees) is None
                &&& out_h == to.0
                &&& out_w == to.1
                &&& sin == narrow_of::<A>(sin64_of::<A>(radians))
                &&& cos == narrow_of::<A>(cos64_of::<A>(radians))
            },
            Err(e) => straighten_fault::<A>(in_h as int, in_w as int, degrees) == Some(e@),
        },
{
    if !single::is_finite(degrees) || single::less(FORTY_FIVE, single::magnitude(degrees)) {
        let mut said = String::from_str("degrees is ");
        said.append(text::<A>(degrees).as_str());
        said.append(
            ", expected a finite angle in -45..=45 (compose with orient() for quarter turns)",
        );
        return Err(PhaiosError::Parameter(said));
    }
    let (out_h, out_w): (usize, usize) = if in_h == 0 || in_w == 0 {
        (0, 0)
    } else {
        let (w, h): (u64, u64) = inscribe::<A>(in_h, in_w, degrees);
        (
            index_of(to_count64::<A>(floor64::<A>(h))),
            index_of(to_count64::<A>(floor64::<A>(w))),
        )
    };
    if out_w == 0 || out_h == 0 {
        let mut said = String::from_str("straighten by ");
        said.append(text::<A>(degrees).as_str());
        said.append(" deg leaves no whole pixel of the ");
        put_decimal(&mut said, in_w as u64);
        said.append("x");
        put_decimal(&mut said, in_h as u64);
        said.append(" frame");
        return Err(PhaiosError::Parameter(said));
    }
    let radians: u64 = radians64::<A>(widen::<A>(degrees));
    Ok((out_h, out_w, narrow::<A>(sin64::<A>(radians)), narrow::<A>(cos64::<A>(radians))))
}

/// The four weights of the cubic around a point at fraction `t`.
pub open spec fn catmull_weights_of<A: Arithmetic>(t: u32) -> Seq<u32> {
    seq![
        filter_eval_of::<A>(ResizeFilter::CatmullRom, plus_of::<A>(t, single::ONE)),
        filter_eval_of::<A>(ResizeFilter::CatmullRom, t),
        filter_eval_of::<A>(ResizeFilter::CatmullRom, minus_of::<A>(single::ONE, t)),
        filter_eval_of::<A>(ResizeFilter::CatmullRom, minus_of::<A>(single::TWO, t)),
    ]
}

/// The four weights of the cubic around a point at fraction `t`.
pub fn catmull_weights<A: Arithmetic>(t: u32) -> (r: [u32; 4])
    requires
        faithful::<A>(),
    ensures
        r@ == catmull_weights_of::<A>(t),
{
    let r: [u32; 4] = [
        filter_eval::<A>(ResizeFilter::CatmullRom, plus::<A>(t, single::ONE)),
        filter_eval::<A>(ResizeFilter::CatmullRom, t),
        filter_eval::<A>(ResizeFilter::CatmullRom, minus::<A>(single::ONE, t)),
        filter_eval::<A>(ResizeFilter::CatmullRom, minus::<A>(single::TWO, t)),
    ];
    assert(r@ =~= catmull_weights_of::<A>(t));
    r
}

/// The first `n` taps of a row of four around column `ix`, summed left to right.
pub open spec fn row_taps<A: Arithmetic>(
    r: Raster<u32>,
    y: int,
    k: int,
    ix: int,
    weights: Seq<u32>,
    n: int,
) -> u32
    decreases n,
{
    if n <= 0 {
        0
    } else {
        plus_of::<A>(
            row_taps::<A>(r, y, k, ix, weights, n - 1),
            times_of::<A>(weights[n - 1], r.at(y, nearest(ix - 1 + (n - 1), r.shape.1 as int), k)),
        )
    }
}

/// The first `n` rows of a block of four by four around `(iy, ix)`, each row
/// summed first and the rows then summed top to bottom. Taps beyond the frame
/// read its edge.
pub open spec fn block_taps<A: Arithmetic>(
    r: Raster<u32>,
    k: int,
    iy: int,
    ix: int,
    wy: Seq<u32>,
    wx: Seq<u32>,
    n: int,
) -> u32
    decreases n,
{
    if n <= 0 {
        0
    } else {
        plus_of::<A>(
            block_taps::<A>(r, k, iy, ix, wy, wx, n - 1),
            times_of::<A>(
                wy[n - 1],
                row_taps::<A>(r, nearest(iy - 1 + (n - 1), r.shape.0 as int), k, ix, wx, 4),
            ),
        )
    }
}

/// The sample of a straightened frame at row `y` and column `x`: its centre is
/// turned back into the source, and the cubic is evaluated there.
pub open spec fn straightened_at<A: Arithmetic>(
    r: Raster<u32>,
    to: (usize, usize),
    sin: u32,
    cos: u32,
    y: int,
    x: int,
    k: int,
) -> u32 {
    let dx = minus_of::<A>(
        plus_of::<A>(of_count_of::<A>(x as u64), single::HALF),
        times_of::<A>(of_count_of::<A>(to.1 as u64), single::HALF),
    );
    let dy = minus_of::<A>(
        plus_of::<A>(of_count_of::<A>(y as u64), single::HALF),
        times_of::<A>(of_count_of::<A>(to.0 as u64), single::HALF),
    );
    let cx = times_of::<A>(of_count_of::<A>(r.shape.1 as u64), single::HALF);
    let cy = times_of::<A>(of_count_of::<A>(r.shape.0 as u64), single::HALF);
    let sx = minus_of::<A>(
        plus_of::<A>(plus_of::<A>(times_of::<A>(cos, dx), times_of::<A>(sin, dy)), cx),
        single::HALF,
    );
    let sy = minus_of::<A>(
        plus_of::<A>(
            plus_of::<A>(times_of::<A>(single::negated(sin), dx), times_of::<A>(cos, dy)),
            cy,
        ),
        single::HALF,
    );
    let fx = floor_of::<A>(sx);
    let fy = floor_of::<A>(sy);
    block_taps::<A>(
        r,
        k,
        to_offset_of::<A>(fy) as int,
        to_offset_of::<A>(fx) as int,
        catmull_weights_of::<A>(minus_of::<A>(sy, fy)),
        catmull_weights_of::<A>(minus_of::<A>(sx, fx)),
        4,
    )
}

fn nearest_to(i: i64, step: usize, len: usize) -> (r: usize)
    requires
        len > 0,
        step < 4,
    ensures
        r == nearest(i - 1 + step, len as int),
{
    let at: i128 = i as i128 - 1 + step as i128;
    if at < 0 {
        0
    } else if at >= len as i128 {
        len - 1
    } else {
        at as usize
    }
}

fn straighten_at<A: Arithmetic>(
    img: &Image,
    to: (usize, usize),
    sin: u32,
    cos: u32,
    y: usize,
    x: usize,
    ch: usize,
) -> (r: u32)
    requires
        faithful::<A>(),
        img@.shape.0 > 0,
        img@.shape.1 > 0,
        ch < img@.shape.2,
    ensures
        r == straightened_at::<A>(img@, to, sin, cos, y as int, x as int, ch as int),
{
    let (in_h, in_w, _c) = img.dim();
    let dx: u32 = minus::<A>(
        plus::<A>(of_count::<A>(x as u64), single::HALF),
        times::<A>(of_count::<A>(to.1 as u64), single::HALF),
    );
    let dy: u32 = minus::<A>(
        plus::<A>(of_count::<A>(y as u64), single::HALF),
        times::<A>(of_count::<A>(to.0 as u64), single::HALF),
    );
    let cx: u32 = times::<A>(of_count::<A>(in_w as u64), single::HALF);
    let cy: u32 = times::<A>(of_count::<A>(in_h as u64), single::HALF);
    let sx: u32 = minus::<A>(
        plus::<A>(plus::<A>(times::<A>(cos, dx), times::<A>(sin, dy)), cx),
        single::HALF,
    );
    let sy: u32 = minus::<A>(
        plus::<A>(plus::<A>(times::<A>(single::negated(sin), dx), times::<A>(cos, dy)), cy),
        single::HALF,
    );
    let fx: u32 = floor::<A>(sx);
    let fy: u32 = floor::<A>(sy);
    let ix: i64 = to_offset::<A>(fx);
    let iy: i64 = to_offset::<A>(fy);
    let wx = catmull_weights::<A>(minus::<A>(sx, fx));
    let wy = catmull_weights::<A>(minus::<A>(sy, fy));
    let mut acc: u32 = 0;
    let mut j: usize = 0;
    while j < 4
        invariant
            faithful::<A>(),
            j <= 4,
            in_h == img@.shape.0,
            in_w == img@.shape.1,
            in_h > 0,
            in_w > 0,
            ch < img@.shape.2,
            acc == block_taps::<A>(img@, ch as int, iy as int, ix as int, wy@, wx@, j as int),
        decreases 4 - j,
    {
        let yj: usize = nearest_to(iy, j, in_h);
        let mut row: u32 = 0;
        let mut i: usize = 0;
        while i < 4
            invariant
                faithful::<A>(),
                i <= 4,
                in_w == img@.shape.1,
                in_w > 0,
                yj < img@.shape.0,
                ch < img@.shape.2,
                row == row_taps::<A>(img@, yj as int, ch as int, ix as int, wx@, i as int),
            decreases 4 - i,
        {
            let xi: usize = nearest_to(ix, i, in_w);
            row = plus::<A>(row, times::<A>(wx[i], img.cell(yj, xi, ch)));
            i = i + 1;
        }
        acc = plus::<A>(acc, times::<A>(wy[j], row));
        j = j + 1;
    }
    acc
}

/// A raster turned clockwise by an angle and cut to the inscribed rectangle.
pub open spec fn straightened<A: Arithmetic>(r: Raster<u32>, degrees: u32) -> Raster<u32> {
    let extents = straightened_extents::<A>(r.shape.0 as int, r.shape.1 as int, degrees);
    let to = (extents.0 as usize, extents.1 as usize);
    let radians = radians64_of::<A>(widen_of::<A>(degrees));
    let sin = narrow_of::<A>(sin64_of::<A>(radians));
    let cos = narrow_of::<A>(cos64_of::<A>(radians));
    tabulate(
        (to.0, to.1, r.shape.2),
        |y: int, x: int, k: int| straightened_at::<A>(r, to, sin, cos, y, x, k),
    )
}

/// Rotates clockwise by a small angle and crops to the inscribed rectangle.
pub fn straighten<A: Arithmetic>(img: &Image, params: &StraightenParams) -> (r: Result<
    Image,
    PhaiosError,
>)
    requires
        faithful::<A>(),
    ensures
        ({
            let fault = straighten_fault::<A>(
                img@.shape.0 as int,
                img@.shape.1 as int,
                params.degrees,
            );
            match r {
                Ok(out) => fault is None && permitted::<u32>(
                    straightened::<A>(img@, params.degrees).shape,
                ) && out@ == straightened::<A>(img@, params.degrees),
                Err(e) => match fault {
                    Some(f) => e@ == f,
                    None => refusal::<u32>(straightened::<A>(img@, params.degrees).shape, e@),
                },
            }
        }),
{
    let (in_h, in_w, c) = img.dim();
    let (out_h, out_w, sin, cos) = match straighten_geometry::<A>(in_h, in_w, params.degrees) {
        Ok(g) => g,
        Err(e) => return Err(e),
    };
    let to = (out_h, out_w);
    let make = |y: usize, x: usize, k: usize| -> (s: u32)
        requires
            faithful::<A>(),
            img@.shape.0 > 0,
            img@.shape.1 > 0,
            k < img@.shape.2,
        ensures
            s == straightened_at::<A>(img@, to, sin, cos, y as int, x as int, k as int),
        { straighten_at::<A>(img, to, sin, cos, y, x, k) };
    let r = image((out_h, out_w, c), make);
    if let Ok(out) = &r {
        proof {
            is_tabulated(
                out@,
                |y: int, x: int, k: int| straightened_at::<A>(img@, to, sin, cos, y, x, k),
            );
        }
    }
    r
}

proof fn profile_at_whole_distance<A: Arithmetic>(filter: ResizeFilter, t: u32, n: int)
    requires
        rounds::<A>(),
        halves(t, 2 * n),
        -2 <= n <= 2,
    ensures
        n == 0 ==> filter_eval_of::<A>(filter, t) == single::ONE,
        n != 0 ==> single::same(filter_eval_of::<A>(filter, t), 0),
{
    small_numbers();
    let d = single::magnitude(t);
    let m = if n < 0 {
        -n
    } else {
        n
    };
    magnitude_halves(t, 2 * n);
    assert(halves(d, 2 * m));
    match filter {
        ResizeFilter::Area => {
            halves_are_ordered(d, 2 * m, single::HALF, 1);
        },
        ResizeFilter::Bilinear => {
            minus_halves::<A>(single::ONE, 2, d, 2 * m);
            let rest = minus_of::<A>(single::ONE, d);
            halves_are_ordered(0, 0, rest, 2 - 2 * m);
            if m == 0 {
                one_is_one(rest);
            }
        },
        ResizeFilter::CatmullRom => {
            halves_are_ordered(d, 2 * m, single::ONE, 2);
            halves_are_ordered(d, 2 * m, single::TWO, 4);
            if m <= 1 {
                times_halves::<A>(THREE_HALVES, 3, d, 2 * m, 3 * m);
                let first = times_of::<A>(THREE_HALVES, d);
                minus_halves::<A>(first, 3 * m, FIVE_HALVES, 5);
                let p = minus_of::<A>(first, FIVE_HALVES);
                let c: int = if m == 0 {
                    0
                } else {
                    -2
                };
                times_halves::<A>(p, 3 * m - 5, d, 2 * m, c);
                let q = times_of::<A>(p, d);
                times_halves::<A>(q, c, d, 2 * m, c);
                let s = times_of::<A>(q, d);
                plus_halves::<A>(s, c, single::ONE, 2);
                let w = plus_of::<A>(s, single::ONE);
                if m == 0 {
                    one_is_one(w);
                } else {
                    halves_are_ordered(w, 0, 0, 0);
                }
            }
        },
    }
}

proof fn tap_at_own_scale<A: Arithmetic>(filter: ResizeFilter, centre: u32, i: int, k: int)
    requires
        rounds::<A>(),
        halves(centre, 2 * i),
        0 <= i < 0x40_0000,
        i - 2 <= k <= i + 2,
    ensures
        k == i ==> tap_weight::<A>(filter, single::ONE, centre, k) == single::ONE,
        k != i ==> single::same(tap_weight::<A>(filter, single::ONE, centre, k), 0),
{
    small_numbers();
    let at = of_offset_of::<A>(k as i64);
    offset_halves::<A>(k as i64);
    minus_halves::<A>(at, 2 * k, centre, 2 * i);
    let t = minus_of::<A>(at, centre);
    over_one::<A>(t);
    profile_at_whole_distance::<A>(filter, over_of::<A>(t, single::ONE), k - i);
}

proof fn one_tap_is_gathered<A: Arithmetic>(
    line: Seq<u32>,
    filter: ResizeFilter,
    centre: u32,
    i: int,
    first: int,
    end: int,
)
    requires
        rounds::<A>(),
        halves(centre, 2 * i),
        0 <= i < line.len() <= 0x40_0000,
        single::is_finite(line[i]),
        i - 2 <= first <= i,
        first <= end <= i + 3,
    ensures
        end <= i ==> gathered::<A>(line, filter, single::ONE, centre, first, end) == (0u32, 0u32),
        end > i ==> ({
            let (acc, sum) = gathered::<A>(line, filter, single::ONE, centre, first, end);
            sum == single::ONE && single::is_finite(acc) && value(acc) == value(line[i])
        }),
    decreases end - first,
{
    if end > first {
        one_tap_is_gathered::<A>(line, filter, centre, i, first, end - 1);
        tap_at_own_scale::<A>(filter, centre, i, end - 1);
        if end - 1 == i {
            small_numbers();
            halves_are_ordered(single::ONE, 2, 0, 0);
            let v = line[i];
            times_one::<A>(v);
            plus_zero::<A>(times_of::<A>(single::ONE, v), 0);
            plus_zero::<A>(single::ONE, 0);
            one_is_one(plus_of::<A>(0, single::ONE));
        }
    }
}

/// A line resampled at its own scale keeps the value of a finite sample.
proof fn own_scale_keeps_samples<A: Arithmetic>(line: Seq<u32>, filter: ResizeFilter, i: int)
    requires
        rounds::<A>(),
        0 <= i < line.len() <= 0x40_0000,
        single::is_finite(line[i]),
    ensures
        single::is_finite(resampled::<A>(line, filter, single::ONE, i)),
        value(resampled::<A>(line, filter, single::ONE, i)) == value(line[i]),
{
    small_numbers();
    let n = of_count_of::<A>(i as u64);
    whole_halves::<A>(i as u64);
    plus_halves::<A>(n, 2 * i, single::HALF, 1);
    let mid = plus_of::<A>(n, single::HALF);
    times_one::<A>(mid);
    let scaled = times_of::<A>(mid, single::ONE);
    minus_halves::<A>(scaled, 2 * i + 1, single::HALF, 1);
    let centre = centre_of::<A>(single::ONE, i);
    assert(halves(centre, 2 * i));
    let s: int = match filter {
        ResizeFilter::Area => 1,
        ResizeFilter::Bilinear => 2,
        ResizeFilter::CatmullRom => 4,
    };
    let base = match filter {
        ResizeFilter::Area => single::HALF,
        ResizeFilter::Bilinear => single::ONE,
        ResizeFilter::CatmullRom => single::TWO,
    };
    times_one::<A>(base);
    let support = filter_support_of::<A>(filter, single::ONE);
    assert(halves(support, s));
    minus_halves::<A>(centre, 2 * i, support, s);
    plus_halves::<A>(centre, 2 * i, support, s);
    let low = minus_of::<A>(centre, support);
    let high = plus_of::<A>(centre, support);
    floor_halves::<A>(low, 2 * i - s);
    ceil_halves::<A>(high, 2 * i + s);
    let first = (2 * i - s) / 2;
    let last = -((-(2 * i + s)) / 2);
    whole_offset::<A>(floor_of::<A>(low), first as i64);
    whole_offset::<A>(ceil_of::<A>(high), last as i64);
    one_tap_is_gathered::<A>(line, filter, centre, i, first, last + 1);
    let (acc, sum) = gathered::<A>(line, filter, single::ONE, centre, first, last + 1);
    halves_are_ordered(single::ONE, 2, 0, 0);
    over_one::<A>(acc);
}

proof fn own_axis_scale<A: Arithmetic>(n: int)
    requires
        rounds::<A>(),
        0 < n <= 0x40_0000,
    ensures
        axis_scale::<A>(n, n) == single::ONE,
{
    count_is_finite::<A>(n as u64);
    over_itself::<A>(of_count_of::<A>(n as u64));
}

/// A resize to the frame's own size keeps the value of every sample, with every
/// filter, where the samples are finite and the frame has at most 2^22 rows and
/// columns: beyond that, half a pixel is lost in the numbers of the places.
pub proof fn own_size_is_the_identity<A: Arithmetic>(
    r: Raster<u32>,
    params: ResizeParams,
    y: int,
    x: int,
    k: int,
)
    requires
        rounds::<A>(),
        params.width == r.shape.1,
        params.height == r.shape.0,
        r.shape.0 <= 0x40_0000,
        r.shape.1 <= 0x40_0000,
        inside(r.shape, y, x, k),
        single::is_finite(r.at(y, x, k)),
    ensures
        ({
            let resized = resampled_columns::<A>(
                resampled_rows::<A>(r, params.width as usize, params.filter),
                params.height as usize,
                params.filter,
            );
            resized.shape == r.shape && single::same(resized.at(y, x, k), r.at(y, x, k))
        }),
{
    let filter = params.filter;
    own_axis_scale::<A>(r.shape.1 as int);
    own_axis_scale::<A>(r.shape.0 as int);
    let rows = resampled_rows::<A>(r, r.shape.1, filter);
    tabulated(
        r.shape,
        |y: int, x: int, k: int|
            resampled::<A>(
                lane(r, true, y, k),
                filter,
                axis_scale::<A>(r.shape.1 as int, r.shape.1 as int),
                x,
            ),
    );
    own_scale_keeps_samples::<A>(lane(r, true, y, k), filter, x);
    assert(rows.at(y, x, k) == resampled::<A>(lane(r, true, y, k), filter, single::ONE, x));
    assert(single::is_finite(rows.at(y, x, k)) && value(rows.at(y, x, k)) == value(r.at(y, x, k)));
    let columns = resampled_columns::<A>(rows, r.shape.0, filter);
    tabulated(
        rows.shape,
        |y: int, x: int, k: int|
            resampled::<A>(
                lane(rows, false, x, k),
                filter,
                axis_scale::<A>(rows.shape.0 as int, r.shape.0 as int),
                y,
            ),
    );
    own_scale_keeps_samples::<A>(lane(rows, false, x, k), filter, y);
    assert(columns.at(y, x, k) == resampled::<A>(lane(rows, false, x, k), filter, single::ONE, y));
    values_are_ordered(columns.at(y, x, k), r.at(y, x, k));
}

proof fn weights_without_fraction<A: Arithmetic>(t: u32)
    requires
        rounds::<A>(),
        halves(t, 0),
    ensures
        catmull_weights_of::<A>(t)[1] == single::ONE,
        single::same(catmull_weights_of::<A>(t)[0], 0),
        single::same(catmull_weights_of::<A>(t)[2], 0),
        single::same(catmull_weights_of::<A>(t)[3], 0),
{
    small_numbers();
    plus_halves::<A>(t, 0, single::ONE, 2);
    minus_halves::<A>(single::ONE, 2, t, 0);
    minus_halves::<A>(single::TWO, 4, t, 0);
    profile_at_whole_distance::<A>(
        ResizeFilter::CatmullRom,
        plus_of::<A>(t, single::ONE),
        1,
    );
    profile_at_whole_distance::<A>(ResizeFilter::CatmullRom, t, 0);
    profile_at_whole_distance::<A>(
        ResizeFilter::CatmullRom,
        minus_of::<A>(single::ONE, t),
        1,
    );
    profile_at_whole_distance::<A>(
        ResizeFilter::CatmullRom,
        minus_of::<A>(single::TWO, t),
        2,
    );
}

proof fn row_of_one_tap<A: Arithmetic>(r: Raster<u32>, y: int, k: int, ix: int, w: Seq<u32>, n: int)
    requires
        rounds::<A>(),
        0 <= n <= 4,
        w.len() == 4,
        w[1] == single::ONE,
        single::same(w[0], 0),
        single::same(w[2], 0),
        single::same(w[3], 0),
        0 <= ix < r.shape.1,
        forall|x: int| 0 <= x < r.shape.1 ==> single::is_finite(#[trigger] r.at(y, x, k)),
    ensures
        single::is_finite(row_taps::<A>(r, y, k, ix, w, n)),
        value(row_taps::<A>(r, y, k, ix, w, n)) == if n < 2 {
            0
        } else {
            value(r.at(y, ix, k))
        },
    decreases n,
{
    small_numbers();
    if n > 0 {
        row_of_one_tap::<A>(r, y, k, ix, w, n - 1);
        let v = r.at(y, nearest(ix - 1 + (n - 1), r.shape.1 as int), k);
        let before = row_taps::<A>(r, y, k, ix, w, n - 1);
        let term = times_of::<A>(w[n - 1], v);
        if n == 2 {
            times_one::<A>(v);
            plus_zero::<A>(term, before);
        } else {
            times_zero::<A>(v, w[n - 1]);
            plus_zero::<A>(before, term);
        }
    }
}

proof fn block_of_one_tap<A: Arithmetic>(
    r: Raster<u32>,
    k: int,
    iy: int,
    ix: int,
    wy: Seq<u32>,
    wx: Seq<u32>,
    n: int,
)
    requires
        rounds::<A>(),
        0 <= n <= 4,
        wy.len() == 4,
        wy[1] == single::ONE,
        single::same(wy[0], 0),
        single::same(wy[2], 0),
        single::same(wy[3], 0),
        wx.len() == 4,
        wx[1] == single::ONE,
        single::same(wx[0], 0),
        single::same(wx[2], 0),
        single::same(wx[3], 0),
        inside(r.shape, iy, ix, k),
        forall|y: int, x: int|
            inside(r.shape, y, x, k) ==> single::is_finite(#[trigger] r.at(y, x, k)),
    ensures
        single::is_finite(block_taps::<A>(r, k, iy, ix, wy, wx, n)),
        value(block_taps::<A>(r, k, iy, ix, wy, wx, n)) == if n < 2 {
            0
        } else {
            value(r.at(iy, ix, k))
        },
    decreases n,
{
    small_numbers();
    if n > 0 {
        block_of_one_tap::<A>(r, k, iy, ix, wy, wx, n - 1);
        let row = nearest(iy - 1 + (n - 1), r.shape.0 as int);
        assert forall|x: int| 0 <= x < r.shape.1 implies single::is_finite(
            #[trigger] r.at(row, x, k),
        ) by {
            assert(inside(r.shape, row, x, k));
        }
        row_of_one_tap::<A>(r, row, k, ix, wx, 4);
        let v = row_taps::<A>(r, row, k, ix, wx, 4);
        let before = block_taps::<A>(r, k, iy, ix, wy, wx, n - 1);
        let term = times_of::<A>(wy[n - 1], v);
        if n == 2 {
            times_one::<A>(v);
            plus_zero::<A>(term, before);
        } else {
            times_zero::<A>(v, wy[n - 1]);
            plus_zero::<A>(before, term);
        }
    }
}

/// Where a place of a frame lies that is turned by no angle: on itself.
proof fn unturned_place<A: Arithmetic>(n: int, i: int, sin: u32, other: u32, m: int)
    requires
        rounds::<A>(),
        0 <= i < n <= 0x20_0000,
        single::same(sin, 0),
        halves(other, m),
    ensures
        ({
            let centre = times_of::<A>(of_count_of::<A>(n as u64), single::HALF);
            let d = minus_of::<A>(plus_of::<A>(of_count_of::<A>(i as u64), single::HALF), centre);
            let along = times_of::<A>(single::ONE, d);
            let across = times_of::<A>(sin, other);
            let s = minus_of::<A>(
                plus_of::<A>(plus_of::<A>(along, across), centre),
                single::HALF,
            );
            let t = minus_of::<A>(
                plus_of::<A>(plus_of::<A>(across, along), centre),
                single::HALF,
            );
            &&& halves(d, 2 * i + 1 - n)
            &&& halves(s, 2 * i)
            &&& halves(t, 2 * i)
        }),
{
    small_numbers();
    whole_halves::<A>(n as u64);
    whole_halves::<A>(i as u64);
    let total = of_count_of::<A>(n as u64);
    times_halves::<A>(total, 2 * n, single::HALF, 1, n);
    let centre = times_of::<A>(total, single::HALF);
    let at = of_count_of::<A>(i as u64);
    plus_halves::<A>(at, 2 * i, single::HALF, 1);
    let mid = plus_of::<A>(at, single::HALF);
    minus_halves::<A>(mid, 2 * i + 1, centre, n);
    let d = minus_of::<A>(mid, centre);
    times_one::<A>(d);
    let along = times_of::<A>(single::ONE, d);
    times_zero::<A>(other, sin);
    let across = times_of::<A>(sin, other);
    plus_zero::<A>(along, across);
    plus_halves::<A>(plus_of::<A>(along, across), 2 * i + 1 - n, centre, n);
    plus_halves::<A>(plus_of::<A>(across, along), 2 * i + 1 - n, centre, n);
    minus_halves::<A>(
        plus_of::<A>(plus_of::<A>(along, across), centre),
        2 * i + 1,
        single::HALF,
        1,
    );
    minus_halves::<A>(
        plus_of::<A>(plus_of::<A>(across, along), centre),
        2 * i + 1,
        single::HALF,
        1,
    );
}

proof fn unturned_sample<A: Arithmetic>(r: Raster<u32>, sin: u32, y: int, x: int, k: int)
    requires
        rounds::<A>(),
        single::same(sin, 0),
        r.shape.0 <= 0x20_0000,
        r.shape.1 <= 0x20_0000,
        inside(r.shape, y, x, k),
        forall|v: int, u: int|
            inside(r.shape, v, u, k) ==> single::is_finite(#[trigger] r.at(v, u, k)),
    ensures
        single::same(
            straightened_at::<A>(r, (r.shape.0, r.shape.1), sin, single::ONE, y, x, k),
            r.at(y, x, k),
        ),
{
    let (h, w) = (r.shape.0 as int, r.shape.1 as int);
    let none = single::negated(sin);
    small_numbers();
    // Both distances from the centre first: each turns against the other.
    unturned_place::<A>(w, x, sin, 0, 0);
    unturned_place::<A>(h, y, sin, 0, 0);
    let cx = times_of::<A>(of_count_of::<A>(w as u64), single::HALF);
    let cy = times_of::<A>(of_count_of::<A>(h as u64), single::HALF);
    let dx = minus_of::<A>(plus_of::<A>(of_count_of::<A>(x as u64), single::HALF), cx);
    let dy = minus_of::<A>(plus_of::<A>(of_count_of::<A>(y as u64), single::HALF), cy);
    unturned_place::<A>(w, x, sin, dy, 2 * y + 1 - h);
    unturned_place::<A>(h, y, none, dx, 2 * x + 1 - w);
    let sx = minus_of::<A>(
        plus_of::<A>(
            plus_of::<A>(times_of::<A>(single::ONE, dx), times_of::<A>(sin, dy)),
            cx,
        ),
        single::HALF,
    );
    let sy = minus_of::<A>(
        plus_of::<A>(
            plus_of::<A>(times_of::<A>(none, dx), times_of::<A>(single::ONE, dy)),
            cy,
        ),
        single::HALF,
    );
    assert(halves(sx, 2 * x) && halves(sy, 2 * y));
    floor_halves::<A>(sx, 2 * x);
    floor_halves::<A>(sy, 2 * y);
    let fx = floor_of::<A>(sx);
    let fy = floor_of::<A>(sy);
    whole_offset::<A>(fx, x as i64);
    whole_offset::<A>(fy, y as i64);
    minus_halves::<A>(sx, 2 * x, fx, 2 * x);
    minus_halves::<A>(sy, 2 * y, fy, 2 * y);
    weights_without_fraction::<A>(minus_of::<A>(sx, fx));
    weights_without_fraction::<A>(minus_of::<A>(sy, fy));
    let wx = catmull_weights_of::<A>(minus_of::<A>(sx, fx));
    let wy = catmull_weights_of::<A>(minus_of::<A>(sy, fy));
    block_of_one_tap::<A>(r, k, y, x, wy, wx, 4);
    values_are_ordered(block_taps::<A>(r, k, y, x, wy, wx, 4), r.at(y, x, k));
}

/// A frame that is not turned keeps its extents.
proof fn unturned_extents<A: Arithmetic>(in_h: int, in_w: int, degrees: u32)
    requires
        sums_exactly::<A>(),
        computes_exactly::<A>(),
        single::same(degrees, 0),
        0 < in_h <= usize::MAX,
        0 < in_w <= usize::MAX,
        in_h < 0x20_0000_0000_0000,
        in_w < 0x20_0000_0000_0000,
    ensures
        single::same(
            narrow_of::<A>(sin64_of::<A>(radians64_of::<A>(widen_of::<A>(degrees)))),
            0,
        ),
        narrow_of::<A>(cos64_of::<A>(radians64_of::<A>(widen_of::<A>(degrees)))) == single::ONE,
        straightened_extents::<A>(in_h, in_w, degrees) == (in_h, in_w),
{
    small_numbers();
    small_numbers64();
    let wide = widen_of::<A>(degrees);
    values_are_ordered(degrees, 0);
    widen_exact::<A>(degrees);
    assert(0 * pow2(925) == 0) by (nonlinear_arith);
    values_are_ordered64(wide, 0);
    no_angle::<A>(wide);
    let radians = radians64_of::<A>(wide);
    let turned = sin64_of::<A>(radians);
    assert(value64(double::SIGN) == 0);
    narrow_exact::<A>(turned, 0);
    values_are_ordered(narrow_of::<A>(turned), 0);
    narrow_exact::<A>(double::ONE, single::ONE);
    one_is_one(narrow_of::<A>(double::ONE));
    // The sine takes nothing off either side, and the cosine scales by one.
    let sin = double::magnitude(turned);
    assert(sin == 0);
    let cos = double::magnitude(double::ONE);
    let w = of_count64_of::<A>(in_w as u64);
    let h = of_count64_of::<A>(in_h as u64);
    count_exact64::<A>(in_w as u64);
    count_exact64::<A>(in_h as u64);
    let u = unit64();
    assert(in_w * u > 0 && in_h * u > 0) by (nonlinear_arith)
        requires
            in_w > 0,
            in_h > 0,
            u > 0,
    ;
    let long = if double::at_most(w, h) {
        h
    } else {
        w
    };
    no_product::<A>(TWO64, 0);
    let twice = times64_of::<A>(TWO64, sin);
    no_product::<A>(cos, twice);
    let both = times64_of::<A>(twice, cos);
    no_product::<A>(long, both);
    let reach = times64_of::<A>(both, long);
    values_are_ordered64(w, reach);
    values_are_ordered64(h, reach);
    values_are_ordered64(reach, w);
    values_are_ordered64(reach, h);
    times_exact64::<A>(cos, cos, double::ONE);
    no_product::<A>(sin, sin);
    let (cc, ss) = (times64_of::<A>(cos, cos), times64_of::<A>(sin, sin));
    minus_exact64::<A>(cc, ss, double::ONE);
    let cos2 = minus64_of::<A>(cc, ss);
    unturned_side::<A>(in_w, w, h, sin, cos, cos2);
    unturned_side::<A>(in_h, h, w, sin, cos, cos2);
}

/// A product with nothing is nothing.
proof fn no_product<A: Arithmetic>(a: u64, z: u64)
    requires
        computes_exactly::<A>(),
        double::is_finite(a),
        double::is_finite(z),
        value64(z) == 0,
    ensures
        double::is_finite(times64_of::<A>(a, z)),
        double::is_finite(times64_of::<A>(z, a)),
        value64(times64_of::<A>(a, z)) == 0,
        value64(times64_of::<A>(z, a)) == 0,
{
    small_numbers64();
    assert(0 * unit64() == value64(a) * 0 && 0 * unit64() == 0 * value64(a)) by (nonlinear_arith);
    times_exact64::<A>(a, z, 0);
    times_exact64::<A>(z, a, 0);
}

/// A side of a frame that is not turned keeps its length.
proof fn unturned_side<A: Arithmetic>(n: int, side: u64, other: u64, sin: u64, cos: u64, cos2: u64)
    requires
        sums_exactly::<A>(),
        computes_exactly::<A>(),
        0 < n <= usize::MAX,
        n < 0x20_0000_0000_0000,
        double::is_finite(side),
        value64(side) == n * unit64(),
        double::is_finite(other),
        sin == 0,
        cos == double::ONE,
        double::is_finite(cos2),
        value64(cos2) == unit64(),
    ensures
        whole::<A>(
            over64_of::<A>(
                minus64_of::<A>(times64_of::<A>(side, cos), times64_of::<A>(other, sin)),
                cos2,
            ),
        ) == n,
{
    small_numbers64();
    times_exact64::<A>(side, cos, side);
    no_product::<A>(other, sin);
    let (scaled, nothing) = (times64_of::<A>(side, cos), times64_of::<A>(other, sin));
    minus_exact64::<A>(scaled, nothing, side);
    let rest = minus64_of::<A>(scaled, nothing);
    over_exact64::<A>(rest, cos2, side);
    whole_count64::<A>(over64_of::<A>(rest, cos2), n as u64);
}

/// Straightening by zero keeps the value of every sample, where the samples are finite
/// and the frame has at most 2^21 rows and columns: each pixel's centre is turned onto
/// itself, and the cubic has one tap there.
pub proof fn no_turn_is_the_identity<A: Arithmetic>(
    r: Raster<u32>,
    degrees: u32,
    y: int,
    x: int,
    k: int,
)
    requires
        rounds::<A>(),
        sums_exactly::<A>(),
        computes_exactly::<A>(),
        single::same(degrees, 0),
        r.shape.0 <= 0x20_0000,
        r.shape.1 <= 0x20_0000,
        inside(r.shape, y, x, k),
        forall|v: int, u: int|
            inside(r.shape, v, u, k) ==> single::is_finite(#[trigger] r.at(v, u, k)),
    ensures
        straightened::<A>(r, degrees).shape == r.shape,
        single::same(straightened::<A>(r, degrees).at(y, x, k), r.at(y, x, k)),
{
    let sin = narrow_of::<A>(sin64_of::<A>(radians64_of::<A>(widen_of::<A>(degrees))));
    let to = (r.shape.0, r.shape.1);
    unturned_extents::<A>(r.shape.0 as int, r.shape.1 as int, degrees);
    unturned_sample::<A>(r, sin, y, x, k);
    tabulated(
        r.shape,
        |y: int, x: int, k: int|
            straightened_at::<A>(
                r,
                to,
                sin,
                narrow_of::<A>(cos64_of::<A>(radians64_of::<A>(widen_of::<A>(degrees)))),
                y,
                x,
                k,
            ),
    );
    assert(straightened::<A>(r, degrees).at(y, x, k) == straightened_at::<A>(
        r,
        to,
        sin,
        single::ONE,
        y,
        x,
        k,
    ));
}

} // verus!
