//! Arrays of samples, held by `ndarray`, and the mathematical rasters that
//! they stand for.
//!
//! A raster is a shape and its cells in row-major order: rows, then columns,
//! then channels. How an array lays its cells out in memory is `ndarray`'s
//! affair and never shows in a raster.

use vstd::prelude::*;

verus! {

/// A three-dimensional raster: `(rows, columns, channels)` and the cells.
#[verifier::ext_equal]
pub struct Raster<T> {
    pub shape: (usize, usize, usize),
    pub cells: Seq<T>,
}

/// A two-dimensional raster: `(rows, columns)` and the cells.
#[verifier::ext_equal]
pub struct Lattice<T> {
    pub shape: (usize, usize),
    pub cells: Seq<T>,
}

/// The number of cells in a three-dimensional shape.
pub open spec fn volume(shape: (usize, usize, usize)) -> int {
    shape.0 * shape.1 * shape.2
}

/// The number of cells in a two-dimensional shape.
pub open spec fn area(shape: (usize, usize)) -> int {
    shape.0 * shape.1
}

/// Whether a cell lies in a three-dimensional shape.
pub open spec fn inside(shape: (usize, usize, usize), y: int, x: int, k: int) -> bool {
    0 <= y < shape.0 && 0 <= x < shape.1 && 0 <= k < shape.2
}

/// Whether a cell lies in a two-dimensional shape.
pub open spec fn within(shape: (usize, usize), y: int, x: int) -> bool {
    0 <= y < shape.0 && 0 <= x < shape.1
}

/// Where a cell stands in row-major order.
pub open spec fn offset(shape: (usize, usize, usize), y: int, x: int, k: int) -> int {
    (y * shape.1 + x) * shape.2 + k
}

/// Where a cell of a two-dimensional shape stands in row-major order.
pub open spec fn offset2(shape: (usize, usize), y: int, x: int) -> int {
    y * shape.1 + x
}

/// Whether the lengths of the axes that are not empty multiply to what a
/// signed index can reach.
pub open spec fn addressable(a: int, b: int, c: int) -> bool {
    let na = if a == 0 { 1 } else { a };
    let nb = if b == 0 { 1 } else { b };
    let nc = if c == 0 { 1 } else { c };
    na * nb * nc <= isize::MAX
}

/// An addressable shape has no more cells than a signed index can reach.
pub proof fn addressable_volume(a: int, b: int, c: int)
    requires
        a >= 0,
        b >= 0,
        c >= 0,
        addressable(a, b, c),
    ensures
        0 <= a * b * c <= isize::MAX,
        0 <= a * b,
        a <= isize::MAX,
        b <= isize::MAX,
        c <= isize::MAX,
        c > 0 ==> a * b <= isize::MAX,
{
    let na = if a == 0 { 1 } else { a };
    let nb = if b == 0 { 1 } else { b };
    let nc = if c == 0 { 1 } else { c };
    assert(0 <= a * b) by (nonlinear_arith)
        requires
            a >= 0,
            b >= 0,
    ;
    assert(0 <= a * b * c <= na * nb * nc) by (nonlinear_arith)
        requires
            0 <= a <= na,
            0 <= b <= nb,
            0 <= c <= nc,
    ;
    assert(a <= na * nb * nc && b <= na * nb * nc && c <= na * nb * nc && na * nb <= na * nb * nc)
        by (nonlinear_arith)
        requires
            0 <= a <= na,
            0 <= b <= nb,
            0 <= c <= nc,
            na >= 1,
            nb >= 1,
            nc >= 1,
    ;
    assert(a * b <= na * nb) by (nonlinear_arith)
        requires
            0 <= a <= na,
            0 <= b <= nb,
    ;
}

impl<T> Raster<T> {
    pub open spec fn at(self, y: int, x: int, k: int) -> T {
        self.cells[offset(self.shape, y, x, k)]
    }

    /// Every raster has as many cells as its shape says.
    pub open spec fn valid(self) -> bool {
        self.cells.len() == volume(self.shape)
    }
}

impl<T> Lattice<T> {
    pub open spec fn at(self, y: int, x: int) -> T {
        self.cells[offset2(self.shape, y, x)]
    }

    /// Every lattice has as many cells as its shape says.
    pub open spec fn valid(self) -> bool {
        self.cells.len() == area(self.shape)
    }
}

/// A cell's place lies among the cells, and the cell is found again from it.
pub proof fn place_of_cell(shape: (usize, usize, usize), y: int, x: int, k: int)
    requires
        inside(shape, y, x, k),
    ensures
        0 <= offset(shape, y, x, k) < volume(shape),
        offset(shape, y, x, k) % (shape.2 as int) == k,
        (offset(shape, y, x, k) / (shape.2 as int)) % (shape.1 as int) == x,
        (offset(shape, y, x, k) / (shape.2 as int)) / (shape.1 as int) == y,
{
    let (h, w, c) = (shape.0 as int, shape.1 as int, shape.2 as int);
    let p = y * w + x;
    assert(0 <= p && p + 1 <= h * w) by (nonlinear_arith)
        requires
            0 <= y < h,
            0 <= x < w,
            p == y * w + x,
    ;
    assert(0 <= p * c + k && p * c + k < h * w * c) by (nonlinear_arith)
        requires
            0 <= p,
            p + 1 <= h * w,
            0 <= k < c,
    ;
    vstd::arithmetic::div_mod::lemma_fundamental_div_mod_converse(p * c + k, c, p, k);
    assert(p * c == c * p) by (nonlinear_arith);
    vstd::arithmetic::div_mod::lemma_fundamental_div_mod_converse(p, w, y, x);
    assert(y * w == w * y) by (nonlinear_arith);
}

/// Every place among the cells is some cell's.
pub proof fn cell_of_place(shape: (usize, usize, usize), i: int)
    requires
        0 <= i < volume(shape),
    ensures
        shape.2 > 0,
        shape.1 > 0,
        inside(
            shape,
            (i / (shape.2 as int)) / (shape.1 as int),
            (i / (shape.2 as int)) % (shape.1 as int),
            i % (shape.2 as int),
        ),
        offset(
            shape,
            (i / (shape.2 as int)) / (shape.1 as int),
            (i / (shape.2 as int)) % (shape.1 as int),
            i % (shape.2 as int),
        ) == i,
{
    let (h, w, c) = (shape.0 as int, shape.1 as int, shape.2 as int);
    assert(h > 0 && w > 0 && c > 0) by (nonlinear_arith)
        requires
            0 <= i < h * w * c,
            h >= 0,
            w >= 0,
            c >= 0,
    ;
    let p = i / c;
    let k = i % c;
    let y = p / w;
    let x = p % w;
    assert(i == p * c + k && 0 <= k < c) by (nonlinear_arith)
        requires
            c > 0,
            p == i / c,
            k == i % c,
    ;
    assert(0 <= p < h * w) by (nonlinear_arith)
        requires
            i == p * c + k,
            0 <= k < c,
            0 <= i < h * w * c,
            c > 0,
            h > 0,
            w > 0,
    ;
    assert(p == y * w + x && 0 <= x < w) by (nonlinear_arith)
        requires
            w > 0,
            y == p / w,
            x == p % w,
    ;
    assert(0 <= y < h) by (nonlinear_arith)
        requires
            p == y * w + x,
            0 <= x < w,
            0 <= p < h * w,
            w > 0,
            h > 0,
    ;
}

/// A cell's place lies among the cells of a lattice, and the cell is found
/// again from it.
pub proof fn place_of_cell2(shape: (usize, usize), y: int, x: int)
    requires
        within(shape, y, x),
    ensures
        0 <= offset2(shape, y, x) < area(shape),
        offset2(shape, y, x) % (shape.1 as int) == x,
        offset2(shape, y, x) / (shape.1 as int) == y,
{
    let (h, w) = (shape.0 as int, shape.1 as int);
    let p = y * w + x;
    assert(0 <= p && p < h * w) by (nonlinear_arith)
        requires
            0 <= y < h,
            0 <= x < w,
            p == y * w + x,
    ;
    vstd::arithmetic::div_mod::lemma_fundamental_div_mod_converse(p, w, y, x);
    assert(y * w == w * y) by (nonlinear_arith);
}

/// Every place among the cells of a lattice is some cell's.
pub proof fn cell_of_place2(shape: (usize, usize), i: int)
    requires
        0 <= i < area(shape),
    ensures
        shape.1 > 0,
        within(shape, i / (shape.1 as int), i % (shape.1 as int)),
        offset2(shape, i / (shape.1 as int), i % (shape.1 as int)) == i,
{
    let (h, w) = (shape.0 as int, shape.1 as int);
    assert(h > 0 && w > 0) by (nonlinear_arith)
        requires
            0 <= i < h * w,
            h >= 0,
            w >= 0,
    ;
    let y = i / w;
    let x = i % w;
    assert(i == y * w + x && 0 <= x < w) by (nonlinear_arith)
        requires
            w > 0,
            y == i / w,
            x == i % w,
    ;
    assert(0 <= y < h) by (nonlinear_arith)
        requires
            i == y * w + x,
            0 <= x < w,
            0 <= i < h * w,
            w > 0,
            h > 0,
    ;
}

/// Two rasters of one shape that agree on every cell are one raster.
pub proof fn same_cells<T>(a: Raster<T>, b: Raster<T>)
    requires
        a.valid(),
        b.valid(),
        a.shape == b.shape,
        forall|y: int, x: int, k: int|
            inside(a.shape, y, x, k) ==> #[trigger] a.at(y, x, k) == b.at(y, x, k),
    ensures
        a == b,
{
    assert forall|i: int| 0 <= i < a.cells.len() implies a.cells[i] == b.cells[i] by {
        cell_of_place(a.shape, i);
        let c = a.shape.2 as int;
        let w = a.shape.1 as int;
        assert(a.at((i / c) / w, (i / c) % w, i % c) == b.at((i / c) / w, (i / c) % w, i % c));
    }
    assert(a.cells =~= b.cells);
}

/// The raster of a shape whose cells a function gives.
pub open spec fn tabulate<T>(
    shape: (usize, usize, usize),
    f: spec_fn(int, int, int) -> T,
) -> Raster<T> {
    Raster {
        shape,
        cells: Seq::new(
            volume(shape) as nat,
            |i: int|
                f(
                    (i / (shape.2 as int)) / (shape.1 as int),
                    (i / (shape.2 as int)) % (shape.1 as int),
                    i % (shape.2 as int),
                ),
        ),
    }
}

/// The lattice of a shape whose cells a function gives.
pub open spec fn tabulate2<T>(shape: (usize, usize), f: spec_fn(int, int) -> T) -> Lattice<T> {
    Lattice {
        shape,
        cells: Seq::new(
            area(shape) as nat,
            |i: int| f(i / (shape.1 as int), i % (shape.1 as int)),
        ),
    }
}

/// A tabulated raster holds at each cell what the function gives there.
pub proof fn tabulated<T>(shape: (usize, usize, usize), f: spec_fn(int, int, int) -> T)
    ensures
        tabulate(shape, f).valid(),
        forall|y: int, x: int, k: int|
            inside(shape, y, x, k) ==> #[trigger] tabulate(shape, f).at(y, x, k) == f(y, x, k),
{
    let r = tabulate(shape, f);
    assert(volume(shape) >= 0) by (nonlinear_arith)
        requires
            volume(shape) == shape.0 * shape.1 * shape.2,
            shape.0 >= 0,
            shape.1 >= 0,
            shape.2 >= 0,
    ;
    assert forall|y: int, x: int, k: int| inside(shape, y, x, k) implies #[trigger] r.at(y, x, k)
        == f(y, x, k) by {
        place_of_cell(shape, y, x, k);
    }
}

/// A tabulated lattice holds at each cell what the function gives there.
pub proof fn tabulated2<T>(shape: (usize, usize), f: spec_fn(int, int) -> T)
    ensures
        tabulate2(shape, f).valid(),
        forall|y: int, x: int|
            within(shape, y, x) ==> #[trigger] tabulate2(shape, f).at(y, x) == f(y, x),
{
    let r = tabulate2(shape, f);
    assert(area(shape) >= 0) by (nonlinear_arith)
        requires
            area(shape) == shape.0 * shape.1,
            shape.0 >= 0,
            shape.1 >= 0,
    ;
    assert forall|y: int, x: int| within(shape, y, x) implies #[trigger] r.at(y, x) == f(y, x) by {
        place_of_cell2(shape, y, x);
    }
}

/// A raster that holds at each cell what a function gives there is the
/// tabulated one.
pub proof fn is_tabulated<T>(a: Raster<T>, f: spec_fn(int, int, int) -> T)
    requires
        a.valid(),
        forall|y: int, x: int, k: int|
            inside(a.shape, y, x, k) ==> #[trigger] a.at(y, x, k) == f(y, x, k),
    ensures
        a == tabulate(a.shape, f),
{
    tabulated(a.shape, f);
    same_cells(a, tabulate(a.shape, f));
}

/// A lattice that holds at each cell what a function gives there is the
/// tabulated one.
pub proof fn is_tabulated2<T>(a: Lattice<T>, f: spec_fn(int, int) -> T)
    requires
        a.valid(),
        forall|y: int, x: int|
            within(a.shape, y, x) ==> #[trigger] a.at(y, x) == f(y, x),
    ensures
        a == tabulate2(a.shape, f),
{
    tabulated2(a.shape, f);
    let b = tabulate2(a.shape, f);
    assert forall|i: int| 0 <= i < a.cells.len() implies a.cells[i] == b.cells[i] by {
        cell_of_place2(a.shape, i);
        let w = a.shape.1 as int;
        assert(a.at(i / w, i % w) == b.at(i / w, i % w));
    }
    assert(a.cells =~= b.cells);
}

/// The index nearest to `i` among `len` of them.
pub open spec fn nearest(i: int, len: int) -> int {
    if i < 0 {
        0
    } else if i >= len {
        len - 1
    } else {
        i
    }
}

/// A count as an index: the largest index where the count exceeds them all.
pub(crate) fn index_of(n: u64) -> (r: usize)
    ensures
        r == (if n > usize::MAX {
            usize::MAX as int
        } else {
            n as int
        }),
{
    if n > usize::MAX as u64 {
        usize::MAX
    } else {
        n as usize
    }
}

/// An image: single-precision samples as bit patterns, `(rows, columns, channels)`.
#[verifier::external_body]
#[derive(Debug)]
pub struct Image {
    inner: ndarray::Array3<u32>,
}

/// The shape of the array that an image holds.
pub uninterp spec fn image_shape(a: Image) -> (usize, usize, usize);

/// The cells of the array that an image holds, in row-major order.
pub uninterp spec fn image_cells(a: Image) -> Seq<u32>;

impl View for Image {
    type V = Raster<u32>;

    open spec fn view(&self) -> Raster<u32> {
        Raster { shape: image_shape(*self), cells: image_cells(*self) }
    }
}

impl Image {
    /// `ndarray::ArrayBase::from_shape_vec` on a shape in row-major order. It
    /// takes the vector as the cells, and refuses a shape whose non-empty axes
    /// multiply past what a signed index can reach.
    #[verifier::external_body]
    fn from_shape_vec(shape: (usize, usize, usize), cells: Vec<u32>) -> (r: Result<Image, String>)
        requires
            cells@.len() == volume(shape),
        ensures
            match r {
                Ok(a) => addressable(shape.0 as int, shape.1 as int, shape.2 as int)
                    && image_shape(a) == shape && image_cells(a) == cells@,
                Err(t) => !addressable(shape.0 as int, shape.1 as int, shape.2 as int)
                    && t@ == "ShapeError/Overflow: arithmetic overflow"@,
            },
    {
        ndarray::Array3::from_shape_vec(shape, cells)
            .map(|inner| Image { inner })
            .map_err(|e| format!("{e}"))
    }

    /// `ndarray::ArrayRef::dim`: the extents of the three axes, whose product
    /// is the number of cells. Every array keeps the product of its non-empty
    /// axes within what a signed index can reach.
    #[verifier::external_body]
    fn extents(&self) -> (r: (usize, usize, usize))
        ensures
            r == image_shape(*self),
            image_cells(*self).len() == volume(r),
            addressable(r.0 as int, r.1 as int, r.2 as int),
    {
        self.inner.dim()
    }

    /// Indexing of an `ndarray` array: the cell at the given place, which has
    /// to lie inside the shape.
    #[verifier::external_body]
    fn index(&self, y: usize, x: usize, k: usize) -> (r: u32)
        requires
            inside(image_shape(*self), y as int, x as int, k as int),
        ensures
            r == image_cells(*self)[offset(image_shape(*self), y as int, x as int, k as int)],
    {
        self.inner[[y, x, k]]
    }

    /// The shape as `(rows, columns, channels)`.
    pub fn dim(&self) -> (r: (usize, usize, usize))
        ensures
            r == self@.shape,
            self@.valid(),
            addressable(r.0 as int, r.1 as int, r.2 as int),
    {
        self.extents()
    }

    /// The cell at row `y`, column `x` and channel `k`, where there is one.
    pub fn get(&self, y: usize, x: usize, k: usize) -> (r: Option<u32>)
        ensures
            r == (if inside(self@.shape, y as int, x as int, k as int) {
                Some(self@.at(y as int, x as int, k as int))
            } else {
                None
            }),
    {
        let (h, w, c) = self.extents();
        if y < h && x < w && k < c {
            Some(self.index(y, x, k))
        } else {
            None
        }
    }

    /// The cell at row `y`, column `x` and channel `k`.
    pub(crate) fn cell(&self, y: usize, x: usize, k: usize) -> (r: u32)
        requires
            inside(self@.shape, y as int, x as int, k as int),
        ensures
            r == self@.at(y as int, x as int, k as int),
    {
        self.index(y, x, k)
    }

    /// An array of the given shape over cells in row-major order.
    pub(crate) fn over(shape: (usize, usize, usize), cells: Vec<u32>) -> (r: Result<Image, String>)
        requires
            cells@.len() == volume(shape),
        ensures
            match r {
                Ok(a) => addressable(shape.0 as int, shape.1 as int, shape.2 as int)
                    && a@ == (Raster { shape, cells: cells@ }),
                Err(t) => !addressable(shape.0 as int, shape.1 as int, shape.2 as int)
                    && t@ == "ShapeError/Overflow: arithmetic overflow"@,
            },
    {
        Image::from_shape_vec(shape, cells)
    }
}

/// Quantised codes of eight bits, `(rows, columns, channels)`.
#[verifier::external_body]
#[derive(Debug)]
pub struct Codes8 {
    inner: ndarray::Array3<u8>,
}

/// The shape of the array that an array of codes holds.
pub uninterp spec fn codes8_shape(a: Codes8) -> (usize, usize, usize);

/// The cells of the array that an array of codes holds, in row-major order.
pub uninterp spec fn codes8_cells(a: Codes8) -> Seq<u8>;

impl View for Codes8 {
    type V = Raster<u8>;

    open spec fn view(&self) -> Raster<u8> {
        Raster { shape: codes8_shape(*self), cells: codes8_cells(*self) }
    }
}

impl Codes8 {
    /// `ndarray::ArrayBase::from_shape_vec` on a shape in row-major order. It
    /// takes the vector as the cells, and refuses a shape whose non-empty axes
    /// multiply past what a signed index can reach.
    #[verifier::external_body]
    fn from_shape_vec(shape: (usize, usize, usize), cells: Vec<u8>) -> (r: Result<Codes8, String>)
        requires
            cells@.len() == volume(shape),
        ensures
            match r {
                Ok(a) => addressable(shape.0 as int, shape.1 as int, shape.2 as int)
                    && codes8_shape(a) == shape && codes8_cells(a) == cells@,
                Err(t) => !addressable(shape.0 as int, shape.1 as int, shape.2 as int)
                    && t@ == "ShapeError/Overflow: arithmetic overflow"@,
            },
    {
        ndarray::Array3::from_shape_vec(shape, cells)
            .map(|inner| Codes8 { inner })
            .map_err(|e| format!("{e}"))
    }

    /// `ndarray::ArrayRef::dim`: the extents of the three axes, whose product
    /// is the number of cells. Every array keeps the product of its non-empty
    /// axes within what a signed index can reach.
    #[verifier::external_body]
    fn extents(&self) -> (r: (usize, usize, usize))
        ensures
            r == codes8_shape(*self),
            codes8_cells(*self).len() == volume(r),
            addressable(r.0 as int, r.1 as int, r.2 as int),
    {
        self.inner.dim()
    }

    /// Indexing of an `ndarray` array: the cell at the given place, which has
    /// to lie inside the shape.
    #[verifier::external_body]
    fn index(&self, y: usize, x: usize, k: usize) -> (r: u8)
        requires
            inside(codes8_shape(*self), y as int, x as int, k as int),
        ensures
            r == codes8_cells(*self)[offset(codes8_shape(*self), y as int, x as int, k as int)],
    {
        self.inner[[y, x, k]]
    }

    /// The shape as `(rows, columns, channels)`.
    pub fn dim(&self) -> (r: (usize, usize, usize))
        ensures
            r == self@.shape,
            self@.valid(),
            addressable(r.0 as int, r.1 as int, r.2 as int),
    {
        self.extents()
    }

    /// The cell at row `y`, column `x` and channel `k`, where there is one.
    pub fn get(&self, y: usize, x: usize, k: usize) -> (r: Option<u8>)
        ensures
            r == (if inside(self@.shape, y as int, x as int, k as int) {
                Some(self@.at(y as int, x as int, k as int))
            } else {
                None
            }),
    {
        let (h, w, c) = self.extents();
        if y < h && x < w && k < c {
            Some(self.index(y, x, k))
        } else {
            None
        }
    }

    /// The cell at row `y`, column `x` and channel `k`.
    pub(crate) fn cell(&self, y: usize, x: usize, k: usize) -> (r: u8)
        requires
            inside(self@.shape, y as int, x as int, k as int),
        ensures
            r == self@.at(y as int, x as int, k as int),
    {
        self.index(y, x, k)
    }

    /// An array of the given shape over cells in row-major order.
    pub(crate) fn over(shape: (usize, usize, usize), cells: Vec<u8>) -> (r: Result<Codes8, String>)
        requires
            cells@.len() == volume(shape),
        ensures
            match r {
                Ok(a) => addressable(shape.0 as int, shape.1 as int, shape.2 as int)
                    && a@ == (Raster { shape, cells: cells@ }),
                Err(t) => !addressable(shape.0 as int, shape.1 as int, shape.2 as int)
                    && t@ == "ShapeError/Overflow: arithmetic overflow"@,
            },
    {
        Codes8::from_shape_vec(shape, cells)
    }
}

/// Quantised codes of sixteen bits, `(rows, columns, channels)`.
#[verifier::external_body]
#[derive(Debug)]
pub struct Codes16 {
    inner: ndarray::Array3<u16>,
}

/// The shape of the array that an array of codes holds.
pub uninterp spec fn codes16_shape(a: Codes16) -> (usize, usize, usize);

/// The cells of the array that an array of codes holds, in row-major order.
pub uninterp spec fn codes16_cells(a: Codes16) -> Seq<u16>;

impl View for Codes16 {
    type V = Raster<u16>;

    open spec fn view(&self) -> Raster<u16> {
        Raster { shape: codes16_shape(*self), cells: codes16_cells(*self) }
    }
}

impl Codes16 {
    /// `ndarray::ArrayBase::from_shape_vec` on a shape in row-major order. It
    /// takes the vector as the cells, and refuses a shape whose non-empty axes
    /// multiply past what a signed index can reach.
    #[verifier::external_body]
    fn from_shape_vec(shape: (usize, usize, usize), cells: Vec<u16>) -> (r: Result<Codes16, String>)
        requires
            cells@.len() == volume(shape),
        ensures
            match r {
                Ok(a) => addressable(shape.0 as int, shape.1 as int, shape.2 as int)
                    && codes16_shape(a) == shape && codes16_cells(a) == cells@,
                Err(t) => !addressable(shape.0 as int, shape.1 as int, shape.2 as int)
                    && t@ == "ShapeError/Overflow: arithmetic overflow"@,
            },
    {
        ndarray::Array3::from_shape_vec(shape, cells)
            .map(|inner| Codes16 { inner })
            .map_err(|e| format!("{e}"))
    }

    /// `ndarray::ArrayRef::dim`: the extents of the three axes, whose product
    /// is the number of cells. Every array keeps the product of its non-empty
    /// axes within what a signed index can reach.
    #[verifier::external_body]
    fn extents(&self) -> (r: (usize, usize, usize))
        ensures
            r == codes16_shape(*self),
            codes16_cells(*self).len() == volume(r),
            addressable(r.0 as int, r.1 as int, r.2 as int),
    {
        self.inner.dim()
    }

    /// Indexing of an `ndarray` array: the cell at the given place, which has
    /// to lie inside the shape.
    #[verifier::external_body]
    fn index(&self, y: usize, x: usize, k: usize) -> (r: u16)
        requires
            inside(codes16_shape(*self), y as int, x as int, k as int),
        ensures
            r == codes16_cells(*self)[offset(codes16_shape(*self), y as int, x as int, k as int)],
    {
        self.inner[[y, x, k]]
    }

    /// The shape as `(rows, columns, channels)`.
    pub fn dim(&self) -> (r: (usize, usize, usize))
        ensures
            r == self@.shape,
            self@.valid(),
            addressable(r.0 as int, r.1 as int, r.2 as int),
    {
        self.extents()
    }

    /// The cell at row `y`, column `x` and channel `k`, where there is one.
    pub fn get(&self, y: usize, x: usize, k: usize) -> (r: Option<u16>)
        ensures
            r == (if inside(self@.shape, y as int, x as int, k as int) {
                Some(self@.at(y as int, x as int, k as int))
            } else {
                None
            }),
    {
        let (h, w, c) = self.extents();
        if y < h && x < w && k < c {
            Some(self.index(y, x, k))
        } else {
            None
        }
    }

    /// The cell at row `y`, column `x` and channel `k`.
    pub(crate) fn cell(&self, y: usize, x: usize, k: usize) -> (r: u16)
        requires
            inside(self@.shape, y as int, x as int, k as int),
        ensures
            r == self@.at(y as int, x as int, k as int),
    {
        self.index(y, x, k)
    }

    /// An array of the given shape over cells in row-major order.
    pub(crate) fn over(shape: (usize, usize, usize), cells: Vec<u16>) -> (r: Result<Codes16, String>)
        requires
            cells@.len() == volume(shape),
        ensures
            match r {
                Ok(a) => addressable(shape.0 as int, shape.1 as int, shape.2 as int)
                    && a@ == (Raster { shape, cells: cells@ }),
                Err(t) => !addressable(shape.0 as int, shape.1 as int, shape.2 as int)
                    && t@ == "ShapeError/Overflow: arithmetic overflow"@,
            },
    {
        Codes16::from_shape_vec(shape, cells)
    }
}

/// A plane of single-precision numbers as bit patterns.
#[verifier::external_body]
#[derive(Debug)]
pub struct Plane {
    inner: ndarray::Array2<u32>,
}

/// The shape of the array that a plane holds.
pub uninterp spec fn plane_shape(a: Plane) -> (usize, usize);

/// The cells of the array that a plane holds, in row-major order.
pub uninterp spec fn plane_cells(a: Plane) -> Seq<u32>;

impl View for Plane {
    type V = Lattice<u32>;

    open spec fn view(&self) -> Lattice<u32> {
        Lattice { shape: plane_shape(*self), cells: plane_cells(*self) }
    }
}

impl Plane {
    /// `ndarray::ArrayBase::from_shape_vec` on a shape in row-major order. It
    /// takes the vector as the cells, and refuses a shape whose non-empty axes
    /// multiply past what a signed index can reach.
    #[verifier::external_body]
    fn from_shape_vec(shape: (usize, usize), cells: Vec<u32>) -> (r: Result<Plane, String>)
        requires
            cells@.len() == area(shape),
        ensures
            match r {
                Ok(a) => addressable(shape.0 as int, shape.1 as int, 1) && plane_shape(a) == shape
                    && plane_cells(a) == cells@,
                Err(t) => !addressable(shape.0 as int, shape.1 as int, 1)
                    && t@ == "ShapeError/Overflow: arithmetic overflow"@,
            },
    {
        ndarray::Array2::from_shape_vec(shape, cells)
            .map(|inner| Plane { inner })
            .map_err(|e| format!("{e}"))
    }

    /// `ndarray::ArrayRef::dim`: the extents of the two axes, whose product is
    /// the number of cells. Every array keeps the product of its non-empty axes
    /// within what a signed index can reach.
    #[verifier::external_body]
    fn extents(&self) -> (r: (usize, usize))
        ensures
            r == plane_shape(*self),
            plane_cells(*self).len() == area(r),
            addressable(r.0 as int, r.1 as int, 1),
    {
        self.inner.dim()
    }

    /// Indexing of an `ndarray` array: the cell at the given place, which has
    /// to lie inside the shape.
    #[verifier::external_body]
    fn index(&self, y: usize, x: usize) -> (r: u32)
        requires
            within(plane_shape(*self), y as int, x as int),
        ensures
            r == plane_cells(*self)[offset2(plane_shape(*self), y as int, x as int)],
    {
        self.inner[[y, x]]
    }

    /// The shape as `(rows, columns)`.
    pub fn dim(&self) -> (r: (usize, usize))
        ensures
            r == self@.shape,
            self@.valid(),
            addressable(r.0 as int, r.1 as int, 1),
    {
        self.extents()
    }

    /// The cell at row `y` and column `x`, where there is one.
    pub fn get(&self, y: usize, x: usize) -> (r: Option<u32>)
        ensures
            r == (if within(self@.shape, y as int, x as int) {
                Some(self@.at(y as int, x as int))
            } else {
                None
            }),
    {
        let (h, w) = self.extents();
        if y < h && x < w {
            Some(self.index(y, x))
        } else {
            None
        }
    }

    /// The cell at row `y` and column `x`.
    pub(crate) fn cell(&self, y: usize, x: usize) -> (r: u32)
        requires
            within(self@.shape, y as int, x as int),
        ensures
            r == self@.at(y as int, x as int),
    {
        self.index(y, x)
    }

    /// An array of the given shape over cells in row-major order.
    pub(crate) fn over(shape: (usize, usize), cells: Vec<u32>) -> (r: Result<Plane, String>)
        requires
            cells@.len() == area(shape),
        ensures
            match r {
                Ok(a) => addressable(shape.0 as int, shape.1 as int, 1) && a@ == (Lattice {
                    shape,
                    cells: cells@,
                }),
                Err(t) => !addressable(shape.0 as int, shape.1 as int, 1)
                    && t@ == "ShapeError/Overflow: arithmetic overflow"@,
            },
    {
        Plane::from_shape_vec(shape, cells)
    }
}

/// A table of 64-bit cells: counts, or double-precision numbers as bit
/// patterns.
#[verifier::external_body]
#[derive(Debug)]
pub struct Table {
    inner: ndarray::Array2<u64>,
}

/// The shape of the array that a table holds.
pub uninterp spec fn table_shape(a: Table) -> (usize, usize);

/// The cells of the array that a table holds, in row-major order.
pub uninterp spec fn table_cells(a: Table) -> Seq<u64>;

impl View for Table {
    type V = Lattice<u64>;

    open spec fn view(&self) -> Lattice<u64> {
        Lattice { shape: table_shape(*self), cells: table_cells(*self) }
    }
}

impl Table {
    /// `ndarray::ArrayBase::from_shape_vec` on a shape in row-major order. It
    /// takes the vector as the cells, and refuses a shape whose non-empty axes
    /// multiply past what a signed index can reach.
    #[verifier::external_body]
    fn from_shape_vec(shape: (usize, usize), cells: Vec<u64>) -> (r: Result<Table, String>)
        requires
            cells@.len() == area(shape),
        ensures
            match r {
                Ok(a) => addressable(shape.0 as int, shape.1 as int, 1) && table_shape(a) == shape
                    && table_cells(a) == cells@,
                Err(t) => !addressable(shape.0 as int, shape.1 as int, 1)
                    && t@ == "ShapeError/Overflow: arithmetic overflow"@,
            },
    {
        ndarray::Array2::from_shape_vec(shape, cells)
            .map(|inner| Table { inner })
            .map_err(|e| format!("{e}"))
    }

    /// `ndarray::ArrayRef::dim`: the extents of the two axes, whose product is
    /// the number of cells. Every array keeps the product of its non-empty axes
    /// within what a signed index can reach.
    #[verifier::external_body]
    fn extents(&self) -> (r: (usize, usize))
        ensures
            r == table_shape(*self),
            table_cells(*self).len() == area(r),
            addressable(r.0 as int, r.1 as int, 1),
    {
        self.inner.dim()
    }

    /// Indexing of an `ndarray` array: the cell at the given place, which has
    /// to lie inside the shape.
    #[verifier::external_body]
    fn index(&self, y: usize, x: usize) -> (r: u64)
        requires
            within(table_shape(*self), y as int, x as int),
        ensures
            r == table_cells(*self)[offset2(table_shape(*self), y as int, x as int)],
    {
        self.inner[[y, x]]
    }

    /// The shape as `(rows, columns)`.
    pub fn dim(&self) -> (r: (usize, usize))
        ensures
            r == self@.shape,
            self@.valid(),
            addressable(r.0 as int, r.1 as int, 1),
    {
        self.extents()
    }

    /// The cell at row `y` and column `x`, where there is one.
    pub fn get(&self, y: usize, x: usize) -> (r: Option<u64>)
        ensures
            r == (if within(self@.shape, y as int, x as int) {
                Some(self@.at(y as int, x as int))
            } else {
                None
            }),
    {
        let (h, w) = self.extents();
        if y < h && x < w {
            Some(self.index(y, x))
        } else {
            None
        }
    }

    /// The cell at row `y` and column `x`.
    pub(crate) fn cell(&self, y: usize, x: usize) -> (r: u64)
        requires
            within(self@.shape, y as int, x as int),
        ensures
            r == self@.at(y as int, x as int),
    {
        self.index(y, x)
    }

    /// An array of the given shape over cells in row-major order.
    pub(crate) fn over(shape: (usize, usize), cells: Vec<u64>) -> (r: Result<Table, String>)
        requires
            cells@.len() == area(shape),
        ensures
            match r {
                Ok(a) => addressable(shape.0 as int, shape.1 as int, 1) && a@ == (Lattice {
                    shape,
                    cells: cells@,
                }),
                Err(t) => !addressable(shape.0 as int, shape.1 as int, 1)
                    && t@ == "ShapeError/Overflow: arithmetic overflow"@,
            },
    {
        Table::from_shape_vec(shape, cells)
    }
}

/// One channel of a raster.
pub open spec fn channel_of(r: Raster<u32>, k: int) -> Lattice<u32> {
    tabulate2((r.shape.0, r.shape.1), |y: int, x: int| r.at(y, x, k))
}

/// The samples along one line of a raster: along row `j` or along column `j`,
/// in channel `k`.
pub open spec fn lane(r: Raster<u32>, along_row: bool, j: int, k: int) -> Seq<u32> {
    if along_row {
        Seq::new(r.shape.1 as nat, |x: int| r.at(j, x, k))
    } else {
        Seq::new(r.shape.0 as nat, |y: int| r.at(y, j, k))
    }
}

/// Whether a raster has a line `j` of channel `k` in the given direction.
pub open spec fn has_lane(shape: (usize, usize, usize), along_row: bool, j: int, k: int) -> bool {
    &&& 0 <= k < shape.2
    &&& 0 <= j < if along_row {
        shape.0
    } else {
        shape.1
    }
}

impl Image {
    /// The sample at place `i` of a line.
    pub(crate) fn on_lane(&self, along_row: bool, j: usize, k: usize, i: usize) -> (r: u32)
        requires
            has_lane(self@.shape, along_row, j as int, k as int),
            i < lane(self@, along_row, j as int, k as int).len(),
        ensures
            r == lane(self@, along_row, j as int, k as int)[i as int],
    {
        if along_row {
            self.cell(j, i, k)
        } else {
            self.cell(i, j, k)
        }
    }

    /// The number of samples on a line.
    pub(crate) fn lane_len(&self, along_row: bool) -> (r: usize)
        ensures
            forall|j: int, k: int| #[trigger] lane(self@, along_row, j, k).len() == r,
    {
        let (h, w, _c) = self.dim();
        if along_row {
            w
        } else {
            h
        }
    }
}

} // verus!
