//! Bounded allocation.
//!
//! Every array that the library makes goes through here. A shape is refused
//! with an error, before any memory is asked for, where its elements cannot be
//! counted or its bytes exceed [`MAX_ALLOCATION_BYTES`]; a shape that the host
//! cannot provide is refused with an error as well.

use vstd::layout::size_of;
use vstd::prelude::*;

use crate::error::{PhaiosError, Report};
use crate::raster::{
    addressable, area, cell_of_place, cell_of_place2, channel_of, inside, is_tabulated2, offset,
    offset2, place_of_cell, place_of_cell2, volume, within, Codes16, Codes8, Image, Plane, Raster,
    Lattice, Table,
};
use crate::text::{decimal, pair, put_decimal, put_pair, put_triple, triple};

verus! {

/// The most bytes that one array may take: 8 GiB.
pub const MAX_ALLOCATION_BYTES: u64 = 0x2_0000_0000;

/// Whether the elements of a shape can be counted, axis after axis.
pub open spec fn countable(shape: (usize, usize, usize)) -> bool {
    shape.0 * shape.1 <= usize::MAX && volume(shape) <= usize::MAX
}

/// What is wrong with an array of `count` elements of `size` bytes, if
/// anything. `shape` is how its shape prints.
pub open spec fn budget_fault(shape: Seq<char>, count: int, size: nat) -> Option<Report> {
    if count * size > usize::MAX {
        Some(Report::Allocation(shape + " overflows a byte count"@))
    } else if count * size > MAX_ALLOCATION_BYTES {
        Some(
            Report::Allocation(
                shape + " needs "@ + decimal((count * size / 0x10_0000) as nat)
                    + " MiB, above the "@ + decimal(8192)
                    + " MiB limit for a single array (a zero-stride view such as numpy's broadcast_to reaches this from very little actual data)"@,
            ),
        )
    } else {
        None
    }
}

/// What is wrong with an array of `T` of three dimensions, if anything.
pub open spec fn shape_fault<T>(shape: (usize, usize, usize)) -> Option<Report> {
    if !countable(shape) {
        Some(
            Report::Allocation(
                "shape "@ + triple(shape) + " has more elements than usize can count"@,
            ),
        )
    } else {
        budget_fault(triple(shape), volume(shape), size_of::<T>())
    }
}

/// What is wrong with an array of `T` of two dimensions, if anything.
pub open spec fn shape_fault2<T>(shape: (usize, usize)) -> Option<Report> {
    if area(shape) > usize::MAX {
        Some(
            Report::Allocation("shape "@ + pair(shape) + " has more elements than usize can count"@),
        )
    } else {
        budget_fault(pair(shape), area(shape), size_of::<T>())
    }
}

/// Whether an array of `T` of three dimensions is within the library's limits.
pub open spec fn permitted<T>(shape: (usize, usize, usize)) -> bool {
    shape_fault::<T>(shape) is None && addressable(
        shape.0 as int,
        shape.1 as int,
        shape.2 as int,
    )
}

/// Whether an array of `T` of two dimensions is within the library's limits.
pub open spec fn permitted2<T>(shape: (usize, usize)) -> bool {
    shape_fault2::<T>(shape) is None && addressable(shape.0 as int, shape.1 as int, 1)
}

/// What an array of `T` of three dimensions is refused with: the limit that it
/// breaks, or, within the limits, what the host's allocator said when it was asked
/// for the array's cells and would not give them. For an empty array there is
/// nothing to refuse.
pub open spec fn refusal<T>(shape: (usize, usize, usize), report: Report) -> bool {
    match shape_fault::<T>(shape) {
        Some(fault) => report == fault,
        None => {
            ||| volume(shape) > 0 && exists|host: Seq<char>|
                refused::<T>(volume(shape), host) && report == #[trigger] host_report::<T>(
                    shape,
                    host,
                )
            ||| !addressable(shape.0 as int, shape.1 as int, shape.2 as int) && report
                == layout_report(triple(shape))
        },
    }
}

/// What an array of `T` of two dimensions is refused with.
pub open spec fn refusal2<T>(shape: (usize, usize), report: Report) -> bool {
    match shape_fault2::<T>(shape) {
        Some(fault) => report == fault,
        None => {
            ||| area(shape) > 0 && exists|host: Seq<char>|
                refused::<T>(area(shape), host) && report == #[trigger] host_report2(shape, host)
            ||| !addressable(shape.0 as int, shape.1 as int, 1) && report == layout_report(
                pair(shape),
            )
        },
    }
}

/// The host's refusal of an array of three dimensions, in its own words.
pub open spec fn host_report<T>(shape: (usize, usize, usize), host: Seq<char>) -> Report {
    Report::Allocation(
        "the allocator refused "@ + triple(shape) + " ("@ + decimal(
            (volume(shape) * size_of::<T>() / 0x10_0000) as nat,
        ) + " MiB): "@ + host,
    )
}

/// The host's refusal of an array of two dimensions, in its own words.
pub open spec fn host_report2(shape: (usize, usize), host: Seq<char>) -> Report {
    Report::Allocation("the allocator refused "@ + pair(shape) + ": "@ + host)
}

/// The refusal of a shape that no index can span.
pub open spec fn layout_report(shape: Seq<char>) -> Report {
    Report::Allocation(
        "cannot build an array of shape "@ + shape + ": "@
            + "ShapeError/Overflow: arithmetic overflow"@,
    )
}

/// The number of elements in a shape.
pub fn element_count(shape: (usize, usize, usize)) -> (r: Result<usize, PhaiosError>)
    ensures
        match r {
            Ok(n) => countable(shape) && n == volume(shape),
            Err(e) => !countable(shape) && e@ == Report::Allocation(
                "shape "@ + triple(shape) + " has more elements than usize can count"@,
            ),
        },
{
    if let Some(plane) = shape.0.checked_mul(shape.1) {
        if let Some(n) = plane.checked_mul(shape.2) {
            return Ok(n);
        }
    }
    let mut text = String::from_str("shape ");
    put_triple(&mut text, shape);
    text.append(" has more elements than usize can count");
    Err(PhaiosError::Allocation(text))
}

/// Holds an array of `count` elements of `T` to the byte limit. `shape` is how
/// its shape prints.
pub fn check_budget<T>(count: usize, shape: &str) -> (r: Result<usize, PhaiosError>)
    ensures
        match r {
            Ok(bytes) => bytes == count * size_of::<T>() && budget_fault(
                shape@,
                count as int,
                size_of::<T>(),
            ) is None,
            Err(e) => budget_fault(shape@, count as int, size_of::<T>()) == Some(e@),
        },
{
    let size: usize = core::mem::size_of::<T>();
    match count.checked_mul(size) {
        None => {
            let mut text = String::from_str(shape);
            text.append(" overflows a byte count");
            Err(PhaiosError::Allocation(text))
        },
        Some(bytes) => {
            if bytes as u64 > MAX_ALLOCATION_BYTES {
                let mut text = String::from_str(shape);
                text.append(" needs ");
                put_decimal(&mut text, bytes as u64 / 0x10_0000);
                text.append(" MiB, above the ");
                put_decimal(&mut text, MAX_ALLOCATION_BYTES / 0x10_0000);
                text.append(
                    " MiB limit for a single array (a zero-stride view such as numpy's broadcast_to reaches this from very little actual data)",
                );
                Err(PhaiosError::Allocation(text))
            } else {
                Ok(bytes)
            }
        },
    }
}

/// Holds a shape of `T` to the limits without allocating anything.
pub fn check_shape<T>(shape: (usize, usize, usize)) -> (r: Result<(), PhaiosError>)
    ensures
        match r {
            Ok(()) => shape_fault::<T>(shape) is None,
            Err(e) => shape_fault::<T>(shape) == Some(e@),
        },
{
    let n = match element_count(shape) {
        Ok(n) => n,
        Err(e) => return Err(e),
    };
    let mut text = String::new();
    put_triple(&mut text, shape);
    assert(text@ =~= triple(shape));
    match check_budget::<T>(n, text.as_str()) {
        Ok(_) => Ok(()),
        Err(e) => Err(e),
    }
}

/// `Vec::try_reserve_exact` on an empty vector: the vector with room for `n`
/// elements, or the allocator's refusal in its own words. Room for none is never
/// refused; whether more is given depends on the host, and nothing is claimed of it.
#[verifier::external_body]
fn reserved<T>(n: usize) -> (r: Result<Vec<T>, String>)
    ensures
        n == 0 ==> r is Ok,
        match r {
            Ok(cells) => cells@.len() == 0,
            Err(_) => true,
        },
{
    let mut cells = Vec::new();
    cells.try_reserve_exact(n).map(|()| cells).map_err(|e| format!("{e}"))
}

/// Whether the allocator, asked for room for `n` elements of `T`, may refuse in
/// these words. Nothing but asking it can show that.
pub closed spec fn refused<T>(n: int, host: Seq<char>) -> bool {
    exists|count: usize, r: Result<Vec<T>, String>|
        {
            &&& count == n
            &&& #[trigger] call_ensures(reserved::<T>, (count,), r)
            &&& r matches Err(said) && said@ == host
        }
}

/// The cells of a shape of `T`, in row-major order, each made by `f`.
fn fill<T, F: Fn(usize, usize, usize) -> T>(shape: (usize, usize, usize), f: F) -> (r: Result<
    Vec<T>,
    PhaiosError,
>)
    requires
        forall|y: usize, x: usize, k: usize|
            inside(shape, y as int, x as int, k as int) ==> call_requires(f, (y, x, k)),
    ensures
        match r {
            Ok(cells) => shape_fault::<T>(shape) is None && cells@.len() == volume(shape) && (
            forall|y: usize, x: usize, k: usize|
                inside(shape, y as int, x as int, k as int) ==> call_ensures(
                    f,
                    (y, x, k),
                    #[trigger] cells@[offset(shape, y as int, x as int, k as int)],
                )),
            Err(e) => refusal::<T>(shape, e@),
        },
{
    let n = match element_count(shape) {
        Ok(n) => n,
        Err(e) => return Err(e),
    };
    let mut text = String::new();
    put_triple(&mut text, shape);
    assert(text@ =~= triple(shape));
    let bytes = match check_budget::<T>(n, text.as_str()) {
        Ok(bytes) => bytes,
        Err(e) => return Err(e),
    };
    let mut cells: Vec<T> = match reserved::<T>(n) {
        Ok(cells) => cells,
        Err(host) => {
            let mut said = String::from_str("the allocator refused ");
            put_triple(&mut said, shape);
            said.append(" (");
            put_decimal(&mut said, bytes as u64 / 0x10_0000);
            said.append(" MiB): ");
            said.append(host.as_str());
            assert(refused::<T>(n as int, host@));
            assert(Report::Allocation(said@) == host_report::<T>(shape, host@));
            return Err(PhaiosError::Allocation(said));
        },
    };
    let mut i: usize = 0;
    while i < n
        invariant
            n == volume(shape),
            i <= n,
            cells@.len() == i,
            forall|y: usize, x: usize, k: usize|
                inside(shape, y as int, x as int, k as int) ==> call_requires(f, (y, x, k)),
            forall|y: usize, x: usize, k: usize|
                inside(shape, y as int, x as int, k as int) && offset(
                    shape,
                    y as int,
                    x as int,
                    k as int,
                ) < i ==> call_ensures(
                    f,
                    (y, x, k),
                    #[trigger] cells@[offset(shape, y as int, x as int, k as int)],
                ),
        decreases n - i,
    {
        proof {
            cell_of_place(shape, i as int);
        }
        let k: usize = i % shape.2;
        let p: usize = i / shape.2;
        let x: usize = p % shape.1;
        let y: usize = p / shape.1;
        let ghost before = cells@;
        let v = f(y, x, k);
        cells.push(v);
        proof {
            assert forall|y1: usize, x1: usize, k1: usize|
                inside(shape, y1 as int, x1 as int, k1 as int) && offset(
                    shape,
                    y1 as int,
                    x1 as int,
                    k1 as int,
                ) < i + 1 implies call_ensures(
                f,
                (y1, x1, k1),
                #[trigger] cells@[offset(shape, y1 as int, x1 as int, k1 as int)],
            ) by {
                place_of_cell(shape, y1 as int, x1 as int, k1 as int);
                let o = offset(shape, y1 as int, x1 as int, k1 as int);
                if o < i {
                    assert(cells@[o] == before[o]);
                }
            }
        }
        i = i + 1;
    }
    proof {
        assert forall|y: usize, x: usize, k: usize|
            inside(shape, y as int, x as int, k as int) implies call_ensures(
            f,
            (y, x, k),
            #[trigger] cells@[offset(shape, y as int, x as int, k as int)],
        ) by {
            place_of_cell(shape, y as int, x as int, k as int);
        }
    }
    Ok(cells)
}

/// An empty vector with room for the cells of a shape of `T` of two dimensions.
pub(crate) fn room2<T>(shape: (usize, usize)) -> (r: Result<Vec<T>, PhaiosError>)
    ensures
        match r {
            Ok(cells) => shape_fault2::<T>(shape) is None && cells@.len() == 0 && area(shape)
                <= usize::MAX,
            Err(e) => refusal2::<T>(shape, e@),
        },
{
    let n = match shape.0.checked_mul(shape.1) {
        Some(n) => n,
        None => {
            let mut text = String::from_str("shape ");
            put_pair(&mut text, shape);
            text.append(" has more elements than usize can count");
            return Err(PhaiosError::Allocation(text));
        },
    };
    let mut text = String::new();
    put_pair(&mut text, shape);
    assert(text@ =~= pair(shape));
    if let Err(e) = check_budget::<T>(n, text.as_str()) {
        return Err(e);
    }
    match reserved::<T>(n) {
        Ok(cells) => Ok(cells),
        Err(host) => {
            let mut said = String::from_str("the allocator refused ");
            put_pair(&mut said, shape);
            said.append(": ");
            said.append(host.as_str());
            assert(refused::<T>(n as int, host@));
            assert(Report::Allocation(said@) == host_report2(shape, host@));
            Err(PhaiosError::Allocation(said))
        },
    }
}

/// The cells of a shape of `T` of two dimensions, in row-major order, each made
/// by `f`.
fn fill2<T, F: Fn(usize, usize) -> T>(shape: (usize, usize), f: F) -> (r: Result<
    Vec<T>,
    PhaiosError,
>)
    requires
        forall|y: usize, x: usize|
            within(shape, y as int, x as int) ==> call_requires(f, (y, x)),
    ensures
        match r {
            Ok(cells) => shape_fault2::<T>(shape) is None && cells@.len() == area(shape) && (
            forall|y: usize, x: usize|
                within(shape, y as int, x as int) ==> call_ensures(
                    f,
                    (y, x),
                    #[trigger] cells@[offset2(shape, y as int, x as int)],
                )),
            Err(e) => refusal2::<T>(shape, e@),
        },
{
    let mut cells: Vec<T> = match room2::<T>(shape) {
        Ok(cells) => cells,
        Err(e) => return Err(e),
    };
    let n: usize = shape.0 * shape.1;
    let mut i: usize = 0;
    while i < n
        invariant
            n == area(shape),
            i <= n,
            cells@.len() == i,
            forall|y: usize, x: usize|
                within(shape, y as int, x as int) ==> call_requires(f, (y, x)),
            forall|y: usize, x: usize|
                within(shape, y as int, x as int) && offset2(shape, y as int, x as int) < i
                    ==> call_ensures(
                    f,
                    (y, x),
                    #[trigger] cells@[offset2(shape, y as int, x as int)],
                ),
        decreases n - i,
    {
        proof {
            cell_of_place2(shape, i as int);
        }
        let x: usize = i % shape.1;
        let y: usize = i / shape.1;
        let ghost before = cells@;
        let v = f(y, x);
        cells.push(v);
        proof {
            assert forall|y1: usize, x1: usize|
                within(shape, y1 as int, x1 as int) && offset2(shape, y1 as int, x1 as int) < i
                    + 1 implies call_ensures(
                f,
                (y1, x1),
                #[trigger] cells@[offset2(shape, y1 as int, x1 as int)],
            ) by {
                place_of_cell2(shape, y1 as int, x1 as int);
                let o = offset2(shape, y1 as int, x1 as int);
                if o < i {
                    assert(cells@[o] == before[o]);
                }
            }
        }
        i = i + 1;
    }
    proof {
        assert forall|y: usize, x: usize| within(shape, y as int, x as int) implies call_ensures(
            f,
            (y, x),
            #[trigger] cells@[offset2(shape, y as int, x as int)],
        ) by {
            place_of_cell2(shape, y as int, x as int);
        }
    }
    Ok(cells)
}

fn layout_error(shape: &str, said: &str) -> (r: PhaiosError)
    requires
        said@ == "ShapeError/Overflow: arithmetic overflow"@,
    ensures
        r@ == layout_report(shape@),
{
    let mut text = String::from_str("cannot build an array of shape ");
    text.append(shape);
    text.append(": ");
    text.append(said);
    PhaiosError::Allocation(text)
}

/// An image whose samples `f` makes.
pub(crate) fn image<F: Fn(usize, usize, usize) -> u32>(
    shape: (usize, usize, usize),
    f: F,
) -> (r: Result<Image, PhaiosError>)
    requires
        forall|y: usize, x: usize, k: usize|
            inside(shape, y as int, x as int, k as int) ==> call_requires(f, (y, x, k)),
    ensures
        match r {
            Ok(a) => permitted::<u32>(shape) && a@.shape == shape && a@.valid() && (forall|
                y: int,
                x: int,
                k: int,
            |
                inside(shape, y, x, k) ==> call_ensures(
                    f,
                    (y as usize, x as usize, k as usize),
                    #[trigger] a@.at(y, x, k),
                )),
            Err(e) => refusal::<u32>(shape, e@),
        },
{
    let cells = match fill::<u32, F>(shape, f) {
        Ok(cells) => cells,
        Err(e) => return Err(e),
    };
    let ghost made = cells@;
    match Image::over(shape, cells) {
        Ok(a) => {
            assert forall|y: int, x: int, k: int| inside(shape, y, x, k) implies call_ensures(
                f,
                (y as usize, x as usize, k as usize),
                #[trigger] a@.at(y, x, k),
            ) by {
                let (yu, xu, ku) = (y as usize, x as usize, k as usize);
                assert(a@.at(y, x, k) == made[offset(shape, yu as int, xu as int, ku as int)]);
            }
            Ok(a)
        },
        Err(said) => {
            let mut text = String::new();
            put_triple(&mut text, shape);
            assert(text@ =~= triple(shape));
            Err(layout_error(text.as_str(), said.as_str()))
        },
    }
}

/// An array of eight-bit codes that `f` makes.
pub(crate) fn codes8<F: Fn(usize, usize, usize) -> u8>(
    shape: (usize, usize, usize),
    f: F,
) -> (r: Result<Codes8, PhaiosError>)
    requires
        forall|y: usize, x: usize, k: usize|
            inside(shape, y as int, x as int, k as int) ==> call_requires(f, (y, x, k)),
    ensures
        match r {
            Ok(a) => permitted::<u8>(shape) && a@.shape == shape && a@.valid() && (forall|
                y: int,
                x: int,
                k: int,
            |
                inside(shape, y, x, k) ==> call_ensures(
                    f,
                    (y as usize, x as usize, k as usize),
                    #[trigger] a@.at(y, x, k),
                )),
            Err(e) => refusal::<u8>(shape, e@),
        },
{
    let cells = match fill::<u8, F>(shape, f) {
        Ok(cells) => cells,
        Err(e) => return Err(e),
    };
    let ghost made = cells@;
    match Codes8::over(shape, cells) {
        Ok(a) => {
            assert forall|y: int, x: int, k: int| inside(shape, y, x, k) implies call_ensures(
                f,
                (y as usize, x as usize, k as usize),
                #[trigger] a@.at(y, x, k),
            ) by {
                let (yu, xu, ku) = (y as usize, x as usize, k as usize);
                assert(a@.at(y, x, k) == made[offset(shape, yu as int, xu as int, ku as int)]);
            }
            Ok(a)
        },
        Err(said) => {
            let mut text = String::new();
            put_triple(&mut text, shape);
            assert(text@ =~= triple(shape));
            Err(layout_error(text.as_str(), said.as_str()))
        },
    }
}

/// An array of sixteen-bit codes that `f` makes.
pub(crate) fn codes16<F: Fn(usize, usize, usize) -> u16>(
    shape: (usize, usize, usize),
    f: F,
) -> (r: Result<Codes16, PhaiosError>)
    requires
        forall|y: usize, x: usize, k: usize|
            inside(shape, y as int, x as int, k as int) ==> call_requires(f, (y, x, k)),
    ensures
        match r {
            Ok(a) => permitted::<u16>(shape) && a@.shape == shape && a@.valid() && (forall|
                y: int,
                x: int,
                k: int,
            |
                inside(shape, y, x, k) ==> call_ensures(
                    f,
                    (y as usize, x as usize, k as usize),
                    #[trigger] a@.at(y, x, k),
                )),
            Err(e) => refusal::<u16>(shape, e@),
        },
{
    let cells = match fill::<u16, F>(shape, f) {
        Ok(cells) => cells,
        Err(e) => return Err(e),
    };
    let ghost made = cells@;
    match Codes16::over(shape, cells) {
        Ok(a) => {
            assert forall|y: int, x: int, k: int| inside(shape, y, x, k) implies call_ensures(
                f,
                (y as usize, x as usize, k as usize),
                #[trigger] a@.at(y, x, k),
            ) by {
                let (yu, xu, ku) = (y as usize, x as usize, k as usize);
                assert(a@.at(y, x, k) == made[offset(shape, yu as int, xu as int, ku as int)]);
            }
            Ok(a)
        },
        Err(said) => {
            let mut text = String::new();
            put_triple(&mut text, shape);
            assert(text@ =~= triple(shape));
            Err(layout_error(text.as_str(), said.as_str()))
        },
    }
}

/// A table over cells in row-major order, for which there was room.
pub(crate) fn seal(shape: (usize, usize), cells: Vec<u64>) -> (r: Result<Table, PhaiosError>)
    requires
        shape_fault2::<u64>(shape) is None,
        cells@.len() == area(shape),
    ensures
        match r {
            Ok(a) => permitted2::<u64>(shape) && a@ == (Lattice { shape, cells: cells@ }),
            Err(e) => refusal2::<u64>(shape, e@),
        },
{
    match Table::over(shape, cells) {
        Ok(a) => Ok(a),
        Err(said) => {
            let mut text = String::new();
            put_pair(&mut text, shape);
            assert(text@ =~= pair(shape));
            Err(layout_error(text.as_str(), said.as_str()))
        },
    }
}

/// A plane whose numbers `f` makes.
pub(crate) fn plane<F: Fn(usize, usize) -> u32>(shape: (usize, usize), f: F) -> (r: Result<
    Plane,
    PhaiosError,
>)
    requires
        forall|y: usize, x: usize| within(shape, y as int, x as int) ==> call_requires(f, (y, x)),
    ensures
        match r {
            Ok(a) => permitted2::<u32>(shape) && a@.shape == shape && a@.valid() && (forall|
                y: int,
                x: int,
            |
                within(shape, y, x) ==> call_ensures(
                    f,
                    (y as usize, x as usize),
                    #[trigger] a@.at(y, x),
                )),
            Err(e) => refusal2::<u32>(shape, e@),
        },
{
    let cells = match fill2::<u32, F>(shape, f) {
        Ok(cells) => cells,
        Err(e) => return Err(e),
    };
    let ghost made = cells@;
    match Plane::over(shape, cells) {
        Ok(a) => {
            assert forall|y: int, x: int| within(shape, y, x) implies call_ensures(
                f,
                (y as usize, x as usize),
                #[trigger] a@.at(y, x),
            ) by {
                let (yu, xu) = (y as usize, x as usize);
                assert(a@.at(y, x) == made[offset2(shape, yu as int, xu as int)]);
            }
            Ok(a)
        },
        Err(said) => {
            let mut text = String::new();
            put_pair(&mut text, shape);
            assert(text@ =~= pair(shape));
            Err(layout_error(text.as_str(), said.as_str()))
        },
    }
}

/// A table whose cells `f` makes.
pub(crate) fn table<F: Fn(usize, usize) -> u64>(shape: (usize, usize), f: F) -> (r: Result<
    Table,
    PhaiosError,
>)
    requires
        forall|y: usize, x: usize| within(shape, y as int, x as int) ==> call_requires(f, (y, x)),
    ensures
        match r {
            Ok(a) => permitted2::<u64>(shape) && a@.shape == shape && a@.valid() && (forall|
                y: int,
                x: int,
            |
                within(shape, y, x) ==> call_ensures(
                    f,
                    (y as usize, x as usize),
                    #[trigger] a@.at(y, x),
                )),
            Err(e) => refusal2::<u64>(shape, e@),
        },
{
    let cells = match fill2::<u64, F>(shape, f) {
        Ok(cells) => cells,
        Err(e) => return Err(e),
    };
    let ghost made = cells@;
    match Table::over(shape, cells) {
        Ok(a) => {
            assert forall|y: int, x: int| within(shape, y, x) implies call_ensures(
                f,
                (y as usize, x as usize),
                #[trigger] a@.at(y, x),
            ) by {
                let (yu, xu) = (y as usize, x as usize);
                assert(a@.at(y, x) == made[offset2(shape, yu as int, xu as int)]);
            }
            Ok(a)
        },
        Err(said) => {
            let mut text = String::new();
            put_pair(&mut text, shape);
            assert(text@ =~= pair(shape));
            Err(layout_error(text.as_str(), said.as_str()))
        },
    }
}

/// An image of zeros.
pub fn zeros3(shape: (usize, usize, usize)) -> (r: Result<Image, PhaiosError>)
    ensures
        match r {
            Ok(a) => permitted::<u32>(shape) && a@.valid() && a@.shape == shape && (forall|
                y: int,
                x: int,
                k: int,
            |
                inside(shape, y, x, k) ==> #[trigger] a@.at(y, x, k) == 0),
            Err(e) => refusal::<u32>(shape, e@),
        },
{
    let blank = |y: usize, x: usize, k: usize| -> (r: u32)
        ensures
            r == 0,
        { 0 };
    image(shape, blank)
}

/// A table of zeros.
pub fn zeros2(shape: (usize, usize)) -> (r: Result<Table, PhaiosError>)
    ensures
        match r {
            Ok(a) => permitted2::<u64>(shape) && a@.valid() && a@.shape == shape && (forall|
                y: int,
                x: int,
            |
                within(shape, y, x) ==> #[trigger] a@.at(y, x) == 0),
            Err(e) => refusal2::<u64>(shape, e@),
        },
{
    let blank = |y: usize, x: usize| -> (r: u64)
        ensures
            r == 0,
        { 0 };
    table(shape, blank)
}

/// An image over samples in row-major order, which it takes as they are. A shape that
/// the samples do not fill exactly is refused.
pub fn image_from_samples(shape: (usize, usize, usize), samples: Vec<u32>) -> (r: Result<
    Image,
    PhaiosError,
>)
    ensures
        match r {
            Ok(a) => {
                &&& samples@.len() == volume(shape)
                &&& addressable(shape.0 as int, shape.1 as int, shape.2 as int)
                &&& a@ == (Raster { shape, cells: samples@ })
            },
            Err(e) => if samples@.len() != volume(shape) {
                e@ == Report::Shape(
                    decimal(samples@.len()) + " samples do not fill the shape "@ + triple(shape),
                )
            } else {
                &&& !addressable(shape.0 as int, shape.1 as int, shape.2 as int)
                &&& e@ == layout_report(triple(shape))
            },
        },
{
    let fills = match element_count(shape) {
        Ok(n) => n == samples.len(),
        Err(_) => {
            proof {
                let (plane, c) = (shape.0 * shape.1, shape.2 as int);
                assert(volume(shape) == plane * c) by (nonlinear_arith)
                    requires
                        volume(shape) == shape.0 * shape.1 * shape.2,
                        plane == shape.0 * shape.1,
                        c == shape.2,
                ;
                assert(c >= 1 ==> plane * c >= plane) by (nonlinear_arith)
                    requires
                        plane >= 0,
                ;
                assert(plane >= 0) by (nonlinear_arith)
                    requires
                        plane == shape.0 * shape.1,
                ;
                assert(c == 0 ==> plane * c == 0) by (nonlinear_arith);
            }
            let len: usize = samples.len();
            len == 0 && shape.2 == 0
        },
    };
    if !fills {
        let mut text = String::new();
        put_decimal(&mut text, samples.len() as u64);
        text.append(" samples do not fill the shape ");
        put_triple(&mut text, shape);
        assert(text@ =~= decimal(samples@.len()) + " samples do not fill the shape "@ + triple(
            shape,
        ));
        return Err(PhaiosError::Shape(text));
    }
    match Image::over(shape, samples) {
        Ok(a) => Ok(a),
        Err(said) => {
            let mut text = String::new();
            put_triple(&mut text, shape);
            Err(layout_error(text.as_str(), said.as_str()))
        },
    }
}

/// A plane over numbers in row-major order. A shape that the numbers do not fill
/// exactly is refused.
pub fn plane_from_samples(shape: (usize, usize), samples: &Vec<u32>) -> (r: Result<
    Plane,
    PhaiosError,
>)
    ensures
        match r {
            Ok(a) => samples@.len() == area(shape) && a@ == (Lattice { shape, cells: samples@ }),
            Err(e) => if samples@.len() != area(shape) {
                e@ == Report::Shape(
                    decimal(samples@.len()) + " samples do not fill the shape "@ + pair(shape),
                )
            } else {
                refusal2::<u32>(shape, e@)
            },
        },
{
    let filled = match shape.0.checked_mul(shape.1) {
        Some(n) => n == samples.len(),
        None => false,
    };
    if !filled {
        let mut text = String::new();
        put_decimal(&mut text, samples.len() as u64);
        text.append(" samples do not fill the shape ");
        put_pair(&mut text, shape);
        assert(text@ =~= decimal(samples@.len()) + " samples do not fill the shape "@ + pair(
            shape,
        ));
        return Err(PhaiosError::Shape(text));
    }
    let pick = |y: usize, x: usize| -> (r: u32)
        requires
            within(shape, y as int, x as int),
            samples@.len() == area(shape),
            samples@.len() <= usize::MAX,
        ensures
            r == samples@[offset2(shape, y as int, x as int)],
        {
            proof {
                place_of_cell2(shape, y as int, x as int);
                assert(0 <= y * shape.1) by (nonlinear_arith)
                    requires
                        y >= 0,
                        shape.1 >= 0,
                ;
            }
            samples[y * shape.1 + x]
        };
    let r = plane(shape, pick);
    if let Ok(a) = &r {
        assert forall|i: int| 0 <= i < area(shape) implies a@.cells[i] == samples@[i] by {
            cell_of_place2(shape, i);
            let w = shape.1 as int;
            assert(a@.at(i / w, i % w) == samples@[i]);
        }
        assert(a@.cells =~= samples@);
    }
    r
}

/// A fresh copy of an image.
pub(crate) fn copied(img: &Image) -> (r: Result<Image, PhaiosError>)
    ensures
        match r {
            Ok(out) => permitted::<u32>(img@.shape) && out@ == img@,
            Err(e) => refusal::<u32>(img@.shape, e@),
        },
{
    let shape = img.dim();
    let pick = |y: usize, x: usize, k: usize| -> (s: u32)
        requires
            inside(img@.shape, y as int, x as int, k as int),
        ensures
            s == img@.at(y as int, x as int, k as int),
        { img.cell(y, x, k) };
    let r = image(shape, pick);
    if let Ok(out) = &r {
        proof {
            crate::raster::same_cells(out@, img@);
        }
    }
    r
}

/// One channel of an image as a plane.
pub(crate) fn channel(img: &Image, k: usize) -> (r: Result<Plane, PhaiosError>)
    requires
        k < img@.shape.2,
    ensures
        match r {
            Ok(p) => permitted2::<u32>((img@.shape.0, img@.shape.1)) && p@ == channel_of(
                img@,
                k as int,
            ),
            Err(e) => refusal2::<u32>((img@.shape.0, img@.shape.1), e@),
        },
{
    let (h, w, _c) = img.dim();
    let pick = |y: usize, x: usize| -> (s: u32)
        requires
            inside(img@.shape, y as int, x as int, k as int),
        ensures
            s == img@.at(y as int, x as int, k as int),
        { img.cell(y, x, k) };
    let r = plane((h, w), pick);
    if let Ok(p) = &r {
        proof {
            is_tabulated2(p@, |y: int, x: int| img@.at(y, x, k as int));
        }
    }
    r
}

} // verus!
