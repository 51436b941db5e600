//! Plans for the blur and for the kernels built on it: glow and sharpening.

use vstd::prelude::*;

use crate::allocation::element_count;
use crate::arith::{faithful, Arithmetic};
use crate::blur::{
    best_widths, box_widths, gaussian_weights, sigma_fault, taps, BlurParams, Filter, Pass,
    BOX_CROSSOVER_SIGMA,
};
use crate::cuda::launch::{
    allocate_image, copy_acts, copy_device, count_fault, either, grid_1d, image_act, line_of,
};
use crate::cuda::plan::{after_writes, launchable, Act, Arg, Buffer, Element, Plan};
use crate::error::{PhaiosError, Report};
use crate::glow::{glow_fault, GlowParams};
use crate::raster::volume;
use crate::sharpen::{idle, sharpen_fault, SharpenParams};
use crate::single;
use crate::text::{decimal, put_decimal};

verus! {

/// A complete image buffer of `n` elements.
pub open spec fn complete(n: usize) -> Buffer {
    Buffer { element: Element::Single, len: n, lanes: 1, filled: 1, live: true }
}

/// What a kernel cannot be told of a filter, if anything.
pub open spec fn pass_fault(filter: Filter) -> Option<Report> {
    match filter {
        Filter::Taps(weights) => if weights.len() > i32::MAX {
            Some(
                Report::Parameter("blur kernel has "@ + decimal(weights.len()) + " taps"@),
            )
        } else {
            None
        },
        Filter::Window(radius) => if radius > i32::MAX {
            Some(Report::Parameter("box radius "@ + decimal(radius as nat) + " too large"@))
        } else {
            None
        },
    }
}

/// The number of lines along an axis: rows along the first, columns along the
/// second.
pub open spec fn lines(shape: (usize, usize, usize), axis: i32) -> usize {
    if axis == 0 {
        shape.0
    } else {
        shape.1
    }
}

/// The length of a line along an axis.
pub open spec fn line_len(shape: (usize, usize, usize), axis: i32) -> usize {
    if axis == 0 {
        shape.1
    } else {
        shape.0
    }
}

/// The steps of one pass along an axis from buffer `src`; `next` is the first
/// buffer that is still to be made. Taps are sent, used and released.
pub open spec fn pass_acts(
    src: usize,
    next: int,
    shape: (usize, usize, usize),
    axis: i32,
    filter: Filter,
) -> Seq<Act> {
    let n = volume(shape);
    match filter {
        Filter::Taps(weights) => seq![
            image_act(n),
            Act::Upload { values: weights, what: "weight upload failed"@ },
            Act::Launch {
                module: "blur"@,
                kernel: "blur_conv_kernel"@,
                args: seq![
                    Arg::Read { slot: src, element: Element::Single, len: n as usize },
                    Arg::Write {
                        slot: next as usize,
                        element: Element::Single,
                        len: n as usize,
                        lane: 0,
                    },
                    Arg::Read {
                        slot: (next + 1) as usize,
                        element: Element::Single,
                        len: weights.len() as usize,
                    },
                    Arg::Int(weights.len() as i32),
                    Arg::Int(lines(shape, axis) as i32),
                    Arg::Int(line_len(shape, axis) as i32),
                    Arg::Int(shape.2 as i32),
                    Arg::Int(axis),
                    Arg::Long(n as i64),
                ],
                grid: line_of(n as u32),
                what: "kernel launch failed"@,
            },
            Act::Release { slot: (next + 1) as usize },
        ],
        Filter::Window(radius) => seq![
            image_act(n),
            Act::Launch {
                module: "blur"@,
                kernel: "blur_box_kernel"@,
                args: seq![
                    Arg::Read { slot: src, element: Element::Single, len: n as usize },
                    Arg::Write {
                        slot: next as usize,
                        element: Element::Single,
                        len: n as usize,
                        lane: 0,
                    },
                    Arg::Int(radius as i32),
                    Arg::Int(lines(shape, axis) as i32),
                    Arg::Int(line_len(shape, axis) as i32),
                    Arg::Int(shape.2 as i32),
                    Arg::Int(axis),
                    Arg::Long((lines(shape, axis) * shape.2) as i64),
                ],
                grid: line_of((lines(shape, axis) * shape.2) as u32),
                what: "kernel launch failed"@,
            },
        ],
    }
}

/// The number of buffers that one pass makes.
pub open spec fn pass_buffers(filter: Filter) -> int {
    match filter {
        Filter::Taps(_) => 2,
        Filter::Window(_) => 1,
    }
}

/// The lanes of a pass are at most its elements.
proof fn lanes_fit(shape: (usize, usize, usize), axis: i32)
    requires
        0 < volume(shape) <= usize::MAX,
    ensures
        0 <= lines(shape, axis) * shape.2 <= volume(shape),
{
    assert(shape.0 * shape.2 <= shape.0 * shape.1 * shape.2 && shape.1 * shape.2 <= shape.0
        * shape.1 * shape.2) by (nonlinear_arith)
        requires
            shape.0 * shape.1 * shape.2 > 0,
            0 <= shape.0,
            0 <= shape.1,
            0 <= shape.2,
    ;
    assert(0 <= shape.0 * shape.2 && 0 <= shape.1 * shape.2) by (nonlinear_arith)
        requires
            0 <= shape.0,
            0 <= shape.1,
            0 <= shape.2,
    ;
}

/// Appends one pass along an axis. One thread convolves a sample; one thread
/// runs a mean along a whole line.
pub fn pass(
    plan: &mut Plan,
    src: usize,
    shape: (usize, usize, usize),
    n: usize,
    axis: i32,
    kind: Pass,
) -> (r: Result<usize, PhaiosError>)
    requires
        0 < n == volume(shape),
        src < old(plan).buffers@.len() < usize::MAX,
        old(plan).buffers@[src as int] == complete(n),
    ensures
        match r {
            Ok(out) => {
                &&& pass_fault(kind@) is None
                &&& out == old(plan).buffers@.len()
                &&& final(plan)@ == old(plan)@ + pass_acts(
                    src,
                    old(plan).buffers@.len() as int,
                    shape,
                    axis,
                    kind@,
                )
                &&& final(plan).buffers@.len() == old(plan).buffers@.len() + pass_buffers(kind@)
                &&& final(plan).buffers@[out as int] == complete(n)
                &&& forall|s: int|
                    0 <= s < old(plan).buffers@.len() ==> (#[trigger] final(plan).buffers@[s])
                        == old(plan).buffers@[s]
                &&& forall|of: (usize, usize, usize)| #[trigger]
                    old(plan).valid(of) ==> final(plan).valid(of)
            },
            Err(e) => {
                &&& pass_fault(kind@) == Some(e@)
                &&& final(plan)@ == old(plan)@
                &&& final(plan).buffers@ == old(plan).buffers@
            },
        },
        final(plan).output == old(plan).output,
        final(plan).shape == old(plan).shape,
{
    let ghost next = plan.buffers@.len() as int;
    let (rows, len): (usize, usize) = if axis == 0 {
        (shape.0, shape.1)
    } else {
        (shape.1, shape.0)
    };
    match kind {
        Pass::Taps(weights) => {
            let count: usize = weights.len();
            if count > i32::MAX as usize {
                let mut said = String::from_str("blur kernel has ");
                put_decimal(&mut said, count as u64);
                said.append(" taps");
                return Err(PhaiosError::Parameter(said));
            }
            let ghost sent = weights@;
            let out: usize = allocate_image(plan, n);
            let table: usize = plan.upload(weights, "weight upload failed");
            let args: Vec<Arg> = vec![
                Arg::Read { slot: src, element: Element::Single, len: n },
                Arg::Write { slot: out, element: Element::Single, len: n, lane: 0 },
                Arg::Read { slot: table, element: Element::Single, len: count },
                Arg::Int(count as i32),
                Arg::Int(rows as i32),
                Arg::Int(len as i32),
                Arg::Int(shape.2 as i32),
                Arg::Int(axis),
                Arg::Long(n as i64),
            ];
            proof {
                assert(args@ =~= seq![
                    Arg::Read { slot: src, element: Element::Single, len: n },
                    Arg::Write { slot: out, element: Element::Single, len: n, lane: 0 },
                    Arg::Read { slot: table, element: Element::Single, len: count },
                    Arg::Int(count as i32),
                    Arg::Int(rows as i32),
                    Arg::Int(len as i32),
                    Arg::Int(shape.2 as i32),
                    Arg::Int(axis),
                    Arg::Long(n as i64),
                ]);
                assert(launchable(plan.buffers@, args@));
                reveal_with_fuel(after_writes, 10);
            }
            plan.launch("blur", "blur_conv_kernel", args, grid_1d(n), "kernel launch failed");
            plan.release(table);
            proof {
                assert(plan@ =~= old(plan)@ + pass_acts(
                    src,
                    next,
                    shape,
                    axis,
                    Filter::Taps(sent),
                ));
            }
            Ok(out)
        },
        Pass::Window(radius) => {
            if radius > i32::MAX as usize {
                let mut said = String::from_str("box radius ");
                put_decimal(&mut said, radius as u64);
                said.append(" too large");
                return Err(PhaiosError::Parameter(said));
            }
            let out: usize = allocate_image(plan, n);
            proof {
                lanes_fit(shape, axis);
            }
            let lanes: usize = rows * shape.2;
            let args: Vec<Arg> = vec![
                Arg::Read { slot: src, element: Element::Single, len: n },
                Arg::Write { slot: out, element: Element::Single, len: n, lane: 0 },
                Arg::Int(radius as i32),
                Arg::Int(rows as i32),
                Arg::Int(len as i32),
                Arg::Int(shape.2 as i32),
                Arg::Int(axis),
                Arg::Long(lanes as i64),
            ];
            proof {
                assert(args@ =~= seq![
                    Arg::Read { slot: src, element: Element::Single, len: n },
                    Arg::Write { slot: out, element: Element::Single, len: n, lane: 0 },
                    Arg::Int(radius as i32),
                    Arg::Int(rows as i32),
                    Arg::Int(len as i32),
                    Arg::Int(shape.2 as i32),
                    Arg::Int(axis),
                    Arg::Long(lanes as i64),
                ]);
                assert(launchable(plan.buffers@, args@));
                reveal_with_fuel(after_writes, 9);
            }
            plan.launch("blur", "blur_box_kernel", args, grid_1d(lanes), "kernel launch failed");
            proof {
                assert(plan@ =~= old(plan)@ + pass_acts(
                    src,
                    next,
                    shape,
                    axis,
                    Filter::Window(radius as int),
                ));
            }
            Ok(out)
        },
    }
}

/// The steps of a pass along the rows and one along the columns.
pub open spec fn both_acts(
    src: usize,
    next: int,
    shape: (usize, usize, usize),
    filter: Filter,
) -> Seq<Act> {
    pass_acts(src, next, shape, 0, filter) + pass_acts(
        next as usize,
        next + pass_buffers(filter),
        shape,
        1,
        filter,
    )
}

fn both(
    plan: &mut Plan,
    src: usize,
    shape: (usize, usize, usize),
    n: usize,
    rows: Pass,
    columns: Pass,
) -> (r: (usize, usize))
    requires
        0 < n == volume(shape),
        src < old(plan).buffers@.len() < 100,
        old(plan).buffers@[src as int] == complete(n),
        rows@ == columns@,
        pass_fault(rows@) is None,
    ensures
        r.0 == old(plan).buffers@.len(),
        r.1 == old(plan).buffers@.len() + pass_buffers(rows@),
        final(plan)@ == old(plan)@ + both_acts(
            src,
            old(plan).buffers@.len() as int,
            shape,
            rows@,
        ),
        final(plan).buffers@.len() == old(plan).buffers@.len() + 2 * pass_buffers(rows@),
        final(plan).buffers@[r.0 as int] == complete(n),
        final(plan).buffers@[r.1 as int] == complete(n),
        forall|s: int|
            0 <= s < old(plan).buffers@.len() ==> (#[trigger] final(plan).buffers@[s]) == old(
                plan,
            ).buffers@[s],
        forall|of: (usize, usize, usize)| #[trigger]
            old(plan).valid(of) ==> final(plan).valid(of),
{
    let ghost filter = rows@;
    let ghost next = plan.buffers@.len() as int;
    let mid: usize = match pass(plan, src, shape, n, 0, rows) {
        Ok(slot) => slot,
        Err(_) => 0,
    };
    let out: usize = match pass(plan, mid, shape, n, 1, columns) {
        Ok(slot) => slot,
        Err(_) => 0,
    };
    proof {
        assert(plan@ =~= old(plan)@ + both_acts(src, next, shape, filter));
    }
    (mid, out)
}

/// The steps of a blur of buffer `src`, which is not empty: a copy where sigma is
/// zero. What the next pass no longer needs is released.
pub open spec fn blur_acts<A: Arithmetic>(
    src: usize,
    next: int,
    shape: (usize, usize, usize),
    sigma: u32,
) -> Seq<Act> {
    if single::same(sigma, 0) {
        seq![image_act(volume(shape)), Act::Copy { from: src, to: next as usize }]
    } else if single::less(sigma, BOX_CROSSOVER_SIGMA) {
        both_acts(src, next, shape, Filter::Taps(taps::<A>(sigma))) + seq![
            Act::Release { slot: next as usize },
        ]
    } else {
        let h = best_widths::<A>(sigma);
        both_acts(src, next, shape, Filter::Window((h.a - 1) / 2)) + seq![
            Act::Release { slot: next as usize },
        ] + both_acts(
            (next + 1) as usize,
            next + 2,
            shape,
            Filter::Window((h.b - 1) / 2),
        ) + seq![
            Act::Release { slot: (next + 1) as usize },
            Act::Release { slot: (next + 2) as usize },
        ] + both_acts(
            (next + 3) as usize,
            next + 4,
            shape,
            Filter::Window((h.c - 1) / 2),
        ) + seq![
            Act::Release { slot: (next + 3) as usize },
            Act::Release { slot: (next + 4) as usize },
        ]
    }
}

/// The buffer that holds a blur's result.
pub open spec fn blur_slot(next: int, sigma: u32) -> int {
    if single::same(sigma, 0) {
        next
    } else if single::less(sigma, BOX_CROSSOVER_SIGMA) {
        next + 2
    } else {
        next + 5
    }
}

/// The number of buffers that a blur makes.
pub open spec fn blur_buffers(sigma: u32) -> int {
    if single::same(sigma, 0) {
        1
    } else if single::less(sigma, BOX_CROSSOVER_SIGMA) {
        4
    } else {
        6
    }
}

fn blur_copy(plan: &mut Plan, src: usize, n: usize) -> (out: usize)
    requires
        0 < n,
        src < old(plan).buffers@.len() < 50,
        old(plan).buffers@[src as int] == complete(n),
    ensures
        out == old(plan).buffers@.len(),
        final(plan)@ == old(plan)@ + seq![image_act(n as int), Act::Copy { from: src, to: out }],
        final(plan).buffers@.len() == old(plan).buffers@.len() + 1,
        final(plan).buffers@[out as int] == complete(n),
        forall|s: int|
            0 <= s < old(plan).buffers@.len() ==> (#[trigger] final(plan).buffers@[s]) == old(
                plan,
            ).buffers@[s],
        forall|of: (usize, usize, usize)| #[trigger]
            old(plan).valid(of) ==> final(plan).valid(of),
{
    let out: usize = allocate_image(plan, n);
    plan.copy(src, out);
    proof {
        assert(plan@ =~= old(plan)@ + seq![
            image_act(n as int),
            Act::Copy { from: src, to: out },
        ]);
    }
    out
}

fn window_pass(
    plan: &mut Plan,
    src: usize,
    shape: (usize, usize, usize),
    n: usize,
    width: usize,
) -> (r: (usize, usize))
    requires
        0 < n == volume(shape),
        src < old(plan).buffers@.len() < 100,
        old(plan).buffers@[src as int] == complete(n),
        3 <= width <= 65_534,
    ensures
        r.0 == old(plan).buffers@.len(),
        r.1 == old(plan).buffers@.len() + 1,
        final(plan)@ == old(plan)@ + both_acts(
            src,
            old(plan).buffers@.len() as int,
            shape,
            Filter::Window((width - 1) / 2),
        ),
        final(plan).buffers@.len() == old(plan).buffers@.len() + 2,
        final(plan).buffers@[r.0 as int] == complete(n),
        final(plan).buffers@[r.1 as int] == complete(n),
        forall|s: int|
            0 <= s < old(plan).buffers@.len() ==> (#[trigger] final(plan).buffers@[s]) == old(
                plan,
            ).buffers@[s],
        forall|of: (usize, usize, usize)| #[trigger]
            old(plan).valid(of) ==> final(plan).valid(of),
{
    let radius: usize = (width - 1) / 2;
    both(plan, src, shape, n, Pass::Window(radius), Pass::Window(radius))
}

fn blur_windows<A: Arithmetic>(
    plan: &mut Plan,
    src: usize,
    shape: (usize, usize, usize),
    n: usize,
    sigma: u32,
) -> (out: usize)
    requires
        faithful::<A>(),
        0 < n == volume(shape),
        src < old(plan).buffers@.len() < 50,
        old(plan).buffers@[src as int] == complete(n),
        !single::same(sigma, 0),
        !single::less(sigma, BOX_CROSSOVER_SIGMA),
    ensures
        out == blur_slot(old(plan).buffers@.len() as int, sigma),
        final(plan)@ == old(plan)@ + blur_acts::<A>(
            src,
            old(plan).buffers@.len() as int,
            shape,
            sigma,
        ),
        final(plan).buffers@.len() == old(plan).buffers@.len() + blur_buffers(sigma),
        final(plan).buffers@[out as int] == complete(n),
        forall|s: int|
            0 <= s < old(plan).buffers@.len() ==> (#[trigger] final(plan).buffers@[s]) == old(
                plan,
            ).buffers@[s],
        forall|of: (usize, usize, usize)| #[trigger]
            old(plan).valid(of) ==> final(plan).valid(of),
{
    let ghost next = plan.buffers@.len() as int;
    let ghost h = best_widths::<A>(sigma);
    let widths: [usize; 3] = box_widths::<A>(sigma);
    let (mid_a, out_a) = window_pass(plan, src, shape, n, widths[0]);
    plan.release(mid_a);
    let ghost first = plan@;
    proof {
        assert(first =~= old(plan)@ + (both_acts(
            src,
            next,
            shape,
            Filter::Window((h.a - 1) / 2),
        ) + seq![Act::Release { slot: next as usize }]));
    }
    let (mid_b, out_b) = window_pass(plan, out_a, shape, n, widths[1]);
    plan.release(out_a);
    plan.release(mid_b);
    let ghost second = plan@;
    proof {
        assert(second =~= first + (both_acts(
            (next + 1) as usize,
            next + 2,
            shape,
            Filter::Window((h.b - 1) / 2),
        ) + seq![
            Act::Release { slot: (next + 1) as usize },
            Act::Release { slot: (next + 2) as usize },
        ]));
    }
    let (mid_c, out_c) = window_pass(plan, out_b, shape, n, widths[2]);
    plan.release(out_b);
    plan.release(mid_c);
    proof {
        assert(plan@ =~= second + (both_acts(
            (next + 3) as usize,
            next + 4,
            shape,
            Filter::Window((h.c - 1) / 2),
        ) + seq![
            Act::Release { slot: (next + 3) as usize },
            Act::Release { slot: (next + 4) as usize },
        ]));
        assert(plan@ =~= old(plan)@ + blur_acts::<A>(src, next, shape, sigma));
    }
    out_c
}

fn blur_taps<A: Arithmetic>(
    plan: &mut Plan,
    src: usize,
    shape: (usize, usize, usize),
    n: usize,
    sigma: u32,
) -> (out: usize)
    requires
        faithful::<A>(),
        0 < n == volume(shape),
        src < old(plan).buffers@.len() < 50,
        old(plan).buffers@[src as int] == complete(n),
        !single::same(sigma, 0),
        single::less(sigma, BOX_CROSSOVER_SIGMA),
    ensures
        out == blur_slot(old(plan).buffers@.len() as int, sigma),
        final(plan)@ == old(plan)@ + blur_acts::<A>(
            src,
            old(plan).buffers@.len() as int,
            shape,
            sigma,
        ),
        final(plan).buffers@.len() == old(plan).buffers@.len() + blur_buffers(sigma),
        final(plan).buffers@[out as int] == complete(n),
        forall|s: int|
            0 <= s < old(plan).buffers@.len() ==> (#[trigger] final(plan).buffers@[s]) == old(
                plan,
            ).buffers@[s],
        forall|of: (usize, usize, usize)| #[trigger]
            old(plan).valid(of) ==> final(plan).valid(of),
{
    let ghost next = plan.buffers@.len() as int;
    let weights: Vec<u32> = gaussian_weights::<A>(sigma);
    let again: Vec<u32> = weights.clone();
    proof {
        assert(again@ =~= weights@);
    }
    let (mid, out) = both(plan, src, shape, n, Pass::Taps(weights), Pass::Taps(again));
    plan.release(mid);
    proof {
        assert(plan@ =~= old(plan)@ + blur_acts::<A>(src, next, shape, sigma));
    }
    out
}

/// Appends the blur of a buffer that is not empty.
fn blur_steps<A: Arithmetic>(
    plan: &mut Plan,
    src: usize,
    shape: (usize, usize, usize),
    n: usize,
    sigma: u32,
) -> (out: usize)
    requires
        faithful::<A>(),
        0 < n == volume(shape),
        src < old(plan).buffers@.len() < 50,
        old(plan).buffers@[src as int] == complete(n),
    ensures
        out == blur_slot(old(plan).buffers@.len() as int, sigma),
        final(plan)@ == old(plan)@ + blur_acts::<A>(
            src,
            old(plan).buffers@.len() as int,
            shape,
            sigma,
        ),
        final(plan).buffers@.len() == old(plan).buffers@.len() + blur_buffers(sigma),
        final(plan).buffers@[out as int] == complete(n),
        forall|s: int|
            0 <= s < old(plan).buffers@.len() ==> (#[trigger] final(plan).buffers@[s]) == old(
                plan,
            ).buffers@[s],
        forall|of: (usize, usize, usize)| #[trigger]
            old(plan).valid(of) ==> final(plan).valid(of),
{
    if single::same(sigma, 0) {
        blur_copy(plan, src, n)
    } else if single::less(sigma, BOX_CROSSOVER_SIGMA) {
        blur_taps::<A>(plan, src, shape, n, sigma)
    } else {
        blur_windows::<A>(plan, src, shape, n, sigma)
    }
}

/// The steps of a blur of an image, which may be empty.
pub open spec fn blur_plan_acts<A: Arithmetic>(
    shape: (usize, usize, usize),
    sigma: u32,
) -> Seq<Act> {
    if volume(shape) == 0 {
        copy_acts(0)
    } else {
        blur_acts::<A>(0, 1, shape, sigma)
    }
}

/// Plans a blur.
pub fn blur_device<A: Arithmetic>(shape: (usize, usize, usize), params: &BlurParams) -> (r: Result<
    Plan,
    PhaiosError,
>)
    requires
        faithful::<A>(),
    ensures
        match r {
            Ok(plan) => {
                &&& sigma_fault::<A>(params.sigma) is None
                &&& count_fault(shape) is None
                &&& plan.sound(shape, Element::Single)
                &&& plan.shape == shape
                &&& plan@ == blur_plan_acts::<A>(shape, params.sigma)
                &&& volume(shape) > 0 ==> plan.output == blur_slot(1, params.sigma)
            },
            Err(e) => either(sigma_fault::<A>(params.sigma), count_fault(shape)) == Some(e@),
        },
{
    if let Err(e) = crate::blur::validate::<A>(params) {
        return Err(e);
    }
    let n = match element_count(shape) {
        Ok(n) => n,
        Err(e) => return Err(e),
    };
    if n == 0 {
        return copy_device(shape);
    }
    let mut plan = Plan::new(shape, n);
    let out: usize = blur_steps::<A>(&mut plan, 0, shape, n, params.sigma);
    plan.output = out;
    plan.shape = shape;
    proof {
        assert(plan@ =~= blur_plan_acts::<A>(shape, params.sigma));
    }
    Ok(plan)
}

/// The steps of a glow: the light that scatters, its blur, and the sum.
pub open spec fn glow_acts<A: Arithmetic>(
    shape: (usize, usize, usize),
    params: GlowParams,
) -> Seq<Act> {
    let n = volume(shape);
    let after = 2 + blur_buffers(params.sigma);
    if single::same(params.amount, 0) || n == 0 {
        copy_acts(n)
    } else {
        seq![
            image_act(n),
            Act::Launch {
                module: "glow"@,
                kernel: "glow_weight_kernel"@,
                args: seq![
                    Arg::Read { slot: 0, element: Element::Single, len: n as usize },
                    Arg::Write { slot: 1, element: Element::Single, len: n as usize, lane: 0 },
                    Arg::Single(params.threshold),
                    Arg::Long(n as i64),
                ],
                grid: line_of(n as u32),
                what: "kernel launch failed"@,
            },
        ] + blur_acts::<A>(1, 2, shape, params.sigma) + seq![
            Act::Release { slot: 1 },
            image_act(n),
            Act::Launch {
                module: "glow"@,
                kernel: "glow_add_kernel"@,
                args: seq![
                    Arg::Read { slot: 0, element: Element::Single, len: n as usize },
                    Arg::Read {
                        slot: blur_slot(2, params.sigma) as usize,
                        element: Element::Single,
                        len: n as usize,
                    },
                    Arg::Write {
                        slot: after as usize,
                        element: Element::Single,
                        len: n as usize,
                        lane: 0,
                    },
                    Arg::Single(params.amount),
                    Arg::Long(n as i64),
                ],
                grid: line_of(n as u32),
                what: "kernel launch failed"@,
            },
        ]
    }
}

/// Plans a glow.
pub fn glow_device<A: Arithmetic>(shape: (usize, usize, usize), params: &GlowParams) -> (r: Result<
    Plan,
    PhaiosError,
>)
    requires
        faithful::<A>(),
    ensures
        match r {
            Ok(plan) => {
                &&& glow_fault::<A>(*params) is None
                &&& count_fault(shape) is None
                &&& plan.sound(shape, Element::Single)
                &&& plan.shape == shape
                &&& plan@ == glow_acts::<A>(shape, *params)
                &&& plan.output == if single::same(params.amount, 0) || volume(shape) == 0 {
                    1
                } else {
                    2 + blur_buffers(params.sigma)
                }
            },
            Err(e) => either(glow_fault::<A>(*params), count_fault(shape)) == Some(e@),
        },
{
    if let Err(e) = crate::glow::validate::<A>(params) {
        return Err(e);
    }
    let n = match element_count(shape) {
        Ok(n) => n,
        Err(e) => return Err(e),
    };
    if single::same(params.amount, 0) || n == 0 {
        return copy_device(shape);
    }
    let mut plan = Plan::new(shape, n);
    let weight: usize = allocate_image(&mut plan, n);
    let args: Vec<Arg> = vec![
        Arg::Read { slot: 0, element: Element::Single, len: n },
        Arg::Write { slot: weight, element: Element::Single, len: n, lane: 0 },
        Arg::Single(params.threshold),
        Arg::Long(n as i64),
    ];
    proof {
        assert(args@ =~= seq![
            Arg::Read { slot: 0, element: Element::Single, len: n },
            Arg::Write { slot: 1, element: Element::Single, len: n, lane: 0 },
            Arg::Single(params.threshold),
            Arg::Long(n as i64),
        ]);
        assert(launchable(plan.buffers@, args@));
        reveal_with_fuel(after_writes, 5);
    }
    plan.launch("glow", "glow_weight_kernel", args, grid_1d(n), "kernel launch failed");
    let spread: usize = blur_steps::<A>(&mut plan, weight, shape, n, params.sigma);
    plan.release(weight);
    let out: usize = allocate_image(&mut plan, n);
    let sum: Vec<Arg> = vec![
        Arg::Read { slot: 0, element: Element::Single, len: n },
        Arg::Read { slot: spread, element: Element::Single, len: n },
        Arg::Write { slot: out, element: Element::Single, len: n, lane: 0 },
        Arg::Single(params.amount),
        Arg::Long(n as i64),
    ];
    proof {
        assert(sum@ =~= seq![
            Arg::Read { slot: 0, element: Element::Single, len: n },
            Arg::Read { slot: spread, element: Element::Single, len: n },
            Arg::Write { slot: out, element: Element::Single, len: n, lane: 0 },
            Arg::Single(params.amount),
            Arg::Long(n as i64),
        ]);
        assert(launchable(plan.buffers@, sum@));
        reveal_with_fuel(after_writes, 6);
    }
    plan.launch("glow", "glow_add_kernel", sum, grid_1d(n), "kernel launch failed");
    plan.output = out;
    plan.shape = shape;
    proof {
        assert(plan@ =~= glow_acts::<A>(shape, *params));
    }
    Ok(plan)
}

/// The steps of sharpening: the blur, and one launch that takes the detail and
/// adds it back.
pub open spec fn sharpen_acts<A: Arithmetic>(
    shape: (usize, usize, usize),
    params: SharpenParams,
) -> Seq<Act> {
    let n = volume(shape);
    if idle(params) || n == 0 {
        copy_acts(n)
    } else {
        blur_acts::<A>(0, 1, shape, params.sigma) + seq![
            image_act(n),
            Act::Launch {
                module: "sharpen"@,
                kernel: "sharpen_apply_kernel"@,
                args: seq![
                    Arg::Read { slot: 0, element: Element::Single, len: n as usize },
                    Arg::Read {
                        slot: blur_slot(1, params.sigma) as usize,
                        element: Element::Single,
                        len: n as usize,
                    },
                    Arg::Write {
                        slot: (1 + blur_buffers(params.sigma)) as usize,
                        element: Element::Single,
                        len: n as usize,
                        lane: 0,
                    },
                    Arg::Single(params.amount),
                    Arg::Single(params.threshold),
                    Arg::Long(n as i64),
                ],
                grid: line_of(n as u32),
                what: "kernel launch failed"@,
            },
        ]
    }
}

/// Plans sharpening.
pub fn sharpen_device<A: Arithmetic>(
    shape: (usize, usize, usize),
    params: &SharpenParams,
) -> (r: Result<Plan, PhaiosError>)
    requires
        faithful::<A>(),
    ensures
        match r {
            Ok(plan) => {
                &&& sharpen_fault::<A>(*params) is None
                &&& count_fault(shape) is None
                &&& plan.sound(shape, Element::Single)
                &&& plan.shape == shape
                &&& plan@ == sharpen_acts::<A>(shape, *params)
                &&& plan.output == if idle(*params) || volume(shape) == 0 {
                    1
                } else {
                    1 + blur_buffers(params.sigma)
                }
            },
            Err(e) => either(sharpen_fault::<A>(*params), count_fault(shape)) == Some(e@),
        },
{
    if let Err(e) = crate::sharpen::validate::<A>(params) {
        return Err(e);
    }
    let n = match element_count(shape) {
        Ok(n) => n,
        Err(e) => return Err(e),
    };
    if single::same(params.amount, 0) || single::same(params.sigma, 0) || n == 0 {
        return copy_device(shape);
    }
    let mut plan = Plan::new(shape, n);
    let soft: usize = blur_steps::<A>(&mut plan, 0, shape, n, params.sigma);
    let out: usize = allocate_image(&mut plan, n);
    let args: Vec<Arg> = vec![
        Arg::Read { slot: 0, element: Element::Single, len: n },
        Arg::Read { slot: soft, element: Element::Single, len: n },
        Arg::Write { slot: out, element: Element::Single, len: n, lane: 0 },
        Arg::Single(params.amount),
        Arg::Single(params.threshold),
        Arg::Long(n as i64),
    ];
    proof {
        assert(args@ =~= seq![
            Arg::Read { slot: 0, element: Element::Single, len: n },
            Arg::Read { slot: soft, element: Element::Single, len: n },
            Arg::Write { slot: out, element: Element::Single, len: n, lane: 0 },
            Arg::Single(params.amount),
            Arg::Single(params.threshold),
            Arg::Long(n as i64),
        ]);
        assert(launchable(plan.buffers@, args@));
        reveal_with_fuel(after_writes, 7);
    }
    plan.launch("sharpen", "sharpen_apply_kernel", args, grid_1d(n), "kernel launch failed");
    plan.output = out;
    plan.shape = shape;
    proof {
        assert(plan@ =~= sharpen_acts::<A>(shape, *params));
    }
    Ok(plan)
}

} // verus!
