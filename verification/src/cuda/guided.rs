//! Plans for the guided filter: local contrast and denoising.

use vstd::prelude::*;

use crate::allocation::element_count;
use crate::arith::{faithful, times, times_of, Arithmetic};
use crate::bw::LuminanceStandard;
use crate::cuda::launch::{
    allocate_image, copy_acts, copy_device, count_fault, either, grid_1d, grid_2d, image_act,
    line_of, plain, plain_tail_writes_nothing, plane_of,
};
use crate::cuda::plan::{after_writes, launchable, met, Act, Arg, Buffer, Element, Plan};
use crate::denoise::{denoise_fault, DenoiseParams};
use crate::error::{PhaiosError, Report};
use crate::local_contrast::{contrast_fault, GuidedFilterParams};
use crate::raster::volume;
use crate::single;

verus! {

/// A radius as a kernel takes it: beyond the image it makes no difference.
pub open spec fn clamped_radius(radius: u32, shape: (usize, usize, usize)) -> i32 {
    let side = (if shape.0 > shape.1 {
        shape.0
    } else {
        shape.1
    }) as u32;
    (if radius < side {
        radius
    } else {
        side
    }) as i32
}

fn clamp_radius(radius: u32, shape: (usize, usize, usize)) -> (r: i32)
    ensures
        r == clamped_radius(radius, shape),
{
    let side: u32 = (if shape.0 > shape.1 {
        shape.0
    } else {
        shape.1
    }) as u32;
    (if radius < side {
        radius
    } else {
        side
    }) as i32
}

/// A launch over the image plane.
pub open spec fn plane_act(
    module: Seq<char>,
    kernel: Seq<char>,
    args: Seq<Arg>,
    shape: (usize, usize, usize),
    what: Seq<char>,
) -> Act {
    Act::Launch { module, kernel, args, grid: plane_of(shape.0, shape.1), what }
}

/// A read of a whole buffer of `n` single-precision numbers.
pub open spec fn read_of(slot: int, n: int) -> Arg {
    Arg::Read { slot: slot as usize, element: Element::Single, len: n as usize }
}

/// A write of a whole buffer of `n` single-precision numbers.
pub open spec fn write_of(slot: int, n: int) -> Arg {
    Arg::Write { slot: slot as usize, element: Element::Single, len: n as usize, lane: 0 }
}

/// The step that makes a buffer of `n` elements.
pub open spec fn make_of(element: Element, n: int) -> Act {
    Act::Allocate { element, len: n as usize, lanes: 1 }
}

/// The steps of local contrast with the guided filter: the sums of numbers and
/// squares along the rows; the local models; the sums of their slopes and offsets,
/// in the buffers of the first sums; and the result.
pub open spec fn contrast_acts(
    shape: (usize, usize, usize),
    params: GuidedFilterParams,
    strength: u32,
) -> Seq<Act> {
    let n = volume(shape);
    let h = Arg::Int(shape.0 as i32);
    let w = Arg::Int(shape.1 as i32);
    let r = Arg::Int(clamped_radius(params.radius, shape));
    if n == 0 {
        seq![image_act(n)]
    } else {
        seq![
            make_of(Element::Single, n),
            make_of(Element::Single, n),
            make_of(Element::Single, n),
            make_of(Element::Single, n),
            image_act(n),
            plane_act(
                "local_contrast"@,
                "box_h_l_l2"@,
                seq![read_of(0, n), write_of(1, n), write_of(2, n), h, w, r],
                shape,
                "box_h_l_l2 launch failed"@,
            ),
            plane_act(
                "local_contrast"@,
                "coeff_ab"@,
                seq![
                    read_of(1, n),
                    read_of(2, n),
                    write_of(3, n),
                    write_of(4, n),
                    h,
                    w,
                    r,
                    Arg::Single(params.eps),
                ],
                shape,
                "coeff_ab launch failed"@,
            ),
            plane_act(
                "local_contrast"@,
                "box_h_ab"@,
                seq![
                    read_of(3, n),
                    read_of(4, n),
                    Arg::Update { slot: 1, element: Element::Single, len: n as usize },
                    Arg::Update { slot: 2, element: Element::Single, len: n as usize },
                    h,
                    w,
                    r,
                ],
                shape,
                "box_h_ab launch failed"@,
            ),
            plane_act(
                "local_contrast"@,
                "final_out"@,
                seq![
                    read_of(1, n),
                    read_of(2, n),
                    read_of(0, n),
                    write_of(5, n),
                    h,
                    w,
                    r,
                    Arg::Single(strength),
                ],
                shape,
                "final_out launch failed"@,
            ),
        ]
    }
}

fn read(slot: usize, n: usize) -> (r: Arg)
    ensures
        r == read_of(slot as int, n as int),
{
    Arg::Read { slot, element: Element::Single, len: n }
}

fn write(slot: usize, n: usize) -> (r: Arg)
    ensures
        r == write_of(slot as int, n as int),
{
    Arg::Write { slot, element: Element::Single, len: n, lane: 0 }
}

/// A buffer of `n` elements, not written yet.
pub open spec fn fresh(element: Element, n: int) -> Buffer {
    Buffer { element, len: n as usize, lanes: 1, filled: 0, live: true }
}

/// A buffer of `n` elements, written.
pub open spec fn full(element: Element, n: int) -> Buffer {
    Buffer { element, len: n as usize, lanes: 1, filled: 1, live: true }
}

/// The buffers of local contrast once the first `k` of its launches are done.
spec fn contrast_buffers(n: int, k: int) -> Seq<Buffer> {
    let one = Element::Single;
    seq![
        full(one, n),
        if k >= 1 {
            full(one, n)
        } else {
            fresh(one, n)
        },
        if k >= 1 {
            full(one, n)
        } else {
            fresh(one, n)
        },
        if k >= 2 {
            full(one, n)
        } else {
            fresh(one, n)
        },
        if k >= 2 {
            full(one, n)
        } else {
            fresh(one, n)
        },
        if k >= 4 {
            full(one, n)
        } else {
            fresh(one, n)
        },
    ]
}

fn contrast_sums(
    plan: &mut Plan,
    shape: (usize, usize, usize),
    n: usize,
    extents: (Arg, Arg, Arg),
)
    requires
        n == volume(shape),
        old(plan).buffers@ == contrast_buffers(n as int, 0),
        extents.0.names() is None,
        extents.1.names() is None,
        extents.2.names() is None,
    ensures
        final(plan)@ == old(plan)@.push(
            plane_act(
                "local_contrast"@,
                "box_h_l_l2"@,
                seq![
                    read_of(0, n as int),
                    write_of(1, n as int),
                    write_of(2, n as int),
                    extents.0,
                    extents.1,
                    extents.2,
                ],
                shape,
                "box_h_l_l2 launch failed"@,
            ),
        ),
        final(plan).buffers@ == contrast_buffers(n as int, 1),
        forall|of: (usize, usize, usize)| #[trigger]
            old(plan).valid(of) ==> final(plan).valid(of),
{
    let (h, w, r) = extents;
    let args: Vec<Arg> = vec![
        read(0, n),
        write(1, n),
        write(2, n),
        h,
        w,
        r,
    ];
    proof {
        assert(args@ =~= seq![
            read_of(0, n as int),
            write_of(1, n as int),
            write_of(2, n as int),
            h,
            w,
            r,
        ]);
        assert(launchable(plan.buffers@, args@));
        reveal_with_fuel(after_writes, 7);
        assert(after_writes(plan.buffers@, args@, args@.len() as int) =~= contrast_buffers(
            n as int,
            1,
        ));
    }
    plan.launch(
        "local_contrast",
        "box_h_l_l2",
        args,
        grid_2d(shape.0, shape.1),
        "box_h_l_l2 launch failed",
    );
}

fn contrast_models(
    plan: &mut Plan,
    shape: (usize, usize, usize),
    n: usize,
    extents: (Arg, Arg, Arg),
    eps: u32,
)
    requires
        n == volume(shape),
        old(plan).buffers@ == contrast_buffers(n as int, 1),
        extents.0.names() is None,
        extents.1.names() is None,
        extents.2.names() is None,
    ensures
        final(plan)@ == old(plan)@.push(
            plane_act(
                "local_contrast"@,
                "coeff_ab"@,
                seq![
                    read_of(1, n as int),
                    read_of(2, n as int),
                    write_of(3, n as int),
                    write_of(4, n as int),
                    extents.0,
                    extents.1,
                    extents.2,
                    Arg::Single(eps),
                ],
                shape,
                "coeff_ab launch failed"@,
            ),
        ),
        final(plan).buffers@ == contrast_buffers(n as int, 2),
        forall|of: (usize, usize, usize)| #[trigger]
            old(plan).valid(of) ==> final(plan).valid(of),
{
    let (h, w, r) = extents;
    let args: Vec<Arg> = vec![
        read(1, n),
        read(2, n),
        write(3, n),
        write(4, n),
        h,
        w,
        r,
        Arg::Single(eps),
    ];
    proof {
        assert(args@ =~= seq![
            read_of(1, n as int),
            read_of(2, n as int),
            write_of(3, n as int),
            write_of(4, n as int),
            h,
            w,
            r,
            Arg::Single(eps),
        ]);
        assert(launchable(plan.buffers@, args@));
        reveal_with_fuel(after_writes, 9);
        assert(after_writes(plan.buffers@, args@, args@.len() as int) =~= contrast_buffers(
            n as int,
            2,
        ));
    }
    plan.launch(
        "local_contrast",
        "coeff_ab",
        args,
        grid_2d(shape.0, shape.1),
        "coeff_ab launch failed",
    );
}

fn contrast_means(
    plan: &mut Plan,
    shape: (usize, usize, usize),
    n: usize,
    extents: (Arg, Arg, Arg),
)
    requires
        n == volume(shape),
        old(plan).buffers@ == contrast_buffers(n as int, 2),
        extents.0.names() is None,
        extents.1.names() is None,
        extents.2.names() is None,
    ensures
        final(plan)@ == old(plan)@.push(
            plane_act(
                "local_contrast"@,
                "box_h_ab"@,
                seq![
                    read_of(3, n as int),
                    read_of(4, n as int),
                    Arg::Update { slot: 1, element: Element::Single, len: n },
                    Arg::Update { slot: 2, element: Element::Single, len: n },
                    extents.0,
                    extents.1,
                    extents.2,
                ],
                shape,
                "box_h_ab launch failed"@,
            ),
        ),
        final(plan).buffers@ == contrast_buffers(n as int, 3),
        forall|of: (usize, usize, usize)| #[trigger]
            old(plan).valid(of) ==> final(plan).valid(of),
{
    let (h, w, r) = extents;
    let args: Vec<Arg> = vec![
        read(3, n),
        read(4, n),
        Arg::Update { slot: 1, element: Element::Single, len: n },
        Arg::Update { slot: 2, element: Element::Single, len: n },
        h,
        w,
        r,
    ];
    proof {
        assert(args@ =~= seq![
            read_of(3, n as int),
            read_of(4, n as int),
            Arg::Update { slot: 1, element: Element::Single, len: n },
            Arg::Update { slot: 2, element: Element::Single, len: n },
            h,
            w,
            r,
        ]);
        assert(launchable(plan.buffers@, args@));
        reveal_with_fuel(after_writes, 8);
        assert(after_writes(plan.buffers@, args@, args@.len() as int) =~= contrast_buffers(
            n as int,
            3,
        ));
    }
    plan.launch(
        "local_contrast",
        "box_h_ab",
        args,
        grid_2d(shape.0, shape.1),
        "box_h_ab launch failed",
    );
}

fn contrast_result(
    plan: &mut Plan,
    shape: (usize, usize, usize),
    n: usize,
    extents: (Arg, Arg, Arg),
    strength: u32,
)
    requires
        n == volume(shape),
        old(plan).buffers@ == contrast_buffers(n as int, 3),
        extents.0.names() is None,
        extents.1.names() is None,
        extents.2.names() is None,
    ensures
        final(plan)@ == old(plan)@.push(
            plane_act(
                "local_contrast"@,
                "final_out"@,
                seq![
                    read_of(1, n as int),
                    read_of(2, n as int),
                    read_of(0, n as int),
                    write_of(5, n as int),
                    extents.0,
                    extents.1,
                    extents.2,
                    Arg::Single(strength),
                ],
                shape,
                "final_out launch failed"@,
            ),
        ),
        final(plan).buffers@ == contrast_buffers(n as int, 4),
        forall|of: (usize, usize, usize)| #[trigger]
            old(plan).valid(of) ==> final(plan).valid(of),
{
    let (h, w, r) = extents;
    let args: Vec<Arg> = vec![
        read(1, n),
        read(2, n),
        read(0, n),
        write(5, n),
        h,
        w,
        r,
        Arg::Single(strength),
    ];
    proof {
        assert(args@ =~= seq![
            read_of(1, n as int),
            read_of(2, n as int),
            read_of(0, n as int),
            write_of(5, n as int),
            h,
            w,
            r,
            Arg::Single(strength),
        ]);
        assert(launchable(plan.buffers@, args@));
        reveal_with_fuel(after_writes, 9);
        assert(after_writes(plan.buffers@, args@, args@.len() as int) =~= contrast_buffers(
            n as int,
            4,
        ));
    }
    plan.launch(
        "local_contrast",
        "final_out",
        args,
        grid_2d(shape.0, shape.1),
        "final_out launch failed",
    );
}

fn contrast_steps(
    shape: (usize, usize, usize),
    n: usize,
    params: &GuidedFilterParams,
    strength: u32,
) -> (plan: Plan)
    requires
        0 < n == volume(shape),
    ensures
        plan.sound(shape, Element::Single),
        plan.shape == shape,
        plan.output == 5,
        plan@ == contrast_acts(shape, *params, strength),
{
    let extents: (Arg, Arg, Arg) = (
        Arg::Int(shape.0 as i32),
        Arg::Int(shape.1 as i32),
        Arg::Int(clamp_radius(params.radius, shape)),
    );
    let mut plan = Plan::new(shape, n);
    plan.allocate(Element::Single, n, 1);
    plan.allocate(Element::Single, n, 1);
    plan.allocate(Element::Single, n, 1);
    plan.allocate(Element::Single, n, 1);
    let out: usize = allocate_image(&mut plan, n);
    proof {
        assert(plan.buffers@ =~= contrast_buffers(n as int, 0));
    }
    contrast_sums(&mut plan, shape, n, extents);
    contrast_models(&mut plan, shape, n, extents, params.eps);
    contrast_means(&mut plan, shape, n, extents);
    contrast_result(&mut plan, shape, n, extents, strength);
    plan.output = out;
    plan.shape = shape;
    proof {
        assert(plan@ =~= contrast_acts(shape, *params, strength));
    }
    plan
}

/// Plans local contrast.
pub fn local_contrast_device<A: Arithmetic>(
    shape: (usize, usize, usize),
    params: &GuidedFilterParams,
    strength: u32,
) -> (r: Result<Plan, PhaiosError>)
    requires
        faithful::<A>(),
    ensures
        match r {
            Ok(plan) => {
                &&& contrast_fault::<A>(shape, *params, strength) is None
                &&& count_fault(shape) is None
                &&& plan.sound(shape, Element::Single)
                &&& plan.shape == shape
                &&& plan@ == contrast_acts(shape, *params, strength)
                &&& plan.output == if volume(shape) == 0 {
                    1int
                } else {
                    5int
                }
            },
            Err(e) => either(
                contrast_fault::<A>(shape, *params, strength),
                count_fault(shape),
            ) == Some(e@),
        },
{
    if let Err(e) = crate::local_contrast::validate::<A>(shape, params, strength) {
        return Err(e);
    }
    let n = match element_count(shape) {
        Ok(n) => n,
        Err(e) => return Err(e),
    };
    if n == 0 {
        let mut plan = Plan::new(shape, n);
        let out: usize = allocate_image(&mut plan, n);
        plan.output = out;
        proof {
            assert(plan@ =~= contrast_acts(shape, *params, strength));
        }
        return Ok(plan);
    }
    Ok(contrast_steps(shape, n, params, strength))
}

/// Whether no argument writes.
pub open spec fn reading(args: Seq<Arg>) -> bool {
    forall|i: int|
        0 <= i < args.len() ==> (#[trigger] args[i]) is Read || args[i].names() is None
}

/// Arguments that do not write change nothing.
proof fn reads_change_nothing(buffers: Seq<Buffer>, args: Seq<Arg>, n: int)
    requires
        n <= args.len(),
        forall|i: int|
            0 <= i < n ==> (#[trigger] args[i]) is Read || args[i].names() is None,
    ensures
        after_writes(buffers, args, n) == buffers,
    decreases n,
{
    if n > 0 {
        reads_change_nothing(buffers, args, n - 1);
        assert(args[n - 1] is Read || args[n - 1].names() is None);
    }
}

/// The arguments of a launch that fills two buffers.
pub open spec fn filling_args(
    element: Element,
    n: int,
    next: int,
    before: Seq<Arg>,
    after: Seq<Arg>,
) -> Seq<Arg> {
    before + seq![
        Arg::Write { slot: next as usize, element, len: n as usize, lane: 0 },
        Arg::Write { slot: (next + 1) as usize, element, len: n as usize, lane: 0 },
    ] + after
}

/// The steps that make two buffers and fill them with one launch.
pub open spec fn filling_acts(
    element: Element,
    shape: (usize, usize, usize),
    next: int,
    module: Seq<char>,
    kernel: Seq<char>,
    before: Seq<Arg>,
    after: Seq<Arg>,
    what: Seq<char>,
) -> Seq<Act> {
    let n = volume((shape.0, shape.1, 1));
    seq![
        make_of(element, n),
        make_of(element, n),
        plane_act(module, kernel, filling_args(element, n, next, before, after), shape, what),
    ]
}

/// A launch that fills two fresh buffers can be taken, and fills them.
proof fn filling_fills(
    buffers: Seq<Buffer>,
    element: Element,
    n: int,
    before: Seq<Arg>,
    after: Seq<Arg>,
)
    requires
        launchable(buffers, before),
        reading(before),
        plain(after),
        buffers.len() < 1000,
    ensures
        ({
            let next = buffers.len() as int;
            let more = buffers.push(fresh(element, n)).push(fresh(element, n));
            let args = filling_args(element, n, next, before, after);
            &&& launchable(more, args)
            &&& after_writes(more, args, args.len() as int) == buffers.push(
                full(element, n),
            ).push(full(element, n))
        }),
{
    let next = buffers.len() as int;
    let more = buffers.push(fresh(element, n)).push(fresh(element, n));
    let args = filling_args(element, n, next, before, after);
    let m = before.len() as int;
    assert forall|i: int| 0 <= i < args.len() implies met(more, #[trigger] args[i]) by {
        if i < m {
            assert(args[i] == before[i] && met(buffers, before[i]));
        } else if i >= m + 2 {
            assert(args[i] == after[i - m - 2]);
        }
    }
    assert forall|i: int, j: int|
        0 <= i < j < args.len() && (#[trigger] args[i]).names() is Some implies args[i].names()
        != (#[trigger] args[j]).names() by {
        if i < m {
            assert(args[i] == before[i] && met(buffers, before[i]));
        }
        if j < m {
            assert(args[j] == before[j] && met(buffers, before[j]));
        }
        if i >= m + 2 {
            assert(args[i] == after[i - m - 2]);
        }
        if j >= m + 2 {
            assert(args[j] == after[j - m - 2]);
        }
    }
    let head = before + seq![
        Arg::Write { slot: next as usize, element, len: n as usize, lane: 0 },
        Arg::Write { slot: (next + 1) as usize, element, len: n as usize, lane: 0 },
    ];
    assert(args =~= head + after);
    plain_tail_writes_nothing(more, head, after, after.len() as int);
    assert forall|i: int| 0 <= i < m implies (#[trigger] head[i]) is Read
        || head[i].names() is None by {
        assert(head[i] == before[i]);
    }
    reads_change_nothing(more, head, m);
    assert(after_writes(more, head, m + 1) =~= buffers.push(full(element, n)).push(
        fresh(element, n),
    ));
    assert(after_writes(more, head, m + 2) =~= buffers.push(full(element, n)).push(
        full(element, n),
    ));
}

/// Appends two fresh buffers and a launch that fills them.
fn fill(
    plan: &mut Plan,
    element: Element,
    shape: (usize, usize, usize),
    n: usize,
    module: &'static str,
    kernel: &'static str,
    before: Vec<Arg>,
    after: Vec<Arg>,
    what: &'static str,
) -> (r: (usize, usize))
    requires
        n == volume((shape.0, shape.1, 1)),
        launchable(old(plan).buffers@, before@),
        reading(before@),
        plain(after@),
        old(plan).buffers@.len() < 1000,
    ensures
        r.0 == old(plan).buffers@.len(),
        r.1 == old(plan).buffers@.len() + 1,
        final(plan)@ == old(plan)@ + filling_acts(
            element,
            shape,
            old(plan).buffers@.len() as int,
            module@,
            kernel@,
            before@,
            after@,
            what@,
        ),
        final(plan).buffers@ == old(plan).buffers@.push(full(element, n as int)).push(
            full(element, n as int),
        ),
        forall|of: (usize, usize, usize)| #[trigger]
            old(plan).valid(of) ==> final(plan).valid(of),
{
    let ghost start = plan.buffers@;
    let ghost given = before@;
    let ghost rest = after@;
    let x: usize = plan.allocate(element, n, 1);
    let y: usize = plan.allocate(element, n, 1);
    let mut args = before;
    args.push(Arg::Write { slot: x, element, len: n, lane: 0 });
    args.push(Arg::Write { slot: y, element, len: n, lane: 0 });
    let mut tail = after;
    args.append(&mut tail);
    proof {
        assert(args@ =~= filling_args(element, n as int, start.len() as int, given, rest));
        filling_fills(start, element, n as int, given, rest);
        assert(plan.buffers@ =~= start.push(fresh(element, n as int)).push(
            fresh(element, n as int),
        ));
    }
    plan.launch(module, kernel, args, grid_2d(shape.0, shape.1), what);
    proof {
        assert(plan@ =~= old(plan)@ + filling_acts(
            element,
            shape,
            start.len() as int,
            module@,
            kernel@,
            given,
            rest,
            what@,
        ));
    }
    (x, y)
}

/// The extents and the radius as a kernel takes them.
pub open spec fn plane_args(shape: (usize, usize, usize), radius: u32) -> Seq<Arg> {
    seq![
        Arg::Int(shape.0 as i32),
        Arg::Int(shape.1 as i32),
        Arg::Int(clamped_radius(radius, shape)),
    ]
}

/// What denoising under a guide is told.
#[derive(Clone, Copy, Debug)]
pub struct Guidance {
    pub radius: u32,
    pub eps: u32,
    pub neg_amount: u32,
}

/// A read of a whole buffer of `n` numbers.
pub open spec fn reads(slot: int, element: Element, n: int) -> Arg {
    Arg::Read { slot: slot as usize, element, len: n as usize }
}

/// The steps for one channel under the guide in buffer 2, whose sums are in
/// buffers 3 and 4: the sums of the channel and of its product with the guide;
/// the models; their sums; and the channel's lane of the result in buffer 1.
pub open spec fn channel_acts(
    shape: (usize, usize, usize),
    g: Guidance,
    ch: int,
) -> Seq<Act> {
    let n = volume((shape.0, shape.1, 1));
    let base = 5 + 6 * ch;
    let at = plane_args(shape, g.radius);
    let one = Element::Single;
    let two = Element::Double;
    filling_acts(
        two,
        shape,
        base,
        "denoise"@,
        "box_h_cross"@,
        seq![reads(2, one, n), reads(0, one, volume(shape)), Arg::Int(ch as i32), Arg::Int(3)],
        at,
        "box_h_cross launch failed"@,
    ) + filling_acts(
        one,
        shape,
        base + 2,
        "denoise"@,
        "coeff_ab_cross"@,
        seq![reads(3, two, n), reads(4, two, n), reads(base, two, n), reads(base + 1, two, n)],
        at + seq![Arg::Single(g.eps)],
        "coeff_ab_cross launch failed"@,
    ) + filling_acts(
        one,
        shape,
        base + 4,
        "local_contrast"@,
        "box_h_ab"@,
        seq![reads(base + 2, one, n), reads(base + 3, one, n)],
        at,
        "box_h_ab launch failed"@,
    ) + seq![
        plane_act(
            "denoise"@,
            "final_out_cross"@,
            seq![
                reads(base + 4, one, n),
                reads(base + 5, one, n),
                reads(2, one, n),
                reads(0, one, volume(shape)),
                Arg::Write {
                    slot: 1,
                    element: one,
                    len: volume(shape) as usize,
                    lane: ch as usize,
                },
                Arg::Int(ch as i32),
                Arg::Int(3),
                at[0],
                at[1],
                at[2],
                Arg::Single(g.neg_amount),
            ],
            shape,
            "final_out_cross launch failed"@,
        ),
        Act::Release { slot: (base + 5) as usize },
        Act::Release { slot: (base + 4) as usize },
        Act::Release { slot: (base + 3) as usize },
        Act::Release { slot: (base + 2) as usize },
        Act::Release { slot: (base + 1) as usize },
        Act::Release { slot: base as usize },
    ]
}

/// Whether the buffers are those of denoising with `ch` channels done: image,
/// result, guide and the guide's sums, and six released ones for each channel.
spec fn guided_buffers(buffers: Seq<Buffer>, shape: (usize, usize, usize), ch: int) -> bool {
    let n = volume((shape.0, shape.1, 1));
    &&& buffers.len() == 5 + 6 * ch
    &&& buffers[0] == full(Element::Single, volume(shape))
    &&& buffers[1] == (Buffer {
        element: Element::Single,
        len: volume(shape) as usize,
        lanes: 3,
        filled: ch as usize,
        live: true,
    })
    &&& buffers[2] == full(Element::Single, n)
    &&& buffers[3] == full(Element::Double, n)
    &&& buffers[4] == full(Element::Double, n)
}

fn extents_and_radius(shape: (usize, usize, usize), radius: u32) -> (r: Vec<Arg>)
    ensures
        r@ == plane_args(shape, radius),
        plain(r@),
{
    let r: Vec<Arg> = vec![
        Arg::Int(shape.0 as i32),
        Arg::Int(shape.1 as i32),
        Arg::Int(clamp_radius(radius, shape)),
    ];
    proof {
        assert(r@ =~= plane_args(shape, radius));
    }
    r
}

/// Appends the launch that writes one lane of the result.
fn combine_channel(
    plan: &mut Plan,
    shape: (usize, usize, usize),
    n: usize,
    n3: usize,
    g: &Guidance,
    ch: usize,
)
    requires
        ch < 3,
        n == volume((shape.0, shape.1, 1)),
        n3 == volume(shape),
        old(plan).buffers@.len() == 11 + 6 * ch,
        guided_buffers(old(plan).buffers@.take(5 + 6 * ch), shape, ch as int),
        old(plan).buffers@[9 + 6 * ch] == full(Element::Single, n as int),
        old(plan).buffers@[10 + 6 * ch] == full(Element::Single, n as int),
    ensures
        final(plan)@ == old(plan)@.push(
            channel_acts(shape, *g, ch as int)[9],
        ),
        final(plan).buffers@ == old(plan).buffers@.update(
            1,
            Buffer { filled: (ch + 1) as usize, ..old(plan).buffers@[1] },
        ),
        forall|of: (usize, usize, usize)| #[trigger]
            old(plan).valid(of) ==> final(plan).valid(of),
{
    let base: usize = 5 + 6 * ch;
    let ghost at = plane_args(shape, g.radius);
    let args: Vec<Arg> = vec![
        Arg::Read { slot: base + 4, element: Element::Single, len: n },
        Arg::Read { slot: base + 5, element: Element::Single, len: n },
        Arg::Read { slot: 2, element: Element::Single, len: n },
        Arg::Read { slot: 0, element: Element::Single, len: n3 },
        Arg::Write { slot: 1, element: Element::Single, len: n3, lane: ch },
        Arg::Int(ch as i32),
        Arg::Int(3),
        Arg::Int(shape.0 as i32),
        Arg::Int(shape.1 as i32),
        Arg::Int(clamp_radius(g.radius, shape)),
        Arg::Single(g.neg_amount),
    ];
    let ghost start = plan.buffers@;
    proof {
        assert(args@ =~= seq![
            reads(base + 4, Element::Single, n as int),
            reads(base + 5, Element::Single, n as int),
            reads(2, Element::Single, n as int),
            reads(0, Element::Single, n3 as int),
            Arg::Write { slot: 1, element: Element::Single, len: n3, lane: ch },
            Arg::Int(ch as i32),
            Arg::Int(3),
            at[0],
            at[1],
            at[2],
            Arg::Single(g.neg_amount),
        ]);
        assert(start[0] == start.take(5 + 6 * ch)[0]);
        assert(start[1] == start.take(5 + 6 * ch)[1]);
        assert(start[2] == start.take(5 + 6 * ch)[2]);
        assert(launchable(start, args@));
        reveal_with_fuel(after_writes, 12);
        assert(after_writes(start, args@, 11) =~= start.update(
            1,
            Buffer { filled: (ch + 1) as usize, ..start[1] },
        ));
    }
    plan.launch(
        "denoise",
        "final_out_cross",
        args,
        grid_2d(shape.0, shape.1),
        "final_out_cross launch failed",
    );
}

/// Appends the release of the last six buffers, the last one first.
fn release_six(plan: &mut Plan, base: usize)
    requires
        base + 6 == old(plan).buffers@.len() < 1000,
        forall|s: int| base <= s < base + 6 ==> (#[trigger] old(plan).buffers@[s]).live,
    ensures
        final(plan)@ == old(plan)@ + seq![
            Act::Release { slot: (base + 5) as usize },
            Act::Release { slot: (base + 4) as usize },
            Act::Release { slot: (base + 3) as usize },
            Act::Release { slot: (base + 2) as usize },
            Act::Release { slot: (base + 1) as usize },
            Act::Release { slot: base },
        ],
        final(plan).buffers@.len() == old(plan).buffers@.len(),
        forall|s: int|
            0 <= s < base ==> (#[trigger] final(plan).buffers@[s]) == old(plan).buffers@[s],
        forall|of: (usize, usize, usize)| #[trigger]
            old(plan).valid(of) ==> final(plan).valid(of),
{
    plan.release(base + 5);
    plan.release(base + 4);
    plan.release(base + 3);
    plan.release(base + 2);
    plan.release(base + 1);
    plan.release(base);
    proof {
        assert(plan@ =~= old(plan)@ + seq![
            Act::Release { slot: (base + 5) as usize },
            Act::Release { slot: (base + 4) as usize },
            Act::Release { slot: (base + 3) as usize },
            Act::Release { slot: (base + 2) as usize },
            Act::Release { slot: (base + 1) as usize },
            Act::Release { slot: base },
        ]);
    }
}

/// Appends the sums, the models and the models' sums of one channel.
fn model_channel(
    plan: &mut Plan,
    shape: (usize, usize, usize),
    n: usize,
    n3: usize,
    g: &Guidance,
    ch: usize,
)
    requires
        ch < 3,
        n == volume((shape.0, shape.1, 1)),
        n3 == volume(shape),
        guided_buffers(old(plan).buffers@, shape, ch as int),
    ensures
        final(plan)@ == old(plan)@ + channel_acts(shape, *g, ch as int).take(9),
        final(plan).buffers@ == old(plan).buffers@ + seq![
            full(Element::Double, n as int),
            full(Element::Double, n as int),
            full(Element::Single, n as int),
            full(Element::Single, n as int),
            full(Element::Single, n as int),
            full(Element::Single, n as int),
        ],
        forall|of: (usize, usize, usize)| #[trigger]
            old(plan).valid(of) ==> final(plan).valid(of),
{
    let base: usize = 5 + 6 * ch;
    let ghost at = plane_args(shape, g.radius);
    let sums: Vec<Arg> = vec![
        Arg::Read { slot: 2, element: Element::Single, len: n },
        Arg::Read { slot: 0, element: Element::Single, len: n3 },
        Arg::Int(ch as i32),
        Arg::Int(3),
    ];
    proof {
        assert(sums@ =~= seq![
            reads(2, Element::Single, n as int),
            reads(0, Element::Single, n3 as int),
            Arg::Int(ch as i32),
            Arg::Int(3),
        ]);
        assert(launchable(plan.buffers@, sums@));
    }
    fill(
        plan,
        Element::Double,
        shape,
        n,
        "denoise",
        "box_h_cross",
        sums,
        extents_and_radius(shape, g.radius),
        "box_h_cross launch failed",
    );
    let models: Vec<Arg> = vec![
        Arg::Read { slot: 3, element: Element::Double, len: n },
        Arg::Read { slot: 4, element: Element::Double, len: n },
        Arg::Read { slot: base, element: Element::Double, len: n },
        Arg::Read { slot: base + 1, element: Element::Double, len: n },
    ];
    proof {
        assert(models@ =~= seq![
            reads(3, Element::Double, n as int),
            reads(4, Element::Double, n as int),
            reads(base as int, Element::Double, n as int),
            reads(base + 1, Element::Double, n as int),
        ]);
        assert(launchable(plan.buffers@, models@));
    }
    let mut tail: Vec<Arg> = extents_and_radius(shape, g.radius);
    tail.push(Arg::Single(g.eps));
    proof {
        assert(tail@ =~= at + seq![Arg::Single(g.eps)]);
    }
    fill(
        plan,
        Element::Single,
        shape,
        n,
        "denoise",
        "coeff_ab_cross",
        models,
        tail,
        "coeff_ab_cross launch failed",
    );
    let means: Vec<Arg> = vec![
        Arg::Read { slot: base + 2, element: Element::Single, len: n },
        Arg::Read { slot: base + 3, element: Element::Single, len: n },
    ];
    proof {
        assert(means@ =~= seq![
            reads(base + 2, Element::Single, n as int),
            reads(base + 3, Element::Single, n as int),
        ]);
        assert(launchable(plan.buffers@, means@));
    }
    fill(
        plan,
        Element::Single,
        shape,
        n,
        "local_contrast",
        "box_h_ab",
        means,
        extents_and_radius(shape, g.radius),
        "box_h_ab launch failed",
    );
    proof {
        assert(plan.buffers@ =~= old(plan).buffers@ + seq![
            full(Element::Double, n as int),
            full(Element::Double, n as int),
            full(Element::Single, n as int),
            full(Element::Single, n as int),
            full(Element::Single, n as int),
            full(Element::Single, n as int),
        ]);
        assert(plan@ =~= old(plan)@ + channel_acts(shape, *g, ch as int).take(9));
    }
}

/// Appends the steps for one channel.
fn channel_steps(
    plan: &mut Plan,
    shape: (usize, usize, usize),
    n: usize,
    n3: usize,
    g: &Guidance,
    ch: usize,
)
    requires
        ch < 3,
        n == volume((shape.0, shape.1, 1)),
        n3 == volume(shape),
        guided_buffers(old(plan).buffers@, shape, ch as int),
    ensures
        final(plan)@ == old(plan)@ + channel_acts(shape, *g, ch as int),
        guided_buffers(final(plan).buffers@, shape, ch + 1),
        forall|of: (usize, usize, usize)| #[trigger]
            old(plan).valid(of) ==> final(plan).valid(of),
{
    let ghost start = plan.buffers@;
    model_channel(plan, shape, n, n3, g, ch);
    proof {
        assert(plan.buffers@.take(5 + 6 * ch) =~= start);
    }
    combine_channel(plan, shape, n, n3, g, ch);
    release_six(plan, 5 + 6 * ch);
    proof {
        assert(plan@ =~= old(plan)@ + channel_acts(shape, *g, ch as int));
    }
}

/// The steps before the channels: room for the result, the guide, and the sums
/// of the guide and of its square.
pub open spec fn guide_acts(
    shape: (usize, usize, usize),
    g: Guidance,
    weights: Seq<u32>,
) -> Seq<Act> {
    let n = volume((shape.0, shape.1, 1));
    seq![
        Act::Allocate { element: Element::Single, len: volume(shape) as usize, lanes: 3 },
        image_act(n),
        Act::Launch {
            module: "luminance_bw"@,
            kernel: "luminance_bw_kernel"@,
            args: seq![
                reads(0, Element::Single, volume(shape)),
                write_of(2, n),
                Arg::Single(weights[0]),
                Arg::Single(weights[1]),
                Arg::Single(weights[2]),
                Arg::Long(n as i64),
            ],
            grid: line_of(n as u32),
            what: "kernel launch failed"@,
        },
    ] + filling_acts(
        Element::Double,
        shape,
        3,
        "local_contrast"@,
        "box_h_l_l2"@,
        seq![reads(2, Element::Single, n)],
        plane_args(shape, g.radius),
        "box_h_l_l2 launch failed"@,
    )
}

/// The steps of denoising three channels under their luminance.
pub open spec fn cross_acts(
    shape: (usize, usize, usize),
    g: Guidance,
    weights: Seq<u32>,
) -> Seq<Act> {
    guide_acts(shape, g, weights) + channel_acts(shape, g, 0) + channel_acts(shape, g, 1)
        + channel_acts(shape, g, 2)
}

fn guide_steps(
    plan: &mut Plan,
    shape: (usize, usize, usize),
    n: usize,
    n3: usize,
    g: &Guidance,
    standard: LuminanceStandard,
)
    requires
        0 < n == volume((shape.0, shape.1, 1)),
        n3 == volume(shape),
        old(plan)@ == Seq::<Act>::empty(),
        old(plan).buffers@ == seq![full(Element::Single, volume(shape))],
    ensures
        final(plan)@ == guide_acts(shape, *g, standard.coefficients()),
        guided_buffers(final(plan).buffers@, shape, 0),
        forall|of: (usize, usize, usize)| #[trigger]
            old(plan).valid(of) ==> final(plan).valid(of),
{
    let weights: [u32; 3] = standard.weights();
    plan.allocate(Element::Single, n3, 3);
    let guide: usize = allocate_image(plan, n);
    let args: Vec<Arg> = vec![
        Arg::Read { slot: 0, element: Element::Single, len: n3 },
        Arg::Write { slot: guide, element: Element::Single, len: n, lane: 0 },
        Arg::Single(weights[0]),
        Arg::Single(weights[1]),
        Arg::Single(weights[2]),
        Arg::Long(n as i64),
    ];
    proof {
        assert(args@ =~= seq![
            reads(0, Element::Single, n3 as int),
            write_of(2, n as int),
            Arg::Single(weights@[0]),
            Arg::Single(weights@[1]),
            Arg::Single(weights@[2]),
            Arg::Long(n as i64),
        ]);
        assert(launchable(plan.buffers@, args@));
        reveal_with_fuel(after_writes, 7);
    }
    plan.launch(
        "luminance_bw",
        "luminance_bw_kernel",
        args,
        grid_1d(n),
        "kernel launch failed",
    );
    let before: Vec<Arg> = vec![Arg::Read { slot: guide, element: Element::Single, len: n }];
    proof {
        assert(before@ =~= seq![reads(2, Element::Single, n as int)]);
        assert(launchable(plan.buffers@, before@));
    }
    fill(
        plan,
        Element::Double,
        shape,
        n,
        "local_contrast",
        "box_h_l_l2",
        before,
        extents_and_radius(shape, g.radius),
        "box_h_l_l2 launch failed",
    );
    proof {
        assert(plan@ =~= guide_acts(shape, *g, standard.coefficients()));
    }
}

/// Plans denoising of three channels under their luminance.
pub fn cross_guided_device(
    shape: (usize, usize, usize),
    g: &Guidance,
    standard: LuminanceStandard,
) -> (r: Result<Plan, PhaiosError>)
    requires
        shape.2 == 3,
        volume(shape) > 0,
    ensures
        match r {
            Ok(plan) => {
                &&& count_fault(shape) is None
                &&& plan.sound(shape, Element::Single)
                &&& plan.shape == shape
                &&& plan.output == 1
                &&& plan@ == cross_acts(shape, *g, standard.coefficients())
            },
            Err(e) => count_fault(shape) == Some(e@),
        },
{
    let n3 = match element_count(shape) {
        Ok(n) => n,
        Err(e) => return Err(e),
    };
    proof {
        assert(0 < shape.0 * shape.1) by (nonlinear_arith)
            requires
                shape.0 * shape.1 * 3 > 0,
        ;
        assert(volume((shape.0, shape.1, 1)) == shape.0 * shape.1) by (nonlinear_arith)
            requires
                volume((shape.0, shape.1, 1)) == shape.0 * shape.1 * 1,
        ;
    }
    let n: usize = shape.0 * shape.1;
    let mut plan = Plan::new(shape, n3);
    guide_steps(&mut plan, shape, n, n3, g, standard);
    channel_steps(&mut plan, shape, n, n3, g, 0);
    channel_steps(&mut plan, shape, n, n3, g, 1);
    channel_steps(&mut plan, shape, n, n3, g, 2);
    plan.output = 1;
    plan.shape = shape;
    proof {
        assert(plan@ =~= cross_acts(shape, *g, standard.coefficients()));
    }
    Ok(plan)
}

/// How denoising goes about an image.
#[derive(Debug)]
pub enum Denoising {
    /// The plan takes the whole image.
    Whole(Plan),
    /// The plan takes one channel; every channel is sent on its own.
    ByChannel(Plan),
}

/// What the filter is told: the regularisation is the noise's variance, and the
/// detail is taken off.
pub open spec fn guidance_of<A: Arithmetic>(params: DenoiseParams) -> Guidance {
    Guidance {
        radius: params.radius,
        eps: times_of::<A>(params.noise_sigma, params.noise_sigma),
        neg_amount: single::negated(params.amount),
    }
}

/// Whether denoising is a copy.
pub open spec fn denoise_copies(shape: (usize, usize, usize), params: DenoiseParams) -> bool {
    volume(shape) == 0 || single::same(params.amount, 0)
}

/// What is wrong with denoising on the device, if anything: what the host's kernel
/// says of the parameters, then a shape too large to count.
pub open spec fn denoise_device_fault<A: Arithmetic>(
    shape: (usize, usize, usize),
    params: DenoiseParams,
) -> Option<Report> {
    either(denoise_fault::<A>(params), count_fault(shape))
}

/// Plans denoising: a copy where nothing is to be taken off; three channels under
/// their luminance; and otherwise each channel under itself.
pub fn denoise_device<A: Arithmetic>(
    shape: (usize, usize, usize),
    params: &DenoiseParams,
) -> (r: Result<Denoising, PhaiosError>)
    requires
        faithful::<A>(),
    ensures
        match r {
            Ok(Denoising::Whole(plan)) => {
                let g = guidance_of::<A>(*params);
                &&& denoise_device_fault::<A>(shape, *params) is None
                &&& denoise_copies(shape, *params) || shape.2 == 3 || shape.2 == 1
                &&& plan.sound(shape, Element::Single)
                &&& plan.shape == shape
                &&& plan@ == if denoise_copies(shape, *params) {
                    copy_acts(volume(shape))
                } else if shape.2 == 3 {
                    cross_acts(shape, g, params.standard.coefficients())
                } else {
                    contrast_acts(
                        shape,
                        GuidedFilterParams { radius: g.radius, eps: g.eps },
                        g.neg_amount,
                    )
                }
                &&& plan.output == if denoise_copies(shape, *params) || shape.2 == 3 {
                    1int
                } else {
                    5int
                }
            },
            Ok(Denoising::ByChannel(plan)) => {
                let g = guidance_of::<A>(*params);
                let plane = (shape.0, shape.1, 1usize);
                &&& denoise_device_fault::<A>(shape, *params) is None
                &&& !denoise_copies(shape, *params)
                &&& shape.2 != 3
                &&& shape.2 != 1
                &&& plan.sound(plane, Element::Single)
                &&& plan.shape == plane
                &&& plan@ == contrast_acts(
                    plane,
                    GuidedFilterParams { radius: g.radius, eps: g.eps },
                    g.neg_amount,
                )
                &&& plan.output == 5
            },
            Err(e) => denoise_device_fault::<A>(shape, *params) == Some(e@),
        },
{
    if let Err(e) = crate::denoise::validate::<A>(params) {
        return Err(e);
    }
    let n = match element_count(shape) {
        Ok(n) => n,
        Err(e) => return Err(e),
    };
    if n == 0 || single::same(params.amount, 0) {
        return match copy_device(shape) {
            Ok(plan) => Ok(Denoising::Whole(plan)),
            Err(e) => Err(e),
        };
    }
    let eps: u32 = times::<A>(params.noise_sigma, params.noise_sigma);
    let neg_amount: u32 = single::negated(params.amount);
    if shape.2 == 3 {
        let g = Guidance { radius: params.radius, eps, neg_amount };
        return match cross_guided_device(shape, &g, params.standard) {
            Ok(plan) => Ok(Denoising::Whole(plan)),
            Err(e) => Err(e),
        };
    }
    let filter = GuidedFilterParams::new(params.radius, eps);
    let plane = (shape.0, shape.1, 1);
    proof {
        assert(volume(plane) == shape.0 * shape.1 && 0 < shape.0 * shape.1 <= volume(shape))
            by (nonlinear_arith)
            requires
                volume(plane) == shape.0 * shape.1 * 1,
                volume(shape) == shape.0 * shape.1 * shape.2,
                volume(shape) > 0,
                shape.0 >= 0,
                shape.1 >= 0,
                shape.2 >= 0,
        ;
    }
    let plan = contrast_steps(plane, shape.0 * shape.1, &filter, neg_amount);
    if shape.2 == 1 {
        Ok(Denoising::Whole(plan))
    } else {
        Ok(Denoising::ByChannel(plan))
    }
}

/// The number of launches among steps.
pub open spec fn launches(acts: Seq<Act>) -> nat
    decreases acts.len(),
{
    if acts.len() == 0 {
        0
    } else {
        launches(acts.drop_last()) + if acts.last() is Launch {
            1nat
        } else {
            0
        }
    }
}

proof fn launches_add_up(a: Seq<Act>, b: Seq<Act>)
    ensures
        launches(a + b) == launches(a) + launches(b),
    decreases b.len(),
{
    if b.len() == 0 {
        assert(a + b =~= a);
    } else {
        launches_add_up(a, b.drop_last());
        assert((a + b).drop_last() =~= a + b.drop_last());
        assert((a + b).last() == b.last());
    }
}

proof fn one_launch(acts: Seq<Act>, n: int, i: int)
    requires
        0 <= i < n <= acts.len(),
        forall|j: int| 0 <= j < n ==> ((#[trigger] acts[j]) is Launch <==> j == i),
    ensures
        launches(acts.take(n)) == 1,
    decreases n,
{
    let s = acts.take(n);
    assert(s.drop_last() =~= acts.take(n - 1));
    assert(s.last() == acts[n - 1]);
    if i < n - 1 {
        one_launch(acts, n - 1, i);
    } else {
        no_launch(acts, n - 1);
    }
}

proof fn no_launch(acts: Seq<Act>, n: int)
    requires
        0 <= n <= acts.len(),
        forall|j: int| 0 <= j < n ==> !((#[trigger] acts[j]) is Launch),
    ensures
        launches(acts.take(n)) == 0,
    decreases n,
{
    if n > 0 {
        let s = acts.take(n);
        assert(s.drop_last() =~= acts.take(n - 1));
        assert(s.last() == acts[n - 1]);
        no_launch(acts, n - 1);
    }
}

proof fn channel_takes_four_launches(shape: (usize, usize, usize), g: Guidance, ch: int)
    ensures
        launches(channel_acts(shape, g, ch)) == 4,
{
    let acts = channel_acts(shape, g, ch);
    assert(acts.len() == 16);
    let a = acts.subrange(0, 3);
    let b = acts.subrange(3, 6);
    let c = acts.subrange(6, 9);
    let d = acts.subrange(9, 16);
    one_launch(a, 3, 2);
    one_launch(b, 3, 2);
    one_launch(c, 3, 2);
    one_launch(d, 7, 0);
    assert(a.take(3) =~= a && b.take(3) =~= b && c.take(3) =~= c && d.take(7) =~= d);
    launches_add_up(a, b);
    launches_add_up(a + b, c);
    launches_add_up(a + b + c, d);
    assert(a + b + c + d =~= acts);
}

/// Denoising three channels under their luminance takes fourteen launches: one
/// for the guide, one for its sums and four for every channel.
pub proof fn cross_guidance_takes_fourteen_launches(
    shape: (usize, usize, usize),
    g: Guidance,
    weights: Seq<u32>,
)
    ensures
        launches(cross_acts(shape, g, weights)) == 14,
{
    let acts = guide_acts(shape, g, weights);
    assert(acts.len() == 6);
    let a = acts.subrange(0, 3);
    let b = acts.subrange(3, 6);
    one_launch(a, 3, 2);
    one_launch(b, 3, 2);
    assert(a.take(3) =~= a && b.take(3) =~= b);
    launches_add_up(a, b);
    assert(a + b =~= acts);
    channel_takes_four_launches(shape, g, 0);
    channel_takes_four_launches(shape, g, 1);
    channel_takes_four_launches(shape, g, 2);
    launches_add_up(acts, channel_acts(shape, g, 0));
    launches_add_up(acts + channel_acts(shape, g, 0), channel_acts(shape, g, 1));
    launches_add_up(
        acts + channel_acts(shape, g, 0) + channel_acts(shape, g, 1),
        channel_acts(shape, g, 2),
    );
}

/// Local contrast of an image that is not empty takes four launches.
pub proof fn local_contrast_takes_four_launches(
    shape: (usize, usize, usize),
    params: GuidedFilterParams,
    strength: u32,
)
    requires
        volume(shape) > 0,
    ensures
        launches(contrast_acts(shape, params, strength)) == 4,
{
    let acts = contrast_acts(shape, params, strength);
    assert(acts.len() == 9);
    let a = acts.subrange(0, 6);
    let b = acts.subrange(6, 7);
    let c = acts.subrange(7, 8);
    let d = acts.subrange(8, 9);
    one_launch(a, 6, 5);
    one_launch(b, 1, 0);
    one_launch(c, 1, 0);
    one_launch(d, 1, 0);
    assert(a.take(6) =~= a && b.take(1) =~= b && c.take(1) =~= c && d.take(1) =~= d);
    launches_add_up(a, b);
    launches_add_up(a + b, c);
    launches_add_up(a + b + c, d);
    assert(a + b + c + d =~= acts);
}

} // verus!
