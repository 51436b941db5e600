//! Launch geometry, and the plans with one launch.

use vstd::prelude::*;

use crate::allocation::{countable, element_count, shape_fault};
use crate::cuda::plan::{after_writes, Act, Arg, Buffer, Element, Grid, Plan};
use crate::error::{PhaiosError, Report};
use crate::raster::volume;
use crate::text::triple;

verus! {

/// The geometry for `n` elements along one axis: blocks of 1024 threads, as many
/// as it takes.
pub open spec fn line_of(n: u32) -> Grid {
    Grid { grid: (((n + 1023) / 1024) as u32, 1, 1), block: (1024, 1, 1), shared: 0 }
}

/// `cudarc::driver::LaunchConfig::for_num_elems`: one axis, 1024 threads to a
/// block, the number of blocks rounded up, no shared memory.
#[verifier::external_body]
fn for_num_elems(n: u32) -> (r: Grid)
    ensures
        r == line_of(n),
{
    let config = cudarc::driver::LaunchConfig::for_num_elems(n);
    Grid { grid: config.grid_dim, block: config.block_dim, shared: config.shared_mem_bytes }
}

/// The geometry for `n` elements along one axis. The driver counts in 32 bits.
pub fn grid_1d(n: usize) -> (r: Grid)
    ensures
        r == line_of(n as u32),
{
    for_num_elems(n as u32)
}

/// The geometry for an image plane: blocks of 16 by 16 threads.
pub open spec fn plane_of(h: usize, w: usize) -> Grid {
    Grid {
        grid: (((w as u32 + 15) / 16) as u32, ((h as u32 + 15) / 16) as u32, 1),
        block: (16, 16, 1),
        shared: 0,
    }
}

fn blocks_of_16(n: u32) -> (r: u32)
    ensures
        r == (n + 15) / 16,
{
    if n % 16 == 0 {
        n / 16
    } else {
        n / 16 + 1
    }
}

/// The geometry for an image plane.
pub fn grid_2d(h: usize, w: usize) -> (r: Grid)
    ensures
        r == plane_of(h, w),
{
    Grid {
        grid: (blocks_of_16(w as u32), blocks_of_16(h as u32), 1),
        block: (16, 16, 1),
        shared: 0,
    }
}

/// What is wrong with a shape whose elements cannot be counted.
pub open spec fn count_fault(shape: (usize, usize, usize)) -> Option<Report> {
    if countable(shape) {
        None
    } else {
        Some(
            Report::Allocation(
                "shape "@ + triple(shape) + " has more elements than usize can count"@,
            ),
        )
    }
}

/// The first of two faults.
pub open spec fn either(first: Option<Report>, second: Option<Report>) -> Option<Report> {
    match first {
        Some(fault) => Some(fault),
        None => second,
    }
}

/// The number of elements that an image buffer is made with: those of the image,
/// or one that nothing reads.
pub open spec fn room_for(n: int) -> usize {
    if n == 0 {
        1
    } else {
        n as usize
    }
}

/// The step that makes room for an image.
pub open spec fn image_act(n: int) -> Act {
    Act::Allocate { element: Element::Single, len: room_for(n), lanes: 1 }
}

/// Appends the step that makes room for an image of `n` elements.
pub(crate) fn allocate_image(plan: &mut Plan, n: usize) -> (slot: usize)
    ensures
        slot == old(plan).buffers@.len(),
        final(plan)@ == old(plan)@.push(image_act(n as int)),
        final(plan).buffers@ == old(plan).buffers@.push(
            Buffer {
                element: Element::Single,
                len: room_for(n as int),
                lanes: 1,
                filled: 0,
                live: true,
            },
        ),
        final(plan).output == old(plan).output,
        final(plan).shape == old(plan).shape,
        forall|shape: (usize, usize, usize)| #[trigger]
            old(plan).valid(shape) ==> final(plan).valid(shape),
{
    plan.allocate(
        Element::Single,
        if n == 0 {
            1
        } else {
            n
        },
        1,
    )
}

/// The steps of a copy.
pub open spec fn copy_acts(n: int) -> Seq<Act> {
    if n == 0 {
        seq![image_act(n)]
    } else {
        seq![image_act(n), Act::Copy { from: 0, to: 1 }]
    }
}

/// Plans a copy of an image.
pub fn copy_device(shape: (usize, usize, usize)) -> (r: Result<Plan, PhaiosError>)
    ensures
        match r {
            Ok(plan) => {
                &&& count_fault(shape) is None
                &&& plan.sound(shape, Element::Single)
                &&& plan.shape == shape
                &&& plan.output == 1
                &&& plan@ == copy_acts(volume(shape))
            },
            Err(e) => count_fault(shape) == Some(e@),
        },
{
    let n = match element_count(shape) {
        Ok(n) => n,
        Err(e) => return Err(e),
    };
    let mut plan = Plan::new(shape, n);
    let out: usize = allocate_image(&mut plan, n);
    if n > 0 {
        plan.copy(0, out);
    }
    plan.output = out;
    proof {
        assert(plan@ =~= copy_acts(volume(shape)));
    }
    Ok(plan)
}

/// The steps of one launch from the image to a fresh one. The kernel's further
/// arguments follow the two buffers.
pub open spec fn map_acts(
    module: Seq<char>,
    kernel: Seq<char>,
    tail: Seq<Arg>,
    n: int,
    n_out: int,
    threads: int,
    what: Seq<char>,
) -> Seq<Act> {
    if n_out == 0 {
        seq![image_act(n_out)]
    } else {
        seq![
            image_act(n_out),
            Act::Launch {
                module,
                kernel,
                args: seq![
                    Arg::Read { slot: 0, element: Element::Single, len: n as usize },
                    Arg::Write { slot: 1, element: Element::Single, len: n_out as usize, lane: 0 },
                ] + tail,
                grid: line_of(threads as u32),
                what,
            },
        ]
    }
}

/// Whether the arguments are plain values.
pub open spec fn plain(args: Seq<Arg>) -> bool {
    forall|i: int| 0 <= i < args.len() ==> (#[trigger] args[i]).names() is None
}

/// Plain values write nothing.
pub proof fn plain_tail_writes_nothing(
    buffers: Seq<Buffer>,
    head: Seq<Arg>,
    tail: Seq<Arg>,
    n: int,
)
    requires
        plain(tail),
        0 <= n <= tail.len(),
    ensures
        after_writes(buffers, head + tail, head.len() + n) == after_writes(
            buffers,
            head,
            head.len() as int,
        ),
    decreases n,
{
    if n > 0 {
        plain_tail_writes_nothing(buffers, head, tail, n - 1);
        assert((head + tail)[head.len() + n - 1] == tail[n - 1]);
        assert(tail[n - 1].names() is None);
    } else {
        same_writes(buffers, head, head + tail, head.len() as int);
    }
}

/// The same first arguments write the same.
proof fn same_writes(buffers: Seq<Buffer>, args: Seq<Arg>, more: Seq<Arg>, n: int)
    requires
        n <= args.len() <= more.len(),
        forall|i: int| 0 <= i < n ==> args[i] == more[i],
    ensures
        after_writes(buffers, args, n) == after_writes(buffers, more, n),
    decreases n,
{
    if n > 0 {
        same_writes(buffers, args, more, n - 1);
    }
}

/// Plans one launch from an image of `n` elements to a fresh one of `n_out`.
pub(crate) fn map_device(
    shape: (usize, usize, usize),
    n: usize,
    shape_out: (usize, usize, usize),
    n_out: usize,
    module: &'static str,
    kernel: &'static str,
    tail: Vec<Arg>,
    threads: usize,
    what: &'static str,
) -> (plan: Plan)
    requires
        n == volume(shape),
        n_out == volume(shape_out),
        plain(tail@),
    ensures
        plan.sound(shape, Element::Single),
        plan.shape == shape_out,
        plan.output == 1,
        plan@ == map_acts(
            module@,
            kernel@,
            tail@,
            n as int,
            n_out as int,
            threads as int,
            what@,
        ),
{
    let mut plan = Plan::new(shape, n);
    let out: usize = allocate_image(&mut plan, n_out);
    if n_out > 0 {
        let ghost rest = tail@;
        let mut args: Vec<Arg> = vec![
            Arg::Read { slot: 0, element: Element::Single, len: n },
            Arg::Write { slot: out, element: Element::Single, len: n_out, lane: 0 },
        ];
        let ghost head = args@;
        let mut tail = tail;
        args.append(&mut tail);
        proof {
            assert(head =~= seq![
                Arg::Read { slot: 0, element: Element::Single, len: n },
                Arg::Write { slot: 1, element: Element::Single, len: n_out, lane: 0 },
            ]);
            assert(args@ =~= head + rest);
            assert forall|i: int| 0 <= i < args@.len() implies crate::cuda::plan::met(
                plan.buffers@,
                #[trigger] args@[i],
            ) by {
                if i >= 2 {
                    assert(args@[i] == rest[i - 2]);
                }
            }
            assert forall|i: int, j: int|
                0 <= i < j < args@.len() && (#[trigger] args@[i]).names() is Some implies
                args@[i].names() != (#[trigger] args@[j]).names() by {
                if i >= 2 {
                    assert(args@[i] == rest[i - 2]);
                }
                if j >= 2 {
                    assert(args@[j] == rest[j - 2]);
                }
            }
            plain_tail_writes_nothing(plan.buffers@, head, rest, rest.len() as int);
            reveal_with_fuel(after_writes, 3);
        }
        plan.launch(module, kernel, args, grid_1d(threads), what);
    }
    plan.output = out;
    plan.shape = shape_out;
    proof {
        assert(plan@ =~= map_acts(
            module@,
            kernel@,
            tail@,
            n as int,
            n_out as int,
            threads as int,
            what@,
        ));
    }
    plan
}

/// A shape that can be sent to a device can be planned for.
pub proof fn sent_shapes_can_be_planned(shape: (usize, usize, usize))
    requires
        shape_fault::<u32>(shape) is None,
    ensures
        count_fault(shape) is None,
{
}

/// A line that the driver can count has a thread for every element, and no block
/// without one.
pub proof fn a_line_is_covered(n: usize)
    requires
        n <= u32::MAX,
    ensures
        ({
            let g = line_of(n as u32);
            &&& n <= g.grid.0 * g.block.0 < n + g.block.0
            &&& g.grid.1 * g.block.1 == 1
            &&& g.grid.2 * g.block.2 == 1
        }),
{
}

/// A plane whose sides the driver can count has a thread for every pixel, and no row
/// or column of blocks without one.
pub proof fn a_plane_is_covered(h: usize, w: usize)
    requires
        h <= u32::MAX,
        w <= u32::MAX,
    ensures
        ({
            let g = plane_of(h, w);
            &&& g.block == (16u32, 16u32, 1u32)
            &&& w <= g.grid.0 * 16 < w + 16
            &&& h <= g.grid.1 * 16 < h + 16
            &&& g.grid.2 == 1
        }),
{
}

} // verus!
