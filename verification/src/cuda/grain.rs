//! Plans for film grain.

use vstd::prelude::*;

use crate::allocation::element_count;
use crate::arith::{faithful, Arithmetic};
use crate::cuda::guided::{fresh, full, make_of, plane_act, read_of, write_of};
use crate::cuda::launch::{
    allocate_image, copy_acts, copy_device, count_fault, either, grid_1d, grid_2d, image_act,
    line_of,
};
use crate::cuda::plan::{after_writes, launchable, Act, Arg, Buffer, Element, Plan};
use crate::error::PhaiosError;
use crate::film_grain::{
    bandpass_geometry, grain_fault, inner_radius, normalisation_of, outer_radius, GrainParams,
};
use crate::raster::volume;
use crate::single;

verus! {

/// The steps of film grain: the noise, its sums along the rows over both windows,
/// and the grain added.
pub open spec fn grain_acts<A: Arithmetic>(
    shape: (usize, usize, usize),
    params: GrainParams,
) -> Seq<Act> {
    let n = volume(shape);
    let h = Arg::Int(shape.0 as i32);
    let w = Arg::Int(shape.1 as i32);
    let inner = Arg::Int(inner_radius::<A>(params.size_pixels) as i32);
    let outer = Arg::Int(outer_radius::<A>(params.size_pixels) as i32);
    if single::same(params.intensity, 0) || n == 0 {
        copy_acts(n)
    } else {
        seq![
            make_of(Element::Single, n),
            make_of(Element::Single, n),
            make_of(Element::Single, n),
            image_act(n),
            plane_act(
                "film_grain"@,
                "grain_noise"@,
                seq![write_of(1, n), Arg::Word(params.seed), h, w],
                shape,
                "grain_noise launch failed"@,
            ),
            plane_act(
                "film_grain"@,
                "grain_h"@,
                seq![read_of(1, n), write_of(2, n), write_of(3, n), h, w, inner, outer],
                shape,
                "grain_h launch failed"@,
            ),
            plane_act(
                "film_grain"@,
                "grain_final"@,
                seq![
                    read_of(2, n),
                    read_of(3, n),
                    read_of(0, n),
                    write_of(4, n),
                    h,
                    w,
                    inner,
                    outer,
                    Arg::Single(params.intensity),
                    Arg::Single(normalisation_of::<A>(params.size_pixels)),
                ],
                shape,
                "grain_final launch failed"@,
            ),
        ]
    }
}

/// The buffers of film grain once the first `k` of its launches are done.
spec fn grain_buffers(n: int, k: int) -> Seq<Buffer> {
    let one = Element::Single;
    seq![
        full(one, n),
        if k >= 1 {
            full(one, n)
        } else {
            fresh(one, n)
        },
        if k >= 2 {
            full(one, n)
        } else {
            fresh(one, n)
        },
        if k >= 2 {
            full(one, n)
        } else {
            fresh(one, n)
        },
        if k >= 3 {
            full(one, n)
        } else {
            fresh(one, n)
        },
    ]
}

fn grain_noise(plan: &mut Plan, shape: (usize, usize, usize), n: usize, seed: u64)
    requires
        n == volume(shape),
        old(plan).buffers@ == grain_buffers(n as int, 0),
    ensures
        final(plan)@ == old(plan)@.push(
            plane_act(
                "film_grain"@,
                "grain_noise"@,
                seq![
                    write_of(1, n as int),
                    Arg::Word(seed),
                    Arg::Int(shape.0 as i32),
                    Arg::Int(shape.1 as i32),
                ],
                shape,
                "grain_noise launch failed"@,
            ),
        ),
        final(plan).buffers@ == grain_buffers(n as int, 1),
        forall|of: (usize, usize, usize)| #[trigger]
            old(plan).valid(of) ==> final(plan).valid(of),
{
    let args: Vec<Arg> = vec![
        Arg::Write { slot: 1, element: Element::Single, len: n, lane: 0 },
        Arg::Word(seed),
        Arg::Int(shape.0 as i32),
        Arg::Int(shape.1 as i32),
    ];
    proof {
        assert(args@ =~= seq![
            write_of(1, n as int),
            Arg::Word(seed),
            Arg::Int(shape.0 as i32),
            Arg::Int(shape.1 as i32),
        ]);
        assert(launchable(plan.buffers@, args@));
        reveal_with_fuel(after_writes, 5);
        assert(after_writes(plan.buffers@, args@, 4) =~= grain_buffers(n as int, 1));
    }
    plan.launch(
        "film_grain",
        "grain_noise",
        args,
        grid_2d(shape.0, shape.1),
        "grain_noise launch failed",
    );
}

fn grain_rows(
    plan: &mut Plan,
    shape: (usize, usize, usize),
    n: usize,
    inner: usize,
    outer: usize,
)
    requires
        n == volume(shape),
        old(plan).buffers@ == grain_buffers(n as int, 1),
    ensures
        final(plan)@ == old(plan)@.push(
            plane_act(
                "film_grain"@,
                "grain_h"@,
                seq![
                    read_of(1, n as int),
                    write_of(2, n as int),
                    write_of(3, n as int),
                    Arg::Int(shape.0 as i32),
                    Arg::Int(shape.1 as i32),
                    Arg::Int(inner as i32),
                    Arg::Int(outer as i32),
                ],
                shape,
                "grain_h launch failed"@,
            ),
        ),
        final(plan).buffers@ == grain_buffers(n as int, 2),
        forall|of: (usize, usize, usize)| #[trigger]
            old(plan).valid(of) ==> final(plan).valid(of),
{
    let args: Vec<Arg> = vec![
        Arg::Read { slot: 1, element: Element::Single, len: n },
        Arg::Write { slot: 2, element: Element::Single, len: n, lane: 0 },
        Arg::Write { slot: 3, element: Element::Single, len: n, lane: 0 },
        Arg::Int(shape.0 as i32),
        Arg::Int(shape.1 as i32),
        Arg::Int(inner as i32),
        Arg::Int(outer as i32),
    ];
    proof {
        assert(args@ =~= seq![
            read_of(1, n as int),
            write_of(2, n as int),
            write_of(3, n as int),
            Arg::Int(shape.0 as i32),
            Arg::Int(shape.1 as i32),
            Arg::Int(inner as i32),
            Arg::Int(outer as i32),
        ]);
        assert(launchable(plan.buffers@, args@));
        reveal_with_fuel(after_writes, 8);
        assert(after_writes(plan.buffers@, args@, 7) =~= grain_buffers(n as int, 2));
    }
    plan.launch(
        "film_grain",
        "grain_h",
        args,
        grid_2d(shape.0, shape.1),
        "grain_h launch failed",
    );
}

fn grain_result(
    plan: &mut Plan,
    shape: (usize, usize, usize),
    n: usize,
    inner: usize,
    outer: usize,
    intensity: u32,
    normalisation: u32,
)
    requires
        n == volume(shape),
        old(plan).buffers@ == grain_buffers(n as int, 2),
    ensures
        final(plan)@ == old(plan)@.push(
            plane_act(
                "film_grain"@,
                "grain_final"@,
                seq![
                    read_of(2, n as int),
                    read_of(3, n as int),
                    read_of(0, n as int),
                    write_of(4, n as int),
                    Arg::Int(shape.0 as i32),
                    Arg::Int(shape.1 as i32),
                    Arg::Int(inner as i32),
                    Arg::Int(outer as i32),
                    Arg::Single(intensity),
                    Arg::Single(normalisation),
                ],
                shape,
                "grain_final launch failed"@,
            ),
        ),
        final(plan).buffers@ == grain_buffers(n as int, 3),
        forall|of: (usize, usize, usize)| #[trigger]
            old(plan).valid(of) ==> final(plan).valid(of),
{
    let args: Vec<Arg> = vec![
        Arg::Read { slot: 2, element: Element::Single, len: n },
        Arg::Read { slot: 3, element: Element::Single, len: n },
        Arg::Read { slot: 0, element: Element::Single, len: n },
        Arg::Write { slot: 4, element: Element::Single, len: n, lane: 0 },
        Arg::Int(shape.0 as i32),
        Arg::Int(shape.1 as i32),
        Arg::Int(inner as i32),
        Arg::Int(outer as i32),
        Arg::Single(intensity),
        Arg::Single(normalisation),
    ];
    proof {
        assert(args@ =~= seq![
            read_of(2, n as int),
            read_of(3, n as int),
            read_of(0, n as int),
            write_of(4, n as int),
            Arg::Int(shape.0 as i32),
            Arg::Int(shape.1 as i32),
            Arg::Int(inner as i32),
            Arg::Int(outer as i32),
            Arg::Single(intensity),
            Arg::Single(normalisation),
        ]);
        assert(launchable(plan.buffers@, args@));
        reveal_with_fuel(after_writes, 11);
        assert(after_writes(plan.buffers@, args@, 10) =~= grain_buffers(n as int, 3));
    }
    plan.launch(
        "film_grain",
        "grain_final",
        args,
        grid_2d(shape.0, shape.1),
        "grain_final launch failed",
    );
}

/// Plans film grain: a copy where the grain has no intensity. The radii and the
/// normalisation are computed here.
pub fn film_grain_device<A: Arithmetic>(
    shape: (usize, usize, usize),
    params: &GrainParams,
) -> (r: Result<Plan, PhaiosError>)
    requires
        faithful::<A>(),
    ensures
        match r {
            Ok(plan) => {
                &&& grain_fault::<A>(shape, *params) is None
                &&& count_fault(shape) is None
                &&& plan.sound(shape, Element::Single)
                &&& plan.shape == shape
                &&& plan@ == grain_acts::<A>(shape, *params)
                &&& plan.output == if single::same(params.intensity, 0) || volume(shape) == 0 {
                    1int
                } else {
                    4int
                }
            },
            Err(e) => either(grain_fault::<A>(shape, *params), count_fault(shape)) == Some(e@),
        },
{
    if let Err(e) = crate::film_grain::validate::<A>(shape, params) {
        return Err(e);
    }
    let n = match element_count(shape) {
        Ok(n) => n,
        Err(e) => return Err(e),
    };
    if single::same(params.intensity, 0) || n == 0 {
        return copy_device(shape);
    }
    let (inner, outer, normalisation) = bandpass_geometry::<A>(params.size_pixels);
    let mut plan = Plan::new(shape, n);
    plan.allocate(Element::Single, n, 1);
    plan.allocate(Element::Single, n, 1);
    plan.allocate(Element::Single, n, 1);
    let out: usize = allocate_image(&mut plan, n);
    proof {
        assert(plan.buffers@ =~= grain_buffers(n as int, 0));
    }
    grain_noise(&mut plan, shape, n, params.seed);
    grain_rows(&mut plan, shape, n, inner, outer);
    grain_result(&mut plan, shape, n, inner, outer, params.intensity, normalisation);
    plan.output = out;
    plan.shape = shape;
    proof {
        assert(plan@ =~= grain_acts::<A>(shape, *params));
    }
    Ok(plan)
}

/// The steps of a grid of pixel hashes.
pub open spec fn hash_acts(seed: u64, h: usize, w: usize) -> Seq<Act> {
    let n = volume((h, w, 1));
    let room = if n == 0 {
        1
    } else {
        n
    };
    seq![
        make_of(Element::Word, room),
        Act::Launch {
            module: "film_grain"@,
            kernel: "grain_hash_kernel"@,
            args: seq![
                Arg::Write { slot: 1, element: Element::Word, len: room as usize, lane: 0 },
                Arg::Word(seed),
                Arg::Int(w as i32),
                Arg::Long(n as i64),
            ],
            grid: line_of(room as u32),
            what: "grain_hash launch failed"@,
        },
    ]
}

/// Plans the hashes of every pixel of a grid. It starts from no image.
pub fn hash_grid(seed: u64, h: usize, w: usize) -> (r: Result<Plan, PhaiosError>)
    ensures
        match r {
            Ok(plan) => {
                &&& count_fault((h, w, 1)) is None
                &&& plan.sound((0, 0, 0), Element::Word)
                &&& plan.output == 1
                &&& plan.shape == (h, w, 1usize)
                &&& plan@ == hash_acts(seed, h, w)
            },
            Err(e) => count_fault((h, w, 1)) == Some(e@),
        },
{
    let n = match element_count((h, w, 1)) {
        Ok(n) => n,
        Err(e) => return Err(e),
    };
    let room: usize = if n == 0 {
        1
    } else {
        n
    };
    let mut plan = Plan::new((0, 0, 0), 0);
    let out: usize = plan.allocate(Element::Word, room, 1);
    let args: Vec<Arg> = vec![
        Arg::Write { slot: out, element: Element::Word, len: room, lane: 0 },
        Arg::Word(seed),
        Arg::Int(w as i32),
        Arg::Long(n as i64),
    ];
    proof {
        assert(args@ =~= seq![
            Arg::Write { slot: 1, element: Element::Word, len: room, lane: 0 },
            Arg::Word(seed),
            Arg::Int(w as i32),
            Arg::Long(n as i64),
        ]);
        assert(launchable(plan.buffers@, args@));
        reveal_with_fuel(after_writes, 5);
    }
    plan.launch("film_grain", "grain_hash_kernel", args, grid_1d(room), "grain_hash launch failed");
    plan.output = out;
    plan.shape = (h, w, 1);
    proof {
        assert(plan@ =~= hash_acts(seed, h, w));
    }
    Ok(plan)
}

} // verus!
