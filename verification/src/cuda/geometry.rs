//! Plans for the kernels that move pixels: crop, orientation, resize and
//! straightening.

use vstd::prelude::*;

use crate::allocation::element_count;
use crate::arith::{
    cos64_of, faithful, narrow_of, of_count, over, radians64_of, sin64_of, widen_of, Arithmetic,
};
use crate::cuda::launch::{
    allocate_image, count_fault, either, grid_1d, image_act, line_of, map_acts, map_device,
};
use crate::cuda::plan::{after_writes, launchable, Act, Arg, Buffer, Element, Plan};
use crate::error::{PhaiosError, Report};
use crate::geometry::{
    axis_scale, crop_fault, cropped_shape, filter_support, filter_support_of, oriented_shape,
    resize_fault, straighten_fault, straighten_geometry, straightened_extents, validate_crop,
    validate_resize, CropParams, Orientation, ResizeFilter, ResizeParams, StraightenParams,
};
use crate::raster::volume;
use crate::single;
use crate::text::{decimal, put_decimal};

verus! {

/// The steps of a crop.
pub open spec fn crop_acts(shape: (usize, usize, usize), params: CropParams) -> Seq<Act> {
    let n = volume(cropped_shape(shape, params));
    map_acts(
        "geometry"@,
        "crop_kernel"@,
        seq![
            Arg::Int(shape.1 as i32),
            Arg::Int(shape.2 as i32),
            Arg::Int(params.x as i32),
            Arg::Int(params.y as i32),
            Arg::Int(params.height as usize as i32),
            Arg::Int(params.width as usize as i32),
        ],
        volume(shape),
        n,
        n,
        "kernel launch failed"@,
    )
}

/// What is wrong with a crop on the device, if anything.
pub open spec fn crop_device_fault(
    shape: (usize, usize, usize),
    params: CropParams,
) -> Option<Report> {
    either(
        crop_fault(shape, params),
        either(count_fault(shape), count_fault(cropped_shape(shape, params))),
    )
}

/// Plans a crop.
pub fn crop_device(shape: (usize, usize, usize), params: &CropParams) -> (r: Result<
    Plan,
    PhaiosError,
>)
    ensures
        match r {
            Ok(plan) => {
                &&& crop_device_fault(shape, *params) is None
                &&& plan.sound(shape, Element::Single)
                &&& plan.shape == cropped_shape(shape, *params)
                &&& plan.output == 1
                &&& plan@ == crop_acts(shape, *params)
            },
            Err(e) => crop_device_fault(shape, *params) == Some(e@),
        },
{
    if let Err(e) = validate_crop(shape, params) {
        return Err(e);
    }
    let n = match element_count(shape) {
        Ok(n) => n,
        Err(e) => return Err(e),
    };
    let shape_out = (params.height as usize, params.width as usize, shape.2);
    let n_out = match element_count(shape_out) {
        Ok(n) => n,
        Err(e) => return Err(e),
    };
    let tail: Vec<Arg> = vec![
        Arg::Int(shape.1 as i32),
        Arg::Int(shape.2 as i32),
        Arg::Int(params.x as i32),
        Arg::Int(params.y as i32),
        Arg::Int(shape_out.0 as i32),
        Arg::Int(shape_out.1 as i32),
    ];
    proof {
        assert(tail@ =~= seq![
            Arg::Int(shape.1 as i32),
            Arg::Int(shape.2 as i32),
            Arg::Int(params.x as i32),
            Arg::Int(params.y as i32),
            Arg::Int(shape_out.0 as i32),
            Arg::Int(shape_out.1 as i32),
        ]);
    }
    Ok(
        map_device(
            shape,
            n,
            shape_out,
            n_out,
            "geometry",
            "crop_kernel",
            tail,
            n_out,
            "kernel launch failed",
        ),
    )
}

/// A flag as a kernel takes it.
pub open spec fn flag_of(flag: bool) -> Arg {
    Arg::Int(
        if flag {
            1
        } else {
            0
        },
    )
}

fn flag(on: bool) -> (r: Arg)
    ensures
        r == flag_of(on),
{
    if on {
        Arg::Int(1)
    } else {
        Arg::Int(0)
    }
}

/// The steps of an orientation.
pub open spec fn orient_acts(shape: (usize, usize, usize), orientation: Orientation) -> Seq<Act> {
    map_acts(
        "geometry"@,
        "orient_kernel"@,
        seq![
            Arg::Int(shape.0 as i32),
            Arg::Int(shape.1 as i32),
            Arg::Int(shape.2 as i32),
            flag_of(orientation.turns()),
            flag_of(orientation.from_bottom()),
            flag_of(orientation.from_right()),
        ],
        volume(shape),
        volume(shape),
        volume(shape),
        "kernel launch failed"@,
    )
}

/// Plans an orientation.
pub fn orient_device(shape: (usize, usize, usize), orientation: Orientation) -> (r: Result<
    Plan,
    PhaiosError,
>)
    ensures
        match r {
            Ok(plan) => {
                &&& count_fault(shape) is None
                &&& plan.sound(shape, Element::Single)
                &&& plan.shape == oriented_shape(shape, orientation)
                &&& plan.output == 1
                &&& plan@ == orient_acts(shape, orientation)
            },
            Err(e) => count_fault(shape) == Some(e@),
        },
{
    let n = match element_count(shape) {
        Ok(n) => n,
        Err(e) => return Err(e),
    };
    let (transpose, flip_y, flip_x) = orientation.flags();
    let shape_out: (usize, usize, usize) = if transpose {
        (shape.1, shape.0, shape.2)
    } else {
        shape
    };
    proof {
        assert(shape.0 * shape.1 * shape.2 == shape.1 * shape.0 * shape.2) by (nonlinear_arith);
    }
    let tail: Vec<Arg> = vec![
        Arg::Int(shape.0 as i32),
        Arg::Int(shape.1 as i32),
        Arg::Int(shape.2 as i32),
        flag(transpose),
        flag(flip_y),
        flag(flip_x),
    ];
    proof {
        assert(tail@ =~= seq![
            Arg::Int(shape.0 as i32),
            Arg::Int(shape.1 as i32),
            Arg::Int(shape.2 as i32),
            flag_of(transpose),
            flag_of(flip_y),
            flag_of(flip_x),
        ]);
    }
    Ok(
        map_device(
            shape,
            n,
            shape_out,
            n,
            "geometry",
            "orient_kernel",
            tail,
            n,
            "kernel launch failed",
        ),
    )
}

/// The shape of a straightened image.
pub open spec fn straightened_shape<A: Arithmetic>(
    shape: (usize, usize, usize),
    degrees: u32,
) -> (usize, usize, usize) {
    let to = straightened_extents::<A>(shape.0 as int, shape.1 as int, degrees);
    (to.0 as usize, to.1 as usize, shape.2)
}

/// The steps of a straightening.
pub open spec fn straighten_acts<A: Arithmetic>(
    shape: (usize, usize, usize),
    degrees: u32,
) -> Seq<Act> {
    let to = straightened_shape::<A>(shape, degrees);
    let radians = radians64_of::<A>(widen_of::<A>(degrees));
    map_acts(
        "geometry"@,
        "straighten_kernel"@,
        seq![
            Arg::Int(shape.0 as i32),
            Arg::Int(shape.1 as i32),
            Arg::Int(shape.2 as i32),
            Arg::Int(to.0 as i32),
            Arg::Int(to.1 as i32),
            Arg::Single(narrow_of::<A>(sin64_of::<A>(radians))),
            Arg::Single(narrow_of::<A>(cos64_of::<A>(radians))),
        ],
        volume(shape),
        volume(to),
        volume(to),
        "straighten launch failed"@,
    )
}

/// What is wrong with a straightening on the device, if anything.
pub open spec fn straighten_device_fault<A: Arithmetic>(
    shape: (usize, usize, usize),
    degrees: u32,
) -> Option<Report> {
    either(
        straighten_fault::<A>(shape.0 as int, shape.1 as int, degrees),
        either(count_fault(shape), count_fault(straightened_shape::<A>(shape, degrees))),
    )
}

/// Plans a straightening. The extents, the sine and the cosine are computed here.
pub fn straighten_device<A: Arithmetic>(
    shape: (usize, usize, usize),
    params: &StraightenParams,
) -> (r: Result<Plan, PhaiosError>)
    requires
        faithful::<A>(),
    ensures
        match r {
            Ok(plan) => {
                &&& straighten_device_fault::<A>(shape, params.degrees) is None
                &&& plan.sound(shape, Element::Single)
                &&& plan.shape == straightened_shape::<A>(shape, params.degrees)
                &&& plan.output == 1
                &&& plan@ == straighten_acts::<A>(shape, params.degrees)
            },
            Err(e) => straighten_device_fault::<A>(shape, params.degrees) == Some(e@),
        },
{
    let (out_h, out_w, sin, cos) = match straighten_geometry::<A>(
        shape.0,
        shape.1,
        params.degrees,
    ) {
        Ok(t) => t,
        Err(e) => return Err(e),
    };
    let n = match element_count(shape) {
        Ok(n) => n,
        Err(e) => return Err(e),
    };
    let shape_out = (out_h, out_w, shape.2);
    let n_out = match element_count(shape_out) {
        Ok(n) => n,
        Err(e) => return Err(e),
    };
    let tail: Vec<Arg> = vec![
        Arg::Int(shape.0 as i32),
        Arg::Int(shape.1 as i32),
        Arg::Int(shape.2 as i32),
        Arg::Int(out_h as i32),
        Arg::Int(out_w as i32),
        Arg::Single(sin),
        Arg::Single(cos),
    ];
    proof {
        assert(tail@ =~= seq![
            Arg::Int(shape.0 as i32),
            Arg::Int(shape.1 as i32),
            Arg::Int(shape.2 as i32),
            Arg::Int(out_h as i32),
            Arg::Int(out_w as i32),
            Arg::Single(sin),
            Arg::Single(cos),
        ]);
    }
    Ok(
        map_device(
            shape,
            n,
            shape_out,
            n_out,
            "geometry",
            "straighten_kernel",
            tail,
            n_out,
            "straighten launch failed",
        ),
    )
}

/// The number by which a kernel knows a filter.
pub open spec fn filter_number(filter: ResizeFilter) -> i32 {
    match filter {
        ResizeFilter::Area => 0,
        ResizeFilter::Bilinear => 1,
        ResizeFilter::CatmullRom => 2,
    }
}

/// The launch that resamples one axis: `rows` lines from `from` to `to` samples.
pub open spec fn resample_act<A: Arithmetic>(
    src: (usize, usize),
    dst: (usize, usize),
    rows: usize,
    from: usize,
    to: usize,
    channels: usize,
    filter: ResizeFilter,
    axis: i32,
) -> Act {
    let scale = axis_scale::<A>(from as int, to as int);
    Act::Launch {
        module: "geometry"@,
        kernel: "resample_kernel"@,
        args: seq![
            Arg::Read { slot: src.0, element: Element::Single, len: src.1 },
            Arg::Write { slot: dst.0, element: Element::Single, len: dst.1, lane: 0 },
            Arg::Int(rows as i32),
            Arg::Int(from as i32),
            Arg::Int(to as i32),
            Arg::Int(channels as i32),
            Arg::Single(scale),
            Arg::Single(filter_support_of::<A>(filter, scale)),
            Arg::Int(filter_number(filter)),
            flag_of(filter == ResizeFilter::Area && single::less(single::ONE, scale)),
            Arg::Int(axis),
        ],
        grid: line_of(dst.1 as u32),
        what: "resample launch failed"@,
    }
}

/// The shape between the two axes of a resize: the width is resampled first.
pub open spec fn halfway(shape: (usize, usize, usize), params: ResizeParams) -> (
    usize,
    usize,
    usize,
) {
    (shape.0, params.width as usize, shape.2)
}

/// The shape of a resized image.
pub open spec fn resized_shape(shape: (usize, usize, usize), params: ResizeParams) -> (
    usize,
    usize,
    usize,
) {
    (params.height as usize, params.width as usize, shape.2)
}

/// The steps of a resize.
pub open spec fn resize_acts<A: Arithmetic>(
    shape: (usize, usize, usize),
    params: ResizeParams,
) -> Seq<Act> {
    let n_mid = volume(halfway(shape, params));
    let n_out = volume(resized_shape(shape, params));
    if shape.2 == 0 {
        seq![image_act(n_mid), image_act(n_out)]
    } else {
        seq![
            image_act(n_mid),
            resample_act::<A>(
                (0, volume(shape) as usize),
                (1, n_mid as usize),
                shape.0,
                shape.1,
                params.width as usize,
                shape.2,
                params.filter,
                0,
            ),
            image_act(n_out),
            resample_act::<A>(
                (1, n_mid as usize),
                (2, n_out as usize),
                params.width as usize,
                shape.0,
                params.height as usize,
                shape.2,
                params.filter,
                1,
            ),
        ]
    }
}

/// The first extent that a kernel cannot take, if there is one.
pub open spec fn extent_fault(extents: Seq<usize>, i: int) -> Option<Report>
    decreases extents.len() - i,
{
    if i < 0 || i >= extents.len() {
        None
    } else if extents[i] > i32::MAX {
        Some(
            Report::Parameter(
                "resize extent "@ + decimal(extents[i] as nat)
                    + " exceeds the CUDA backend's per-axis limit of 2147483647"@,
            ),
        )
    } else {
        extent_fault(extents, i + 1)
    }
}

/// What is wrong with a resize on the device, if anything: besides what is wrong
/// with it anywhere, more elements than a launch counts, or an extent that a
/// kernel cannot take.
pub open spec fn resize_device_fault(
    shape: (usize, usize, usize),
    params: ResizeParams,
) -> Option<Report> {
    if resize_fault(shape, params) is Some {
        resize_fault(shape, params)
    } else if count_fault(shape) is Some {
        count_fault(shape)
    } else if volume(halfway(shape, params)) > u32::MAX || volume(resized_shape(shape, params))
        > u32::MAX {
        Some(
            Report::Parameter(
                "resize target "@ + decimal(params.width as nat) + "x"@ + decimal(
                    params.height as nat,
                ) + " exceeds the CUDA backend's element limit"@,
            ),
        )
    } else {
        extent_fault(
            seq![
                shape.0,
                shape.1,
                params.height as usize,
                params.width as usize,
                shape.2,
            ],
            0,
        )
    }
}

/// The elements of a shape, where a launch can count them.
fn launch_count(shape: (usize, usize, usize)) -> (r: Option<usize>)
    ensures
        match r {
            Some(n) => n == volume(shape) <= u32::MAX,
            None => volume(shape) > u32::MAX,
        },
{
    if shape.2 == 0 {
        proof {
            assert(volume(shape) == 0) by (nonlinear_arith)
                requires
                    volume(shape) == shape.0 * shape.1 * shape.2,
                    shape.2 == 0,
            ;
        }
        return Some(0);
    }
    proof {
        assert(shape.0 * shape.1 <= shape.0 * shape.1 * shape.2) by (nonlinear_arith)
            requires
                shape.2 >= 1,
                0 <= shape.0,
                0 <= shape.1,
        ;
    }
    if let Some(plane) = shape.0.checked_mul(shape.1) {
        if let Some(n) = plane.checked_mul(shape.2) {
            if n as u64 <= u32::MAX as u64 {
                return Some(n);
            }
        }
    }
    None
}

fn resample<A: Arithmetic>(
    plan: &mut Plan,
    src: (usize, usize),
    dst: (usize, usize),
    rows: usize,
    from: usize,
    to: usize,
    channels: usize,
    filter: ResizeFilter,
    axis: i32,
)
    requires
        faithful::<A>(),
        src.0 < old(plan).buffers@.len(),
        dst.0 < old(plan).buffers@.len(),
        src.0 != dst.0,
        old(plan).buffers@[src.0 as int].ready(),
        old(plan).buffers@[src.0 as int].element == Element::Single,
        old(plan).buffers@[src.0 as int].len == src.1,
        old(plan).buffers@[dst.0 as int].live,
        old(plan).buffers@[dst.0 as int].element == Element::Single,
        old(plan).buffers@[dst.0 as int].len == dst.1,
        old(plan).buffers@[dst.0 as int].lanes == 1,
        old(plan).buffers@[dst.0 as int].filled == 0,
    ensures
        final(plan)@ == old(plan)@.push(
            resample_act::<A>(src, dst, rows, from, to, channels, filter, axis),
        ),
        final(plan).buffers@ == old(plan).buffers@.update(
            dst.0 as int,
            (Buffer { filled: 1, ..old(plan).buffers@[dst.0 as int] }),
        ),
        final(plan).output == old(plan).output,
        final(plan).shape == old(plan).shape,
        forall|shape: (usize, usize, usize)| #[trigger]
            old(plan).valid(shape) ==> final(plan).valid(shape),
{
    let scale: u32 = over::<A>(of_count::<A>(from as u64), of_count::<A>(to as u64));
    let support: u32 = filter_support::<A>(filter, scale);
    let number: i32 = match filter {
        ResizeFilter::Area => 0,
        ResizeFilter::Bilinear => 1,
        ResizeFilter::CatmullRom => 2,
    };
    let minify: bool = match filter {
        ResizeFilter::Area => single::less(single::ONE, scale),
        _ => false,
    };
    let args: Vec<Arg> = vec![
        Arg::Read { slot: src.0, element: Element::Single, len: src.1 },
        Arg::Write { slot: dst.0, element: Element::Single, len: dst.1, lane: 0 },
        Arg::Int(rows as i32),
        Arg::Int(from as i32),
        Arg::Int(to as i32),
        Arg::Int(channels as i32),
        Arg::Single(scale),
        Arg::Single(support),
        Arg::Int(number),
        flag(minify),
        Arg::Int(axis),
    ];
    proof {
        assert(args@ =~= seq![
            Arg::Read { slot: src.0, element: Element::Single, len: src.1 },
            Arg::Write { slot: dst.0, element: Element::Single, len: dst.1, lane: 0 },
            Arg::Int(rows as i32),
            Arg::Int(from as i32),
            Arg::Int(to as i32),
            Arg::Int(channels as i32),
            Arg::Single(scale),
            Arg::Single(support),
            Arg::Int(number),
            flag_of(minify),
            Arg::Int(axis),
        ]);
        assert(launchable(plan.buffers@, args@));
        reveal_with_fuel(after_writes, 12);
    }
    plan.launch("geometry", "resample_kernel", args, grid_1d(dst.1), "resample launch failed");
}

fn check_extents(extents: [usize; 5]) -> (r: Result<(), PhaiosError>)
    ensures
        match r {
            Ok(()) => extent_fault(extents@, 0) is None && forall|i: int|
                0 <= i < 5 ==> (#[trigger] extents@[i]) <= i32::MAX,
            Err(e) => extent_fault(extents@, 0) == Some(e@),
        },
{
    let mut i: usize = 0;
    while i < 5
        invariant
            i <= 5,
            extent_fault(extents@, 0) == extent_fault(extents@, i as int),
            forall|j: int| 0 <= j < i ==> (#[trigger] extents@[j]) <= i32::MAX,
        decreases 5 - i,
    {
        if extents[i] > i32::MAX as usize {
            let mut said = String::from_str("resize extent ");
            put_decimal(&mut said, extents[i] as u64);
            said.append(" exceeds the CUDA backend's per-axis limit of 2147483647");
            return Err(PhaiosError::Parameter(said));
        }
        i = i + 1;
    }
    Ok(())
}

/// Plans a resize: every row first, then every column.
pub fn resize_device<A: Arithmetic>(shape: (usize, usize, usize), params: &ResizeParams) -> (r:
    Result<Plan, PhaiosError>)
    requires
        faithful::<A>(),
    ensures
        match r {
            Ok(plan) => {
                &&& resize_device_fault(shape, *params) is None
                &&& plan.sound(shape, Element::Single)
                &&& plan.shape == resized_shape(shape, *params)
                &&& plan.output == 2
                &&& plan@ == resize_acts::<A>(shape, *params)
            },
            Err(e) => resize_device_fault(shape, *params) == Some(e@),
        },
{
    if let Err(e) = validate_resize(shape, params) {
        return Err(e);
    }
    let n = match element_count(shape) {
        Ok(n) => n,
        Err(e) => return Err(e),
    };
    let (in_h, in_w, c) = shape;
    let out_w: usize = params.width as usize;
    let out_h: usize = params.height as usize;
    let (n_mid, n_out): (usize, usize) = match (
        launch_count((in_h, out_w, c)),
        launch_count((out_h, out_w, c)),
    ) {
        (Some(n_mid), Some(n_out)) => (n_mid, n_out),
        _ => {
            let mut said = String::from_str("resize target ");
            put_decimal(&mut said, params.width as u64);
            said.append("x");
            put_decimal(&mut said, params.height as u64);
            said.append(" exceeds the CUDA backend's element limit");
            return Err(PhaiosError::Parameter(said));
        },
    };
    let extents: [usize; 5] = [in_h, in_w, out_h, out_w, c];
    proof {
        assert(extents@ =~= seq![in_h, in_w, out_h, out_w, c]);
    }
    if let Err(e) = check_extents(extents) {
        return Err(e);
    }
    let mut plan = Plan::new(shape, n);
    let mid: usize = allocate_image(&mut plan, n_mid);
    proof {
        if c > 0 {
            assert(in_h * out_w > 0 && out_h * out_w > 0) by (nonlinear_arith)
                requires
                    in_h > 0,
                    out_h > 0,
                    out_w > 0,
            ;
            assert(in_h * out_w * c > 0 && out_h * out_w * c > 0) by (nonlinear_arith)
                requires
                    in_h * out_w > 0,
                    out_h * out_w > 0,
                    c > 0,
            ;
        } else {
            assert(in_h * out_w * c == 0 && out_h * out_w * c == 0) by (nonlinear_arith)
                requires
                    c == 0,
            ;
        }
    }
    if n_mid > 0 {
        resample::<A>(
            &mut plan,
            (0, n),
            (mid, n_mid),
            in_h,
            in_w,
            out_w,
            c,
            params.filter,
            0,
        );
    }
    let out: usize = allocate_image(&mut plan, n_out);
    if n_out > 0 {
        resample::<A>(
            &mut plan,
            (mid, n_mid),
            (out, n_out),
            out_w,
            in_h,
            out_h,
            c,
            params.filter,
            1,
        );
    }
    plan.output = out;
    plan.shape = (out_h, out_w, c);
    proof {
        assert(plan@ =~= resize_acts::<A>(shape, *params));
    }
    Ok(plan)
}

/// A resize that is planned tells its kernels every extent and every count as it
/// is: nothing is lost where they take 32 bits.
pub proof fn planned_extents_are_exact(shape: (usize, usize, usize), params: ResizeParams)
    requires
        resize_device_fault(shape, params) is None,
    ensures
        shape.0 as i32 == shape.0,
        shape.1 as i32 == shape.1,
        shape.2 as i32 == shape.2,
        params.width as usize as i32 == params.width,
        params.height as usize as i32 == params.height,
        volume(halfway(shape, params)) as u32 == volume(halfway(shape, params)),
        volume(resized_shape(shape, params)) as u32 == volume(resized_shape(shape, params)),
{
    let extents = seq![
        shape.0,
        shape.1,
        params.height as usize,
        params.width as usize,
        shape.2,
    ];
    reveal_with_fuel(extent_fault, 6);
    assert(extent_fault(extents, 0) is None);
    assert(volume(halfway(shape, params)) >= 0) by (nonlinear_arith)
        requires
            volume(halfway(shape, params)) == shape.0 * (params.width as usize) * shape.2,
    ;
    assert(volume(resized_shape(shape, params)) >= 0) by (nonlinear_arith)
        requires
            volume(resized_shape(shape, params)) == (params.height as usize) * (
            params.width as usize) * shape.2,
    ;
}

} // verus!
