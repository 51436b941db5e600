//! Plans for the kernels that look something up, count or encode: lookup
//! tables, zones, histograms and codes.

use vstd::prelude::*;

use crate::allocation::element_count;
use crate::arith::{faithful, Arithmetic};
use crate::cuda::launch::{
    allocate_image, copy_acts, copy_device, count_fault, either, grid_1d, image_act, line_of, plain,
    plain_tail_writes_nothing,
};
use crate::cuda::plan::{after_writes, launchable, met, Act, Arg, Element, Grid, Plan};
use crate::error::{PhaiosError, Report};
use crate::histogram::{histogram_fault, HistogramParams};
use crate::lut::{lut_fault, LutParams};
use crate::quantize::{Dither, QuantizeParams};
use crate::raster::volume;
use crate::remark::{misshapen, refuse, refuse_shape, unexpected};
use crate::single;
use crate::text::{decimal, put_decimal};

verus! {

/// The counters that the threads of a block can share: 48 KiB at four bytes
/// each.
pub const MAX_SHARED_SLOTS: usize = 12_288;

/// The most blocks that count, so that no block's counters overflow.
pub const HIST_BLOCKS: u32 = 1024;

/// The threads of a block that counts.
pub const HIST_THREADS: u32 = 256;

/// The steps of one launch from the image to a fresh one with a table beside it.
pub open spec fn table_acts(
    module: Seq<char>,
    kernel: Seq<char>,
    table: Seq<u32>,
    upload: Seq<char>,
    tail: Seq<Arg>,
    n: int,
) -> Seq<Act> {
    if n == 0 {
        seq![image_act(n)]
    } else {
        seq![
            image_act(n),
            Act::Upload { values: table, what: upload },
            Act::Launch {
                module,
                kernel,
                args: seq![
                    Arg::Read { slot: 0, element: Element::Single, len: n as usize },
                    Arg::Write { slot: 1, element: Element::Single, len: n as usize, lane: 0 },
                    Arg::Read { slot: 2, element: Element::Single, len: table.len() as usize },
                ] + tail,
                grid: line_of(n as u32),
                what: "kernel launch failed"@,
            },
        ]
    }
}

fn table_device(
    shape: (usize, usize, usize),
    n: usize,
    module: &'static str,
    kernel: &'static str,
    table: Vec<u32>,
    upload: &'static str,
    tail: Vec<Arg>,
) -> (plan: Plan)
    requires
        n == volume(shape),
        plain(tail@),
    ensures
        plan.sound(shape, Element::Single),
        plan.shape == shape,
        plan.output == 1,
        plan@ == table_acts(module@, kernel@, table@, upload@, tail@, n as int),
{
    let mut plan = Plan::new(shape, n);
    let out: usize = allocate_image(&mut plan, n);
    if n > 0 {
        let len: usize = table.len();
        let slot: usize = plan.upload(table, upload);
        let ghost rest = tail@;
        let mut args: Vec<Arg> = vec![
            Arg::Read { slot: 0, element: Element::Single, len: n },
            Arg::Write { slot: out, element: Element::Single, len: n, lane: 0 },
            Arg::Read { slot, element: Element::Single, len },
        ];
        let ghost head = args@;
        let mut tail = tail;
        args.append(&mut tail);
        proof {
            assert(head =~= seq![
                Arg::Read { slot: 0, element: Element::Single, len: n },
                Arg::Write { slot: 1, element: Element::Single, len: n, lane: 0 },
                Arg::Read { slot: 2, element: Element::Single, len },
            ]);
            assert(args@ =~= head + rest);
            assert forall|i: int| 0 <= i < args@.len() implies met(
                plan.buffers@,
                #[trigger] args@[i],
            ) by {
                if i >= 3 {
                    assert(args@[i] == rest[i - 3]);
                }
            }
            assert forall|i: int, j: int|
                0 <= i < j < args@.len() && (#[trigger] args@[i]).names() is Some implies
                args@[i].names() != (#[trigger] args@[j]).names() by {
                if i >= 3 {
                    assert(args@[i] == rest[i - 3]);
                }
                if j >= 3 {
                    assert(args@[j] == rest[j - 3]);
                }
            }
            plain_tail_writes_nothing(plan.buffers@, head, rest, rest.len() as int);
            reveal_with_fuel(after_writes, 4);
        }
        plan.launch(module, kernel, args, grid_1d(n), "kernel launch failed");
    }
    plan.output = out;
    proof {
        assert(plan@ =~= table_acts(module@, kernel@, table@, upload@, tail@, n as int));
    }
    plan
}

/// What is wrong with the length of a table for the device, if anything: the
/// device counts its entries in 31 bits.
pub open spec fn length_fault(shape: (usize, usize, usize), len: int) -> Option<Report> {
    if volume(shape) > 0 && len > i32::MAX {
        Some(
            Report::Parameter(
                "lut has "@ + decimal(len as nat)
                    + " entries, more than the backend can index"@,
            ),
        )
    } else {
        None
    }
}

/// What is wrong with applying a table on the device, if anything.
pub open spec fn lut_device_fault<A: Arithmetic>(
    shape: (usize, usize, usize),
    lut: Seq<u32>,
    params: LutParams,
) -> Option<Report> {
    either(
        lut_fault::<A>(lut, params),
        either(count_fault(shape), length_fault(shape, lut.len() as int)),
    )
}

/// Plans the application of a lookup table.
pub fn apply_lut_device<A: Arithmetic>(
    shape: (usize, usize, usize),
    lut: Vec<u32>,
    params: &LutParams,
) -> (r: Result<Plan, PhaiosError>)
    requires
        faithful::<A>(),
    ensures
        match r {
            Ok(plan) => {
                &&& lut_device_fault::<A>(shape, lut@, *params) is None
                &&& plan.sound(shape, Element::Single)
                &&& plan.shape == shape
                &&& plan.output == 1
                &&& plan@ == table_acts(
                    "lut"@,
                    "lut_kernel"@,
                    lut@,
                    "lut upload failed"@,
                    seq![
                        Arg::Int(lut@.len() as i32),
                        Arg::Single(params.min),
                        Arg::Single(params.max),
                        Arg::Long(volume(shape) as i64),
                    ],
                    volume(shape),
                )
            },
            Err(e) => lut_device_fault::<A>(shape, lut@, *params) == Some(e@),
        },
{
    if let Err(e) = crate::lut::validate::<A>(&lut, params) {
        return Err(e);
    }
    let n = match element_count(shape) {
        Ok(n) => n,
        Err(e) => return Err(e),
    };
    let len: usize = lut.len();
    if n > 0 && len > i32::MAX as usize {
        let mut said = String::from_str("lut has ");
        put_decimal(&mut said, len as u64);
        said.append(" entries, more than the backend can index");
        return Err(PhaiosError::Parameter(said));
    }
    let tail: Vec<Arg> = vec![
        Arg::Int(len as i32),
        Arg::Single(params.min),
        Arg::Single(params.max),
        Arg::Long(n as i64),
    ];
    proof {
        assert(tail@ =~= seq![
            Arg::Int(len as i32),
            Arg::Single(params.min),
            Arg::Single(params.max),
            Arg::Long(n as i64),
        ]);
    }
    Ok(table_device(shape, n, "lut", "lut_kernel", lut, "lut upload failed", tail))
}

/// The number of zones.
pub const ZONES: usize = 11;

/// The first offset that is not finite, from zone `i` on.
pub open spec fn offset_fault<A: Arithmetic>(offsets: Seq<u32>, i: int) -> Option<Report>
    decreases offsets.len() - i,
{
    if i < 0 || i >= offsets.len() {
        None
    } else if !single::is_finite(offsets[i]) {
        Some(
            unexpected::<A>(
                "offset of zone "@ + decimal(i as nat),
                offsets[i],
                ", expected a finite value"@,
            ),
        )
    } else {
        offset_fault::<A>(offsets, i + 1)
    }
}

/// What is wrong with the zone system for an image of some shape, if anything.
pub open spec fn zone_fault<A: Arithmetic>(
    shape: (usize, usize, usize),
    offsets: Seq<u32>,
) -> Option<Report> {
    if shape.2 != 1 {
        Some(misshapen("zone_system expects (H, W, 1) luminance input"@, shape))
    } else if offsets.len() != 0 && offsets.len() != ZONES {
        Some(Report::Parameter(decimal(offsets.len()) + " zone offsets, expected 11 or none"@))
    } else {
        offset_fault::<A>(offsets, 0)
    }
}

fn validate_zones<A: Arithmetic>(shape: (usize, usize, usize), offsets: &Vec<u32>) -> (r: Result<
    (),
    PhaiosError,
>)
    requires
        faithful::<A>(),
    ensures
        match r {
            Ok(()) => zone_fault::<A>(shape, offsets@) is None,
            Err(e) => zone_fault::<A>(shape, offsets@) == Some(e@),
        },
{
    if shape.2 != 1 {
        return Err(refuse_shape("zone_system expects (H, W, 1) luminance input", shape));
    }
    if offsets.len() != 0 && offsets.len() != ZONES {
        let mut said = String::from_str("");
        put_decimal(&mut said, offsets.len() as u64);
        said.append(" zone offsets, expected 11 or none");
        proof {
            reveal_strlit("");
            assert(said@ =~= decimal(offsets@.len()) + " zone offsets, expected 11 or none"@);
        }
        return Err(PhaiosError::Parameter(said));
    }
    let mut i: usize = 0;
    while i < offsets.len()
        invariant
            faithful::<A>(),
            shape.2 == 1,
            i <= offsets@.len(),
            offsets@.len() == 0 || offsets@.len() == ZONES,
            offset_fault::<A>(offsets@, 0) == offset_fault::<A>(offsets@, i as int),
        decreases offsets@.len() - i,
    {
        if !single::is_finite(offsets[i]) {
            let mut name = String::from_str("offset of zone ");
            put_decimal(&mut name, i as u64);
            return Err(refuse::<A>(name.as_str(), offsets[i], ", expected a finite value"));
        }
        i = i + 1;
    }
    Ok(())
}

/// Plans the zone system for an image of one channel, from one offset per zone in
/// zone order: a copy where no offsets are given.
pub fn zone_system_device<A: Arithmetic>(
    shape: (usize, usize, usize),
    offsets: Vec<u32>,
) -> (r: Result<Plan, PhaiosError>)
    requires
        faithful::<A>(),
    ensures
        match r {
            Ok(plan) => {
                &&& zone_fault::<A>(shape, offsets@) is None
                &&& count_fault(shape) is None
                &&& plan.sound(shape, Element::Single)
                &&& plan.shape == shape
                &&& plan.output == 1
                &&& plan@ == if offsets@.len() == 0 {
                    copy_acts(volume(shape))
                } else {
                    table_acts(
                        "zone_system"@,
                        "zone_system_kernel"@,
                        offsets@,
                        "offsets upload failed"@,
                        seq![Arg::Long(volume(shape) as i64)],
                        volume(shape),
                    )
                }
            },
            Err(e) => either(zone_fault::<A>(shape, offsets@), count_fault(shape)) == Some(e@),
        },
{
    if let Err(e) = validate_zones::<A>(shape, &offsets) {
        return Err(e);
    }
    if offsets.len() == 0 {
        return copy_device(shape);
    }
    let n = match element_count(shape) {
        Ok(n) => n,
        Err(e) => return Err(e),
    };
    let tail: Vec<Arg> = vec![Arg::Long(n as i64)];
    proof {
        assert(tail@ =~= seq![Arg::Long(n as i64)]);
    }
    Ok(
        table_device(
            shape,
            n,
            "zone_system",
            "zone_system_kernel",
            offsets,
            "offsets upload failed",
            tail,
        ),
    )
}

/// The counters of a histogram: the bins of every channel and three more.
pub open spec fn slots_of(shape: (usize, usize, usize), params: HistogramParams) -> int {
    shape.2 * (params.bins + 3)
}

/// The geometry of the count: at most [`HIST_BLOCKS`] blocks, and where every
/// block can hold the counters, memory for them.
pub open spec fn count_grid(n: int, slots: int) -> Grid {
    let wanted = ((n + 255) / 256) as u32;
    Grid {
        grid: (
            if wanted < HIST_BLOCKS {
                wanted
            } else {
                HIST_BLOCKS
            },
            1,
            1,
        ),
        block: (HIST_THREADS, 1, 1),
        shared: if slots <= MAX_SHARED_SLOTS {
            (slots * 4) as u32
        } else {
            0
        },
    }
}

/// The steps of a histogram.
pub open spec fn histogram_acts(
    shape: (usize, usize, usize),
    params: HistogramParams,
) -> Seq<Act> {
    let n = volume(shape);
    let slots = slots_of(shape, params);
    seq![
        Act::Zeros { element: Element::Word, len: slots as usize },
        Act::Launch {
            module: "histogram"@,
            kernel: if slots <= MAX_SHARED_SLOTS {
                "histogram_shared_kernel"@
            } else {
                "histogram_global_kernel"@
            },
            args: seq![
                Arg::Read { slot: 0, element: Element::Single, len: n as usize },
                Arg::Update { slot: 1, element: Element::Word, len: slots as usize },
                Arg::Int(shape.2 as i32),
                Arg::Int(params.bins as i32),
                Arg::Single(params.min),
                Arg::Single(params.max),
                Arg::Long(n as i64),
            ],
            grid: count_grid(n, slots),
            what: "kernel launch failed"@,
        },
    ]
}

/// Plans a histogram: the counters of all channels, bins first and then below,
/// above and not finite. There is nothing to do for an empty image.
pub fn histogram_device<A: Arithmetic>(
    shape: (usize, usize, usize),
    params: &HistogramParams,
) -> (r: Result<Option<Plan>, PhaiosError>)
    requires
        faithful::<A>(),
    ensures
        match r {
            Ok(Some(plan)) => {
                &&& histogram_fault::<A>(shape, *params) is None
                &&& count_fault(shape) is None
                &&& volume(shape) > 0
                &&& plan.sound(shape, Element::Word)
                &&& plan.output == 1
                &&& volume(plan.shape) == slots_of(shape, *params)
                &&& plan@ == histogram_acts(shape, *params)
                &&& 0 < slots_of(shape, *params) <= i32::MAX
            },
            Ok(None) => histogram_fault::<A>(shape, *params) is None && count_fault(shape) is None
                && volume(shape) == 0,
            Err(e) => either(histogram_fault::<A>(shape, *params), count_fault(shape)) == Some(
                e@,
            ),
        },
{
    if let Err(e) = crate::histogram::validate_shape::<A>(shape, params) {
        return Err(e);
    }
    let n = match element_count(shape) {
        Ok(n) => n,
        Err(e) => return Err(e),
    };
    if n == 0 {
        return Ok(None);
    }
    let stride: usize = params.bins as usize + 3;
    proof {
        assert(shape.2 > 0) by (nonlinear_arith)
            requires
                shape.0 * shape.1 * shape.2 > 0,
                shape.2 >= 0,
        ;
        assert(shape.2 * stride > 0) by (nonlinear_arith)
            requires
                shape.2 > 0,
                stride > 0,
        ;
    }
    let slots: usize = shape.2 * stride;
    let shared: bool = slots <= MAX_SHARED_SLOTS;
    let kernel: &'static str = if shared {
        "histogram_shared_kernel"
    } else {
        "histogram_global_kernel"
    };
    let rounded: usize = if n % 256 == 0 {
        n / 256
    } else {
        n / 256 + 1
    };
    let wanted: u32 = rounded as u32;
    let grid = Grid {
        grid: (
            if wanted < HIST_BLOCKS {
                wanted
            } else {
                HIST_BLOCKS
            },
            1,
            1,
        ),
        block: (HIST_THREADS, 1, 1),
        shared: if shared {
            slots as u32 * 4
        } else {
            0
        },
    };
    let mut plan = Plan::new(shape, n);
    let counts: usize = plan.zeros(Element::Word, slots);
    let args: Vec<Arg> = vec![
        Arg::Read { slot: 0, element: Element::Single, len: n },
        Arg::Update { slot: counts, element: Element::Word, len: slots },
        Arg::Int(shape.2 as i32),
        Arg::Int(params.bins as i32),
        Arg::Single(params.min),
        Arg::Single(params.max),
        Arg::Long(n as i64),
    ];
    proof {
        assert(args@ =~= seq![
            Arg::Read { slot: 0, element: Element::Single, len: n },
            Arg::Update { slot: 1, element: Element::Word, len: slots },
            Arg::Int(shape.2 as i32),
            Arg::Int(params.bins as i32),
            Arg::Single(params.min),
            Arg::Single(params.max),
            Arg::Long(n as i64),
        ]);
        assert(launchable(plan.buffers@, args@));
        reveal_with_fuel(after_writes, 8);
    }
    plan.launch("histogram", kernel, args, grid, "kernel launch failed");
    plan.output = counts;
    plan.shape = (1, shape.2, stride);
    proof {
        assert(volume(plan.shape) == shape.2 * stride) by (nonlinear_arith)
            requires
                volume(plan.shape) == 1 * shape.2 * stride,
        ;
        assert(grid == count_grid(n as int, slots as int));
        assert(plan@ =~= histogram_acts(shape, *params));
    }
    Ok(Some(plan))
}

/// The steps of a quantisation.
pub open spec fn quantize_acts(
    kernel: Seq<char>,
    element: Element,
    shape: (usize, usize, usize),
    params: QuantizeParams,
) -> Seq<Act> {
    let n = volume(shape);
    seq![
        Act::Allocate { element, len: n as usize, lanes: 1 },
        Act::Launch {
            module: "quantize"@,
            kernel,
            args: seq![
                Arg::Read { slot: 0, element: Element::Single, len: n as usize },
                Arg::Write { slot: 1, element, len: n as usize, lane: 0 },
                Arg::Int(shape.1 as i32),
                Arg::Int(shape.2 as i32),
                Arg::Word(params.seed),
                Arg::Int(
                    if params.dither == Dither::Tpdf {
                        1
                    } else {
                        0
                    },
                ),
                Arg::Long(n as i64),
            ],
            grid: line_of(n as u32),
            what: "kernel launch failed"@,
        },
    ]
}

fn quantize_device(
    kernel: &'static str,
    element: Element,
    shape: (usize, usize, usize),
    params: &QuantizeParams,
) -> (r: Result<Option<Plan>, PhaiosError>)
    ensures
        match r {
            Ok(Some(plan)) => {
                &&& count_fault(shape) is None
                &&& volume(shape) > 0
                &&& plan.sound(shape, element)
                &&& plan.shape == shape
                &&& plan.output == 1
                &&& plan@ == quantize_acts(kernel@, element, shape, *params)
            },
            Ok(None) => count_fault(shape) is None && volume(shape) == 0,
            Err(e) => count_fault(shape) == Some(e@),
        },
{
    let n = match element_count(shape) {
        Ok(n) => n,
        Err(e) => return Err(e),
    };
    if n == 0 {
        return Ok(None);
    }
    let dithered: i32 = match params.dither {
        Dither::Tpdf => 1,
        Dither::Off => 0,
    };
    let mut plan = Plan::new(shape, n);
    let out: usize = plan.allocate(element, n, 1);
    let args: Vec<Arg> = vec![
        Arg::Read { slot: 0, element: Element::Single, len: n },
        Arg::Write { slot: out, element, len: n, lane: 0 },
        Arg::Int(shape.1 as i32),
        Arg::Int(shape.2 as i32),
        Arg::Word(params.seed),
        Arg::Int(dithered),
        Arg::Long(n as i64),
    ];
    proof {
        assert(args@ =~= seq![
            Arg::Read { slot: 0, element: Element::Single, len: n },
            Arg::Write { slot: 1, element, len: n, lane: 0 },
            Arg::Int(shape.1 as i32),
            Arg::Int(shape.2 as i32),
            Arg::Word(params.seed),
            Arg::Int(dithered),
            Arg::Long(n as i64),
        ]);
        assert(launchable(plan.buffers@, args@));
        reveal_with_fuel(after_writes, 8);
    }
    plan.launch("quantize", kernel, args, grid_1d(n), "kernel launch failed");
    plan.output = out;
    proof {
        assert(plan@ =~= quantize_acts(kernel@, element, shape, *params));
    }
    Ok(Some(plan))
}

/// Plans a quantisation to 8-bit codes. There is nothing to do for an empty image.
pub fn quantize_u8_device(shape: (usize, usize, usize), params: &QuantizeParams) -> (r: Result<
    Option<Plan>,
    PhaiosError,
>)
    ensures
        match r {
            Ok(Some(plan)) => {
                &&& count_fault(shape) is None
                &&& volume(shape) > 0
                &&& plan.sound(shape, Element::Byte)
                &&& plan.shape == shape
                &&& plan.output == 1
                &&& plan@ == quantize_acts("quantize_u8_kernel"@, Element::Byte, shape, *params)
            },
            Ok(None) => count_fault(shape) is None && volume(shape) == 0,
            Err(e) => count_fault(shape) == Some(e@),
        },
{
    quantize_device("quantize_u8_kernel", Element::Byte, shape, params)
}

/// Plans a quantisation to 16-bit codes. There is nothing to do for an empty
/// image.
pub fn quantize_u16_device(shape: (usize, usize, usize), params: &QuantizeParams) -> (r: Result<
    Option<Plan>,
    PhaiosError,
>)
    ensures
        match r {
            Ok(Some(plan)) => {
                &&& count_fault(shape) is None
                &&& volume(shape) > 0
                &&& plan.sound(shape, Element::Code)
                &&& plan.shape == shape
                &&& plan.output == 1
                &&& plan@ == quantize_acts("quantize_u16_kernel"@, Element::Code, shape, *params)
            },
            Ok(None) => count_fault(shape) is None && volume(shape) == 0,
            Err(e) => count_fault(shape) == Some(e@),
        },
{
    quantize_device("quantize_u16_kernel", Element::Code, shape, params)
}

} // verus!
