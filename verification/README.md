# phaios-core

Image kernels for black-and-white photography, verified with Verus: black-and-white
conversion, exposure, film grain, highlight and shadow roll-off, glow, blur, sharpening,
local contrast, denoising, hot-pixel removal, lookup tables, histograms, quantisation,
sRGB encoding and geometry, and the launch plans of the same kernels on a CUDA device.

## Layout

- `src/` is the library. Every function in it is verified but the wrappers of outside
  calls, which are listed below. A kernel's contract says which image comes out, sample
  by sample, and on which inputs which error does; that of a device plan says which steps
  are taken, and which buffer holds the result.
- `tests/` runs the library on the host's own floating-point arithmetic.
- `app/` is the ordinary Rust around the library: the Python module, the conversion of
  numpy arrays, and the execution of device plans through the CUDA driver.

## Numbers

Samples are IEEE 754 bit patterns, `u32` for single precision and `u64` for double.
Order, sign and classification are facts about patterns (`single`, `double`). The
operations that round are methods of the trait `Arithmetic` (`arith`), and kernels take
an implementation as a type parameter. A kernel's contract fixes which operation is
applied to which numbers in which order, and asks only that operations be functions of
their arguments (`faithful`).

Laws that speak of what numbers come out ask for more, and say so in what they require:
`rounding` states what IEEE 754 demands, each part under a name of its own (`rounds`,
`mirrors`, `keeps_zero`, `sums_exactly`, `computes_exactly`, `computes_closely`,
`computes_finely`, `vanishes_plainly`, `shares_in_order`), and derives what the laws need
from it.

## What is trusted

- `raster`: five array types over `ndarray`, with construction, extents and indexing.
- `allocation`: `Vec::try_reserve_exact`.
- `histogram`: `rayon::join` and `rayon::current_num_threads`.
- `cuda::launch`: `LaunchConfig::for_num_elems` of `cudarc`.
- `cuda::context`: the `Debug` form of a `String`.

## Device plans

`cuda` decides buffers, launches and their arguments as plain values; `app/device.rs`
carries them out. Compiled kernels are read from the directory named by the environment
variable `PHAIOS_PTX_DIR`.
