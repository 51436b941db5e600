//! Which devices the library runs on, and what is said of those it does not.

use vstd::prelude::*;

use crate::error::{PhaiosError, Report};
use crate::text::{decimal, put_decimal, put_signed, signed};

verus! {

/// The least compute capability, major and minor.
pub const MIN_COMPUTE_CAPABILITY: (i32, i32) = (8, 0);

/// Whether a compute capability is enough: the major number decides, then the
/// minor one.
pub open spec fn capable(capability: (i32, i32)) -> bool {
    capability.0 > MIN_COMPUTE_CAPABILITY.0 || capability.0 == MIN_COMPUTE_CAPABILITY.0
        && capability.1 >= MIN_COMPUTE_CAPABILITY.1
}

fn is_capable(major: i32, minor: i32) -> (r: bool)
    ensures
        r == capable((major, minor)),
{
    major > MIN_COMPUTE_CAPABILITY.0 || major == MIN_COMPUTE_CAPABILITY.0 && minor
        >= MIN_COMPUTE_CAPABILITY.1
}

/// A device.
#[derive(Debug)]
pub struct DeviceInfo {
    /// The device's index.
    pub ordinal: usize,
    /// The name it is sold under.
    pub name: String,
    /// Compute capability, major and minor.
    pub compute_capability: (i32, i32),
    /// Whether the library's kernels run on it.
    pub supported: bool,
}

/// How a device without a name is called.
pub open spec fn name_of(ordinal: usize, name: Option<String>) -> Seq<char> {
    match name {
        Some(name) => name@,
        None => "device "@ + decimal(ordinal as nat),
    }
}

fn named(ordinal: usize, name: Option<String>) -> (r: String)
    ensures
        r@ == name_of(ordinal, name),
{
    match name {
        Some(name) => name,
        None => {
            let mut said = String::from_str("device ");
            put_decimal(&mut said, ordinal as u64);
            said
        },
    }
}

/// A capability that the driver would not tell counts as zero.
pub open spec fn told(n: Option<i32>) -> i32 {
    match n {
        Some(n) => n,
        None => 0,
    }
}

impl DeviceInfo {
    /// A device as an enumeration lists it, from what the driver told.
    pub fn listed(
        ordinal: usize,
        name: Option<String>,
        major: Option<i32>,
        minor: Option<i32>,
    ) -> (r: DeviceInfo)
        ensures
            r.ordinal == ordinal,
            r.name@ == name_of(ordinal, name),
            r.compute_capability == (told(major), told(minor)),
            r.supported == capable(r.compute_capability),
    {
        let major: i32 = match major {
            Some(n) => n,
            None => 0,
        };
        let minor: i32 = match minor {
            Some(n) => n,
            None => 0,
        };
        DeviceInfo {
            ordinal,
            name: named(ordinal, name),
            compute_capability: (major, minor),
            supported: is_capable(major, minor),
        }
    }

    /// A device that is to be used: refused where its capability is not enough.
    pub fn admitted(ordinal: usize, name: Option<String>, major: i32, minor: i32) -> (r: Result<
        DeviceInfo,
        PhaiosError,
    >)
        ensures
            match r {
                Ok(info) => {
                    &&& capable((major, minor))
                    &&& info.ordinal == ordinal
                    &&& info.name@ == name_of(ordinal, name)
                    &&& info.compute_capability == (major, minor)
                    &&& info.supported
                },
                Err(e) => {
                    &&& !capable((major, minor))
                    &&& e@ == Report::Backend(
                        "device \""@ + name_of(ordinal, name) + "\" has compute capability "@
                            + signed(major as int) + "."@ + signed(minor as int)
                            + "; this crate's kernels require >= 8.0 (Ampere)"@,
                    )
                },
            },
    {
        let name = named(ordinal, name);
        if !is_capable(major, minor) {
            let mut said = String::from_str("device \"");
            said.append(name.as_str());
            said.append("\" has compute capability ");
            put_signed(&mut said, major);
            said.append(".");
            put_signed(&mut said, minor);
            said.append("; this crate's kernels require >= 8.0 (Ampere)");
            return Err(PhaiosError::Backend(said));
        }
        Ok(DeviceInfo { ordinal, name, compute_capability: (major, minor), supported: true })
    }

    /// The key of a device's results: its name, its capability, and what the
    /// kernels were compiled for and with.
    pub fn fingerprint(&self, nvcc: &str) -> (r: String)
        ensures
            r@ == "cuda/"@ + self.name@ + "/cc"@ + signed(self.compute_capability.0 as int)
                + "."@ + signed(self.compute_capability.1 as int) + "/ptx-compute_80/nvcc-"@
                + nvcc@,
    {
        let mut said = String::from_str("cuda/");
        said.append(self.name.as_str());
        said.append("/cc");
        put_signed(&mut said, self.compute_capability.0);
        said.append(".");
        put_signed(&mut said, self.compute_capability.1);
        said.append("/ptx-compute_80/nvcc-");
        said.append(nvcc);
        said
    }

    /// A debug representation.
    pub fn __repr__(&self) -> (r: String)
        ensures
            r@ == "GpuInfo(ordinal="@ + decimal(self.ordinal as nat) + ", name="@ + quoted(
                self.name@,
            ) + ", compute_capability=("@ + signed(self.compute_capability.0 as int) + ", "@
                + signed(self.compute_capability.1 as int) + "), supported="@ + if self.supported {
                "true"@
            } else {
                "false"@
            } + ")"@,
    {
        let mut said = String::from_str("GpuInfo(ordinal=");
        put_decimal(&mut said, self.ordinal as u64);
        said.append(", name=");
        said.append(quote(&self.name).as_str());
        said.append(", compute_capability=(");
        put_signed(&mut said, self.compute_capability.0);
        said.append(", ");
        put_signed(&mut said, self.compute_capability.1);
        said.append("), supported=");
        if self.supported {
            said.append("true");
        } else {
            said.append("false");
        }
        said.append(")");
        said
    }
}

/// A text in quotes, with what would not print escaped.
pub uninterp spec fn quoted(text: Seq<char>) -> Seq<char>;

/// The `Debug` form of a `String`: the text in quotes, with what would not print
/// escaped.
#[verifier::external_body]
fn quote(text: &String) -> (r: String)
    ensures
        r@ == quoted(text@),
{
    format!("{:?}", text)
}

/// Whether one of the listed devices can be used.
pub fn available(devices: &Vec<DeviceInfo>) -> (r: bool)
    ensures
        r == (exists|i: int| 0 <= i < devices@.len() && (#[trigger] devices@[i]).supported),
{
    let mut i: usize = 0;
    while i < devices.len()
        invariant
            i <= devices@.len(),
            forall|j: int| 0 <= j < i ==> !(#[trigger] devices@[j]).supported,
        decreases devices@.len() - i,
    {
        if devices[i].supported {
            assert(devices@[i as int].supported);
            return true;
        }
        i = i + 1;
    }
    false
}

/// The number of devices, which a driver may report as negative.
pub open spec fn present(count: i32) -> int {
    if count < 0 {
        0
    } else {
        count as int
    }
}

/// Holds an index to the devices that are there.
pub fn check_ordinal(ordinal: usize, count: i32) -> (r: Result<(), PhaiosError>)
    ensures
        match r {
            Ok(()) => ordinal < present(count),
            Err(e) => ordinal >= present(count) && e@ == Report::Backend(
                "no CUDA device at index "@ + decimal(ordinal as nat) + ": "@ + signed(
                    count as int,
                ) + " device(s) present"@,
            ),
        },
{
    if count < 0 || ordinal as u64 >= count as u64 {
        let mut said = String::from_str("no CUDA device at index ");
        put_decimal(&mut said, ordinal as u64);
        said.append(": ");
        put_signed(&mut said, count);
        said.append(" device(s) present");
        return Err(PhaiosError::Backend(said));
    }
    Ok(())
}

/// What is said where there is no driver.
pub fn driver_missing() -> (r: PhaiosError)
    ensures
        r@ == Report::Backend(
            "CUDA driver unavailable: the NVIDIA driver library (libcuda) is not installed or not on the loader's search path"@,
        ),
{
    PhaiosError::Backend(
        String::from_str(
            "CUDA driver unavailable: the NVIDIA driver library (libcuda) is not installed or not on the loader's search path",
        ),
    )
}

/// What is said where the driver fails: what was tried, and the driver's words.
pub fn backend_err(what: &str, said: &str) -> (r: PhaiosError)
    ensures
        r@ == Report::Backend(what@ + ": "@ + said@),
{
    let mut text = String::from_str(what);
    text.append(": ");
    text.append(said);
    PhaiosError::Backend(text)
}

/// What a driver answers of a device that opens: its name and its capability, major and
/// minor, each where it would tell.
pub type Answer = (Option<String>, Option<i32>, Option<i32>);

/// An entry of a listing: ordinal, name, capability, and whether it is enough.
pub open spec fn entry(info: DeviceInfo) -> (usize, Seq<char>, (i32, i32), bool) {
    (info.ordinal, info.name@, info.compute_capability, info.supported)
}

/// The entries of the first `n` ordinals, in their order: one for each device that
/// opens.
pub open spec fn entries(answers: Seq<Option<Answer>>, n: int) -> Seq<
    (usize, Seq<char>, (i32, i32), bool),
>
    decreases n,
{
    if n <= 0 {
        Seq::empty()
    } else {
        match answers[n - 1] {
            Some((name, major, minor)) => {
                let capability = (told(major), told(minor));
                entries(answers, n - 1).push(
                    (
                        (n - 1) as usize,
                        name_of((n - 1) as usize, name),
                        capability,
                        capable(capability),
                    ),
                )
            },
            None => entries(answers, n - 1),
        }
    }
}

/// The devices that open, in the order of their ordinals, from what the driver answered
/// for each.
pub fn enumerate(answers: Vec<Option<Answer>>) -> (r: Vec<DeviceInfo>)
    ensures
        r@.len() == entries(answers@, answers@.len() as int).len(),
        forall|i: int|
            0 <= i < r@.len() ==> entry(#[trigger] r@[i]) == entries(
                answers@,
                answers@.len() as int,
            )[i],
{
    let mut left: Vec<Option<Answer>> = answers;
    let ghost all = left@;
    let count: usize = left.len();
    let mut r: Vec<DeviceInfo> = Vec::new();
    let mut n: usize = 0;
    while n < count
        invariant
            n <= count == all.len(),
            left@ == all.skip(n as int),
            r@.len() == entries(all, n as int).len(),
            forall|i: int| 0 <= i < r@.len() ==> entry(#[trigger] r@[i]) == entries(all, n as int)[i],
        decreases count - n,
    {
        let answer: Option<Answer> = left.remove(0);
        assert(answer == all[n as int]);
        assert(left@ =~= all.skip(n + 1));
        if let Some((name, major, minor)) = answer {
            r.push(DeviceInfo::listed(n, name, major, minor));
        }
        n = n + 1;
    }
    r
}

} // verus!
