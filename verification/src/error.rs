//! The library's error type.

use vstd::prelude::*;

verus! {

/// Everything that can go wrong, by the kind of problem. Each carries the
/// explanation that a caller reads.
#[derive(Debug)]
pub enum PhaiosError {
    /// The input has the wrong shape for the kernel.
    Shape(String),
    /// A parameter lies outside its documented domain.
    Parameter(String),
    /// An array is larger than the library will allocate, or than the host can.
    Allocation(String),
    /// A device or its driver failed.
    Backend(String),
}

/// What an error says: its kind and its explanation.
pub enum Report {
    Shape(Seq<char>),
    Parameter(Seq<char>),
    Allocation(Seq<char>),
    Backend(Seq<char>),
}

/// The exception classes that the Python surface raises.
#[derive(Clone, Copy, PartialEq, Eq, Structural, Debug)]
pub enum Exception {
    ValueError,
    MemoryError,
    RuntimeError,
}

impl View for PhaiosError {
    type V = Report;

    open spec fn view(&self) -> Report {
        match *self {
            PhaiosError::Shape(s) => Report::Shape(s@),
            PhaiosError::Parameter(s) => Report::Parameter(s@),
            PhaiosError::Allocation(s) => Report::Allocation(s@),
            PhaiosError::Backend(s) => Report::Backend(s@),
        }
    }
}

impl Report {
    /// The report as one line: the kind, then the explanation.
    pub open spec fn line(self) -> Seq<char> {
        match self {
            Report::Shape(s) => "shape error: "@ + s,
            Report::Parameter(s) => "parameter error: "@ + s,
            Report::Allocation(s) => "allocation error: "@ + s,
            Report::Backend(s) => "backend error: "@ + s,
        }
    }

    /// Shape and parameter problems are the caller's values, an allocation is
    /// memory, a backend failure happens at run time.
    pub open spec fn exception(self) -> Exception {
        match self {
            Report::Shape(_) => Exception::ValueError,
            Report::Parameter(_) => Exception::ValueError,
            Report::Allocation(_) => Exception::MemoryError,
            Report::Backend(_) => Exception::RuntimeError,
        }
    }
}

impl PhaiosError {
    /// The error as one line of text.
    pub fn to_string(&self) -> (r: String)
        ensures
            r@ == self@.line(),
    {
        let (kind, text): (&str, &String) = match self {
            PhaiosError::Shape(s) => ("shape error: ", s),
            PhaiosError::Parameter(s) => ("parameter error: ", s),
            PhaiosError::Allocation(s) => ("allocation error: ", s),
            PhaiosError::Backend(s) => ("backend error: ", s),
        };
        let mut out = String::from_str(kind);
        out.append(text.as_str());
        out
    }

    /// The exception class that this error is raised as.
    pub fn exception(&self) -> (r: Exception)
        ensures
            r == self@.exception(),
    {
        match self {
            PhaiosError::Shape(_) => Exception::ValueError,
            PhaiosError::Parameter(_) => Exception::ValueError,
            PhaiosError::Allocation(_) => Exception::MemoryError,
            PhaiosError::Backend(_) => Exception::RuntimeError,
        }
    }
}

} // verus!
