//! The wording of refused parameters.

use vstd::prelude::*;

use crate::arith::{faithful, text, text_of, Arithmetic};
use crate::error::{PhaiosError, Report};
use crate::text::{list, put_list};

verus! {

/// The refusal `name is value, what was expected`.
pub open spec fn unexpected<A: Arithmetic>(
    name: Seq<char>,
    value: u32,
    expected: Seq<char>,
) -> Report {
    Report::Parameter(name + " is "@ + text_of::<A>(value) + expected)
}

/// Makes the refusal `name is value, what was expected`.
pub(crate) fn refuse<A: Arithmetic>(name: &str, value: u32, expected: &str) -> (r: PhaiosError)
    requires
        faithful::<A>(),
    ensures
        r@ == unexpected::<A>(name@, value, expected@),
{
    let mut out = String::from_str(name);
    out.append(" is ");
    out.append(text::<A>(value).as_str());
    out.append(expected);
    PhaiosError::Parameter(out)
}

/// The refusal of a shape: what was expected, then the shape.
pub open spec fn misshapen(expected: Seq<char>, shape: (usize, usize, usize)) -> Report {
    Report::Shape(expected + ", got shape "@ + list(shape))
}

/// Makes the refusal of a shape.
pub(crate) fn refuse_shape(expected: &str, shape: (usize, usize, usize)) -> (r: PhaiosError)
    ensures
        r@ == misshapen(expected@, shape),
{
    let mut out = String::from_str(expected);
    out.append(", got shape ");
    put_list(&mut out, shape);
    PhaiosError::Shape(out)
}

/// The text `what (min, max) tail`.
pub open spec fn range_text<A: Arithmetic>(
    what: Seq<char>,
    min: u32,
    max: u32,
    tail: Seq<char>,
) -> Seq<char> {
    what + " ("@ + text_of::<A>(min) + ", "@ + text_of::<A>(max) + ")"@ + tail
}

/// Builds the text `what (min, max) tail`.
pub(crate) fn put_range<A: Arithmetic>(what: &str, min: u32, max: u32, tail: &str) -> (r: String)
    requires
        faithful::<A>(),
    ensures
        r@ == range_text::<A>(what@, min, max, tail@),
{
    let mut out = String::from_str(what);
    out.append(" (");
    out.append(text::<A>(min).as_str());
    out.append(", ");
    out.append(text::<A>(max).as_str());
    out.append(")");
    out.append(tail);
    out
}

} // verus!
