//! Decimal rendering of integers, for the messages that errors carry.

use vstd::prelude::*;

verus! {

/// The character of one decimal digit.
pub open spec fn digit(d: nat) -> char {
    (48 + d) as char
}

/// The decimal digits of `n`, most significant first, without leading zeros.
pub open spec fn decimal(n: nat) -> Seq<char>
    decreases n,
{
    if n < 10 {
        seq![digit(n)]
    } else {
        decimal(n / 10) + seq![digit(n % 10)]
    }
}

/// The decimal rendering of a signed integer: a minus sign in front of the
/// digits of a negative one.
pub open spec fn signed(n: int) -> Seq<char> {
    if n < 0 {
        "-"@ + decimal((-n) as nat)
    } else {
        decimal(n as nat)
    }
}

/// A shape of three extents the way a tuple prints: `(a, b, c)`.
pub open spec fn triple(shape: (usize, usize, usize)) -> Seq<char> {
    "("@ + decimal(shape.0 as nat) + ", "@ + decimal(shape.1 as nat) + ", "@ + decimal(
        shape.2 as nat,
    ) + ")"@
}

/// A shape of two extents the way a tuple prints: `(a, b)`.
pub open spec fn pair(shape: (usize, usize)) -> Seq<char> {
    "("@ + decimal(shape.0 as nat) + ", "@ + decimal(shape.1 as nat) + ")"@
}

/// A shape of three extents the way a list prints: `[a, b, c]`.
pub open spec fn list(shape: (usize, usize, usize)) -> Seq<char> {
    "["@ + decimal(shape.0 as nat) + ", "@ + decimal(shape.1 as nat) + ", "@ + decimal(
        shape.2 as nat,
    ) + "]"@
}

fn digit_text(d: u64) -> (r: &'static str)
    requires
        d < 10,
    ensures
        r@ == seq![digit(d as nat)],
{
    proof {
        reveal_strlit("0");
        reveal_strlit("1");
        reveal_strlit("2");
        reveal_strlit("3");
        reveal_strlit("4");
        reveal_strlit("5");
        reveal_strlit("6");
        reveal_strlit("7");
        reveal_strlit("8");
        reveal_strlit("9");
    }
    let r: &'static str = match d {
        0 => "0",
        1 => "1",
        2 => "2",
        3 => "3",
        4 => "4",
        5 => "5",
        6 => "6",
        7 => "7",
        8 => "8",
        _ => "9",
    };
    assert(r@ =~= seq![digit(d as nat)]);
    r
}

/// Appends the decimal digits of `n` to `out`.
pub fn put_decimal(out: &mut String, n: u64)
    ensures
        final(out)@ == old(out)@ + decimal(n as nat),
    decreases n,
{
    if n >= 10 {
        put_decimal(out, n / 10);
    }
    out.append(digit_text(n % 10));
    proof {
        if n < 10 {
            assert(n % 10 == n);
        } else {
            assert(old(out)@ + decimal((n / 10) as nat) + seq![digit((n % 10) as nat)]
                =~= old(out)@ + (decimal((n / 10) as nat) + seq![digit((n % 10) as nat)]));
        }
    }
}

/// Appends the decimal rendering of a signed `n` to `out`.
pub fn put_signed(out: &mut String, n: i32)
    ensures
        final(out)@ == old(out)@ + signed(n as int),
{
    if n < 0 {
        out.append("-");
        put_decimal(out, (-(n as i64)) as u64);
        assert(old(out)@ + "-"@ + decimal((-n) as nat) =~= old(out)@ + ("-"@ + decimal(
            (-n) as nat,
        )));
    } else {
        put_decimal(out, n as u64);
    }
}

/// Appends a shape of three extents as `(a, b, c)`.
pub fn put_triple(out: &mut String, shape: (usize, usize, usize))
    ensures
        final(out)@ == old(out)@ + triple(shape),
{
    out.append("(");
    put_decimal(out, shape.0 as u64);
    out.append(", ");
    put_decimal(out, shape.1 as u64);
    out.append(", ");
    put_decimal(out, shape.2 as u64);
    out.append(")");
    assert(out@ =~= old(out)@ + triple(shape));
}

/// Appends a shape of two extents as `(a, b)`.
pub fn put_pair(out: &mut String, shape: (usize, usize))
    ensures
        final(out)@ == old(out)@ + pair(shape),
{
    out.append("(");
    put_decimal(out, shape.0 as u64);
    out.append(", ");
    put_decimal(out, shape.1 as u64);
    out.append(")");
    assert(out@ =~= old(out)@ + pair(shape));
}

/// Appends a shape of three extents as `[a, b, c]`.
pub fn put_list(out: &mut String, shape: (usize, usize, usize))
    ensures
        final(out)@ == old(out)@ + list(shape),
{
    out.append("[");
    put_decimal(out, shape.0 as u64);
    out.append(", ");
    put_decimal(out, shape.1 as u64);
    out.append(", ");
    put_decimal(out, shape.2 as u64);
    out.append("]");
    assert(out@ =~= old(out)@ + list(shape));
}

} // verus!
