use vstd::prelude::*;
use vstd::string::*;

verus! {

/// The decimal digit character of a value below 10.
pub open spec fn dec_digit(d: int) -> char {
    "0123456789"@[d]
}

/// Decimal digits of `n`, most significant first, without leading zeros.
pub open spec fn dec_digits(n: nat) -> Seq<char>
    decreases n,
{
    if n < 10 {
        seq![dec_digit(n as int)]
    } else {
        dec_digits(n / 10) + seq![dec_digit(n as int % 10)]
    }
}

/// Decimal text of an integer: a minus sign before the digits of a negative one.
pub open spec fn dec_int(i: int) -> Seq<char> {
    if i < 0 {
        "-"@ + dec_digits((-i) as nat)
    } else {
        dec_digits(i as nat)
    }
}

/// Appends the decimal digits of `n` to `out`.
pub(crate) fn push_decimal(out: &mut String, n: u64)
    ensures
        final(out)@ == old(out)@ + dec_digits(n as nat),
    decreases n,
{
    let ghost o0 = out@;
    if n >= 10 {
        push_decimal(out, n / 10);
    }
    let digits = "0123456789";
    proof {
        reveal_strlit("0123456789");
    }
    let d = (n % 10) as usize;
    let one = digits.substring_char(d, d + 1);
    assert(one@ =~= seq![dec_digit(d as int)]);
    out.append(one);
    assert(out@ =~= o0 + dec_digits(n as nat));
}

/// Appends the decimal text of `i` to `out`.
pub(crate) fn push_signed_decimal(out: &mut String, i: i64)
    ensures
        final(out)@ == old(out)@ + dec_int(i as int),
{
    if i < 0 {
        out.append("-");
        proof {
            reveal_strlit("-");
        }
        let magnitude = (-(i as i128)) as u64;
        push_decimal(out, magnitude);
        assert(out@ =~= old(out)@ + dec_int(i as int));
    } else {
        push_decimal(out, i as u64);
    }
}

} // verus!
