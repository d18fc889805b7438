//! Small text-building helpers shared by the notation and rendering code.
use vstd::prelude::*;

verus! {

/// `String::push` from std: appends one character at the end of the string.
#[verifier::external_body]
pub(crate) fn push_char(s: &mut String, c: char)
    ensures
        final(s)@ == old(s)@.push(c),
{
    s.push(c);
}

/// The letter naming a file (`0` is `a`).
pub open spec fn file_char(f: int) -> char {
    (97 + f) as char
}

/// The digit naming a rank (`0` is `1`).
pub open spec fn rank_char(r: int) -> char {
    (49 + r) as char
}

/// Algebraic coordinate of a square index, such as `a1`.
pub open spec fn spec_coord(i: int) -> Seq<char> {
    seq![file_char(i % 8), rank_char(i / 8)]
}

/// Decimal digit character for `d` in `0..10`.
pub open spec fn digit_char(d: int) -> char {
    (48 + d) as char
}

/// Decimal notation of a natural number, without leading zeros.
pub open spec fn decimal(n: nat) -> Seq<char>
    decreases n,
{
    if n < 10 {
        seq![digit_char(n as int)]
    } else {
        decimal(n / 10).push(digit_char((n % 10) as int))
    }
}

/// Appends the decimal notation of `n` to `out`.
pub fn push_decimal(out: &mut String, n: u64)
    ensures
        final(out)@ == old(out)@ + decimal(n as nat),
    decreases n,
{
    if n < 10 {
        push_char(out, (48u8 + n as u8) as char);
        proof {
            assert(out@ =~= old(out)@ + decimal(n as nat));
        }
    } else {
        push_decimal(out, n / 10);
        let d = (n % 10) as u8;
        push_char(out, (48u8 + d) as char);
        proof {
            assert(out@ =~= old(out)@ + decimal(n as nat));
        }
    }
}

} // verus!
