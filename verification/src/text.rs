use vstd::prelude::*;

verus! {

/// The character for a single decimal digit value.
pub open spec fn dec_digit(d: int) -> char {
    if d == 0 {
        '0'
    } else if d == 1 {
        '1'
    } else if d == 2 {
        '2'
    } else if d == 3 {
        '3'
    } else if d == 4 {
        '4'
    } else if d == 5 {
        '5'
    } else if d == 6 {
        '6'
    } else if d == 7 {
        '7'
    } else if d == 8 {
        '8'
    } else {
        '9'
    }
}

/// The decimal representation of `n`, most significant digit first,
/// with no leading zeros (a single `'0'` for zero).
pub open spec fn dec_str(n: nat) -> Seq<char>
    decreases n,
{
    if n < 10 {
        seq![dec_digit(n as int)]
    } else {
        dec_str(n / 10) + seq![dec_digit((n % 10) as int)]
    }
}

/// Relies on `u128`'s `Display` implementation (through `to_string`),
/// which std documents as the decimal representation of the value.
#[verifier::external_body]
pub(crate) fn u128_to_dec(n: u128) -> (r: String)
    ensures
        r@ == dec_str(n as nat),
{
    n.to_string()
}

/// Decimal rendering for the narrower integers the library prints.
pub(crate) fn u64_to_dec(n: u64) -> (r: String)
    ensures
        r@ == dec_str(n as nat),
{
    u128_to_dec(n as u128)
}

/// Decimal rendering for repository counters.
pub(crate) fn u32_to_dec(n: u32) -> (r: String)
    ensures
        r@ == dec_str(n as nat),
{
    u128_to_dec(n as u128)
}

} // verus!
