//! Fresh identifiers for elements and categories.

use vstd::prelude::*;

verus! {

/// `Uuid::new_v4`, as a number: random bits, with the version nibble set
/// to 4 and the two variant bits to `10`, as the generator masks them in.
/// Which value comes out is left open.
#[verifier::external_body]
pub(crate) fn new_uuid() -> (r: u128)
    ensures
        r & 0xF000C000000000000000u128 == 0x40008000000000000000u128,
{
    uuid::Uuid::new_v4().as_u128()
}

/// The lowercase hexadecimal digit of a value below 16.
pub open spec fn hex_digit(d: int) -> char {
    if d < 10 {
        (d + 48) as char
    } else {
        (d + 87) as char
    }
}

/// Digit `k` of the 32 hexadecimal digits of `u`, the most significant first.
pub open spec fn hex_nibble(u: u128, k: int) -> int {
    ((u >> (((31 - k) * 4) as u128)) & 0xf) as int
}

/// The hyphenated text of a UUID: its 32 lowercase hexadecimal digits, most
/// significant first, in groups of 8, 4, 4, 4 and 12 joined by `-`.
pub open spec fn hyphenated_text(u: u128) -> Seq<char> {
    Seq::new(36, |i: int|
        if i == 8 || i == 13 || i == 18 || i == 23 {
            '-'
        } else {
            let k = if i < 8 { i } else if i < 13 { i - 1 } else if i < 18 { i - 2 } else if i < 23 { i - 3 } else { i - 4 };
            hex_digit(hex_nibble(u, k))
        })
}

/// The `Display` text of `Uuid::from_u128(u)`: its hyphenated lowercase form.
#[verifier::external_body]
pub(crate) fn uuid_text(u: u128) -> (r: String)
    ensures
        r@ == hyphenated_text(u),
{
    uuid::Uuid::from_u128(u).to_string()
}

} // verus!
