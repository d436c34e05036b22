use vstd::prelude::*;

verus! {

/// The lower-case hexadecimal digit for `d` (0 to 15).
pub open spec fn hex_digit(d: int) -> char {
    if d < 10 {
        (48 + d) as char
    } else {
        (87 + d) as char
    }
}

/// The `k`-th hexadecimal digit (0 is the most significant) of the 128-bit value `v`.
pub open spec fn nibble(v: u128, k: int) -> int {
    (v as int / vstd::arithmetic::power2::pow2((124 - 4 * k) as nat) as int) % 16
}

/// The hyphenated text of a UUID: 32 lower-case hexadecimal digits in
/// groups of 8, 4, 4, 4 and 12, separated by `-`.
pub open spec fn uuid_text(v: u128) -> Seq<char> {
    Seq::new(
        36,
        |i: int|
            if i == 8 || i == 13 || i == 18 || i == 23 {
                '-'
            } else if i < 8 {
                hex_digit(nibble(v, i))
            } else if i < 13 {
                hex_digit(nibble(v, i - 1))
            } else if i < 18 {
                hex_digit(nibble(v, i - 2))
            } else if i < 23 {
                hex_digit(nibble(v, i - 3))
            } else {
                hex_digit(nibble(v, i - 4))
            },
    )
}

/// Formats the UUID whose 128-bit value is `v` with `uuid::Uuid::to_string`
/// (its `Display`), which the uuid crate writes in the hyphenated lower-case
/// form; the contract states that form.
#[verifier::external_body]
pub(crate) fn uuid_string(v: u128) -> (s: String)
    ensures
        s@ == uuid_text(v),
{
    uuid::Uuid::from_u128(v).to_string()
}

} // verus!
