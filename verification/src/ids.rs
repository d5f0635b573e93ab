//! Identifiers: 128-bit numbers, written as UUIDs.

use vstd::arithmetic::power::pow;
use vstd::prelude::*;

use crate::json::hex_digit;

verus! {

/// The hexadecimal digit of `id` at place `k`, from the left.
pub open spec fn hex_at(id: u128, k: int) -> char {
    hex_digit((id as int / pow(16, (31 - k) as nat)) % 16)
}

/// A UUID in its usual notation: 32 hexadecimal digits in lower case, in groups of 8, 4, 4, 4
/// and 12.
pub open spec fn uuid_notation(id: u128) -> Seq<char> {
    Seq::new(
        36,
        |i: int|
            if i < 8 {
                hex_at(id, i)
            } else if i == 8 || i == 13 || i == 18 || i == 23 {
                '-'
            } else if i < 13 {
                hex_at(id, i - 1)
            } else if i < 18 {
                hex_at(id, i - 2)
            } else if i < 23 {
                hex_at(id, i - 3)
            } else {
                hex_at(id, i - 4)
            },
    )
}

/// `uuid::Uuid::from_u128` and its `Display`: the hyphenated notation in lower case.
#[verifier::external_body]
pub(crate) fn uuid_text(id: u128) -> (r: String)
    ensures
        r@ == uuid_notation(id),
{
    uuid::Uuid::from_u128(id).to_string()
}

/// What `uuid::Uuid::new_v5` derives from a name space and a name.
pub uninterp spec fn uuid_named(space: u128, name: Seq<char>) -> u128;

/// `uuid::Uuid::new_v5` on the bytes of a name: the same name in the same name space has the same
/// id, everywhere.
#[verifier::external_body]
pub(crate) fn named_uuid(space: u128, name: &str) -> (r: u128)
    ensures
        r == uuid_named(space, name@),
{
    uuid::Uuid::new_v5(&uuid::Uuid::from_u128(space), name.as_bytes()).as_u128()
}

} // verus!
