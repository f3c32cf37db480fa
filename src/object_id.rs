//! Object ids: 128-bit values read and written through `uuid`.

use vstd::prelude::*;

verus! {

/// The 128-bit value that `uuid` reads from a text, if it reads one.
pub uninterp spec fn uuid_from_text(s: Seq<char>) -> Option<u128>;

/// `16^n`.
pub open spec fn pow16(n: nat) -> nat
    decreases n,
{
    if n == 0 {
        1
    } else {
        16 * pow16((n - 1) as nat)
    }
}

/// Lowercase hexadecimal digit of a value below 16.
pub open spec fn hex_digit(d: nat) -> char {
    seq!['0', '1', '2', '3', '4', '5', '6', '7', '8', '9', 'a', 'b', 'c', 'd', 'e', 'f'][d as int]
}

/// The simple form of an id: 32 lowercase hex digits, most significant first.
pub open spec fn simple_text(u: u128) -> Seq<char> {
    Seq::new(32, |i: int| hex_digit(((u as nat / pow16((31 - i) as nat)) % 16) as nat))
}

/// Relies on `uuid::Uuid::try_parse` (read through `Uuid::as_u128`): the value
/// depends on the text alone, and only texts of 32, 36, 38 or 45 characters
/// (simple, hyphenated, braced, URN) are read.
#[verifier::external_body]
fn try_parse_uuid(s: &str) -> (r: Option<u128>)
    ensures
        r == uuid_from_text(s@),
        !(s@.len() == 32 || s@.len() == 36 || s@.len() == 38 || s@.len() == 45) ==> r.is_none(),
{
    match uuid::Uuid::try_parse(s) {
        Ok(u) => Some(u.as_u128()),
        Err(_) => None,
    }
}

/// Relies on `uuid::Uuid::from_u128` and the `Display` of `Uuid::as_simple`:
/// 32 lowercase hex digits, most significant first.
#[verifier::external_body]
fn uuid_simple(u: u128) -> (r: String)
    ensures
        r@ == simple_text(u),
{
    uuid::Uuid::from_u128(u).as_simple().to_string()
}

/// Reads an object id written in any of the forms `uuid` accepts.
pub fn parse_object_id(s: &str) -> (r: Option<u128>)
    ensures
        r == uuid_from_text(s@),
        !(s@.len() == 32 || s@.len() == 36 || s@.len() == 38 || s@.len() == 45) ==> r.is_none(),
{
    try_parse_uuid(s)
}

/// Writes an object id in its simple form.
pub fn object_id_text(u: u128) -> (r: String)
    ensures
        r@ == simple_text(u),
        r@.len() == 32,
{
    uuid_simple(u)
}

} // verus!
