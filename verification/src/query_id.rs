//! Query identifiers.

use vstd::prelude::*;

verus! {

/// Whether `c` is a hexadecimal digit in lower case.
pub open spec fn is_lower_hex(c: char) -> bool {
    ('0' <= c && c <= '9') || ('a' <= c && c <= 'f')
}

/// Whether `s` is the canonical text of a random (version 4) UUID: 36
/// characters, hyphens at the positions 8, 13, 18 and 23 and lower-case
/// hexadecimal digits elsewhere, the version digit `4` at position 14 and
/// one of `8`, `9`, `a`, `b` for the variant at position 19.
pub open spec fn is_random_uuid_text(s: Seq<char>) -> bool {
    &&& s.len() == 36
    &&& forall|i: int|
        0 <= i < 36 ==> if i == 8 || i == 13 || i == 18 || i == 23 {
            s[i] == '-'
        } else {
            is_lower_hex(#[trigger] s[i])
        }
    &&& s[14] == '4'
    &&& (s[19] == '8' || s[19] == '9' || s[19] == 'a' || s[19] == 'b')
}

/// Calls `uuid::Uuid::new_v4` and renders the result with its `Display`
/// impl. Which identifier comes out is left to the operating system's
/// random number generator, so the contract claims only its shape: the
/// hyphenated lower-case form, with the version and variant digits that
/// `new_v4` sets. `new_v4` panics where the operating system cannot supply
/// random bytes.
#[verifier::external_body]
fn random_uuid_text() -> (s: String)
    ensures
        is_random_uuid_text(s@),
{
    uuid::Uuid::new_v4().to_string()
}

/// Identifies a query. Two queries are the same if their identifiers are
/// equal.
#[derive(Debug, Hash, Eq, PartialEq)]
pub struct QueryId {
    pub id: String,
}

impl View for QueryId {
    type V = Seq<char>;

    open spec fn view(&self) -> Seq<char> {
        self.id@
    }
}

impl Clone for QueryId {
    fn clone(&self) -> (r: Self)
        ensures
            r@ == self@,
    {
        QueryId { id: self.id.clone() }
    }
}

impl Default for QueryId {
    /// A fresh identifier, drawn at random.
    fn default() -> (r: Self)
        ensures
            is_random_uuid_text(r@),
    {
        QueryId { id: random_uuid_text() }
    }
}

} // verus!
