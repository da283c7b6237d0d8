//! What the library takes from std and from outside crates.
use vstd::prelude::*;

verus! {

/// The case-folded form of a name, as `str::to_lowercase` computes it.
pub uninterp spec fn folded(s: Seq<char>) -> Seq<char>;

/// Relies on `str::to_lowercase`: the lower-case form of a name, which
/// depends on its characters alone; names that differ only in case share it.
#[verifier::external_body]
pub(crate) fn fold_name(s: &str) -> (r: String)
    ensures
        r@ == folded(s@),
{
    s.to_lowercase()
}

/// Relies on `uuid::Uuid::new_v4` and `Uuid::as_u128`: a random identity,
/// of which nothing is promised.
#[verifier::external_body]
pub(crate) fn new_list_id() -> (r: u128) {
    uuid::Uuid::new_v4().as_u128()
}

} // verus!
