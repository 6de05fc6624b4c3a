use vstd::prelude::*;

verus! {

/// Relies on uuid's `Uuid::new_v4` for a random identifier, written out in
/// its hyphenated form, which is always 36 characters long.
#[verifier::external_body]
pub(crate) fn fresh_secret_id() -> (r: String)
    ensures
        r@.len() == 36,
{
    uuid::Uuid::new_v4().to_hyphenated().to_string()
}

} // verus!
