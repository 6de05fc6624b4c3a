use vstd::prelude::*;

verus! {

/// Why an operation on the secret store was refused. A refused operation
/// leaves the store and both indices as they were.
#[derive(Clone, Copy, Debug, PartialEq, Eq, Structural)]
pub enum SecretError {
    /// No secret has the given id.
    NotFound,
    /// The caller does not own the secret.
    NotOwner,
    /// The caller is not on the secret's whitelist.
    NotWhitelisted,
    /// The secret has been released and is frozen.
    AlreadyReleased,
    /// The id handed out for a new secret is already in use.
    DuplicateId,
    /// The caller may not read the secret's content.
    Unauthorized,
}

} // verus!
