//! What can go wrong when tokens are read or loaded.

use vstd::prelude::*;

verus! {

/// An error of the token storage.
#[derive(Debug)]
pub enum StorageError {
    /// Nothing of this kind is known under this name.
    NotFound(String, String),
    /// Something happened that the storage is not prepared for.
    Unexpected(String),
}

impl StorageError {
    /// The error says that nothing of kind `kind` is known under `name`.
    pub open spec fn is_not_found(self, kind: Seq<char>, name: Seq<char>) -> bool {
        self matches StorageError::NotFound(k, n) && k@ == kind && n@ == name
    }

    /// The error is an unexpected condition, described by `message`.
    pub open spec fn is_unexpected(self, message: Seq<char>) -> bool {
        self matches StorageError::Unexpected(m) && m@ == message
    }
}

/// An error that says that something was not found names its kind and what was asked for; an
/// unexpected condition is described by its message. Neither is the other.
pub proof fn law_errors_carry_their_text(
    error: StorageError,
    kind: Seq<char>,
    name: Seq<char>,
    message: Seq<char>,
)
    ensures
        error.is_not_found(kind, name) ==> error is NotFound && error->NotFound_0@ == kind
            && error->NotFound_1@ == name,
        error.is_unexpected(message) ==> error is Unexpected && error->Unexpected_0@ == message,
{
}

} // verus!
