use vstd::prelude::*;

verus! {

/// Why an operation on the store was refused.
#[derive(PartialEq, Eq, Structural, Clone, Copy, Debug)]
pub enum DbError {
    /// The name matches an existing member of the collection, ignoring ASCII case.
    DuplicateName,
    /// Every identifier that an `i64` can hold has been handed out.
    IdsExhausted,
    /// A new balance, assigned or activity figure would not fit in an `i64`.
    AmountOverflow,
    /// A stored record breaks the store's invariants and cannot be loaded.
    CorruptRecord,
}

} // verus!
