use vstd::prelude::*;

verus! {

/// The failure kinds the engine can surface.
///
/// `Io` covers failures of the backing store's durability barrier;
/// `PageOutOfBounds` a page identifier whose byte range lies outside the
/// mapped region; `Encoding` a record whose payload does not parse when a
/// caller asked for strict reading; `ValueTooLarge` an encoded record that
/// would not fit in one page; and `KeyNotFound` a deletion of an absent key.
#[derive(Debug, Clone, Copy, PartialEq, Eq, Structural)]
pub enum DbError {
    Io,
    PageOutOfBounds,
    Encoding,
    ValueTooLarge,
    KeyNotFound,
}

impl DbError {
    /// A short description of the error, for diagnostics.
    pub fn message(&self) -> &'static str {
        match self {
            DbError::Io => "input/output error",
            DbError::PageOutOfBounds => "page out of bounds",
            DbError::Encoding => "record does not decode",
            DbError::ValueTooLarge => "value too large for one page",
            DbError::KeyNotFound => "key not found",
        }
    }
}

} // verus!
