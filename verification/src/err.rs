use vstd::prelude::*;

verus! {

/// Every way a parse can fail.
///
/// The first error met anywhere in tokenization or parsing aborts the parse
/// and is handed back to the caller; no recovery is attempted.
#[derive(Clone, Copy, Debug, PartialEq, Eq, Structural)]
pub enum JsonError {
    /// A structural token stood where the grammar does not allow it:
    /// a misplaced comma, a stray closing bracket or brace, a missing
    /// separator between elements, or a bare colon.
    UnexpectedToken,
    /// An object key was not followed by `:`.
    ExpectedColon,
    /// Something other than a string literal stood where an object key
    /// was required.
    ExpectedKeyString,
    /// The input ended where a value was required.
    UnexpectedEof,
    /// An alphanumeric run other than `true`, `false` or `null`.
    IllegalIdentifier,
    /// A numeric literal that does not follow the number grammar,
    /// such as one with a leading zero.
    MalformedNumber,
    /// A string literal with no closing quote, or with a broken
    /// escape sequence.
    UnterminatedString,
    /// The arena was already full when one more value had to be stored.
    CapacityExceeded,
}

} // verus!
