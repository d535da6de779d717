use vstd::prelude::*;

verus! {

/// Why a pattern or an input could not be processed.
#[derive(Debug, Clone, Copy, PartialEq, Eq, Structural)]
pub enum RegexError {
    /// A leading byte of no UTF-8 shape, or a bad continuation byte.
    InvalidEncoding,
    /// A multi-byte code unit cut off at the end of the buffer.
    TruncatedEncoding,
    /// An atom was expected, but the pattern (or the group) had ended.
    UnexpectedEndOfInput,
    /// A `(` without its `)`, or a `)` without its `(`.
    UnbalancedGroup,
}

} // verus!
