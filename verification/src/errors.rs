//! Error taxonomy of the compiler and of the scanner runtime.

use vstd::prelude::*;

verus! {

/// A fatal error raised while compiling a rule set into an automaton.
/// No partial automaton is ever returned alongside one of these.
#[derive(Clone, Copy, Debug, PartialEq, Eq, Structural)]
pub enum CompileError {
    /// A bracket expression is malformed, its bounds are reversed, or its
    /// bounds do not lie in the same script (letters with letters, digits
    /// with digits).
    InvalidRange,
    /// A user regex contains the sentinel mark `#`, which is reserved for
    /// internal end-markers.
    ReservedSentinel,
    /// Grouping parentheses do not match.
    UnbalancedParens,
    /// Postfix evaluation does not leave exactly one tree, or an operator
    /// is missing an operand.
    MalformedExpression,
    /// A rule matches the empty string, which would make the scanner loop
    /// without consuming input.
    NullableRule,
    /// Two range edges that leave the same automaton state overlap on some
    /// character.
    AmbiguousRange,
}

/// A scanner-time failure, surfaced to the caller; there is no recovery.
#[derive(Clone, Copy, Debug, PartialEq, Eq, Structural)]
pub enum ScanError {
    /// No rule can extend a match at the given cursor position and no
    /// accepting prefix was seen.
    UnexpectedCharacter(usize),
}

} // verus!
