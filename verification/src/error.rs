use vstd::prelude::*;

verus! {

/// The failure taxonomy of the assembler. Every stage halts at the first
/// error it meets; there is no partial-success mode.
#[derive(Clone, Copy, Debug, PartialEq, Eq, Structural)]
pub enum AsmError {
    /// A malformed token shape: an empty or ill-formed address operand,
    /// an unterminated label, or an empty computation or jump fragment.
    Lexical,
    /// An address symbol with no binding after both registration sweeps.
    /// The registration contract allocates every unseen symbol, so this
    /// signals an internal inconsistency, not a user mistake.
    UnknownSymbol,
    /// Token adjacency that violates the grammar, or an address outside
    /// the 15-bit range.
    Structure,
    /// A computation or jump mnemonic with no entry in its fixed table.
    Encoding,
}

} // verus!
