//! The ways in which a translation fails.
use vstd::prelude::*;

verus! {

/// Why a line cannot be translated. Every failure is fatal: the run yields
/// no words.
#[derive(Clone, Copy, Debug, PartialEq, Eq, Structural)]
pub enum ErrorKind {
    /// A word of the line is none of the things that may stand at its
    /// position.
    Lexical,
    /// The operands are not those that the mnemonic takes, in number or in
    /// kind.
    Grammar,
    /// An operand names an address that the symbol table does not hold.
    UnresolvedSymbol,
    /// An operand of a directive does not have the form that the directive
    /// asks for.
    MalformedDirective,
    /// The location counter would leave the sixteen bits of an address.
    AddressOverflow,
    /// The line is accepted and its words are reserved, but no encoding is
    /// defined for it.
    NoEncoding,
}

/// A failure together with the number of the line on which it was found.
#[derive(Clone, Copy, Debug, PartialEq, Eq, Structural)]
pub struct AsmError {
    /// Why the line cannot be translated.
    pub kind: ErrorKind,
    /// The number of the line in the source text, counted from zero.
    pub line: usize,
}

} // verus!
