//! The directives, which steer the translation and stand for no
//! instruction of the machine.
use crate::text::same_text;
use vstd::prelude::*;

verus! {

/// Whether `t` is the keyword of a directive: the start of the program, a
/// data constant, a block of storage or the end of the program.
pub open spec fn directive_name(t: Seq<char>) -> bool {
    t == "START"@ || t == "DC"@ || t == "DS"@ || t == "END"@
}

/// Whether `s` is the keyword of a directive.
pub fn is_assembler(s: &str) -> (b: bool)
    ensures
        b == directive_name(s@),
{
    same_text(s, "START") || same_text(s, "DC") || same_text(s, "DS") || same_text(s, "END")
}

} // verus!
