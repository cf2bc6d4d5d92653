//! The macro instructions, each of which stands for a fixed run of words.
use crate::text::same_text;
use vstd::prelude::*;

verus! {

/// Whether `t` is the keyword of a macro instruction: saving or restoring
/// all registers, or reading or writing a record.
pub open spec fn macro_name(t: Seq<char>) -> bool {
    t == "RPUSH"@ || t == "RPOP"@ || t == "IN"@ || t == "OUT"@
}

/// Whether `s` is the keyword of a macro instruction.
pub fn is_macro(s: &str) -> (b: bool)
    ensures
        b == macro_name(s@),
{
    same_text(s, "RPUSH") || same_text(s, "RPOP") || same_text(s, "IN") || same_text(s, "OUT")
}

} // verus!
