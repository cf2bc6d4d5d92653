//! The state that is handed from line to line during a pass.
use vstd::prelude::*;

verus! {

/// The assembly context: where the next word will stand, and whether the
/// end of the program has been seen.
#[derive(Clone, Copy, Debug, PartialEq, Eq, Structural)]
pub struct AssemblyContext {
    /// The location counter: the address of the next word.
    pub location_counter: u16,
    /// Whether the directive that ends the program has been passed.
    pub end_reached: bool,
}

impl AssemblyContext {
    /// The context in which a pass begins: address zero, end not seen.
    pub fn new() -> (ctx: AssemblyContext)
        ensures
            ctx == (AssemblyContext { location_counter: 0, end_reached: false }),
    {
        AssemblyContext { location_counter: 0, end_reached: false }
    }
}

} // verus!
