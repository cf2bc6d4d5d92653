//! The eight general registers `GR0` to `GR7`.
use crate::text::chars_of;
use vstd::prelude::*;

verus! {

/// The number of the register that `t` names, if it names one: `GR` and a
/// digit from `0` to `7`.
pub open spec fn register_number(t: Seq<char>) -> Option<u16> {
    if t.len() == 3 && t[0] == 'G' && t[1] == 'R' && '0' <= t[2] <= '7' {
        Some((t[2] as u32 - '0' as u32) as u16)
    } else {
        None
    }
}

/// Whether `t` names a register that can serve as an index register: any
/// but `GR0`.
pub open spec fn index_register_name(t: Seq<char>) -> bool {
    register_number(t) is Some && register_number(t) != Some(0u16)
}

/// The number of the register that `s` names, if it names one.
fn number_of(s: &str) -> (r: Option<u16>)
    ensures
        r == register_number(s@),
{
    let cs = chars_of(s);
    if cs.len() == 3 && cs[0] == 'G' && cs[1] == 'R' && '0' <= cs[2] && cs[2] <= '7' {
        Some((cs[2] as u32 - '0' as u32) as u16)
    } else {
        None
    }
}

/// Whether `s` names a register.
pub fn is_register(s: &str) -> (b: bool)
    ensures
        b == register_number(s@) is Some,
{
    number_of(s).is_some()
}

/// Whether `s` names a register other than `GR0`.
pub fn is_index_register(s: &str) -> (b: bool)
    ensures
        b == index_register_name(s@),
{
    match number_of(s) {
        Some(k) => k != 0,
        None => false,
    }
}

/// The number of the register that `s` names.
pub fn get_register_number(s: &str) -> (k: u16)
    requires
        register_number(s@) is Some,
    ensures
        Some(k) == register_number(s@),
        k <= 7,
{
    match number_of(s) {
        Some(k) => k,
        None => 0,
    }
}

} // verus!
