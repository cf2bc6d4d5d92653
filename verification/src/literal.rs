//! Literals: operands marked with an equals sign, whose values are kept in
//! a pool behind the program.
use crate::constant::{
    char_text, char_words, decimal_value, hex_value, quoted, read_decimal, read_hex, unquote,
};
use crate::number::{digit_of, unsigned_part};
use crate::text::chars_of;
use vstd::prelude::*;
use vstd::slice::slice_subrange;

verus! {

/// `t` without its first character.
pub open spec fn after_mark(t: Seq<char>) -> Seq<char> {
    if t.len() > 0 {
        t.drop_first()
    } else {
        t
    }
}

/// Whether `t` is a literal: an equals sign and then anything that is not
/// at once a decimal number, a hexadecimal number and a character constant.
pub open spec fn literal_text(t: Seq<char>) -> bool {
    t.len() > 0 && t[0] == '=' && !(decimal_value(after_mark(t)) is Some && hex_value(
        after_mark(t),
    ) is Some && char_text(after_mark(t)))
}

/// The words that the literal `t` puts into the pool: one word for a
/// number, one word for each character of a character constant, and none
/// where what follows the equals sign is neither.
pub open spec fn literal_words(t: Seq<char>) -> Seq<u16> {
    let r = after_mark(t);
    if decimal_value(r) is Some {
        seq![decimal_value(r)->0]
    } else if hex_value(r) is Some {
        seq![hex_value(r)->0]
    } else if char_text(r) {
        char_words(r)
    } else {
        Seq::empty()
    }
}

/// No text is a decimal number and a character constant at once, so every
/// text that begins with an equals sign is a literal.
pub proof fn lemma_literal_is_marked(t: Seq<char>)
    ensures
        literal_text(t) <==> (t.len() > 0 && t[0] == '='),
{
    let r = after_mark(t);
    if decimal_value(r) is Some && char_text(r) {
        let d = unsigned_part(r);
        assert(d == r);
        assert(digit_of(d[0], 10) is Some);
    }
}

/// Whether `s` is a literal.
pub fn is_literal(s: &str) -> (b: bool)
    ensures
        b == literal_text(s@),
        b == (s@.len() > 0 && s@[0] == '='),
{
    proof {
        lemma_literal_is_marked(s@);
    }
    let cs = chars_of(s);
    if cs.len() == 0 || cs[0] != '=' {
        return false;
    }
    let rest = slice_subrange(cs.as_slice(), 1, cs.len());
    !(read_decimal(rest).is_some() && read_hex(rest).is_some() && quoted(rest))
}

/// The words that the literal `s` puts into the pool.
pub fn literal_value(s: &str) -> (v: Vec<u16>)
    ensures
        v@ == literal_words(s@),
{
    let cs = chars_of(s);
    let from: usize = if cs.len() > 0 {
        1
    } else {
        0
    };
    let rest = slice_subrange(cs.as_slice(), from, cs.len());
    assert(rest@ =~= after_mark(s@));
    if let Some(v) = read_decimal(rest) {
        return vec![v];
    }
    if let Some(v) = read_hex(rest) {
        return vec![v];
    }
    if quoted(rest) {
        return unquote(rest);
    }
    Vec::new()
}

} // verus!
