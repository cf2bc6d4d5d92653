//! Constants: numbers in decimal or hexadecimal digits, character
//! constants between quote marks, and names of addresses.
use crate::error::ErrorKind;
use crate::number::{digit_of, parse_number, parse_u16, unsigned_part};
use crate::register::{is_register, register_number};
use crate::text::chars_of;
use crate::token::SymbolTable;
use vstd::prelude::*;
use vstd::slice::slice_subrange;

verus! {

/// What a text is when it is read as a constant.
#[derive(Clone, Copy, Debug, PartialEq, Eq, Structural)]
pub enum Constant {
    /// A number in decimal digits.
    Decimal,
    /// A number in hexadecimal digits behind a mark of the radix.
    Hex,
    /// Characters between quote marks.
    Char,
    /// A text in the form of a label.
    Address,
    /// No constant.
    Other,
}

/// What is wrong with a text that cannot serve as a label.
#[derive(Clone, Copy, Debug, PartialEq, Eq, Structural)]
pub enum LabelDefect {
    /// It is the name of a register.
    RegisterName,
    /// It is empty or longer than eight characters.
    Length,
    /// It does not begin with a capital letter.
    FirstCharacter,
    /// A character after the first is neither a capital letter nor a digit.
    LaterCharacter,
}

/// The number that `t` writes in decimal digits.
pub open spec fn decimal_value(t: Seq<char>) -> Option<u16> {
    parse_u16(t, 10)
}

/// The number that `t` writes in hexadecimal digits after the one character
/// that marks the radix.
pub open spec fn hex_value(t: Seq<char>) -> Option<u16> {
    if t.len() == 0 {
        None
    } else {
        parse_u16(t.drop_first(), 16)
    }
}

/// How many quote marks stand in an unbroken run directly before position
/// `i` of `t`.
pub open spec fn quotes_before(t: Seq<char>, i: int) -> nat
    decreases i,
{
    if i <= 0 || i > t.len() || t[i - 1] != '\'' {
        0
    } else {
        1 + quotes_before(t, i - 1)
    }
}

/// Whether every run of quote marks in `t` that another character follows
/// has an even length, so that it reads as doubled quote marks only.
pub open spec fn well_escaped(t: Seq<char>) -> bool {
    forall|i: int| 0 <= i < t.len() && t[i] != '\'' ==> #[trigger] quotes_before(t, i) % 2 == 0
}

/// What stands between the first and the last character of `s`.
pub open spec fn inner(s: Seq<char>) -> Seq<char> {
    s.subrange(1, s.len() - 1)
}

/// Whether `s` is a character constant: it begins and ends with a quote
/// mark, two different ones, and between them every run of quote marks
/// that another character follows has an even length. The run that reaches
/// the closing quote mark may have any length.
pub open spec fn char_text(s: Seq<char>) -> bool {
    s.len() >= 2 && s[0] == '\'' && s.last() == '\'' && well_escaped(inner(s))
}

/// What the text `t` between the quote marks of a character constant
/// stands for: `t` with each doubled quote mark replaced by a single one,
/// pairing the quote marks from the left. A quote mark that is left over at
/// the end of `t` is paired with the closing mark and stands for nothing.
pub open spec fn unescape(t: Seq<char>) -> Seq<char>
    decreases t.len(),
{
    if t.len() == 0 {
        Seq::empty()
    } else if t[0] == '\'' && t.len() == 1 {
        Seq::empty()
    } else if t[0] == '\'' && t[1] == '\'' {
        seq!['\''] + unescape(t.skip(2))
    } else {
        seq![t[0]] + unescape(t.skip(1))
    }
}

/// The characters that the character constant `s` stands for.
pub open spec fn char_value(s: Seq<char>) -> Seq<char> {
    unescape(inner(s))
}

/// The word that holds the character `c`: the low sixteen bits of its code.
pub open spec fn char_word(c: char) -> u16 {
    (c as u32 % 0x10000) as u16
}

/// The words that hold the characters `v`, one word for each.
pub open spec fn words_of_chars(v: Seq<char>) -> Seq<u16> {
    Seq::new(v.len(), |i: int| char_word(v[i]))
}

/// The words that the character constant `s` stands for.
pub open spec fn char_words(s: Seq<char>) -> Seq<u16> {
    words_of_chars(char_value(s))
}

/// What is wrong with `t` as a label, if anything; of several defects the
/// first in the order of `LabelDefect`.
pub open spec fn label_defect_of(t: Seq<char>) -> Option<LabelDefect> {
    if register_number(t) is Some {
        Some(LabelDefect::RegisterName)
    } else if !(1 <= t.len() <= 8) {
        Some(LabelDefect::Length)
    } else if !('A' <= t[0] <= 'Z') {
        Some(LabelDefect::FirstCharacter)
    } else if exists|i: int|
        1 <= i < t.len() && !(('A' <= #[trigger] t[i] <= 'Z') || ('0' <= t[i] <= '9')) {
        Some(LabelDefect::LaterCharacter)
    } else {
        None
    }
}

/// Whether `t` has the form of a label: one to eight characters, a capital
/// letter first and then capital letters and digits, and not the name of a
/// register.
pub open spec fn label_text(t: Seq<char>) -> bool {
    &&& register_number(t) is None
    &&& 1 <= t.len() <= 8
    &&& 'A' <= t[0] <= 'Z'
    &&& forall|i: int| 1 <= i < t.len() ==> ('A' <= #[trigger] t[i] <= 'Z') || ('0' <= t[i] <= '9')
}

/// What `t` is as a constant. The forms are tried in the order decimal,
/// hexadecimal, character constant, label, and the first that fits decides.
pub open spec fn constant_class(t: Seq<char>) -> Constant {
    if decimal_value(t) is Some {
        Constant::Decimal
    } else if hex_value(t) is Some {
        Constant::Hex
    } else if char_text(t) {
        Constant::Char
    } else if label_text(t) {
        Constant::Address
    } else {
        Constant::Other
    }
}

/// The value of the constant `t` as an address or a number: what it writes
/// in decimal, else what it writes in hexadecimal, else the address that
/// `table` holds under this name.
pub open spec fn constant_value(t: Seq<char>, table: Map<Seq<char>, u16>) -> Option<u16> {
    if decimal_value(t) is Some {
        decimal_value(t)
    } else if hex_value(t) is Some {
        hex_value(t)
    } else if table.contains_key(t) {
        Some(table[t])
    } else {
        None
    }
}

/// A character constant is neither a decimal nor a hexadecimal number: its
/// quote marks are no digits.
pub proof fn lemma_char_constant_class(t: Seq<char>)
    requires
        char_text(t),
    ensures
        decimal_value(t) is None,
        hex_value(t) is None,
        constant_class(t) == Constant::Char,
{
    assert(unsigned_part(t) == t);
    assert(digit_of(t[0], 10) is None);
    let r = t.drop_first();
    let d = unsigned_part(r);
    if d.len() > 0 {
        assert(d.last() == t.last());
        assert(digit_of(d[d.len() - 1], 16) is None);
    }
}

/// `v` with each quote mark doubled.
pub open spec fn escape(v: Seq<char>) -> Seq<char>
    decreases v.len(),
{
    if v.len() == 0 {
        Seq::empty()
    } else if v[0] == '\'' {
        seq!['\'', '\''] + escape(v.skip(1))
    } else {
        seq![v[0]] + escape(v.skip(1))
    }
}

/// The character constant that stands for the characters `v`: between two
/// quote marks, `v` with each quote mark doubled.
pub open spec fn quote_text(v: Seq<char>) -> Seq<char> {
    seq!['\''] + escape(v) + seq!['\'']
}

/// Whether every run of quote marks in `t` has an even length, the one at
/// its end too: `t` is made of doubled quote marks and other characters.
pub open spec fn fully_escaped(t: Seq<char>) -> bool {
    well_escaped(t) && quotes_before(t, t.len() as int) % 2 == 0
}

/// A character that is no quote mark, put before `r`, changes no run of
/// quote marks in `r`.
pub proof fn lemma_quotes_behind_char(c: char, r: Seq<char>, j: int)
    requires
        c != '\'',
        0 <= j <= r.len(),
    ensures
        quotes_before(seq![c] + r, j + 1) == quotes_before(r, j),
    decreases j,
{
    let s = seq![c] + r;
    if j > 0 {
        assert(s[j] == r[j - 1]);
        lemma_quotes_behind_char(c, r, j - 1);
    }
}

/// Two quote marks, put before `r`, make the run of quote marks at the
/// beginning of `r` longer by two and change no other run.
pub proof fn lemma_quotes_behind_pair(r: Seq<char>, j: int)
    requires
        0 <= j <= r.len(),
    ensures
        quotes_before(seq!['\'', '\''] + r, j + 2) == quotes_before(r, j) + if quotes_before(r, j)
            == j {
            2nat
        } else {
            0nat
        },
        quotes_before(r, j) <= j,
    decreases j,
{
    let s = seq!['\'', '\''] + r;
    if j > 0 {
        assert(s[j + 1] == r[j - 1]);
        lemma_quotes_behind_pair(r, j - 1);
    } else {
        assert(s[1] == '\'');
        assert(s[0] == '\'');
        assert(quotes_before(s, 1) == 1) by {
            assert(quotes_before(s, 0) == 0);
        }
    }
}

/// Doubling the quote marks and uniting the pairs again gives back the
/// characters.
pub proof fn lemma_unescape_escape(v: Seq<char>)
    ensures
        unescape(escape(v)) == v,
    decreases v.len(),
{
    if v.len() > 0 {
        let rest = v.skip(1);
        lemma_unescape_escape(rest);
        let e = escape(v);
        if v[0] == '\'' {
            assert(e[0] == '\'' && e[1] == '\'');
            assert(e.skip(2) =~= escape(rest));
            assert(seq!['\''] + rest =~= v);
        } else {
            assert(e[0] == v[0]);
            assert(e.skip(1) =~= escape(rest));
            assert(seq![v[0]] + rest =~= v);
        }
    }
}

/// Where the quote marks are doubled, every run of them has an even
/// length.
pub proof fn lemma_escape_is_fully_escaped(v: Seq<char>)
    ensures
        fully_escaped(escape(v)),
    decreases v.len(),
{
    if v.len() > 0 {
        let rest = v.skip(1);
        let r = escape(rest);
        lemma_escape_is_fully_escaped(rest);
        let e = escape(v);
        if v[0] == '\'' {
            assert(e =~= seq!['\'', '\''] + r);
            assert forall|i: int| 0 <= i < e.len() && e[i] != '\'' implies #[trigger] quotes_before(
                e,
                i,
            ) % 2 == 0 by {
                assert(i >= 2);
                assert(e[i] == r[i - 2]);
                lemma_quotes_behind_pair(r, i - 2);
                assert(quotes_before(r, i - 2) % 2 == 0);
            }
            lemma_quotes_behind_pair(r, r.len() as int);
        } else {
            assert(e =~= seq![v[0]] + r);
            assert forall|i: int| 0 <= i < e.len() && e[i] != '\'' implies #[trigger] quotes_before(
                e,
                i,
            ) % 2 == 0 by {
                if i > 0 {
                    assert(e[i] == r[i - 1]);
                    lemma_quotes_behind_char(v[0], r, i - 1);
                    assert(quotes_before(r, i - 1) % 2 == 0);
                }
            }
            lemma_quotes_behind_char(v[0], r, r.len() as int);
        }
    }
}

/// Where every run of quote marks has an even length, uniting the pairs
/// and doubling the quote marks again gives back the text.
pub proof fn lemma_escape_unescape(t: Seq<char>)
    requires
        fully_escaped(t),
    ensures
        escape(unescape(t)) == t,
    decreases t.len(),
{
    if t.len() > 0 {
        if t[0] == '\'' {
            assert(quotes_before(t, 1) == 1) by {
                assert(quotes_before(t, 0) == 0);
            }
            assert(t.len() >= 2 && t[1] == '\'');
            let r = t.skip(2);
            assert(t =~= seq!['\'', '\''] + r);
            assert forall|i: int| 0 <= i < r.len() && r[i] != '\'' implies #[trigger] quotes_before(
                r,
                i,
            ) % 2 == 0 by {
                assert(t[i + 2] == r[i]);
                lemma_quotes_behind_pair(r, i);
                assert(quotes_before(t, i + 2) % 2 == 0);
            }
            lemma_quotes_behind_pair(r, r.len() as int);
            lemma_escape_unescape(r);
            let u = unescape(t);
            assert(u == seq!['\''] + unescape(r));
            assert(u.skip(1) =~= unescape(r));
        } else {
            let r = t.skip(1);
            assert(t =~= seq![t[0]] + r);
            assert forall|i: int| 0 <= i < r.len() && r[i] != '\'' implies #[trigger] quotes_before(
                r,
                i,
            ) % 2 == 0 by {
                assert(t[i + 1] == r[i]);
                lemma_quotes_behind_char(t[0], r, i);
                assert(quotes_before(t, i + 1) % 2 == 0);
            }
            lemma_quotes_behind_char(t[0], r, r.len() as int);
            lemma_escape_unescape(r);
            let u = unescape(t);
            assert(u == seq![t[0]] + unescape(r));
            assert(u.skip(1) =~= unescape(r));
        }
    }
}

/// Any characters can be written as a character constant, which stands for
/// them again.
pub proof fn lemma_quote_text_decodes(v: Seq<char>)
    ensures
        char_text(quote_text(v)),
        char_value(quote_text(v)) == v,
{
    lemma_escape_is_fully_escaped(v);
    lemma_unescape_escape(v);
    assert(inner(quote_text(v)) =~= escape(v));
}

/// The round trip of a character constant. The characters that it stands
/// for, written as a character constant again, stand for the same
/// characters; and they give back the constant itself, character for
/// character, where the constant holds quote marks in doubled form only.
/// Any other constant, one with a quote mark left over before the closing
/// mark, comes back in that form.
pub proof fn lemma_char_constant_round_trip(s: Seq<char>)
    requires
        char_text(s),
    ensures
        char_text(quote_text(char_value(s))),
        char_value(quote_text(char_value(s))) == char_value(s),
        fully_escaped(inner(quote_text(char_value(s)))),
        fully_escaped(inner(s)) ==> quote_text(char_value(s)) == s,
{
    let v = char_value(s);
    lemma_quote_text_decodes(v);
    lemma_escape_is_fully_escaped(v);
    assert(inner(quote_text(v)) =~= escape(v));
    if fully_escaped(inner(s)) {
        lemma_escape_unescape(inner(s));
        assert(quote_text(v) =~= s);
    }
}

/// Reads `cs` as a number in decimal digits.
pub fn read_decimal(cs: &[char]) -> (r: Option<u16>)
    ensures
        r == decimal_value(cs@),
{
    parse_number(cs, 10)
}

/// Reads `cs` as a number in hexadecimal digits after one character that
/// marks the radix.
pub fn read_hex(cs: &[char]) -> (r: Option<u16>)
    ensures
        r == hex_value(cs@),
{
    if cs.len() == 0 {
        None
    } else {
        parse_number(slice_subrange(cs, 1, cs.len()), 16)
    }
}

/// Whether `cs` is a character constant.
pub fn quoted(cs: &[char]) -> (b: bool)
    ensures
        b == char_text(cs@),
{
    let n = cs.len();
    if n < 2 || cs[0] != '\'' || cs[n - 1] != '\'' {
        return false;
    }
    let ghost t = inner(cs@);
    let mut run: usize = 0;
    let mut i: usize = 1;
    while i < n - 1
        invariant
            n == cs@.len(),
            n >= 2,
            1 <= i <= n - 1,
            t == inner(cs@),
            run == quotes_before(t, i - 1),
            run <= i - 1,
            forall|j: int|
                0 <= j < i - 1 && t[j] != '\'' ==> #[trigger] quotes_before(t, j) % 2 == 0,
        decreases n - i,
    {
        assert(t[i - 1] == cs@[i as int]);
        if cs[i] == '\'' {
            run += 1;
        } else {
            if run % 2 != 0 {
                assert(quotes_before(t, i - 1) % 2 != 0);
                return false;
            }
            run = 0;
        }
        i += 1;
    }
    true
}

/// The word that holds the character `c`.
pub fn word_of(c: char) -> (w: u16)
    ensures
        w == char_word(c),
{
    (c as u32 % 0x10000) as u16
}

/// The words that the character constant `cs` stands for.
pub fn unquote(cs: &[char]) -> (v: Vec<u16>)
    requires
        char_text(cs@),
    ensures
        v@ == char_words(cs@),
{
    let n = cs.len();
    let ghost t = inner(cs@);
    let mut v: Vec<u16> = Vec::new();
    let mut i: usize = 1;
    assert(t.skip(0) =~= t);
    while i < n - 1
        invariant
            n == cs@.len(),
            n >= 2,
            1 <= i <= n - 1,
            t == inner(cs@),
            unescape(t) == unescape(t).take(v@.len() as int) + unescape(t.skip(i - 1)),
            v@.len() <= unescape(t).len(),
            v@ == words_of_chars(unescape(t).take(v@.len() as int)),
        decreases n - i,
    {
        let ghost rest = t.skip(i - 1);
        let ghost done = unescape(t).take(v@.len() as int);
        assert(rest[0] == cs@[i as int]);
        let c = cs[i];
        if c == '\'' && i + 1 == n - 1 {
            assert(rest.len() == 1);
            assert(t.skip(i as int) =~= Seq::<char>::empty());
            assert(unescape(t) =~= done + unescape(t.skip(i as int)));
            i += 1;
        } else {
            if c == '\'' && cs[i + 1] == '\'' {
                assert(rest[1] == cs@[i + 1]);
                assert(rest.skip(2) =~= t.skip(i + 1));
                assert(unescape(rest) == seq!['\''] + unescape(t.skip(i + 1)));
                i += 2;
            } else {
                assert(rest.len() >= 2 ==> rest[1] == cs@[i + 1]);
                assert(rest.skip(1) =~= t.skip(i as int));
                assert(unescape(rest) == seq![c] + unescape(t.skip(i as int)));
                i += 1;
            }
            v.push(word_of(c));
            assert(unescape(t) =~= done.push(c) + unescape(t.skip(i - 1)));
            assert(unescape(t).take(v@.len() as int) =~= done.push(c));
            assert(v@ =~= words_of_chars(done.push(c)));
        }
    }
    assert(t.skip(n - 2) =~= Seq::<char>::empty());
    assert(unescape(t).take(v@.len() as int) =~= unescape(t));
    v
}

/// How many characters the character constant `cs` stands for.
pub fn unquoted_len(cs: &[char]) -> (len: usize)
    requires
        char_text(cs@),
    ensures
        len == char_value(cs@).len(),
        len <= cs@.len(),
{
    let n = cs.len();
    let ghost t = inner(cs@);
    let mut len: usize = 0;
    let mut i: usize = 1;
    assert(t.skip(0) =~= t);
    while i < n - 1
        invariant
            n == cs@.len(),
            n >= 2,
            1 <= i <= n - 1,
            t == inner(cs@),
            unescape(t).len() == len + unescape(t.skip(i - 1)).len(),
            len <= i - 1,
        decreases n - i,
    {
        let ghost rest = t.skip(i - 1);
        assert(rest[0] == cs@[i as int]);
        if cs[i] == '\'' && i + 1 == n - 1 {
            assert(rest.len() == 1);
            assert(t.skip(i as int) =~= Seq::<char>::empty());
            i += 1;
        } else {
            if cs[i] == '\'' && cs[i + 1] == '\'' {
                assert(rest[1] == cs@[i + 1]);
                assert(rest.skip(2) =~= t.skip(i + 1));
                i += 2;
            } else {
                assert(rest.len() >= 2 ==> rest[1] == cs@[i + 1]);
                assert(rest.skip(1) =~= t.skip(i as int));
                i += 1;
            }
            len += 1;
        }
    }
    assert(t.skip(n - 2) =~= Seq::<char>::empty());
    len
}

/// Whether `s` is a constant of any kind.
pub fn is_constant(s: &str) -> (b: bool)
    ensures
        b == (constant_class(s@) != Constant::Other),
{
    match is_constant_of(s) {
        Constant::Other => false,
        _ => true,
    }
}

/// What `s` is as a constant.
pub fn is_constant_of(s: &str) -> (c: Constant)
    ensures
        c == constant_class(s@),
{
    if is_decimal(s) {
        Constant::Decimal
    } else if is_hex(s) {
        Constant::Hex
    } else if is_char(s) {
        Constant::Char
    } else if is_label(s) {
        Constant::Address
    } else {
        Constant::Other
    }
}

/// Whether `s` writes a number in decimal digits.
pub fn is_decimal(s: &str) -> (b: bool)
    ensures
        b == decimal_value(s@) is Some,
{
    let cs = chars_of(s);
    read_decimal(cs.as_slice()).is_some()
}

/// Whether `s` writes a number in hexadecimal digits after one character
/// that marks the radix.
pub fn is_hex(s: &str) -> (b: bool)
    ensures
        b == hex_value(s@) is Some,
{
    let cs = chars_of(s);
    read_hex(cs.as_slice()).is_some()
}

/// Whether `s` is a character constant.
pub fn is_char(s: &str) -> (b: bool)
    ensures
        b == char_text(s@),
{
    let cs = chars_of(s);
    quoted(cs.as_slice())
}

/// What is wrong with `s` as a label, if anything.
pub fn label_defect(s: &str) -> (d: Option<LabelDefect>)
    ensures
        d == label_defect_of(s@),
        d is None <==> label_text(s@),
{
    if is_register(s) {
        return Some(LabelDefect::RegisterName);
    }
    let cs = chars_of(s);
    let n = cs.len();
    if !(1 <= n && n <= 8) {
        return Some(LabelDefect::Length);
    }
    if !('A' <= cs[0] && cs[0] <= 'Z') {
        return Some(LabelDefect::FirstCharacter);
    }
    let mut i: usize = 1;
    while i < n
        invariant
            cs@ == s@,
            register_number(s@) is None,
            n == cs@.len(),
            n <= 8,
            'A' <= cs@[0] <= 'Z',
            1 <= i <= n,
            forall|j: int|
                1 <= j < i ==> ('A' <= #[trigger] cs@[j] <= 'Z') || ('0' <= cs@[j] <= '9'),
        decreases n - i,
    {
        let c = cs[i];
        if !(('A' <= c && c <= 'Z') || ('0' <= c && c <= '9')) {
            return Some(LabelDefect::LaterCharacter);
        }
        i += 1;
    }
    None
}

/// Whether `s` has the form of a label.
pub fn is_label(s: &str) -> (b: bool)
    ensures
        b == label_text(s@),
{
    label_defect(s).is_none()
}

/// How many words the character constant `s` takes: one for each character
/// that it stands for.
pub fn constant_of_char_len(s: &str) -> (len: u16)
    requires
        char_text(s@),
        char_value(s@).len() <= u16::MAX,
    ensures
        len == char_value(s@).len(),
{
    let cs = chars_of(s);
    unquoted_len(cs.as_slice()) as u16
}

/// The value of the constant `s`: the number that it writes, or the address
/// that `labels` holds under this name.
pub fn get_constant_value(s: &str, labels: &SymbolTable) -> (r: Result<u16, ErrorKind>)
    ensures
        r == match constant_value(s@, labels@) {
            Some(v) => Ok::<u16, ErrorKind>(v),
            None => Err(ErrorKind::UnresolvedSymbol),
        },
{
    let cs = chars_of(s);
    if let Some(v) = read_decimal(cs.as_slice()) {
        return Ok(v);
    }
    if let Some(v) = read_hex(cs.as_slice()) {
        return Ok(v);
    }
    match labels.get(s) {
        Some(v) => Ok(*v),
        None => Err(ErrorKind::UnresolvedSymbol),
    }
}

} // verus!
