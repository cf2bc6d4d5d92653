//! The words that an accepted line is translated to.
use crate::constant::{char_text, char_words, constant_value, lemma_char_constant_class};
use crate::error::ErrorKind;
use crate::literal::literal_words;
use crate::opcode::opcode_byte;
use crate::register::register_number;
use crate::context::AssemblyContext;
use crate::grammar::{data_words, Shape};
use crate::token::{LineView, TokenType, TokenView};
use vstd::prelude::*;

verus! {

/// The first word of an instruction: the operation code in the high byte,
/// the number of the register in the high half of the low byte, the number
/// of the index register or of the second register in its low half.
pub open spec fn first_word(opcode: u16, r: u16, x: u16) -> u16 {
    (opcode << 8) | (r << 4) | x
}

/// Puts the first word of an instruction together.
pub fn make_first_word(opcode: u16, r: u16, x: u16) -> (w: u16)
    ensures
        w == first_word(opcode, r, x),
{
    (opcode << 8) | (r << 4) | x
}

/// The words of a line and what translating it did to the state.
pub struct Encoding {
    /// The words that the line is translated to.
    pub words: Seq<u16>,
    /// The location counter after the line.
    pub location_counter: u16,
    /// Whether an address of the line is a literal.
    pub literal: bool,
}

/// The number of the register that `t` names, and zero where it names none.
pub open spec fn register_of(t: TokenView) -> u16 {
    match register_number(t.text) {
        Some(k) => k,
        None => 0,
    }
}

/// The number of the index register at position `at` of `ops`, and zero
/// where the operands end before it.
pub open spec fn index_of(ops: Seq<TokenView>, at: int) -> u16 {
    if 0 <= at < ops.len() {
        register_of(ops[at])
    } else {
        0
    }
}

/// Words that take no slot of the literal pool.
pub open spec fn plain(words: Seq<u16>, lc: u16) -> Result<Encoding, ErrorKind> {
    Ok(Encoding { words: words, location_counter: lc, literal: false })
}

/// An instruction of two words, whose second word is the address that
/// `adr` stands for. A literal stands for the address at which the location
/// counter points, and moves the counter to the next address: so each
/// literal gets the slot behind the one before it. A constant stands for
/// its value. The instruction cannot be translated where the counter cannot
/// move on, or where the constant has no value.
pub open spec fn with_address(
    first: u16,
    adr: TokenView,
    table: Map<Seq<char>, u16>,
    lc: u16,
) -> Result<Encoding, ErrorKind> {
    if adr.kind == TokenType::Literal {
        if lc == u16::MAX {
            Err(ErrorKind::AddressOverflow)
        } else {
            Ok(Encoding { words: seq![first, lc], location_counter: (lc + 1) as u16, literal: true })
        }
    } else {
        match constant_value(adr.text, table) {
            Some(v) => Ok(Encoding { words: seq![first, v], location_counter: lc, literal: false }),
            None => Err(ErrorKind::UnresolvedSymbol),
        }
    }
}

/// The words of one operand of a data directive: the characters of a
/// character constant, or the value of any other constant.
pub open spec fn constant_encoding(t: Seq<char>, table: Map<Seq<char>, u16>) -> Option<Seq<u16>> {
    if char_text(t) {
        Some(char_words(t))
    } else {
        match constant_value(t, table) {
            Some(v) => Some(seq![v]),
            None => None,
        }
    }
}

/// The words of the operands `ops` of a data directive, one operand after
/// the other; none where an operand has no value.
pub open spec fn data_encoding(ops: Seq<TokenView>, table: Map<Seq<char>, u16>) -> Option<
    Seq<u16>,
>
    decreases ops.len(),
{
    if ops.len() == 0 {
        Some(Seq::empty())
    } else {
        match (data_encoding(ops.drop_last(), table), constant_encoding(ops.last().text, table)) {
            (Some(a), Some(b)) => Some(a + b),
            _ => None,
        }
    }
}

/// A block of `n` words that hold zero.
pub open spec fn zeros(n: nat) -> Seq<u16> {
    Seq::new(n, |i: int| 0u16)
}

/// The words that save the registers: for each of the registers 1 to 7,
/// in this order, a push with that register as index and address zero.
pub open spec fn save_words() -> Seq<u16> {
    Seq::new(
        14,
        |k: int|
            if k % 2 == 0 {
                first_word(0x70, 0, (k / 2 + 1) as u16)
            } else {
                0u16
            },
    )
}

/// The words that restore the registers: for each of the registers 1 to
/// 7, in this order, a pop into that register.
pub open spec fn restore_words() -> Seq<u16> {
    Seq::new(7, |k: int| first_word(0x71, (k + 1) as u16, 0))
}

/// What an accepted line is translated to when the location counter stands
/// at `lc` and `table` holds the addresses of the labels.
#[verifier::opaque]
pub open spec fn encoded(line: LineView, table: Map<Seq<char>, u16>, lc: u16) -> Result<
    Encoding,
    ErrorKind,
> {
    let ops = line.operands();
    let op = opcode_byte(line.mnemonic().text);
    match line.shape() {
        Shape::NoOperand => plain(seq![0x8100u16], lc),
        Shape::SingleRegister => plain(seq![first_word(0x71, register_of(ops[0]), 0)], lc),
        Shape::RegisterAddress => with_address(
            first_word(op, register_of(ops[0]), index_of(ops, 2)),
            ops[1],
            table,
            lc,
        ),
        Shape::AddressOnly => with_address(first_word(op, 0, index_of(ops, 1)), ops[0], table, lc),
        Shape::RegisterPairOrAddress => if ops[1].kind == TokenType::Register {
            plain(seq![first_word(op, register_of(ops[0]), register_of(ops[1])) | 0x0400], lc)
        } else {
            with_address(first_word(op, register_of(ops[0]), index_of(ops, 2)), ops[1], table, lc)
        },
        Shape::Start => if ops.len() >= 1 && !table.contains_key(ops[0].text) {
            Err(ErrorKind::UnresolvedSymbol)
        } else {
            plain(Seq::empty(), lc)
        },
        Shape::End => plain(Seq::empty(), lc),
        Shape::DataConstant => match data_encoding(ops, table) {
            Some(w) => plain(w, lc),
            None => Err(ErrorKind::UnresolvedSymbol),
        },
        Shape::DefineStorage => plain(zeros(line.words()), lc),
        Shape::SaveRegisters => plain(save_words(), lc),
        Shape::RestoreRegisters => plain(restore_words(), lc),
        Shape::RecordIo => Err(ErrorKind::NoEncoding),
        Shape::Unknown => Err(ErrorKind::Grammar),
    }
}

/// What translating a line yields, given the addresses of the labels and
/// the context: the defect of a line that is not accepted; or why an
/// accepted line cannot be translated; or the line with its words behind
/// those that it had, together with the context for the next line.
pub open spec fn generated(line: LineView, table: Map<Seq<char>, u16>, ctx: AssemblyContext) -> Result<
    (LineView, AssemblyContext),
    ErrorKind,
> {
    if !line.well_formed() {
        Err(line.defect())
    } else {
        match encoded(line, table, ctx.location_counter) {
            Err(e) => Err(e),
            Ok(e) => Ok(
                (
                    line.with_words(e),
                    AssemblyContext {
                        location_counter: e.location_counter,
                        end_reached: ctx.end_reached || line.shape() == Shape::End,
                    },
                ),
            ),
        }
    }
}

/// The value groups of the literals among `tokens`: one group for each
/// token that is a literal, in the order of the tokens.
pub open spec fn literal_groups(tokens: Seq<TokenView>) -> Seq<Seq<u16>>
    decreases tokens.len(),
{
    if tokens.len() == 0 {
        Seq::empty()
    } else if tokens.last().kind == TokenType::Literal {
        literal_groups(tokens.drop_last()).push(literal_words(tokens.last().text))
    } else {
        literal_groups(tokens.drop_last())
    }
}

/// How many of `tokens` are literals.
pub open spec fn literal_count(tokens: Seq<TokenView>) -> nat
    decreases tokens.len(),
{
    if tokens.len() == 0 {
        0
    } else if tokens.last().kind == TokenType::Literal {
        literal_count(tokens.drop_last()) + 1
    } else {
        literal_count(tokens.drop_last())
    }
}

/// The words that the literals among `tokens` put into the pool: their
/// value groups, one behind the other.
pub open spec fn pool_words(tokens: Seq<TokenView>) -> Seq<u16> {
    literal_groups(tokens).flatten()
}

/// Where all operands of a data directive have a value, those that come
/// first have one too.
pub proof fn lemma_data_encoding_prefix(ops: Seq<TokenView>, table: Map<Seq<char>, u16>, k: int)
    requires
        0 <= k <= ops.len(),
        data_encoding(ops, table) is Some,
    ensures
        data_encoding(ops.take(k), table) is Some,
    decreases ops.len(),
{
    if k == ops.len() {
        assert(ops.take(k) =~= ops);
    } else {
        lemma_data_encoding_prefix(ops.drop_last(), table, k);
        assert(ops.drop_last().take(k) =~= ops.take(k));
    }
}

/// The operands of a data directive are translated to as many words as
/// they were counted for.
pub proof fn lemma_data_encoding_len(ops: Seq<TokenView>, table: Map<Seq<char>, u16>)
    ensures
        data_encoding(ops, table) matches Some(w) ==> w.len() == data_words(ops),
    decreases ops.len(),
{
    if ops.len() > 0 {
        lemma_data_encoding_len(ops.drop_last(), table);
        let t = ops.last().text;
        if char_text(t) {
            lemma_char_constant_class(t);
        }
    }
}

/// An accepted line is translated to as many words as it takes, unless it
/// is the macro that saves the registers, which takes seven words and is
/// translated to fourteen.
pub proof fn lemma_encoded_len(line: LineView, table: Map<Seq<char>, u16>, lc: u16)
    requires
        line.well_formed(),
    ensures
        encoded(line, table, lc) matches Ok(e) ==> e.words.len() == if line.shape()
            == Shape::SaveRegisters {
            14
        } else {
            line.words()
        },
{
    reveal(encoded);
    lemma_data_encoding_len(line.operands(), table);
}

/// Whether the address of an accepted line is a literal, so that the line
/// takes a slot of the literal pool.
pub open spec fn takes_slot(line: LineView) -> bool {
    let ops = line.operands();
    match line.shape() {
        Shape::RegisterAddress => ops[1].kind == TokenType::Literal,
        Shape::AddressOnly => ops[0].kind == TokenType::Literal,
        Shape::RegisterPairOrAddress => ops[1].kind == TokenType::Literal,
        _ => false,
    }
}

/// An accepted line whose address is a literal is translated to two words,
/// the second of which is the location counter, and moves the counter on
/// by one; any other line leaves the counter where it stands.
pub proof fn lemma_encoded_slot(line: LineView, table: Map<Seq<char>, u16>, lc: u16)
    requires
        line.well_formed(),
    ensures
        encoded(line, table, lc) matches Ok(e) ==> e.literal == takes_slot(line) && if takes_slot(
            line,
        ) {
            e.words.len() == 2 && e.words[1] == lc && e.location_counter == lc + 1
        } else {
            e.location_counter == lc
        },
{
    reveal(encoded);
}

/// Each literal has its value group, and the groups stand in the order of
/// the literals: there are as many groups as `tokens` holds literals, and
/// the group of a literal stands at the position that counts the literals
/// before it.
pub proof fn lemma_literal_groups(tokens: Seq<TokenView>)
    ensures
        literal_groups(tokens).len() == literal_count(tokens),
        forall|j: int|
            0 <= j < tokens.len() && (#[trigger] tokens[j]).kind == TokenType::Literal ==> {
                let at = literal_count(tokens.take(j)) as int;
                at < literal_count(tokens) && literal_groups(tokens)[at] == literal_words(
                    tokens[j].text,
                )
            },
    decreases tokens.len(),
{
    if tokens.len() > 0 {
        let front = tokens.drop_last();
        let n = front.len() as int;
        lemma_literal_groups(front);
        assert forall|j: int|
            0 <= j < tokens.len() && (#[trigger] tokens[j]).kind == TokenType::Literal implies {
            let at = literal_count(tokens.take(j)) as int;
            at < literal_count(tokens) && literal_groups(tokens)[at] == literal_words(
                tokens[j].text,
            )
        } by {
            if j < n {
                assert(front[j] == tokens[j]);
                assert(front.take(j) =~= tokens.take(j));
            } else {
                assert(tokens.take(j) =~= front);
            }
        }
    }
}

/// Builds the words that save the registers.
pub fn make_save_words() -> (v: Vec<u16>)
    ensures
        v@ == save_words(),
{
    let mut v: Vec<u16> = Vec::new();
    let mut i: u16 = 1;
    while i < 8
        invariant
            1 <= i <= 8,
            v@.len() == 2 * (i - 1),
            forall|k: int| 0 <= k < v@.len() ==> v@[k] == save_words()[k],
        decreases 8 - i,
    {
        v.push(make_first_word(0x70, 0, i));
        v.push(0);
        i += 1;
    }
    assert(v@ =~= save_words());
    v
}

/// Builds the words that restore the registers.
pub fn make_restore_words() -> (v: Vec<u16>)
    ensures
        v@ == restore_words(),
{
    let mut v: Vec<u16> = Vec::new();
    let mut i: u16 = 1;
    while i < 8
        invariant
            1 <= i <= 8,
            v@.len() == i - 1,
            forall|k: int| 0 <= k < v@.len() ==> v@[k] == restore_words()[k],
        decreases 8 - i,
    {
        v.push(make_first_word(0x71, i, 0));
        i += 1;
    }
    assert(v@ =~= restore_words());
    v
}

} // verus!
