//! The grammar of a line: which operands each mnemonic takes, and how
//! many words the line takes.
use crate::constant::{char_value, constant_class, decimal_value, label_text, Constant};
use crate::context::AssemblyContext;
use crate::error::ErrorKind;
use crate::register::{index_register_name, register_number};
use crate::token::{LineView, TokenType, TokenView};
use vstd::prelude::*;

verus! {

/// The operand shapes: each mnemonic belongs to one, which says what
/// operands it takes and how many words it is translated to.
#[derive(Clone, Copy, Debug, PartialEq, Eq, Structural)]
pub enum Shape {
    /// An instruction without operands: the return.
    NoOperand,
    /// An instruction with one register: the pop.
    SingleRegister,
    /// A register, an address and, if wanted, an index register: shifts,
    /// store, load address.
    RegisterAddress,
    /// An address and, if wanted, an index register: jumps, call, push,
    /// supervisor call.
    AddressOnly,
    /// Two registers, or a register, an address and, if wanted, an index
    /// register: every other instruction.
    RegisterPairOrAddress,
    /// The directive that starts the program.
    Start,
    /// The directive that defines data constants.
    DataConstant,
    /// The directive that reserves a block of storage.
    DefineStorage,
    /// The directive that ends the program.
    End,
    /// The macro that saves the registers.
    SaveRegisters,
    /// The macro that restores the registers.
    RestoreRegisters,
    /// The macros that read or write a record.
    RecordIo,
    /// No mnemonic at all.
    Unknown,
}

/// The shape that the mnemonic `t` belongs to. It goes by the kind of the
/// token first and by its text then.
pub open spec fn shape_of(t: TokenView) -> Shape {
    match t.kind {
        TokenType::Assembler => if t.text == "START"@ {
            Shape::Start
        } else if t.text == "DC"@ {
            Shape::DataConstant
        } else if t.text == "DS"@ {
            Shape::DefineStorage
        } else if t.text == "END"@ {
            Shape::End
        } else {
            Shape::Unknown
        },
        TokenType::Macro => if t.text == "RPUSH"@ {
            Shape::SaveRegisters
        } else if t.text == "RPOP"@ {
            Shape::RestoreRegisters
        } else if t.text == "IN"@ || t.text == "OUT"@ {
            Shape::RecordIo
        } else {
            Shape::Unknown
        },
        TokenType::Opcode => if t.text == "RET"@ {
            Shape::NoOperand
        } else if t.text == "POP"@ {
            Shape::SingleRegister
        } else if t.text == "SLA"@ || t.text == "SRA"@ || t.text == "SLL"@ || t.text == "SRL"@
            || t.text == "ST"@ || t.text == "LAD"@ {
            Shape::RegisterAddress
        } else if t.text == "JMI"@ || t.text == "JPL"@ || t.text == "JZE"@ || t.text == "JNZ"@
            || t.text == "JOV"@ || t.text == "JUMP"@ || t.text == "CALL"@ || t.text == "PUSH"@
            || t.text == "SVC"@ {
            Shape::AddressOnly
        } else {
            Shape::RegisterPairOrAddress
        },
        _ => Shape::Unknown,
    }
}

/// Whether `t` is a register operand: a token taken for a register whose
/// text names one.
pub open spec fn register_operand(t: TokenView) -> bool {
    t.kind == TokenType::Register && register_number(t.text) is Some
}

/// Whether `t` can stand for an address: a literal or a constant.
pub open spec fn address_operand(t: TokenView) -> bool {
    t.kind == TokenType::Literal || t.kind == TokenType::Constant
}

/// Whether `ops` holds, from position `at` on, an address and after it
/// either nothing or an index register.
pub open spec fn address_and_index(ops: Seq<TokenView>, at: int) -> bool {
    &&& at < ops.len() <= at + 2
    &&& address_operand(ops[at])
    &&& ops.len() == at + 2 ==> index_register_name(ops[at + 1].text)
}

/// Whether the operands `ops` are those that a mnemonic of the given shape
/// takes, on a line with or without a label.
pub open spec fn operands_fit(shape: Shape, with_label: bool, ops: Seq<TokenView>) -> bool {
    match shape {
        Shape::NoOperand => ops.len() == 0,
        Shape::SingleRegister => ops.len() == 1 && register_operand(ops[0]),
        Shape::RegisterAddress => ops.len() >= 1 && register_operand(ops[0]) && address_and_index(
            ops,
            1,
        ),
        Shape::AddressOnly => address_and_index(ops, 0),
        Shape::RegisterPairOrAddress => ops.len() >= 2 && register_operand(ops[0]) && (if ops[1].kind
            == TokenType::Register {
            ops.len() == 2 && register_operand(ops[1])
        } else {
            address_and_index(ops, 1)
        }),
        Shape::Start => with_label && ops.len() <= 1,
        Shape::DataConstant => ops.len() >= 1 && forall|i: int|
            0 <= i < ops.len() ==> constant_class(#[trigger] ops[i].text) != Constant::Other,
        Shape::DefineStorage => ops.len() == 1 && decimal_value(ops[0].text) is Some,
        Shape::End => !with_label && ops.len() == 0,
        Shape::SaveRegisters => ops.len() == 0,
        Shape::RestoreRegisters => ops.len() == 0,
        Shape::RecordIo => ops.len() == 2 && label_text(ops[0].text) && label_text(ops[1].text),
        Shape::Unknown => false,
    }
}

/// How many words the constant `t` takes among the operands of a data
/// directive: a character constant one word for each character that it
/// stands for, any other constant one word.
pub open spec fn constant_words(t: Seq<char>) -> nat {
    if constant_class(t) == Constant::Char {
        char_value(t).len()
    } else {
        1
    }
}

/// How many words the operands `ops` of a data directive take together.
pub open spec fn data_words(ops: Seq<TokenView>) -> nat
    decreases ops.len(),
{
    if ops.len() == 0 {
        0
    } else {
        data_words(ops.drop_last()) + constant_words(ops.last().text)
    }
}

/// How many words a line takes whose mnemonic has the given shape and
/// whose operands are `ops`.
pub open spec fn shape_words(shape: Shape, ops: Seq<TokenView>) -> nat {
    match shape {
        Shape::NoOperand => 1,
        Shape::SingleRegister => 1,
        Shape::RegisterAddress => 2,
        Shape::AddressOnly => 2,
        Shape::RegisterPairOrAddress => if ops.len() >= 2 && ops[1].kind == TokenType::Register {
            1
        } else {
            2
        },
        Shape::Start => 0,
        Shape::DataConstant => data_words(ops),
        Shape::DefineStorage => if ops.len() >= 1 && decimal_value(ops[0].text) is Some {
            decimal_value(ops[0].text)->0 as nat
        } else {
            0
        },
        Shape::End => 0,
        Shape::SaveRegisters => 7,
        Shape::RestoreRegisters => 7,
        Shape::RecordIo => 14,
        Shape::Unknown => 0,
    }
}

/// The operands of a data directive take at least as many words as those
/// of them that come first.
pub proof fn lemma_data_words_grow(ops: Seq<TokenView>, k: int)
    requires
        0 <= k <= ops.len(),
    ensures
        data_words(ops.take(k)) <= data_words(ops),
    decreases ops.len(),
{
    if k == ops.len() {
        assert(ops.take(k) =~= ops);
    } else {
        lemma_data_words_grow(ops.drop_last(), k);
        assert(ops.drop_last().take(k) =~= ops.take(k));
    }
}

impl LineView {
    /// Where the mnemonic stands among the tokens: behind the label, if
    /// there is one.
    pub open spec fn mnemonic_at(self) -> int {
        if self.with_label {
            1
        } else {
            0
        }
    }

    /// Whether the line has a token where the mnemonic stands.
    pub open spec fn has_mnemonic(self) -> bool {
        self.mnemonic_at() < self.tokens.len()
    }

    /// The mnemonic of the line.
    pub open spec fn mnemonic(self) -> TokenView {
        self.tokens[self.mnemonic_at()]
    }

    /// The operands of the line: the tokens behind the mnemonic.
    pub open spec fn operands(self) -> Seq<TokenView> {
        self.tokens.skip(self.mnemonic_at() + 1)
    }

    /// The shape of the line's mnemonic.
    pub open spec fn shape(self) -> Shape {
        if self.has_mnemonic() {
            shape_of(self.mnemonic())
        } else {
            Shape::Unknown
        }
    }

    /// Whether the line is accepted: it has a mnemonic, and its operands
    /// are those that the mnemonic takes.
    pub open spec fn well_formed(self) -> bool {
        self.has_mnemonic() && operands_fit(self.shape(), self.with_label, self.operands())
    }

    /// How many words the line takes.
    pub open spec fn words(self) -> nat {
        shape_words(self.shape(), self.operands())
    }

    /// What is wrong with a line that is not accepted. Where a data or a
    /// storage directive has operands in the right number, one of them does
    /// not have the form that the directive asks for; every other defect is
    /// one of grammar.
    pub open spec fn defect(self) -> ErrorKind {
        if (self.shape() == Shape::DataConstant && self.operands().len() >= 1) || (self.shape()
            == Shape::DefineStorage && self.operands().len() == 1) {
            ErrorKind::MalformedDirective
        } else {
            ErrorKind::Grammar
        }
    }
}

/// What the check of a line against the grammar yields in a given context:
/// the kind of its defect; or that the words it takes do not fit below the
/// end of the address space; or the context for the next line, in which
/// the location counter has gone on by the words that the line takes and
/// the end is reached if this line ends the program.
pub open spec fn checked(line: LineView, ctx: AssemblyContext) -> Result<AssemblyContext, ErrorKind> {
    if !line.well_formed() {
        Err(line.defect())
    } else if ctx.location_counter + line.words() > u16::MAX {
        Err(ErrorKind::AddressOverflow)
    } else {
        Ok(
            AssemblyContext {
                location_counter: (ctx.location_counter + line.words()) as u16,
                end_reached: ctx.end_reached || line.shape() == Shape::End,
            },
        )
    }
}

/// What the check does with the line of a machine instruction. Where the
/// operands are not those of the mnemonic, the defect is one of grammar and
/// the context stays as it was; a line without the address that its
/// mnemonic needs is such a line. Where they are, the line takes one word
/// or two, the location counter goes on by as many, and the end is not
/// reached by it.
pub proof fn lemma_instruction_check(line: LineView, ctx: AssemblyContext)
    requires
        line.has_mnemonic(),
        line.mnemonic().kind == TokenType::Opcode,
    ensures
        !line.well_formed() ==> checked(line, ctx) == Err::<AssemblyContext, ErrorKind>(
            ErrorKind::Grammar,
        ),
        line.well_formed() ==> 1 <= line.words() <= 2,
        checked(line, ctx) matches Ok(c) ==> c.end_reached == ctx.end_reached && (
        c.location_counter == ctx.location_counter + 1 || c.location_counter
            == ctx.location_counter + 2),
        (line.shape() == Shape::RegisterAddress || line.shape() == Shape::RegisterPairOrAddress)
            && line.operands().len() < 2 ==> !line.well_formed(),
        line.shape() == Shape::AddressOnly && line.operands().len() < 1 ==> !line.well_formed(),
{
}

/// Whether `r` is what measuring `line` yields: its defect, or the number
/// of words that it takes, where 65536 stands for that number and for any
/// greater one.
pub open spec fn measures(r: Result<u32, ErrorKind>, line: LineView) -> bool {
    match r {
        Ok(n) => line.well_formed() && n == if line.words() > 0x10000 {
            0x10000
        } else {
            line.words()
        },
        Err(e) => !line.well_formed() && e == line.defect(),
    }
}

} // verus!
