//! Tokens and lines: what a line of source text is made of, and what the
//! passes do to a line.
use crate::assembler::is_assembler;
use crate::constant::{
    char_text, constant_class, constant_of_char_len, get_constant_value, is_char, is_constant,
    is_constant_of, is_label, lemma_char_constant_class, quoted, read_decimal, unquote,
    unquoted_len, Constant,
};
use crate::context::AssemblyContext;
use crate::encoding::{
    data_encoding, encoded, generated, index_of, lemma_data_encoding_prefix, literal_count,
    literal_groups, make_first_word, make_restore_words, make_save_words, pool_words,
    with_address, zeros, Encoding,
};
use crate::error::ErrorKind;
use crate::grammar::{
    address_and_index, address_operand, checked, data_words, lemma_data_words_grow, measures,
    register_operand, constant_words, Shape,
};
use crate::literal::{is_literal, literal_value, literal_words};
use crate::macros::is_macro;
use crate::opcode::{get_opcode, is_opcode};
use crate::parser::{
    classified, code_words, comment_word, kind_at, labelled, lemma_classified_prefix,
    lemma_comment_at, parsed,
};
use crate::register::{get_register_number, is_index_register, is_register, register_number};
use crate::text::{
    chars_of, is_whitespace, pieces, ranges_within, same_text, split_words, words_of,
};
use vstd::hash_map::StringHashMap;
use vstd::prelude::*;
use vstd::string::*;

verus! {

/// The symbol table: the address of each label, by the label's name.
pub type SymbolTable = StringHashMap<u16>;

/// What a token is.
#[derive(Clone, Copy, Debug, PartialEq, Eq, Structural)]
pub enum TokenType {
    /// The name of an address.
    Label,
    /// The keyword of a macro instruction.
    Macro,
    /// The keyword of a directive.
    Assembler,
    /// The mnemonic of a machine instruction.
    Opcode,
    /// The name of a register.
    Register,
    /// A number, a character constant or the name of an address, as an
    /// operand.
    Constant,
    /// An operand marked with an equals sign.
    Literal,
}

/// A word of a line together with what it was taken for.
#[derive(Debug)]
pub struct Token {
    /// What the word was taken for.
    pub kind: TokenType,
    /// The text of the word.
    pub value: String,
}

/// A token as a value: its kind and the characters of its text.
pub struct TokenView {
    /// What the word was taken for.
    pub kind: TokenType,
    /// The characters of the word.
    pub text: Seq<char>,
}

impl View for Token {
    type V = TokenView;

    open spec fn view(&self) -> TokenView {
        TokenView { kind: self.kind, text: self.value@ }
    }
}

impl Token {
    /// A token of the given kind and text.
    pub fn new(kind: TokenType, value: String) -> (t: Token)
        ensures
            t@ == (TokenView { kind: kind, text: value@ }),
    {
        Token { kind: kind, value: value }
    }
}

/// One line of the source text.
#[derive(Debug)]
pub struct Line {
    /// The number of the line in the source text, counted from zero.
    pub line_number: usize,
    /// Whether the line begins with a label.
    pub with_label: bool,
    /// Whether the line holds a literal.
    pub with_literal: bool,
    /// The tokens of the line, from left to right.
    pub tokens: Vec<Token>,
    /// The words that the line was translated to.
    pub machine_code: Vec<u16>,
    /// How many words the line takes.
    pub machine_code_len: u16,
}

/// A line as a value.
pub struct LineView {
    /// The number of the line in the source text, counted from zero.
    pub line_number: usize,
    /// Whether the line begins with a label.
    pub with_label: bool,
    /// Whether the line holds a literal.
    pub with_literal: bool,
    /// The tokens of the line, from left to right.
    pub tokens: Seq<TokenView>,
    /// The words that the line was translated to.
    pub machine_code: Seq<u16>,
    /// How many words the line takes.
    pub machine_code_len: u16,
}

/// The tokens `ts` as values.
pub open spec fn token_views(ts: Seq<Token>) -> Seq<TokenView> {
    Seq::new(ts.len(), |i: int| ts[i]@)
}

impl View for Line {
    type V = LineView;

    open spec fn view(&self) -> LineView {
        LineView {
            line_number: self.line_number,
            with_label: self.with_label,
            with_literal: self.with_literal,
            tokens: token_views(self.tokens@),
            machine_code: self.machine_code@,
            machine_code_len: self.machine_code_len,
        }
    }
}

impl LineView {
    /// The line with the given number of words entered as its length.
    pub open spec fn with_len(self, len: u16) -> LineView {
        LineView { machine_code_len: len, ..self }
    }

    /// The line after the tokens `ts` of a source line were added to it:
    /// it has a label if the source line has one, and a literal if it had
    /// one before or one of `ts` is a literal.
    pub open spec fn with_tokens(self, with_label: bool, ts: Seq<TokenView>) -> LineView {
        LineView {
            with_label: with_label,
            with_literal: self.with_literal || literal_count(ts) > 0,
            tokens: self.tokens + ts,
            ..self
        }
    }

    /// The line after it was translated to the words of `e`.
    pub open spec fn with_words(self, e: Encoding) -> LineView {
        LineView {
            with_literal: self.with_literal || e.literal,
            machine_code: self.machine_code + e.words,
            ..self
        }
    }
}

/// What `word` is at the given position of a line.
fn classify(word: &str, position: usize, with_label: bool) -> (k: Option<TokenType>)
    ensures
        k == kind_at(word@, position as int, with_label),
{
    let mnemonic_at: usize = if with_label {
        1
    } else {
        0
    };
    if with_label && position == 0 {
        if is_label(word) {
            Some(TokenType::Label)
        } else {
            None
        }
    } else if position == mnemonic_at {
        if is_opcode(word) {
            Some(TokenType::Opcode)
        } else if is_assembler(word) {
            Some(TokenType::Assembler)
        } else if is_macro(word) {
            Some(TokenType::Macro)
        } else {
            None
        }
    } else if is_register(word) {
        Some(TokenType::Register)
    } else if is_literal(word) {
        Some(TokenType::Literal)
    } else if is_constant(word) {
        Some(TokenType::Constant)
    } else if is_label(word) {
        Some(TokenType::Label)
    } else {
        None
    }
}

/// Whether `t` is a register operand.
fn is_register_operand(t: &Token) -> (b: bool)
    ensures
        b == register_operand(t@),
{
    t.kind == TokenType::Register && is_register(t.value.as_str())
}

/// Whether `t` can stand for an address.
fn is_address_operand(t: &Token) -> (b: bool)
    ensures
        b == address_operand(t@),
{
    t.kind == TokenType::Literal || t.kind == TokenType::Constant
}

impl Line {
    /// An empty line with the given number.
    pub fn new(l: usize) -> (line: Line)
        ensures
            line@ == (LineView {
                line_number: l,
                with_label: false,
                with_literal: false,
                tokens: Seq::empty(),
                machine_code: Seq::empty(),
                machine_code_len: 0,
            }),
    {
        let line = Line {
            line_number: l,
            with_label: false,
            with_literal: false,
            tokens: Vec::new(),
            machine_code: Vec::new(),
            machine_code_len: 0,
        };
        assert(token_views(line.tokens@) =~= Seq::<TokenView>::empty());
        line
    }

    /// Where the mnemonic stands among the tokens.
    fn mnemonic_index(&self) -> (m: usize)
        ensures
            m == self@.mnemonic_at(),
    {
        if self.with_label {
            1
        } else {
            0
        }
    }

    /// How many operands the line has.
    fn operand_count(&self) -> (n: usize)
        requires
            self@.has_mnemonic(),
        ensures
            n == self@.operands().len(),
    {
        self.tokens.len() - self.mnemonic_index() - 1
    }

    /// The operand at position `j`.
    fn operand(&self, j: usize) -> (t: &Token)
        requires
            self@.has_mnemonic(),
            j < self@.operands().len(),
        ensures
            t@ == self@.operands()[j as int],
    {
        let m = self.mnemonic_index();
        let n = self.tokens.len();
        assert(self@.operands().len() == n - m - 1);
        &self.tokens[m + 1 + j]
    }

    /// The shape of the line's mnemonic.
    pub fn shape(&self) -> (s: Shape)
        ensures
            s == self@.shape(),
    {
        let m = self.mnemonic_index();
        if m >= self.tokens.len() {
            return Shape::Unknown;
        }
        let tok = &self.tokens[m];
        let text = tok.value.as_str();
        match tok.kind {
            TokenType::Assembler => {
                if same_text(text, "START") {
                    Shape::Start
                } else if same_text(text, "DC") {
                    Shape::DataConstant
                } else if same_text(text, "DS") {
                    Shape::DefineStorage
                } else if same_text(text, "END") {
                    Shape::End
                } else {
                    Shape::Unknown
                }
            },
            TokenType::Macro => {
                if same_text(text, "RPUSH") {
                    Shape::SaveRegisters
                } else if same_text(text, "RPOP") {
                    Shape::RestoreRegisters
                } else if same_text(text, "IN") || same_text(text, "OUT") {
                    Shape::RecordIo
                } else {
                    Shape::Unknown
                }
            },
            TokenType::Opcode => {
                if same_text(text, "RET") {
                    Shape::NoOperand
                } else if same_text(text, "POP") {
                    Shape::SingleRegister
                } else if same_text(text, "SLA") || same_text(text, "SRA") || same_text(text, "SLL")
                    || same_text(text, "SRL") || same_text(text, "ST") || same_text(text, "LAD") {
                    Shape::RegisterAddress
                } else if same_text(text, "JMI") || same_text(text, "JPL") || same_text(text, "JZE")
                    || same_text(text, "JNZ") || same_text(text, "JOV") || same_text(text, "JUMP")
                    || same_text(text, "CALL") || same_text(text, "PUSH") || same_text(
                    text,
                    "SVC",
                ) {
                    Shape::AddressOnly
                } else {
                    Shape::RegisterPairOrAddress
                }
            },
            _ => Shape::Unknown,
        }
    }

    /// Whether the operands hold, from position `at` on, an address and
    /// after it either nothing or an index register.
    fn has_address_and_index(&self, at: usize) -> (b: bool)
        requires
            self@.has_mnemonic(),
            at <= 1,
        ensures
            b == address_and_index(self@.operands(), at as int),
    {
        let n = self.operand_count();
        if !(at < n && n <= at + 2) {
            return false;
        }
        if !is_address_operand(self.operand(at)) {
            return false;
        }
        if n == at + 2 {
            is_index_register(self.operand(at + 1).value.as_str())
        } else {
            true
        }
    }

    /// Checks the line against the grammar and, where it is accepted, moves
    /// the location counter on by the words that it takes. The directive
    /// that ends the program also marks the end as reached. A line that is
    /// not accepted leaves the context as it was.
    pub fn semantic_check(&self, ctx: &mut AssemblyContext) -> (r: Result<(), ErrorKind>)
        ensures
            match r {
                Ok(()) => checked(self@, *old(ctx)) == Ok::<AssemblyContext, ErrorKind>(
                    *final(ctx),
                ),
                Err(e) => checked(self@, *old(ctx)) == Err::<AssemblyContext, ErrorKind>(e)
                    && *final(ctx) == *old(ctx),
            },
    {
        let shape = self.shape();
        match self.measure(shape) {
            Err(e) => Err(e),
            Ok(n) => {
                if n > (0xffff - ctx.location_counter) as u32 {
                    return Err(ErrorKind::AddressOverflow);
                }
                ctx.location_counter = ctx.location_counter + n as u16;
                if shape == Shape::End {
                    ctx.end_reached = true;
                }
                Ok(())
            },
        }
    }

    /// Checks the operands against the shape of the mnemonic and counts
    /// the words that the line takes.
    fn measure(&self, shape: Shape) -> (r: Result<u32, ErrorKind>)
        requires
            shape == self@.shape(),
        ensures
            measures(r, self@),
    {
        match shape {
            Shape::Unknown => Err(ErrorKind::Grammar),
            Shape::Start | Shape::DataConstant | Shape::DefineStorage | Shape::End => {
                self.assembler_check(shape)
            },
            Shape::SaveRegisters | Shape::RestoreRegisters | Shape::RecordIo => self.macro_check(
                shape,
            ),
            _ => self.opcode_check(shape),
        }
    }

    /// Checks the operands of a macro instruction: those that save or
    /// restore the registers take none and seven words, those that read or
    /// write a record take two labels and fourteen words.
    fn macro_check(&self, shape: Shape) -> (r: Result<u32, ErrorKind>)
        requires
            self@.has_mnemonic(),
            shape == self@.shape(),
            shape == Shape::SaveRegisters || shape == Shape::RestoreRegisters || shape
                == Shape::RecordIo,
        ensures
            measures(r, self@),
    {
        let n = self.operand_count();
        match shape {
            Shape::RecordIo => {
                if n != 2 {
                    return Err(ErrorKind::Grammar);
                }
                if !is_label(self.operand(0).value.as_str()) {
                    return Err(ErrorKind::Grammar);
                }
                if !is_label(self.operand(1).value.as_str()) {
                    return Err(ErrorKind::Grammar);
                }
                Ok(14)
            },
            _ => {
                if n == 0 {
                    Ok(7)
                } else {
                    Err(ErrorKind::Grammar)
                }
            },
        }
    }

    /// Checks the operands of a directive. The start needs a label and
    /// takes at most one operand; the data directive takes one constant or
    /// more; the storage directive takes one decimal number; the end takes
    /// no label and no operand.
    fn assembler_check(&self, shape: Shape) -> (r: Result<u32, ErrorKind>)
        requires
            self@.has_mnemonic(),
            shape == self@.shape(),
            shape == Shape::Start || shape == Shape::DataConstant || shape == Shape::DefineStorage
                || shape == Shape::End,
        ensures
            measures(r, self@),
    {
        let n = self.operand_count();
        match shape {
            Shape::Start => {
                if !self.with_label {
                    return Err(ErrorKind::Grammar);
                }
                if n > 1 {
                    return Err(ErrorKind::Grammar);
                }
                Ok(0)
            },
            Shape::DataConstant => {
                if n == 0 {
                    return Err(ErrorKind::Grammar);
                }
                let mut total: u32 = 0;
                let mut j: usize = 0;
                assert(self@.operands().take(0) =~= Seq::<TokenView>::empty());
                while j < n
                    invariant
                        self@.has_mnemonic(),
                        self@.shape() == Shape::DataConstant,
                        n == self@.operands().len(),
                        n >= 1,
                        j <= n,
                        forall|i: int|
                            0 <= i < j ==> constant_class(#[trigger] self@.operands()[i].text)
                                != Constant::Other,
                        total <= 0x10000,
                        total == if data_words(self@.operands().take(j as int)) > 0x10000 {
                            0x10000
                        } else {
                            data_words(self@.operands().take(j as int))
                        },
                    decreases n - j,
                {
                    let ghost ops = self@.operands();
                    let arg = self.operand(j).value.as_str();
                    let kind = is_constant_of(arg);
                    if kind == Constant::Other {
                        return Err(ErrorKind::MalformedDirective);
                    }
                    let len: usize = if kind == Constant::Char {
                        let cs = chars_of(arg);
                        unquoted_len(cs.as_slice())
                    } else {
                        1
                    };
                    assert(ops.take(j + 1).drop_last() =~= ops.take(j as int));
                    assert(ops.take(j + 1).last() == ops[j as int]);
                    assert(len == constant_words(ops[j as int].text));
                    if len >= 0x10000 {
                        total = 0x10000;
                    } else if total + len as u32 > 0x10000 {
                        total = 0x10000;
                    } else {
                        total = total + len as u32;
                    }
                    j += 1;
                }
                assert(self@.operands().take(n as int) =~= self@.operands());
                Ok(total)
            },
            Shape::DefineStorage => {
                if n != 1 {
                    return Err(ErrorKind::Grammar);
                }
                let cs = chars_of(self.operand(0).value.as_str());
                match read_decimal(cs.as_slice()) {
                    Some(v) => Ok(v as u32),
                    None => Err(ErrorKind::MalformedDirective),
                }
            },
            _ => {
                if self.with_label {
                    return Err(ErrorKind::Grammar);
                }
                if n != 0 {
                    return Err(ErrorKind::Grammar);
                }
                Ok(0)
            },
        }
    }

    /// Checks the operands of a machine instruction, by the shape of its
    /// mnemonic.
    fn opcode_check(&self, shape: Shape) -> (r: Result<u32, ErrorKind>)
        requires
            self@.has_mnemonic(),
            shape == self@.shape(),
            shape == Shape::NoOperand || shape == Shape::SingleRegister || shape
                == Shape::RegisterAddress || shape == Shape::AddressOnly || shape
                == Shape::RegisterPairOrAddress,
        ensures
            measures(r, self@),
    {
        let n = self.operand_count();
        match shape {
            Shape::NoOperand => {
                if n == 0 {
                    Ok(1)
                } else {
                    Err(ErrorKind::Grammar)
                }
            },
            Shape::SingleRegister => {
                if n != 1 {
                    return Err(ErrorKind::Grammar);
                }
                if is_register_operand(self.operand(0)) {
                    Ok(1)
                } else {
                    Err(ErrorKind::Grammar)
                }
            },
            Shape::RegisterAddress => {
                if n < 1 || !is_register_operand(self.operand(0)) {
                    return Err(ErrorKind::Grammar);
                }
                if self.has_address_and_index(1) {
                    Ok(2)
                } else {
                    Err(ErrorKind::Grammar)
                }
            },
            Shape::AddressOnly => {
                if self.has_address_and_index(0) {
                    Ok(2)
                } else {
                    Err(ErrorKind::Grammar)
                }
            },
            _ => {
                if n < 2 || !is_register_operand(self.operand(0)) {
                    return Err(ErrorKind::Grammar);
                }
                let second = self.operand(1);
                if second.kind == TokenType::Register {
                    if n == 2 && is_register_operand(second) {
                        Ok(1)
                    } else {
                        Err(ErrorKind::Grammar)
                    }
                } else if self.has_address_and_index(1) {
                    Ok(2)
                } else {
                    Err(ErrorKind::Grammar)
                }
            },
        }
    }

    /// Enters the number of words that the line takes as its length. The
    /// line must have passed the check against the grammar, which also
    /// shows that the number fits.
    pub fn set_opcode_len(&mut self)
        requires
            old(self)@.well_formed(),
            old(self)@.words() <= u16::MAX,
        ensures
            final(self)@ == old(self)@.with_len(old(self)@.words() as u16),
    {
        let shape = self.shape();
        let len: u16 = match shape {
            Shape::NoOperand | Shape::SingleRegister => 1,
            Shape::AddressOnly | Shape::RegisterAddress => 2,
            Shape::SaveRegisters | Shape::RestoreRegisters => 7,
            Shape::RecordIo => 14,
            Shape::DataConstant => {
                let n = self.operand_count();
                let mut len: u16 = 0;
                let mut j: usize = 0;
                assert(self@.operands().take(0) =~= Seq::<TokenView>::empty());
                while j < n
                    invariant
                        self@.has_mnemonic(),
                        n == self@.operands().len(),
                        j <= n,
                        data_words(self@.operands()) <= u16::MAX,
                        len == data_words(self@.operands().take(j as int)),
                    decreases n - j,
                {
                    let ghost ops = self@.operands();
                    let arg = self.operand(j).value.as_str();
                    assert(ops.take(j + 1).drop_last() =~= ops.take(j as int));
                    assert(ops.take(j + 1).last() == ops[j as int]);
                    proof {
                        lemma_data_words_grow(ops, j + 1);
                        if char_text(arg@) {
                            lemma_char_constant_class(arg@);
                        }
                    }
                    if is_char(arg) {
                        len += constant_of_char_len(arg);
                    } else {
                        len += 1;
                    }
                    j += 1;
                }
                assert(self@.operands().take(n as int) =~= self@.operands());
                len
            },
            Shape::DefineStorage => {
                let cs = chars_of(self.operand(0).value.as_str());
                match read_decimal(cs.as_slice()) {
                    Some(v) => v,
                    None => 0,
                }
            },
            Shape::Start | Shape::End => 0,
            _ => {
                if self.operand(1).kind == TokenType::Register {
                    1
                } else {
                    2
                }
            },
        };
        self.machine_code_len = len;
    }

    /// The number of the index register at position `at`, and zero where
    /// the operands end before it.
    fn index_number(&self, at: usize) -> (x: u16)
        requires
            self@.has_mnemonic(),
            at <= 2,
            at < self@.operands().len() ==> register_number(self@.operands()[at as int].text)
                is Some,
        ensures
            x == index_of(self@.operands(), at as int),
    {
        if at < self.operand_count() {
            get_register_number(self.operand(at).value.as_str())
        } else {
            0
        }
    }

    /// The two words of an instruction whose address is the operand at
    /// position `at`, with the location counter behind it and whether the
    /// address is a literal.
    fn address_words(&self, first: u16, at: usize, labels: &SymbolTable, lc: u16) -> (r: Result<
        (Vec<u16>, u16, bool),
        ErrorKind,
    >)
        requires
            self@.has_mnemonic(),
            at < self@.operands().len(),
        ensures
            match r {
                Ok(e) => with_address(first, self@.operands()[at as int], labels@, lc) == Ok::<
                    Encoding,
                    ErrorKind,
                >(Encoding { words: e.0@, location_counter: e.1, literal: e.2 }),
                Err(e) => with_address(first, self@.operands()[at as int], labels@, lc) == Err::<
                    Encoding,
                    ErrorKind,
                >(e),
            },
    {
        let adr = self.operand(at);
        if adr.kind == TokenType::Literal {
            if lc == u16::MAX {
                Err(ErrorKind::AddressOverflow)
            } else {
                Ok((vec![first, lc], lc + 1, true))
            }
        } else {
            match get_constant_value(adr.value.as_str(), labels) {
                Ok(v) => Ok((vec![first, v], lc, false)),
                Err(e) => Err(e),
            }
        }
    }

    /// The words of the operands of a data directive; none where an
    /// operand has no value.
    fn data_constant_words(&self, labels: &SymbolTable) -> (r: Option<Vec<u16>>)
        requires
            self@.has_mnemonic(),
        ensures
            match r {
                Some(w) => data_encoding(self@.operands(), labels@) == Some(w@),
                None => data_encoding(self@.operands(), labels@) is None,
            },
    {
        let n = self.operand_count();
        let mut words: Vec<u16> = Vec::new();
        let mut j: usize = 0;
        assert(self@.operands().take(0) =~= Seq::<TokenView>::empty());
        while j < n
            invariant
                self@.has_mnemonic(),
                n == self@.operands().len(),
                j <= n,
                data_encoding(self@.operands().take(j as int), labels@) == Some(words@),
            decreases n - j,
        {
            let ghost ops = self@.operands();
            let ghost before = words@;
            let arg = self.operand(j).value.as_str();
            assert(ops.take(j + 1).drop_last() =~= ops.take(j as int));
            assert(ops.take(j + 1).last() == ops[j as int]);
            let cs = chars_of(arg);
            if quoted(cs.as_slice()) {
                let mut w = unquote(cs.as_slice());
                words.append(&mut w);
            } else {
                match get_constant_value(arg, labels) {
                    Ok(v) => {
                        words.push(v);
                        assert(words@ =~= before + seq![v]);
                    },
                    Err(_) => {
                        proof {
                            if data_encoding(ops, labels@) is Some {
                                lemma_data_encoding_prefix(ops, labels@, j + 1);
                            }
                        }
                        return None;
                    },
                }
            }
            j += 1;
        }
        assert(self@.operands().take(n as int) =~= self@.operands());
        Some(words)
    }

    /// The words of an accepted line, with the location counter behind it
    /// and whether its address is a literal.
    fn encode(&self, shape: Shape, labels: &SymbolTable, lc: u16) -> (r: Result<
        (Vec<u16>, u16, bool),
        ErrorKind,
    >)
        requires
            self@.well_formed(),
            shape == self@.shape(),
        ensures
            match r {
                Ok(e) => encoded(self@, labels@, lc) == Ok::<Encoding, ErrorKind>(
                    Encoding { words: e.0@, location_counter: e.1, literal: e.2 },
                ),
                Err(e) => encoded(self@, labels@, lc) == Err::<Encoding, ErrorKind>(e),
            },
    {
        proof {
            reveal(encoded);
        }
        let op = get_opcode(self.tokens[self.mnemonic_index()].value.as_str());
        match shape {
            Shape::NoOperand => {
                let words: Vec<u16> = vec![0x8100];
                assert(words@ =~= seq![0x8100u16]);
                Ok((words, lc, false))
            },
            Shape::SingleRegister => {
                let r = get_register_number(self.operand(0).value.as_str());
                let first = make_first_word(0x71, r, 0);
                let words: Vec<u16> = vec![first];
                assert(words@ =~= seq![first]);
                Ok((words, lc, false))
            },
            Shape::RegisterAddress => {
                let r = get_register_number(self.operand(0).value.as_str());
                let x = self.index_number(2);
                self.address_words(make_first_word(op, r, x), 1, labels, lc)
            },
            Shape::AddressOnly => {
                let x = self.index_number(1);
                self.address_words(make_first_word(op, 0, x), 0, labels, lc)
            },
            Shape::RegisterPairOrAddress => {
                let r = get_register_number(self.operand(0).value.as_str());
                if self.operand(1).kind == TokenType::Register {
                    let r2 = get_register_number(self.operand(1).value.as_str());
                    let first = make_first_word(op, r, r2) | 0x0400;
                    let words: Vec<u16> = vec![first];
                    assert(words@ =~= seq![first]);
                    Ok((words, lc, false))
                } else {
                    let x = self.index_number(2);
                    self.address_words(make_first_word(op, r, x), 1, labels, lc)
                }
            },
            Shape::Start => {
                if self.operand_count() >= 1 && !labels.contains_key(
                    self.operand(0).value.as_str(),
                ) {
                    Err(ErrorKind::UnresolvedSymbol)
                } else {
                    let words: Vec<u16> = Vec::new();
                    assert(words@ =~= Seq::<u16>::empty());
                    Ok((words, lc, false))
                }
            },
            Shape::End => {
                let words: Vec<u16> = Vec::new();
                assert(words@ =~= Seq::<u16>::empty());
                Ok((words, lc, false))
            },
            Shape::DataConstant => {
                match self.data_constant_words(labels) {
                    Some(words) => Ok((words, lc, false)),
                    None => Err(ErrorKind::UnresolvedSymbol),
                }
            },
            Shape::DefineStorage => {
                let cs = chars_of(self.operand(0).value.as_str());
                let n: u16 = match read_decimal(cs.as_slice()) {
                    Some(v) => v,
                    None => 0,
                };
                let mut words: Vec<u16> = Vec::new();
                let mut i: u16 = 0;
                while i < n
                    invariant
                        i <= n,
                        words@.len() == i,
                        forall|k: int| 0 <= k < i ==> words@[k] == 0u16,
                    decreases n - i,
                {
                    words.push(0);
                    i += 1;
                }
                assert(words@ =~= zeros(self@.words()));
                Ok((words, lc, false))
            },
            Shape::SaveRegisters => Ok((make_save_words(), lc, false)),
            Shape::RestoreRegisters => Ok((make_restore_words(), lc, false)),
            Shape::RecordIo => Err(ErrorKind::NoEncoding),
            Shape::Unknown => Err(ErrorKind::Grammar),
        }
    }

    /// Translates the line to its words and puts them behind the words
    /// that it holds. An address that is a literal takes the slot at which
    /// the location counter points, moves the counter on by one and marks
    /// the line as one with a literal; the directive that ends the program
    /// marks the end as reached. A line that cannot be translated is left
    /// as it was, and so is the context.
    pub fn set_machine_code(&mut self, labels: &SymbolTable, ctx: &mut AssemblyContext) -> (r:
        Result<(), ErrorKind>)
        ensures
            match r {
                Ok(()) => generated(old(self)@, labels@, *old(ctx)) == Ok::<
                    (LineView, AssemblyContext),
                    ErrorKind,
                >((final(self)@, *final(ctx))),
                Err(e) => generated(old(self)@, labels@, *old(ctx)) == Err::<
                    (LineView, AssemblyContext),
                    ErrorKind,
                >(e) && final(self)@ == old(self)@ && *final(ctx) == *old(ctx),
            },
    {
        let shape = self.shape();
        match self.measure(shape) {
            Err(e) => {
                return Err(e);
            },
            Ok(_) => {},
        }
        match self.encode(shape, labels, ctx.location_counter) {
            Err(e) => Err(e),
            Ok(e) => {
                let mut words = e.0;
                self.machine_code.append(&mut words);
                if e.2 {
                    self.with_literal = true;
                }
                ctx.location_counter = e.1;
                if shape == Shape::End {
                    ctx.end_reached = true;
                }
                Ok(())
            },
        }
    }

    /// The words that the literals of the line put into the pool: the
    /// value group of each token that is a literal, in the order of the
    /// tokens.
    pub fn get_value_from_literal(&self) -> (v: Vec<u16>)
        ensures
            v@ == pool_words(self@.tokens),
    {
        let mut v: Vec<u16> = Vec::new();
        let mut k: usize = 0;
        assert(self@.tokens.take(0) =~= Seq::<TokenView>::empty());
        while k < self.tokens.len()
            invariant
                k <= self.tokens.len(),
                v@ == literal_groups(self@.tokens.take(k as int)).flatten(),
            decreases self.tokens.len() - k,
        {
            let ghost ts = self@.tokens;
            assert(ts.take(k + 1).drop_last() =~= ts.take(k as int));
            assert(ts.take(k + 1).last() == ts[k as int]);
            let token = &self.tokens[k];
            if token.kind == TokenType::Literal {
                let mut w = literal_value(token.value.as_str());
                proof {
                    literal_groups(ts.take(k as int)).lemma_flatten_push(
                        literal_words(ts[k as int].text),
                    );
                }
                v.append(&mut w);
            }
            k += 1;
        }
        assert(self@.tokens.take(self.tokens.len() as int) =~= self@.tokens);
        v
    }

    /// Reads a source line, in which commas have become spaces, into the
    /// line: its words up to the first that is a semicolon alone become
    /// tokens behind those that the line holds. Where a word is nothing
    /// that may stand at its position, the line is left as it was.
    pub fn parse(&mut self, code: &str) -> (r: Result<(), ErrorKind>)
        ensures
            match r {
                Ok(()) => parsed(code@) is Some && final(self)@ == old(self)@.with_tokens(
                    labelled(code@),
                    parsed(code@)->0,
                ),
                Err(e) => e == ErrorKind::Lexical && parsed(code@) is None && final(self)@ == old(
                    self,
                )@,
            },
    {
        let cs = chars_of(code);
        let ranges = split_words(cs.as_slice());
        let with_label = !(cs.len() > 0 && is_whitespace(cs[0]));
        let ghost words = words_of(code@);
        let n = ranges.len();
        let mut limit: usize = 0;
        let mut found = false;
        while limit < n && !found
            invariant
                cs@ == code@,
                words == words_of(code@),
                pieces(cs@, ranges@) == words,
                ranges_within(ranges@, cs@.len()),
                n == ranges@.len(),
                limit <= n,
                found ==> limit < n && comment_word(words[limit as int]),
                forall|j: int| 0 <= j < limit ==> !comment_word(#[trigger] words[j]),
            decreases n - limit + if found { 0int } else { 1int },
        {
            let range = ranges[limit];
            assert(words[limit as int] == cs@.subrange(range.0 as int, range.1 as int));
            if range.1 - range.0 == 1 && cs[range.0] == ';' {
                found = true;
            } else {
                limit += 1;
            }
        }
        proof {
            lemma_comment_at(words, limit as int);
        }
        let ghost kept = words.take(limit as int);
        assert(kept == code_words(code@));
        let mut tokens: Vec<Token> = Vec::new();
        let mut k: usize = 0;
        assert(kept.take(0) =~= Seq::<Seq<char>>::empty());
        assert(token_views(tokens@) =~= Seq::<TokenView>::empty());
        while k < limit
            invariant
                cs@ == code@,
                words == words_of(code@),
                pieces(cs@, ranges@) == words,
                ranges_within(ranges@, cs@.len()),
                n == ranges@.len(),
                limit <= n,
                k <= limit,
                kept == words.take(limit as int),
                kept == code_words(code@),
                with_label == labelled(code@),
                classified(kept.take(k as int), with_label) == Some(token_views(tokens@)),
            decreases limit - k,
        {
            let range = ranges[k];
            assert(words[k as int] == cs@.subrange(range.0 as int, range.1 as int));
            let word = code.substring_char(range.0, range.1);
            assert(kept.take(k + 1).drop_last() =~= kept.take(k as int));
            assert(kept.take(k + 1).last() == words[k as int]);
            match classify(word, k, with_label) {
                None => {
                    proof {
                        if classified(kept, with_label) is Some {
                            lemma_classified_prefix(kept, with_label, k + 1);
                        }
                    }
                    return Err(ErrorKind::Lexical);
                },
                Some(kind) => {
                    let ghost before = tokens@;
                    tokens.push(Token::new(kind, word.to_owned()));
                    assert(token_views(tokens@) =~= token_views(before).push(
                        TokenView { kind: kind, text: words[k as int] },
                    ));
                },
            }
            k += 1;
        }
        assert(kept.take(limit as int) =~= kept);
        let literal = has_literal(&tokens);
        let ghost before = self.tokens@;
        let ghost added = tokens@;
        self.with_label = with_label;
        if literal {
            self.with_literal = true;
        }
        self.tokens.append(&mut tokens);
        assert(token_views(before + added) =~= token_views(before) + token_views(added));
        Ok(())
    }
}

/// Whether one of `tokens` is a literal.
fn has_literal(tokens: &Vec<Token>) -> (b: bool)
    ensures
        b == (literal_count(token_views(tokens@)) > 0),
{
    let mut b = false;
    let mut k: usize = 0;
    let ghost ts = token_views(tokens@);
    assert(ts.take(0) =~= Seq::<TokenView>::empty());
    while k < tokens.len()
        invariant
            k <= tokens.len(),
            ts == token_views(tokens@),
            b == (literal_count(ts.take(k as int)) > 0),
        decreases tokens.len() - k,
    {
        assert(ts.take(k + 1).drop_last() =~= ts.take(k as int));
        assert(ts.take(k + 1).last() == ts[k as int]);
        if tokens[k].kind == TokenType::Literal {
            b = true;
        }
        k += 1;
    }
    assert(ts.take(tokens.len() as int) =~= ts);
    b
}

} // verus!
