//! The two passes over the lines of a program, and the image of words that
//! they yield.
use crate::context::AssemblyContext;
use crate::encoding::{generated, literal_count, pool_words};
use crate::error::{AsmError, ErrorKind};
use crate::grammar::checked;
use crate::parser::{labelled, parsed};
use crate::text::{
    chars_of, commas_to_spaces, lines_of, normalize_commas, pieces, ranges_within, segments,
    split_lines,
};
use crate::token::{Line, LineView, SymbolTable, TokenView};
use vstd::prelude::*;
use vstd::string::*;

verus! {

/// The lines `ls` as values.
pub open spec fn line_views(ls: Seq<Line>) -> Seq<LineView> {
    Seq::new(ls.len(), |i: int| ls[i]@)
}

/// A program between the passes: its lines up to the one that ends it, the
/// symbol table, and the context.
pub struct Program {
    /// The lines, in the order of the source text.
    pub lines: Vec<Line>,
    /// The address of each label.
    pub labels: SymbolTable,
    /// The context after the last line.
    pub ctx: AssemblyContext,
}

/// A program as a value.
pub struct Layout {
    /// The lines, in the order of the source text.
    pub lines: Seq<LineView>,
    /// The address of each label.
    pub table: Map<Seq<char>, u16>,
    /// The context after the last line.
    pub ctx: AssemblyContext,
}

impl View for Program {
    type V = Layout;

    open spec fn view(&self) -> Layout {
        Layout { lines: line_views(self.lines@), table: self.labels@, ctx: self.ctx }
    }
}

/// The line that the tokens `tokens` of the source line `code` make, before
/// it is checked: no words yet, and length zero.
pub open spec fn fresh_line(index: usize, code: Seq<char>, tokens: Seq<TokenView>) -> LineView {
    LineView {
        line_number: index,
        with_label: labelled(code),
        with_literal: literal_count(tokens) > 0,
        tokens: tokens,
        machine_code: Seq::empty(),
        machine_code_len: 0,
    }
}

/// The symbol table after `line` was seen with the location counter at
/// `lc`: the label of the line now stands for `lc`, unless the table held
/// the name already. An entry, once made, is never overwritten.
pub open spec fn bound(table: Map<Seq<char>, u16>, line: LineView, lc: u16) -> Map<
    Seq<char>,
    u16,
> {
    if line.with_label && line.tokens.len() > 0 && !table.contains_key(line.tokens[0].text) {
        table.insert(line.tokens[0].text, lc)
    } else {
        table
    }
}

/// What the first pass makes of one source line that is not empty: commas
/// become spaces, the words become tokens, the label is bound to the
/// location counter as it stands before the line, the line is checked
/// against the grammar, and its length is entered. A failure bears the
/// number of the line.
pub open spec fn layout_step(st: Layout, index: usize, text: Seq<char>) -> Result<Layout, AsmError> {
    let code = commas_to_spaces(text);
    match parsed(code) {
        None => Err(AsmError { kind: ErrorKind::Lexical, line: index }),
        Some(tokens) => {
            let line = fresh_line(index, code, tokens);
            match checked(line, st.ctx) {
                Err(kind) => Err(AsmError { kind: kind, line: index }),
                Ok(ctx) => Ok(
                    Layout {
                        lines: st.lines.push(line.with_len(line.words() as u16)),
                        table: bound(st.table, line, st.ctx.location_counter),
                        ctx: ctx,
                    },
                ),
            }
        },
    }
}

/// The program at the start of the first pass.
pub open spec fn empty_layout() -> Layout {
    Layout {
        lines: Seq::empty(),
        table: Map::empty(),
        ctx: AssemblyContext { location_counter: 0, end_reached: false },
    }
}

/// What the first pass has found after the first `k` of the source lines
/// `texts`. Empty lines are passed over, and so is every line behind the
/// one that ends the program. The first failure ends the pass.
pub open spec fn laid_out_to(texts: Seq<Seq<char>>, k: nat) -> Result<Layout, AsmError>
    decreases k,
{
    if k == 0 {
        Ok(empty_layout())
    } else {
        match laid_out_to(texts, (k - 1) as nat) {
            Err(e) => Err(e),
            Ok(st) => if st.ctx.end_reached || texts[k - 1].len() == 0 {
                Ok(st)
            } else {
                layout_step(st, (k - 1) as usize, texts[k - 1])
            },
        }
    }
}

/// What the first pass finds in a source text.
pub open spec fn laid_out(source: Seq<char>) -> Result<Layout, AsmError> {
    laid_out_to(lines_of(source), lines_of(source).len())
}

/// What the second pass has made of `lines` after the first `k` of them:
/// each is translated in the context that the line before it left, until
/// one ends the program. The first failure ends the pass and bears the
/// number of its line.
pub open spec fn translated_to(
    lines: Seq<LineView>,
    table: Map<Seq<char>, u16>,
    ctx: AssemblyContext,
    k: nat,
) -> Result<(Seq<LineView>, AssemblyContext), AsmError>
    decreases k,
{
    if k == 0 {
        Ok((lines, ctx))
    } else {
        match translated_to(lines, table, ctx, (k - 1) as nat) {
            Err(e) => Err(e),
            Ok((ls, c)) => if c.end_reached {
                Ok((ls, c))
            } else {
                match generated(ls[k - 1], table, c) {
                    Err(kind) => Err(AsmError { kind: kind, line: ls[k - 1].line_number }),
                    Ok((l, c2)) => Ok((ls.update(k - 1, l), c2)),
                }
            },
        }
    }
}

/// The context in which the second pass begins: the location counter
/// stands where the first pass left it, and the end is not reached.
pub open spec fn second_start(ctx: AssemblyContext) -> AssemblyContext {
    AssemblyContext { location_counter: ctx.location_counter, end_reached: false }
}

/// What the second pass makes of a program.
pub open spec fn translated(st: Layout) -> Result<Layout, AsmError> {
    match translated_to(st.lines, st.table, second_start(st.ctx), st.lines.len()) {
        Err(e) => Err(e),
        Ok((ls, c)) => Ok(Layout { lines: ls, table: st.table, ctx: c }),
    }
}

/// The header word of the image for a source text: the number of its
/// segments less two, in sixteen bits.
pub open spec fn header_of(source: Seq<char>) -> u16 {
    ((segments(source).len() - 2) % 0x10000) as u16
}

/// The words of `lines`, line after line.
pub open spec fn code_of(lines: Seq<LineView>) -> Seq<u16>
    decreases lines.len(),
{
    if lines.len() == 0 {
        Seq::empty()
    } else {
        code_of(lines.drop_last()) + lines.last().machine_code
    }
}

/// What a line puts into the literal pool.
pub open spec fn pool_of_line(line: LineView) -> Seq<u16> {
    if line.with_literal {
        pool_words(line.tokens)
    } else {
        Seq::empty()
    }
}

/// The literal pool of `lines`: what each line puts into it, line after
/// line.
pub open spec fn pool_of(lines: Seq<LineView>) -> Seq<u16>
    decreases lines.len(),
{
    if lines.len() == 0 {
        Seq::empty()
    } else {
        pool_of(lines.drop_last()) + pool_of_line(lines.last())
    }
}

/// The image: the header word, then the words of the lines, then the
/// literal pool.
pub open spec fn image(header: u16, lines: Seq<LineView>) -> Seq<u16> {
    seq![header] + code_of(lines) + pool_of(lines)
}

/// What a source text is translated to: the image that the two passes
/// yield, or the first failure.
pub open spec fn assembled(source: Seq<char>) -> Result<Seq<u16>, AsmError> {
    match laid_out(source) {
        Err(e) => Err(e),
        Ok(st) => match translated(st) {
            Err(e) => Err(e),
            Ok(done) => Ok(image(header_of(source), done.lines)),
        },
    }
}

/// Once the first pass has failed or has reached the end of the program, no
/// further line changes what it has found.
pub proof fn lemma_layout_settled(texts: Seq<Seq<char>>, k: nat, n: nat)
    requires
        k <= n,
        match laid_out_to(texts, k) {
            Err(_) => true,
            Ok(st) => st.ctx.end_reached,
        },
    ensures
        laid_out_to(texts, n) == laid_out_to(texts, k),
    decreases n - k,
{
    if k < n {
        lemma_layout_settled(texts, k, (n - 1) as nat);
    }
}

/// Once the second pass has failed or has reached the end of the program,
/// no further line changes what it has made.
pub proof fn lemma_translation_settled(
    lines: Seq<LineView>,
    table: Map<Seq<char>, u16>,
    ctx: AssemblyContext,
    k: nat,
    n: nat,
)
    requires
        k <= n,
        match translated_to(lines, table, ctx, k) {
            Err(_) => true,
            Ok((_, c)) => c.end_reached,
        },
    ensures
        translated_to(lines, table, ctx, n) == translated_to(lines, table, ctx, k),
    decreases n - k,
{
    if k < n {
        lemma_translation_settled(lines, table, ctx, k, (n - 1) as nat);
    }
}

/// One more line of the second pass.
pub proof fn lemma_translation_step(
    lines: Seq<LineView>,
    table: Map<Seq<char>, u16>,
    ctx: AssemblyContext,
    k: nat,
)
    requires
        translated_to(lines, table, ctx, k) is Ok,
    ensures
        ({
            let (ls, c) = translated_to(lines, table, ctx, k)->Ok_0;
            translated_to(lines, table, ctx, k + 1) == if c.end_reached {
                Ok::<(Seq<LineView>, AssemblyContext), AsmError>((ls, c))
            } else {
                match generated(ls[k as int], table, c) {
                    Err(kind) => Err(AsmError { kind: kind, line: ls[k as int].line_number }),
                    Ok((l, c2)) => Ok((ls.update(k as int, l), c2)),
                }
            }
        }),
{
}

/// The first pass: reads the lines of `source` up to the one that ends the
/// program, binds the labels, checks each line against the grammar and
/// enters its length.
pub fn first_pass(source: &str) -> (r: Result<Program, AsmError>)
    ensures
        match r {
            Ok(p) => laid_out(source@) == Ok::<Layout, AsmError>(p@),
            Err(e) => laid_out(source@) == Err::<Layout, AsmError>(e),
        },
{
    let cs = chars_of(source);
    let split = split_lines(cs.as_slice());
    let ranges = split.0;
    let n = ranges.len();
    let ghost texts = lines_of(source@);
    let mut lines: Vec<Line> = Vec::new();
    let mut labels = SymbolTable::new();
    let mut ctx = AssemblyContext::new();
    let mut i: usize = 0;
    assert(line_views(lines@) =~= Seq::<LineView>::empty());
    while i < n && !ctx.end_reached
        invariant
            cs@ == source@,
            texts == lines_of(source@),
            pieces(cs@, ranges@) == texts,
            ranges_within(ranges@, cs@.len()),
            n == ranges@.len(),
            i <= n,
            laid_out_to(texts, i as nat) == Ok::<Layout, AsmError>(
                Layout { lines: line_views(lines@), table: labels@, ctx: ctx },
            ),
        decreases n - i,
    {
        let range = ranges[i];
        assert(texts[i as int] == cs@.subrange(range.0 as int, range.1 as int));
        if range.0 < range.1 {
            let text = source.substring_char(range.0, range.1);
            let code = normalize_commas(text);
            let mut line = Line::new(i);
            match line.parse(code.as_str()) {
                Err(kind) => {
                    proof {
                        lemma_layout_settled(texts, (i + 1) as nat, n as nat);
                    }
                    return Err(AsmError { kind: kind, line: i });
                },
                Ok(()) => {},
            }
            assert(line@.tokens =~= parsed(code@)->0);
            assert(line@ == fresh_line(i, code@, parsed(code@)->0));
            let lc = ctx.location_counter;
            if line.with_label && line.tokens.len() > 0 {
                if !labels.contains_key(line.tokens[0].value.as_str()) {
                    labels.insert(line.tokens[0].value.clone(), lc);
                }
            }
            match line.semantic_check(&mut ctx) {
                Err(kind) => {
                    proof {
                        lemma_layout_settled(texts, (i + 1) as nat, n as nat);
                    }
                    return Err(AsmError { kind: kind, line: i });
                },
                Ok(()) => {},
            }
            line.set_opcode_len();
            let ghost before = line_views(lines@);
            let ghost added = line@;
            lines.push(line);
            assert(line_views(lines@) =~= before.push(added));
        }
        i += 1;
    }
    proof {
        if i < n {
            lemma_layout_settled(texts, i as nat, n as nat);
        }
    }
    Ok(Program { lines: lines, labels: labels, ctx: ctx })
}

/// The second pass: translates each line of the program to its words, in
/// the order of the lines, until one ends the program. The location counter
/// goes on from where the first pass left it and hands out the slots of the
/// literal pool.
pub fn second_pass(program: Program) -> (r: Result<Program, AsmError>)
    ensures
        match r {
            Ok(p) => translated(program@) == Ok::<Layout, AsmError>(p@),
            Err(e) => translated(program@) == Err::<Layout, AsmError>(e),
        },
{
    let Program { lines, labels, ctx } = program;
    let mut lines = lines;
    let mut ctx = AssemblyContext { location_counter: ctx.location_counter, end_reached: false };
    let ghost start = ctx;
    let ghost given = line_views(lines@);
    let n = lines.len();
    let mut i: usize = 0;
    while i < n && !ctx.end_reached
        invariant
            n == lines@.len(),
            n == given.len(),
            i <= n,
            given == program@.lines,
            labels@ == program@.table,
            start == second_start(program@.ctx),
            translated_to(given, labels@, start, i as nat) == Ok::<
                (Seq<LineView>, AssemblyContext),
                AsmError,
            >((line_views(lines@), ctx)),
        decreases n - i,
    {
        let ghost before = line_views(lines@);
        let number = lines[i].line_number;
        proof {
            lemma_translation_step(given, labels@, start, i as nat);
            assert(before[i as int] == lines@[i as int]@);
        }
        match lines[i].set_machine_code(&labels, &mut ctx) {
            Err(kind) => {
                proof {
                    lemma_translation_settled(given, labels@, start, (i + 1) as nat, n as nat);
                }
                return Err(AsmError { kind: kind, line: number });
            },
            Ok(()) => {},
        }
        assert(line_views(lines@) =~= before.update(i as int, lines@[i as int]@));
        i += 1;
    }
    proof {
        if i < n {
            lemma_translation_settled(given, labels@, start, i as nat, n as nat);
        }
    }
    Ok(Program { lines: lines, labels: labels, ctx: ctx })
}

/// The header word of the image for `source`.
pub fn header_word(source: &str) -> (w: u16)
    ensures
        w == header_of(source@),
{
    let cs = chars_of(source);
    let split = split_lines(cs.as_slice());
    let feeds = split.1;
    if feeds == 0 {
        0xffff
    } else {
        ((feeds - 1) % 0x10000) as u16
    }
}

/// Puts the words of `src` behind those of `dst`.
fn push_all(dst: &mut Vec<u16>, src: &Vec<u16>)
    ensures
        final(dst)@ == old(dst)@ + src@,
{
    let mut i: usize = 0;
    assert(dst@ =~= old(dst)@ + src@.take(0));
    while i < src.len()
        invariant
            i <= src.len(),
            dst@ == old(dst)@ + src@.take(i as int),
        decreases src.len() - i,
    {
        dst.push(src[i]);
        assert(dst@ =~= old(dst)@ + src@.take(i + 1));
        i += 1;
    }
    assert(src@.take(src.len() as int) =~= src@);
}

/// Builds the image: the header word, the words of all lines, and behind
/// them the literal pool.
pub fn build_image(header: u16, lines: &Vec<Line>) -> (memory: Vec<u16>)
    ensures
        memory@ == image(header, line_views(lines@)),
{
    let ghost all = line_views(lines@);
    let mut memory: Vec<u16> = Vec::new();
    memory.push(header);
    let mut i: usize = 0;
    assert(all.take(0) =~= Seq::<LineView>::empty());
    assert(memory@ =~= seq![header] + code_of(all.take(0)));
    while i < lines.len()
        invariant
            all == line_views(lines@),
            i <= lines.len(),
            memory@ == seq![header] + code_of(all.take(i as int)),
        decreases lines.len() - i,
    {
        assert(all.take(i + 1).drop_last() =~= all.take(i as int));
        assert(all.take(i + 1).last() == lines@[i as int]@);
        push_all(&mut memory, &lines[i].machine_code);
        assert(memory@ =~= seq![header] + code_of(all.take(i + 1)));
        i += 1;
    }
    assert(all.take(lines.len() as int) =~= all);
    let mut j: usize = 0;
    assert(memory@ =~= seq![header] + code_of(all) + pool_of(all.take(0)));
    while j < lines.len()
        invariant
            all == line_views(lines@),
            j <= lines.len(),
            memory@ == seq![header] + code_of(all) + pool_of(all.take(j as int)),
        decreases lines.len() - j,
    {
        assert(all.take(j + 1).drop_last() =~= all.take(j as int));
        assert(all.take(j + 1).last() == lines@[j as int]@);
        if lines[j].with_literal {
            let mut pool = lines[j].get_value_from_literal();
            memory.append(&mut pool);
        }
        assert(memory@ =~= seq![header] + code_of(all) + pool_of(all.take(j + 1)));
        j += 1;
    }
    assert(all.take(lines.len() as int) =~= all);
    memory
}

/// Translates a source text to the image of its program: the header word,
/// the words of the lines and the literal pool. Any failure is fatal and
/// leaves no words.
pub fn assemble(source: &str) -> (r: Result<Vec<u16>, AsmError>)
    ensures
        match r {
            Ok(w) => assembled(source@) == Ok::<Seq<u16>, AsmError>(w@),
            Err(e) => assembled(source@) == Err::<Seq<u16>, AsmError>(e),
        },
{
    let program = match first_pass(source) {
        Ok(p) => p,
        Err(e) => {
            return Err(e);
        },
    };
    let done = match second_pass(program) {
        Ok(p) => p,
        Err(e) => {
            return Err(e);
        },
    };
    Ok(build_image(header_word(source), &done.lines))
}

} // verus!
