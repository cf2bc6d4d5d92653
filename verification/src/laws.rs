//! What holds of every program: the two passes count the same words, a
//! label stands for the address of the line that defines it, and the
//! literal pool lies behind the words of the lines.
use crate::constant::{constant_value, decimal_value, hex_value, label_text};
use crate::context::AssemblyContext;
use crate::encoding::{
    generated, lemma_encoded_len, lemma_encoded_slot, lemma_literal_groups, literal_count,
    pool_words, takes_slot,
};
use crate::number::{digit_of, unsigned_part};
use crate::program::{
    assembled, bound, code_of, fresh_line, header_of, image, laid_out, laid_out_to, layout_step,
    pool_of, second_start, translated, translated_to, Layout,
};
use crate::text::{commas_to_spaces, lines_of};
use crate::grammar::Shape;
use crate::parser::{classified, code_words, kind_at, labelled, parsed};
use crate::token::LineView;
use vstd::prelude::*;

verus! {

/// The sum of the lengths that were entered in `lines`.
pub open spec fn total_len(lines: Seq<LineView>) -> nat
    decreases lines.len(),
{
    if lines.len() == 0 {
        0
    } else {
        total_len(lines.drop_last()) + lines.last().machine_code_len as nat
    }
}

/// The address of line `i` of `lines`: the sum of the lengths of the lines
/// before it.
pub open spec fn address_of(lines: Seq<LineView>, i: int) -> nat {
    total_len(lines.take(i))
}

/// Whether `line` defines the label `name`.
pub open spec fn defines(line: LineView, name: Seq<char>) -> bool {
    line.with_label && line.tokens.len() > 0 && line.tokens[0].text == name
}

/// How many words an accepted line is translated to.
pub open spec fn emitted_len(line: LineView) -> nat {
    if line.shape() == Shape::SaveRegisters {
        14
    } else {
        line.machine_code_len as nat
    }
}

/// The words that the literals of `lines` stand for, line after line.
pub open spec fn literals_of(lines: Seq<LineView>) -> Seq<u16>
    decreases lines.len(),
{
    if lines.len() == 0 {
        Seq::empty()
    } else {
        literals_of(lines.drop_last()) + pool_words(lines.last().tokens)
    }
}

/// How many of `lines` take a slot of the literal pool.
pub open spec fn slots(lines: Seq<LineView>) -> nat
    decreases lines.len(),
{
    if lines.len() == 0 {
        0
    } else if takes_slot(lines.last()) {
        slots(lines.drop_last()) + 1
    } else {
        slots(lines.drop_last())
    }
}

/// What the first pass leaves of a line: it is accepted, has no words yet,
/// bears its length, is marked as holding a literal exactly if it holds
/// one, and begins with a text in the form of a label if it has a label.
pub open spec fn settled(line: LineView) -> bool {
    &&& line.well_formed()
    &&& line.machine_code.len() == 0
    &&& line.machine_code_len == line.words()
    &&& line.with_literal == (literal_count(line.tokens) > 0)
    &&& line.with_label ==> label_text(line.tokens[0].text)
}

/// What holds of a program while the first pass goes over it.
pub open spec fn orderly(st: Layout) -> bool {
    &&& forall|j: int| 0 <= j < st.lines.len() ==> settled(#[trigger] st.lines[j])
    &&& total_len(st.lines) == st.ctx.location_counter
    &&& forall|j: int|
        0 <= j < st.lines.len() - 1 ==> (#[trigger] st.lines[j]).shape() != Shape::End
    &&& st.ctx.end_reached == (st.lines.len() > 0 && st.lines.last().shape() == Shape::End)
    &&& forall|j: int|
        0 <= j < st.lines.len() && (#[trigger] st.lines[j]).with_label ==> st.table.contains_key(
            st.lines[j].tokens[0].text,
        )
    &&& forall|name: Seq<char>| #[trigger]
        st.table.contains_key(name) ==> exists|j: int|
            0 <= j < st.lines.len() && #[trigger] defines(st.lines[j], name) && st.table[name]
                == address_of(st.lines, j)
}

/// Each token that `words` yield has the text of its word and the kind
/// that the word has at its position.
pub proof fn lemma_classified_kinds(words: Seq<Seq<char>>, with_label: bool)
    ensures
        classified(words, with_label) matches Some(ts) ==> ts.len() == words.len() && forall|
            p: int,
        |
            0 <= p < ts.len() ==> (#[trigger] ts[p]).text == words[p] && kind_at(
                words[p],
                p,
                with_label,
            ) == Some(ts[p].kind),
    decreases words.len(),
{
    if words.len() > 0 {
        lemma_classified_kinds(words.drop_last(), with_label);
    }
}

/// A text in the form of a label is no decimal number: it begins with a
/// letter.
pub proof fn lemma_label_is_no_decimal(t: Seq<char>)
    requires
        label_text(t),
    ensures
        decimal_value(t) is None,
{
    assert(unsigned_part(t) == t);
    assert(digit_of(t[0], 10) is None);
}

/// One line more leaves the program orderly.
pub proof fn lemma_layout_step_orderly(st: Layout, index: usize, text: Seq<char>)
    requires
        orderly(st),
        !st.ctx.end_reached,
        layout_step(st, index, text) is Ok,
    ensures
        orderly(layout_step(st, index, text)->Ok_0),
{
    let code = commas_to_spaces(text);
    let tokens = parsed(code)->0;
    let line = fresh_line(index, code, tokens);
    let added = line.with_len(line.words() as u16);
    let st2 = layout_step(st, index, text)->Ok_0;
    let lc = st.ctx.location_counter;
    assert(st2.lines == st.lines.push(added));
    assert(st2.table == bound(st.table, line, lc));
    let n = st.lines.len() as int;
    assert(st2.lines.drop_last() =~= st.lines);
    assert(st2.lines.last() == added);
    assert(added.tokens == tokens);
    assert(added.operands() == line.operands());
    assert(added.shape() == line.shape());
    assert(added.well_formed());
    assert(added.words() == line.words());
    lemma_classified_kinds(code_words(code), labelled(code));
    assert(settled(added)) by {
        if added.with_label {
            assert(tokens.len() > 0);
            assert(kind_at(code_words(code)[0], 0, true) == Some(tokens[0].kind));
        }
    }
    assert forall|j: int| 0 <= j < st2.lines.len() implies settled(#[trigger] st2.lines[j]) by {
        if j < n {
            assert(st2.lines[j] == st.lines[j]);
        }
    }
    assert forall|j: int| 0 <= j < st2.lines.len() - 1 implies (#[trigger] st2.lines[j]).shape()
        != Shape::End by {
        assert(st2.lines[j] == st.lines[j]);
        if j == n - 1 {
            assert(st.lines.last() == st.lines[j]);
        }
    }
    assert forall|j: int| 0 <= j < st2.lines.len() && (#[trigger] st2.lines[j]).with_label implies st2.table.contains_key(
        st2.lines[j].tokens[0].text,
    ) by {
        if j < n {
            assert(st2.lines[j] == st.lines[j]);
        }
    }
    assert forall|name: Seq<char>| #[trigger] st2.table.contains_key(name) implies exists|j: int|
        0 <= j < st2.lines.len() && #[trigger] defines(st2.lines[j], name) && st2.table[name]
            == address_of(st2.lines, j) by {
        if st.table.contains_key(name) {
            let j = choose|j: int|
                0 <= j < st.lines.len() && #[trigger] defines(st.lines[j], name) && st.table[name]
                    == address_of(st.lines, j);
            assert(st2.lines[j] == st.lines[j]);
            assert(st2.lines.take(j) =~= st.lines.take(j));
            assert(defines(st2.lines[j], name));
        } else {
            assert(st2.lines.take(n) =~= st.lines);
            assert(defines(st2.lines[n], name));
        }
    }
}

/// Whatever the first pass yields is orderly.
pub proof fn lemma_layout_orderly(texts: Seq<Seq<char>>, k: nat)
    ensures
        laid_out_to(texts, k) matches Ok(st) ==> orderly(st),
    decreases k,
{
    if k > 0 {
        lemma_layout_orderly(texts, (k - 1) as nat);
        match laid_out_to(texts, (k - 1) as nat) {
            Ok(st) => {
                if !(st.ctx.end_reached || texts[k - 1].len() == 0) {
                    if layout_step(st, (k - 1) as usize, texts[k - 1]) is Ok {
                        lemma_layout_step_orderly(st, (k - 1) as usize, texts[k - 1]);
                    }
                }
            },
            Err(_) => {},
        }
    } else {
        let st = laid_out_to(texts, 0)->Ok_0;
        assert(st.lines.len() == 0);
    }
}

/// What the second pass has done to settled lines after the first `k` of
/// them: each of these has got its words, as many as `emitted_len` says,
/// and kept its tokens and its mark of a literal; the others are as they
/// were; and the end is reached with the last line only.
pub proof fn lemma_translation_fills(
    lines: Seq<LineView>,
    table: Map<Seq<char>, u16>,
    ctx: AssemblyContext,
    k: nat,
)
    requires
        forall|j: int| 0 <= j < lines.len() ==> settled(#[trigger] lines[j]),
        forall|j: int| 0 <= j < lines.len() - 1 ==> (#[trigger] lines[j]).shape() != Shape::End,
        !ctx.end_reached,
        k <= lines.len(),
        translated_to(lines, table, ctx, k) is Ok,
    ensures
        ({
            let (ls, c) = translated_to(lines, table, ctx, k)->Ok_0;
            &&& ls.len() == lines.len()
            &&& forall|j: int| k <= j < lines.len() ==> #[trigger] ls[j] == lines[j]
            &&& forall|j: int|
                0 <= j < k ==> (#[trigger] ls[j]).machine_code.len() == emitted_len(lines[j])
                    && ls[j].tokens == lines[j].tokens && (lines[j].with_literal
                    ==> ls[j].with_literal)
            &&& c.end_reached ==> k == lines.len()
        }),
    decreases k,
{
    if k > 0 {
        lemma_translation_fills(lines, table, ctx, (k - 1) as nat);
        let (ls0, c0) = translated_to(lines, table, ctx, (k - 1) as nat)->Ok_0;
        assert(!c0.end_reached);
        let line = lines[k - 1];
        assert(ls0[k - 1] == line);
        assert(settled(line));
        let (l, c2) = generated(line, table, c0)->Ok_0;
        lemma_encoded_len(line, table, c0.location_counter);
        let (ls, c) = translated_to(lines, table, ctx, k)->Ok_0;
        assert(ls == ls0.update(k - 1, l));
        assert(c == c2);
        assert forall|j: int| 0 <= j < k implies (#[trigger] ls[j]).machine_code.len()
            == emitted_len(lines[j]) && ls[j].tokens == lines[j].tokens && (lines[j].with_literal
            ==> ls[j].with_literal) by {
            if j < k - 1 {
                assert(ls[j] == ls0[j]);
            }
        }
        assert forall|j: int| k <= j < lines.len() implies #[trigger] ls[j] == lines[j] by {
            assert(ls[j] == ls0[j]);
        }
    }
}

/// Where the second pass stands after the first `k` of settled lines: the
/// location counter has gone on by one for each line that takes a slot, and
/// each such line bears as its address the slot behind those of the lines
/// before it.
pub proof fn lemma_translation_slots(
    lines: Seq<LineView>,
    table: Map<Seq<char>, u16>,
    ctx: AssemblyContext,
    k: nat,
)
    requires
        forall|j: int| 0 <= j < lines.len() ==> settled(#[trigger] lines[j]),
        forall|j: int| 0 <= j < lines.len() - 1 ==> (#[trigger] lines[j]).shape() != Shape::End,
        !ctx.end_reached,
        k <= lines.len(),
        translated_to(lines, table, ctx, k) is Ok,
    ensures
        ({
            let (ls, c) = translated_to(lines, table, ctx, k)->Ok_0;
            &&& c.location_counter == ctx.location_counter + slots(lines.take(k as int))
            &&& forall|j: int|
                0 <= j < k && takes_slot(#[trigger] lines[j]) ==> ls[j].machine_code.len() == 2
                    && ls[j].machine_code[1] == ctx.location_counter + slots(lines.take(j))
        }),
    decreases k,
{
    if k > 0 {
        lemma_translation_fills(lines, table, ctx, (k - 1) as nat);
        lemma_translation_slots(lines, table, ctx, (k - 1) as nat);
        let (ls0, c0) = translated_to(lines, table, ctx, (k - 1) as nat)->Ok_0;
        let line = lines[k - 1];
        assert(ls0[k - 1] == line);
        assert(settled(line));
        let (l, c2) = generated(line, table, c0)->Ok_0;
        lemma_encoded_slot(line, table, c0.location_counter);
        let (ls, c) = translated_to(lines, table, ctx, k)->Ok_0;
        assert(ls == ls0.update(k - 1, l));
        assert(c == c2);
        assert(lines.take(k as int).drop_last() =~= lines.take(k - 1));
        assert(lines.take(k as int).last() == line);
        assert(l.machine_code =~= generated(line, table, c0)->Ok_0.0.machine_code);
        assert forall|j: int| 0 <= j < k && takes_slot(#[trigger] lines[j]) implies ls[j].machine_code.len()
            == 2 && ls[j].machine_code[1] == ctx.location_counter + slots(lines.take(j)) by {
            if j < k - 1 {
                assert(ls[j] == ls0[j]);
            }
        }
    } else {
        assert(lines.take(0) =~= Seq::<LineView>::empty());
    }
}

/// Lines that hold as many words as were entered in other lines hold
/// together as many words as those lengths sum to.
pub proof fn lemma_code_len(ls: Seq<LineView>, lines: Seq<LineView>)
    requires
        ls.len() == lines.len(),
        forall|j: int|
            0 <= j < ls.len() ==> (#[trigger] ls[j]).machine_code.len()
                == lines[j].machine_code_len,
    ensures
        code_of(ls).len() == total_len(lines),
    decreases ls.len(),
{
    if ls.len() > 0 {
        assert forall|j: int| 0 <= j < ls.drop_last().len() implies (#[trigger] ls.drop_last()[j]).machine_code.len()
            == lines.drop_last()[j].machine_code_len by {
            assert(ls.drop_last()[j] == ls[j]);
        }
        lemma_code_len(ls.drop_last(), lines.drop_last());
        assert(ls.last() == ls[ls.len() - 1]);
    }
}

/// Lines that are marked as holding a literal wherever they hold one put
/// into the pool exactly the words of their literals.
pub proof fn lemma_pool_is_literals(ls: Seq<LineView>)
    requires
        forall|j: int|
            0 <= j < ls.len() && literal_count((#[trigger] ls[j]).tokens) > 0
                ==> ls[j].with_literal,
    ensures
        pool_of(ls) == literals_of(ls),
    decreases ls.len(),
{
    if ls.len() > 0 {
        assert forall|j: int|
            0 <= j < ls.drop_last().len() && literal_count((#[trigger] ls.drop_last()[j]).tokens)
                > 0 implies ls.drop_last()[j].with_literal by {
            assert(ls.drop_last()[j] == ls[j]);
        }
        lemma_pool_is_literals(ls.drop_last());
        let last = ls.last();
        assert(last == ls[ls.len() - 1]);
        lemma_literal_groups(last.tokens);
        if !last.with_literal {
            assert(pool_words(last.tokens) =~= Seq::<u16>::empty());
        }
    }
}

/// The two passes count the same words. Where a source text is translated
/// and none of its lines saves the registers, the second pass yields as
/// many words as the first pass counted: the sum of the lengths of the
/// lines, which is where the location counter stood after the first pass.
pub proof fn lemma_passes_count_alike(source: Seq<char>)
    requires
        laid_out(source) is Ok,
        translated(laid_out(source)->Ok_0) is Ok,
        forall|j: int|
            0 <= j < laid_out(source)->Ok_0.lines.len() ==> (#[trigger] laid_out(
                source,
            )->Ok_0.lines[j]).shape() != Shape::SaveRegisters,
    ensures
        code_of(translated(laid_out(source)->Ok_0)->Ok_0.lines).len() == total_len(
            laid_out(source)->Ok_0.lines,
        ),
        total_len(laid_out(source)->Ok_0.lines) == laid_out(
            source,
        )->Ok_0.ctx.location_counter,
{
    let st = laid_out(source)->Ok_0;
    lemma_layout_orderly(lines_of(source), lines_of(source).len());
    lemma_translation_fills(st.lines, st.table, second_start(st.ctx), st.lines.len());
    let done = translated(st)->Ok_0;
    assert forall|j: int| 0 <= j < done.lines.len() implies (#[trigger] done.lines[j]).machine_code.len()
        == st.lines[j].machine_code_len by {
        assert(st.lines[j].shape() != Shape::SaveRegisters);
    }
    lemma_code_len(done.lines, st.lines);
}

/// A label stands for the address of the line that defines it. Where the
/// first pass succeeds and exactly one line defines a label, the symbol
/// table holds the label with the address of that line, and an operand
/// that names the label has this address as its value, wherever it stands:
/// before the line or behind it. This fails for a label that reads as a
/// hexadecimal number behind its first character, which is taken for that
/// number.
pub proof fn lemma_label_resolves(source: Seq<char>, i: int)
    requires
        laid_out(source) is Ok,
        0 <= i < laid_out(source)->Ok_0.lines.len(),
        laid_out(source)->Ok_0.lines[i].with_label,
        forall|j: int|
            0 <= j < laid_out(source)->Ok_0.lines.len() && j != i ==> !defines(
                #[trigger] laid_out(source)->Ok_0.lines[j],
                laid_out(source)->Ok_0.lines[i].tokens[0].text,
            ),
        hex_value(laid_out(source)->Ok_0.lines[i].tokens[0].text) is None,
    ensures
        ({
            let st = laid_out(source)->Ok_0;
            let name = st.lines[i].tokens[0].text;
            &&& st.table.contains_key(name)
            &&& st.table[name] == address_of(st.lines, i)
            &&& constant_value(name, st.table) == Some(st.table[name])
        }),
{
    let st = laid_out(source)->Ok_0;
    let name = st.lines[i].tokens[0].text;
    lemma_layout_orderly(lines_of(source), lines_of(source).len());
    assert(settled(st.lines[i]));
    assert(st.table.contains_key(name));
    let j = choose|j: int|
        0 <= j < st.lines.len() && #[trigger] defines(st.lines[j], name) && st.table[name]
            == address_of(st.lines, j);
    assert(j == i);
    lemma_label_is_no_decimal(name);
}

/// The slots of the literal pool follow the program without a gap, in the
/// order of the lines. Where a source text is translated and the address
/// of one of its lines is a literal, the line bears as its address the
/// place where the location counter stood after the first pass, moved on
/// by one for each line before it that takes a slot; and the second pass
/// leaves the counter behind the last slot.
pub proof fn lemma_slots_follow_the_program(source: Seq<char>, i: int)
    requires
        laid_out(source) is Ok,
        translated(laid_out(source)->Ok_0) is Ok,
        0 <= i < laid_out(source)->Ok_0.lines.len(),
        takes_slot(laid_out(source)->Ok_0.lines[i]),
    ensures
        ({
            let st = laid_out(source)->Ok_0;
            let done = translated(st)->Ok_0;
            &&& done.lines[i].machine_code.len() == 2
            &&& done.lines[i].machine_code[1] == st.ctx.location_counter + slots(
                st.lines.take(i),
            )
            &&& done.ctx.location_counter == st.ctx.location_counter + slots(st.lines)
        }),
{
    let st = laid_out(source)->Ok_0;
    lemma_layout_orderly(lines_of(source), lines_of(source).len());
    lemma_translation_slots(st.lines, st.table, second_start(st.ctx), st.lines.len());
    assert(st.lines.take(st.lines.len() as int) =~= st.lines);
}

/// The literal pool lies behind the words of the lines. The image of a
/// source text is the header word, then the words of the lines, then the
/// pool without a gap; and the pool holds, line after line, the words of
/// the literals of each line.
pub proof fn lemma_pool_follows_code(source: Seq<char>)
    requires
        assembled(source) is Ok,
    ensures
        ({
            let w = assembled(source)->Ok_0;
            let lines = translated(laid_out(source)->Ok_0)->Ok_0.lines;
            let code = code_of(lines);
            &&& w.len() == 1 + code.len() + literals_of(lines).len()
            &&& w[0] == header_of(source)
            &&& w.subrange(1, 1 + code.len() as int) == code
            &&& w.subrange(1 + code.len() as int, w.len() as int) == literals_of(lines)
        }),
{
    let st = laid_out(source)->Ok_0;
    let done = translated(st)->Ok_0;
    lemma_layout_orderly(lines_of(source), lines_of(source).len());
    lemma_translation_fills(st.lines, st.table, second_start(st.ctx), st.lines.len());
    assert forall|j: int|
        0 <= j < done.lines.len() && literal_count((#[trigger] done.lines[j]).tokens)
            > 0 implies done.lines[j].with_literal by {
        assert(settled(st.lines[j]));
    }
    lemma_pool_is_literals(done.lines);
    let w = image(header_of(source), done.lines);
    let code = code_of(done.lines);
    assert(w.subrange(1, 1 + code.len() as int) =~= code);
    assert(w.subrange(1 + code.len() as int, w.len() as int) =~= literals_of(done.lines));
}

} // verus!
