//! The words of a source line and the tokens that they are.
use crate::assembler::directive_name;
use crate::constant::{constant_class, label_text, Constant};
use crate::literal::literal_text;
use crate::macros::macro_name;
use crate::opcode::opcode_name;
use crate::register::register_number;
use crate::text::{is_space, words_of};
use crate::token::{TokenType, TokenView};
use vstd::prelude::*;

verus! {

/// Whether a source line begins with a label: it does unless it begins
/// with white space.
pub open spec fn labelled(code: Seq<char>) -> bool {
    !(code.len() > 0 && is_space(code[0]))
}

/// Whether the word `w` is the comment marker: a semicolon and nothing
/// else.
pub open spec fn comment_word(w: Seq<char>) -> bool {
    w.len() == 1 && w[0] == ';'
}

/// How many of `words` stand before the first that is the comment marker.
pub open spec fn comment_at(words: Seq<Seq<char>>) -> int
    decreases words.len(),
{
    if words.len() == 0 || comment_word(words[0]) {
        0
    } else {
        1 + comment_at(words.drop_first())
    }
}

/// The words of a source line that are not comment: those before the
/// first word that is a semicolon alone. A longer word that begins with a
/// semicolon is a word like any other.
pub open spec fn code_words(code: Seq<char>) -> Seq<Seq<char>> {
    words_of(code).take(comment_at(words_of(code)))
}

/// What the word `t` is as a mnemonic.
pub open spec fn mnemonic_kind(t: Seq<char>) -> Option<TokenType> {
    if opcode_name(t) {
        Some(TokenType::Opcode)
    } else if directive_name(t) {
        Some(TokenType::Assembler)
    } else if macro_name(t) {
        Some(TokenType::Macro)
    } else {
        None
    }
}

/// What the word `t` is as an operand: the first that fits of register,
/// literal, constant and label.
pub open spec fn operand_kind(t: Seq<char>) -> Option<TokenType> {
    if register_number(t) is Some {
        Some(TokenType::Register)
    } else if literal_text(t) {
        Some(TokenType::Literal)
    } else if constant_class(t) != Constant::Other {
        Some(TokenType::Constant)
    } else if label_text(t) {
        Some(TokenType::Label)
    } else {
        None
    }
}

/// What the word `t` is at the given position of a line. The first word of
/// a line with a label must be a label, the word after the label or else
/// the first word a mnemonic, and every later word an operand.
pub open spec fn kind_at(t: Seq<char>, position: int, with_label: bool) -> Option<TokenType> {
    if with_label && position == 0 {
        if label_text(t) {
            Some(TokenType::Label)
        } else {
            None
        }
    } else if position == (if with_label {
        1int
    } else {
        0int
    }) {
        mnemonic_kind(t)
    } else {
        operand_kind(t)
    }
}

/// The tokens that `words` are, each taken for what it is at its position;
/// none where one of them is nothing that may stand at its position.
pub open spec fn classified(words: Seq<Seq<char>>, with_label: bool) -> Option<Seq<TokenView>>
    decreases words.len(),
{
    if words.len() == 0 {
        Some(Seq::empty())
    } else {
        match (
            classified(words.drop_last(), with_label),
            kind_at(words.last(), words.len() - 1, with_label),
        ) {
            (Some(ts), Some(k)) => Some(ts.push(TokenView { kind: k, text: words.last() })),
            _ => None,
        }
    }
}

/// The tokens of a source line in which commas have become spaces; none
/// where the line holds a word that is nothing that may stand at its
/// position.
pub open spec fn parsed(code: Seq<char>) -> Option<Seq<TokenView>> {
    classified(code_words(code), labelled(code))
}

/// The comment begins at the first word that is a semicolon alone.
pub proof fn lemma_comment_at(words: Seq<Seq<char>>, k: int)
    requires
        0 <= k <= words.len(),
        forall|j: int| 0 <= j < k ==> !comment_word(#[trigger] words[j]),
        k == words.len() || comment_word(words[k]),
    ensures
        comment_at(words) == k,
    decreases k,
{
    if k > 0 {
        let rest = words.drop_first();
        assert forall|j: int| 0 <= j < k - 1 implies !comment_word(#[trigger] rest[j]) by {
            assert(rest[j] == words[j + 1]);
        }
        assert(!comment_word(words[0]));
        lemma_comment_at(rest, k - 1);
    }
}

/// Where all of `words` can be taken for tokens, those that come first can
/// be too.
pub proof fn lemma_classified_prefix(words: Seq<Seq<char>>, with_label: bool, k: int)
    requires
        0 <= k <= words.len(),
        classified(words, with_label) is Some,
    ensures
        classified(words.take(k), with_label) is Some,
    decreases words.len(),
{
    if k == words.len() {
        assert(words.take(k) =~= words);
    } else {
        lemma_classified_prefix(words.drop_last(), with_label, k);
        assert(words.drop_last().take(k) =~= words.take(k));
    }
}

} // verus!
