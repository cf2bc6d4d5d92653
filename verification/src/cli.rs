//! What the command line needs from the library: the options that the
//! program takes, and the text in which the words of an image are written
//! out.
use getopts::Options;
use vstd::prelude::*;
use vstd::string::*;

verus! {

/// `getopts::Options`: the options that a command line may hold. The
/// library declares options in it and looks at nothing inside.
#[verifier::external_type_specification]
#[verifier::external_body]
pub struct ExOptions(getopts::Options);

/// The options that `opts` holds, in the order in which they were declared:
/// of each its short name, its long name and its description, whether it
/// takes an argument, be it required or not, and whether it may be left out
/// of the command line.
pub uninterp spec fn declared_options(opts: Options) -> Seq<
    (Seq<char>, Seq<char>, Seq<char>, bool, bool),
>;

/// Calls `getopts::Options::optflag`, which declares a flag: an option
/// that takes no argument and may be left out. It is put behind the options
/// that `opts` holds, with the names and the description given. The outside
/// function panics on a short name of more than one byte and on a long name
/// of exactly one byte, so neither is admitted here.
#[verifier::external_body]
fn add_flag(opts: &mut Options, short_name: &str, long_name: &str, desc: &str)
    requires
        short_name.spec_bytes().len() <= 1,
        long_name.spec_bytes().len() != 1,
    ensures
        declared_options(*final(opts)) == declared_options(*old(opts)).push(
            (short_name@, long_name@, desc@, false, true),
        ),
{
    opts.optflag(short_name, long_name, desc);
}

/// The flag that asks for the help text: it takes no argument and may be
/// left out.
pub open spec fn help_flag() -> (Seq<char>, Seq<char>, Seq<char>, bool, bool) {
    ("h"@, "help"@, "print this help menu"@, false, true)
}

/// The flag that asks for the words on the console in place of a file: it
/// takes no argument and may be left out.
pub open spec fn dry_run_flag() -> (Seq<char>, Seq<char>, Seq<char>, bool, bool) {
    ("d"@, "dry-run"@, "only print machine code"@, false, true)
}

/// Declares the options of the program in `opts`: the help flag and, behind
/// it, the flag that chooses the console.
pub fn init_opts(opts: &mut Options)
    ensures
        declared_options(*final(opts)) == declared_options(*old(opts)).push(help_flag()).push(
            dry_run_flag(),
        ),
{
    proof {
        reveal_strlit("h");
        reveal_strlit("help");
        reveal_strlit("d");
        reveal_strlit("dry-run");
        is_ascii_spec_bytes("h");
        is_ascii_spec_bytes("help");
        is_ascii_spec_bytes("d");
        is_ascii_spec_bytes("dry-run");
    }
    add_flag(opts, "h", "help", "print this help menu");
    add_flag(opts, "d", "dry-run", "only print machine code");
}

/// The sixteen hexadecimal digits, in lower case.
pub open spec fn hex_digits() -> Seq<char> {
    "0123456789abcdef"@
}

/// The text of the word `w`: four hexadecimal digits in lower case, the
/// highest first, with zeros in front where the value is small.
pub open spec fn hex_text(w: u16) -> Seq<char> {
    seq![
        hex_digits()[(w / 0x1000) as int],
        hex_digits()[(w / 0x100 % 0x10) as int],
        hex_digits()[(w / 0x10 % 0x10) as int],
        hex_digits()[(w % 0x10) as int],
    ]
}

/// The text of `words`: each word as its four digits and a line feed.
pub open spec fn rendered(words: Seq<u16>) -> Seq<char>
    decreases words.len(),
{
    if words.len() == 0 {
        Seq::empty()
    } else {
        rendered(words.drop_last()) + hex_text(words.last()) + seq!['\n']
    }
}

/// Puts the hexadecimal digit of value `v` behind `out`.
fn push_digit(out: &mut String, v: u16)
    requires
        v < 16,
    ensures
        final(out)@ == old(out)@.push(hex_digits()[v as int]),
{
    proof {
        reveal_strlit("0123456789abcdef");
    }
    let at: usize = v as usize;
    out.append("0123456789abcdef".substring_char(at, at + 1));
    assert(out@ =~= old(out)@.push(hex_digits()[v as int]));
}

/// Writes the word `w` as four hexadecimal digits.
pub fn format_word(w: u16) -> (s: String)
    ensures
        s@ == hex_text(w),
{
    let mut s = String::new();
    push_digit(&mut s, w / 0x1000);
    push_digit(&mut s, w / 0x100 % 0x10);
    push_digit(&mut s, w / 0x10 % 0x10);
    push_digit(&mut s, w % 0x10);
    assert(s@ =~= hex_text(w));
    s
}

/// Writes `words` as text, one word on each line.
pub fn render(words: &Vec<u16>) -> (s: String)
    ensures
        s@ == rendered(words@),
{
    let mut s = String::new();
    let mut i: usize = 0;
    proof {
        reveal_strlit("\n");
    }
    assert(words@.take(0) =~= Seq::<u16>::empty());
    assert(s@ =~= rendered(words@.take(0)));
    while i < words.len()
        invariant
            i <= words.len(),
            "\n"@ == seq!['\n'],
            s@ == rendered(words@.take(i as int)),
        decreases words.len() - i,
    {
        assert(words@.take(i + 1).drop_last() =~= words@.take(i as int));
        assert(words@.take(i + 1).last() == words@[i as int]);
        let digits = format_word(words[i]);
        s.append(digits.as_str());
        s.append("\n");
        i += 1;
    }
    assert(words@.take(words.len() as int) =~= words@);
    s
}

} // verus!
