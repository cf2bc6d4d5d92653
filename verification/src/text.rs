//! Characters, words and lines: the text-level helpers that the classifiers
//! and the line parser share.
use vstd::prelude::*;
use vstd::slice::*;
use vstd::string::*;
use vstd::utf8::*;

verus! {

/// The characters of `s`, in order.
pub fn chars_of(s: &str) -> (v: Vec<char>)
    ensures
        v@ == s@,
{
    let mut v: Vec<char> = Vec::new();
    for c in it: s.chars()
        invariant
            v@ == it.seq().take(it.index() as int),
            it.seq() == s@,
    {
        v.push(c);
    }
    v
}

/// Whether `a` and `b` hold the same characters.
pub fn same_text(a: &str, b: &str) -> (r: bool)
    ensures
        r == (a@ == b@),
{
    let x = a.as_bytes();
    let y = b.as_bytes();
    proof {
        encode_utf8_decode_utf8(a@);
        encode_utf8_decode_utf8(b@);
    }
    if x.len() != y.len() {
        return false;
    }
    let mut i: usize = 0;
    while i < x.len()
        invariant
            x@ == a.spec_bytes(),
            y@ == b.spec_bytes(),
            decode_utf8(a.spec_bytes()) == a@,
            decode_utf8(b.spec_bytes()) == b@,
            x.len() == y.len(),
            i <= x.len(),
            forall|j: int| 0 <= j < i ==> x@[j] == y@[j],
        decreases x.len() - i,
    {
        if x[i] != y[i] {
            return false;
        }
        i += 1;
    }
    assert(x@ =~= y@);
    true
}

/// White space: the characters that separate the fields of a line.
pub open spec fn is_space(c: char) -> bool {
    let u = c as u32;
    ||| 0x09 <= u <= 0x0d
    ||| u == 0x20
    ||| u == 0x85
    ||| u == 0xa0
    ||| u == 0x1680
    ||| 0x2000 <= u <= 0x200a
    ||| u == 0x2028
    ||| u == 0x2029
    ||| u == 0x202f
    ||| u == 0x205f
    ||| u == 0x3000
}

/// Whether `c` is white space.
pub fn is_whitespace(c: char) -> (b: bool)
    ensures
        b == is_space(c),
{
    let u: u32 = c as u32;
    (0x09 <= u && u <= 0x0d) || u == 0x20 || u == 0x85 || u == 0xa0 || u == 0x1680 || (0x2000 <= u
        && u <= 0x200a) || u == 0x2028 || u == 0x2029 || u == 0x202f || u == 0x205f || u == 0x3000
}

/// The words of `s`: its longest runs of characters that are not white
/// space, from left to right. Read character by character, a character that
/// is not white space either goes on with the word before it or starts a new
/// one.
pub open spec fn words_of(s: Seq<char>) -> Seq<Seq<char>>
    decreases s.len(),
{
    if s.len() == 0 {
        Seq::empty()
    } else {
        let before = words_of(s.drop_last());
        let c = s.last();
        if is_space(c) {
            before
        } else if s.len() >= 2 && !is_space(s[s.len() - 2]) {
            before.drop_last().push(before.last().push(c))
        } else {
            before.push(seq![c])
        }
    }
}

/// The parts of `s` that the index pairs of `ranges` cut out of it.
pub open spec fn pieces(s: Seq<char>, ranges: Seq<(usize, usize)>) -> Seq<Seq<char>> {
    Seq::new(ranges.len(), |k: int| s.subrange(ranges[k].0 as int, ranges[k].1 as int))
}

/// Whether every pair of `ranges` is a range of indices into a text of
/// `len` characters.
pub open spec fn ranges_within(ranges: Seq<(usize, usize)>, len: nat) -> bool {
    forall|k: int| 0 <= k < ranges.len() ==> (#[trigger] ranges[k]).0 <= ranges[k].1 <= len
}

/// Finds the words of `cs`, each as the pair of indices where it starts and
/// where it ends.
pub fn split_words(cs: &[char]) -> (r: Vec<(usize, usize)>)
    ensures
        ranges_within(r@, cs@.len()),
        pieces(cs@, r@) == words_of(cs@),
{
    let n = cs.len();
    let mut r: Vec<(usize, usize)> = Vec::new();
    let mut start: usize = 0;
    let mut in_word = false;
    let mut i: usize = 0;
    assert(cs@.take(0) =~= Seq::<char>::empty());
    assert(pieces(cs@, r@) =~= words_of(cs@.take(0)));
    while i < n
        invariant
            n == cs@.len(),
            i <= n,
            ranges_within(r@, cs@.len()),
            in_word ==> start < i && !is_space(cs@[i - 1]),
            !in_word ==> i == 0 || is_space(cs@[i - 1]),
            words_of(cs@.take(i as int)) == if in_word {
                pieces(cs@, r@).push(cs@.subrange(start as int, i as int))
            } else {
                pieces(cs@, r@)
            },
        decreases n - i,
    {
        let c = cs[i];
        let ghost before = cs@.take(i as int);
        let ghost now = cs@.take(i + 1);
        assert(now.drop_last() =~= before);
        assert(now.last() == c);
        assert(i >= 1 ==> now[now.len() - 2] == cs@[i - 1]);
        let ghost old_r = r@;
        if is_whitespace(c) {
            if in_word {
                r.push((start, i));
                in_word = false;
                assert(pieces(cs@, r@) =~= pieces(cs@, old_r).push(
                    cs@.subrange(start as int, i as int),
                ));
            }
        } else if in_word {
            assert(cs@.subrange(start as int, i as int).push(c) =~= cs@.subrange(
                start as int,
                i + 1,
            ));
            assert(words_of(before).drop_last() =~= pieces(cs@, r@));
        } else {
            start = i;
            in_word = true;
            assert(seq![c] =~= cs@.subrange(i as int, i + 1));
        }
        i += 1;
    }
    assert(cs@.take(n as int) =~= cs@);
    if in_word {
        let ghost old_r = r@;
        r.push((start, n));
        assert(pieces(cs@, r@) =~= pieces(cs@, old_r).push(cs@.subrange(start as int, n as int)));
    }
    r
}

/// The segments of `s`: what stands between its line feeds, one segment
/// more than it has line feeds.
pub open spec fn segments(s: Seq<char>) -> Seq<Seq<char>>
    decreases s.len(),
{
    if s.len() == 0 {
        seq![Seq::empty()]
    } else {
        let before = segments(s.drop_last());
        if s.last() == '\n' {
            before.push(Seq::empty())
        } else {
            before.drop_last().push(before.last().push(s.last()))
        }
    }
}

/// `t` without the carriage return at its end, if it has one there.
pub open spec fn strip_cr(t: Seq<char>) -> Seq<char> {
    if t.len() > 0 && t.last() == '\r' {
        t.drop_last()
    } else {
        t
    }
}

/// The lines of `s`. A line ends with a line feed or with a carriage return
/// and a line feed, and holds neither; the last line may also end where the
/// text ends, and a text that ends with a line feed has no empty line after
/// it.
pub open spec fn lines_of(s: Seq<char>) -> Seq<Seq<char>> {
    let segs = segments(s);
    let closed = Seq::new((segs.len() - 1) as nat, |k: int| strip_cr(segs[k]));
    if segs.last().len() == 0 {
        closed
    } else {
        closed.push(segs.last())
    }
}

/// Finds the lines of `cs`, each as the pair of indices where it starts and
/// where it ends, and counts the line feeds of `cs`.
pub fn split_lines(cs: &[char]) -> (r: (Vec<(usize, usize)>, usize))
    ensures
        ranges_within(r.0@, cs@.len()),
        pieces(cs@, r.0@) == lines_of(cs@),
        r.1 + 1 == segments(cs@).len(),
{
    let n = cs.len();
    let mut r: Vec<(usize, usize)> = Vec::new();
    let mut start: usize = 0;
    let mut i: usize = 0;
    assert(cs@.take(0) =~= Seq::<char>::empty());
    assert(cs@.subrange(0, 0) =~= Seq::<char>::empty());
    while i < n
        invariant
            n == cs@.len(),
            start <= i <= n,
            ranges_within(r@, cs@.len()),
            r@.len() + 1 == segments(cs@.take(i as int)).len(),
            r@.len() <= i,
            forall|k: int|
                0 <= k < r@.len() ==> #[trigger] pieces(cs@, r@)[k] == strip_cr(
                    segments(cs@.take(i as int))[k],
                ),
            segments(cs@.take(i as int)).last() == cs@.subrange(start as int, i as int),
        decreases n - i,
    {
        let c = cs[i];
        let ghost before = cs@.take(i as int);
        let ghost now = cs@.take(i + 1);
        assert(now.drop_last() =~= before);
        assert(now.last() == c);
        let ghost old_r = r@;
        if c == '\n' {
            let end: usize = if start < i && cs[i - 1] == '\r' {
                i - 1
            } else {
                i
            };
            assert(cs@.subrange(start as int, end as int) =~= strip_cr(
                cs@.subrange(start as int, i as int),
            ));
            r.push((start, end));
            start = i + 1;
            assert(cs@.subrange(start as int, i + 1) =~= Seq::<char>::empty());
            assert forall|k: int| 0 <= k < r@.len() implies #[trigger] pieces(cs@, r@)[k]
                == strip_cr(segments(now)[k]) by {
                if k < old_r.len() {
                    assert(pieces(cs@, old_r)[k] == strip_cr(segments(before)[k]));
                }
            }
        } else {
            assert(cs@.subrange(start as int, i as int).push(c) =~= cs@.subrange(
                start as int,
                i + 1,
            ));
            assert forall|k: int| 0 <= k < r@.len() implies #[trigger] pieces(cs@, r@)[k]
                == strip_cr(segments(now)[k]) by {
                assert(pieces(cs@, old_r)[k] == strip_cr(segments(before)[k]));
            }
        }
        i += 1;
    }
    assert(cs@.take(n as int) =~= cs@);
    let count: usize = r.len();
    let ghost closed = r@;
    if start < n {
        r.push((start, n));
    }
    assert(pieces(cs@, r@) =~= lines_of(cs@)) by {
        let segs = segments(cs@);
        assert forall|k: int| 0 <= k < closed.len() implies pieces(cs@, r@)[k] == strip_cr(
            segs[k],
        ) by {
            assert(pieces(cs@, closed)[k] == strip_cr(segs[k]));
        }
    }
    (r, count)
}

/// `s` with a space in the place of each comma.
pub open spec fn commas_to_spaces(s: Seq<char>) -> Seq<char> {
    Seq::new(
        s.len(),
        |i: int|
            if s[i] == ',' {
                ' '
            } else {
                s[i]
            },
    )
}

/// Replaces each comma of `line` by a space, so that fields separated by
/// commas become fields separated by white space.
pub fn normalize_commas(line: &str) -> (r: String)
    ensures
        r@ == commas_to_spaces(line@),
{
    let cs = chars_of(line);
    let n = cs.len();
    let mut out = String::new();
    let mut start: usize = 0;
    let mut i: usize = 0;
    proof {
        reveal_strlit(" ");
    }
    assert(out@ =~= commas_to_spaces(line@).take(0));
    while i < n
        invariant
            cs@ == line@,
            n == cs@.len(),
            start <= i <= n,
            " "@ == seq![' '],
            out@ == commas_to_spaces(line@).take(start as int),
            forall|j: int| start <= j < i ==> cs@[j] != ',',
        decreases n - i,
    {
        if cs[i] == ',' {
            out.append(line.substring_char(start, i));
            out.append(" ");
            assert(out@ =~= commas_to_spaces(line@).take(i + 1));
            start = i + 1;
        }
        i += 1;
    }
    out.append(line.substring_char(start, n));
    assert(out@ =~= commas_to_spaces(line@));
    out
}

} // verus!
