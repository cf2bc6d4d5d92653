//! Unsigned sixteen-bit numbers written in digits of some radix, such as
//! ten or sixteen.
use vstd::prelude::*;

verus! {

/// The value of `c` as a digit of the given radix, if it is one: `0` to `9`
/// count from zero, letters of either case from ten.
pub open spec fn digit_of(c: char, radix: int) -> Option<int> {
    let v: int = if '0' <= c <= '9' {
        c as u32 - '0' as u32
    } else if 'a' <= c <= 'z' {
        c as u32 - 'a' as u32 + 10
    } else if 'A' <= c <= 'Z' {
        c as u32 - 'A' as u32 + 10
    } else {
        radix
    };
    if v < radix {
        Some(v)
    } else {
        None
    }
}

/// Whether every character of `s` is a digit of the given radix.
pub open spec fn all_digits(s: Seq<char>, radix: int) -> bool {
    forall|i: int| 0 <= i < s.len() ==> digit_of(#[trigger] s[i], radix) is Some
}

/// The number that the digits `s` write in the given radix, the first digit
/// counting most.
pub open spec fn digits_value(s: Seq<char>, radix: int) -> int
    decreases s.len(),
{
    if s.len() == 0 {
        0
    } else {
        digits_value(s.drop_last(), radix) * radix + match digit_of(s.last(), radix) {
            Some(v) => v,
            None => 0,
        }
    }
}

/// `s` without the plus sign that may stand before its digits.
pub open spec fn unsigned_part(s: Seq<char>) -> Seq<char> {
    if s.len() > 0 && s[0] == '+' {
        s.drop_first()
    } else {
        s
    }
}

/// The sixteen-bit number that `s` writes in the given radix: an optional
/// plus sign and then one digit or more, nothing else, with a value of at
/// most 65535. Any other text writes no number.
pub open spec fn parse_u16(s: Seq<char>, radix: int) -> Option<u16> {
    let d = unsigned_part(s);
    if d.len() > 0 && all_digits(d, radix) && digits_value(d, radix) <= 0xffff {
        Some(digits_value(d, radix) as u16)
    } else {
        None
    }
}

/// A longer run of digits does not write a smaller number than its
/// beginning does.
pub proof fn lemma_digits_value_grows(s: Seq<char>, k: int, radix: int)
    requires
        radix >= 1,
        0 <= k <= s.len(),
    ensures
        0 <= digits_value(s.take(k), radix) <= digits_value(s, radix),
    decreases s.len(),
{
    if s.len() == 0 {
        assert(s.take(k) =~= s);
    } else if k == s.len() {
        assert(s.take(k) =~= s);
        lemma_digits_value_grows(s.drop_last(), k - 1, radix);
        let v = digits_value(s.drop_last(), radix);
        assert(v * radix >= 0) by (nonlinear_arith)
            requires
                v >= 0,
                radix >= 1,
        ;
    } else {
        lemma_digits_value_grows(s.drop_last(), k, radix);
        assert(s.drop_last().take(k) =~= s.take(k));
        let v = digits_value(s.drop_last(), radix);
        assert(v * radix >= v) by (nonlinear_arith)
            requires
                v >= 0,
                radix >= 1,
        ;
    }
}

/// The value of `c` as a digit of the given radix.
pub fn digit_value(c: char, radix: u32) -> (r: Option<u32>)
    requires
        2 <= radix <= 36,
    ensures
        match r {
            Some(v) => digit_of(c, radix as int) == Some(v as int),
            None => digit_of(c, radix as int) is None,
        },
{
    let v: u32 = if '0' <= c && c <= '9' {
        c as u32 - '0' as u32
    } else if 'a' <= c && c <= 'z' {
        c as u32 - 'a' as u32 + 10
    } else if 'A' <= c && c <= 'Z' {
        c as u32 - 'A' as u32 + 10
    } else {
        radix
    };
    if v < radix {
        Some(v)
    } else {
        None
    }
}

/// Reads `cs` as a number in the given radix.
pub fn parse_number(cs: &[char], radix: u32) -> (r: Option<u16>)
    requires
        2 <= radix <= 36,
    ensures
        r == parse_u16(cs@, radix as int),
{
    let n = cs.len();
    let first: usize = if n > 0 && cs[0] == '+' {
        1
    } else {
        0
    };
    if first == n {
        return None;
    }
    let ghost d = unsigned_part(cs@);
    assert(d =~= cs@.subrange(first as int, n as int));
    let mut acc: u32 = 0;
    let mut i: usize = first;
    assert(d.take(0) =~= Seq::<char>::empty());
    while i < n
        invariant
            2 <= radix <= 36,
            n == cs@.len(),
            first <= i <= n,
            d == cs@.subrange(first as int, n as int),
            d == unsigned_part(cs@),
            all_digits(d.take(i - first), radix as int),
            acc == digits_value(d.take(i - first), radix as int),
            acc <= 0xffff,
        decreases n - i,
    {
        let ghost k = i - first;
        assert(d.take(k + 1).drop_last() =~= d.take(k));
        assert(d.take(k + 1).last() == cs@[i as int]);
        assert(d[k] == cs@[i as int]);
        match digit_value(cs[i], radix) {
            None => {
                assert(!all_digits(d, radix as int));
                return None;
            },
            Some(v) => {
                assert(acc * radix <= 0xffff * 36) by (nonlinear_arith)
                    requires
                        acc <= 0xffff,
                        radix <= 36,
                ;
                let next: u32 = acc * radix + v;
                assert(next == digits_value(d.take(k + 1), radix as int));
                if next > 0xffff {
                    proof {
                        lemma_digits_value_grows(d, k + 1, radix as int);
                    }
                    return None;
                }
                acc = next;
                assert forall|j: int| 0 <= j < k + 1 implies digit_of(
                    #[trigger] d.take(k + 1)[j],
                    radix as int,
                ) is Some by {
                    if j < k {
                        assert(d.take(k)[j] == d.take(k + 1)[j]);
                    }
                }
            },
        }
        i += 1;
    }
    assert(d.take(n - first) =~= d);
    Some(acc as u16)
}

} // verus!
