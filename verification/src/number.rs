//! Reading numbers the way the standard library's `parse` and `from_str_radix` do.
use vstd::prelude::*;

use crate::text;

verus! {

/// The value of a digit in `base` (at most sixteen).
pub open spec fn digit(c: char, base: nat) -> Option<nat> {
    let d = if '0' <= c && c <= '9' {
        (c as u32 - 48) as int
    } else if 'a' <= c && c <= 'f' {
        (c as u32 - 87) as int
    } else if 'A' <= c && c <= 'F' {
        (c as u32 - 55) as int
    } else {
        99
    };
    if d < base {
        Some(d as nat)
    } else {
        None
    }
}

/// The value of a run of digits; `None` where a character is no digit.
pub open spec fn digits(s: Seq<char>, base: nat) -> Option<nat>
    decreases s.len(),
{
    if s.len() == 0 {
        Some(0)
    } else {
        match (digits(s.drop_last(), base), digit(s.last(), base)) {
            (Some(v), Some(d)) => Some(v * base + d),
            _ => None,
        }
    }
}

/// The value of a non-empty run of digits that is at most `max`.
pub open spec fn digits_upto(s: Seq<char>, base: nat, max: nat) -> Option<nat> {
    match digits(s, base) {
        Some(v) => if s.len() > 0 && v <= max {
            Some(v)
        } else {
            None
        },
        None => None,
    }
}

/// An unsigned number: a plus sign may precede the digits.
pub open spec fn unsigned(s: Seq<char>, base: nat, max: nat) -> Option<nat> {
    if s.len() > 0 && s[0] == '+' {
        digits_upto(s.drop_first(), base, max)
    } else {
        digits_upto(s, base, max)
    }
}

/// A decimal number between `-max - 1` and `max`: a sign may precede the digits.
pub open spec fn signed(s: Seq<char>, max: nat) -> Option<int> {
    if s.len() > 0 && s[0] == '-' {
        match digits_upto(s.drop_first(), 10, max + 1) {
            Some(v) => Some(-(v as int)),
            None => None,
        }
    } else {
        match unsigned(s, 10, max) {
            Some(v) => Some(v as int),
            None => None,
        }
    }
}

/// More digits make no number of no number, and no smaller number of a number.
proof fn lemma_more_digits(s: Seq<char>, base: nat, k: int)
    requires
        0 <= k <= s.len(),
        base >= 1,
    ensures
        digits(s.take(k), base) is None ==> digits(s, base) is None,
        digits(s.take(k), base) is Some && digits(s, base) is Some ==> digits(s.take(k), base)->0
            <= digits(s, base)->0,
    decreases s.len(),
{
    if k == s.len() {
        assert(s.take(k) =~= s);
    } else {
        let t = s.drop_last();
        lemma_more_digits(t, base, k);
        assert(t.take(k) =~= s.take(k));
        if digits(s, base) is Some {
            let v = digits(t, base)->0;
            assert(v <= v * base) by (nonlinear_arith)
                requires
                    base >= 1,
            ;
        }
    }
}

fn digit_of(c: char, base: u32) -> (r: Option<u32>)
    requires
        base <= 16,
    ensures
        match r {
            Some(d) => digit(c, base as nat) == Some(d as nat) && d < base,
            None => digit(c, base as nat) is None,
        },
{
    let d: u32 = if '0' <= c && c <= '9' {
        c as u32 - 48
    } else if 'a' <= c && c <= 'f' {
        c as u32 - 87
    } else if 'A' <= c && c <= 'F' {
        c as u32 - 55
    } else {
        99
    };
    if d < base {
        Some(d)
    } else {
        None
    }
}

fn parse_digits(v: &[char], from: usize, base: u32, max: u64) -> (r: Option<u64>)
    requires
        from <= v@.len(),
        2 <= base <= 16,
    ensures
        match r {
            Some(n) => digits_upto(v@.skip(from as int), base as nat, max as nat) == Some(n as nat)
                && n <= max,
            None => digits_upto(v@.skip(from as int), base as nat, max as nat) is None,
        },
{
    let ghost s = v@.skip(from as int);
    let mut acc: u64 = 0;
    let mut i: usize = from;
    if from == v.len() {
        return None;
    }
    assert(s.take(0) =~= seq![]);
    while i < v.len()
        invariant
            from <= i <= v@.len(),
            2 <= base <= 16,
            s == v@.skip(from as int),
            digits(s.take(i - from), base as nat) == Some(acc as nat),
            acc <= max,
        decreases v@.len() - i,
    {
        let ghost next = s.take(i + 1 - from);
        proof {
            assert(next.drop_last() =~= s.take(i - from));
            assert(next.last() == v@[i as int]);
            lemma_more_digits(s, base as nat, i + 1 - from);
        }
        match digit_of(v[i], base) {
            Some(d) => {
                assert(acc * base <= 0xffff_ffff_ffff_ffff * 16) by (nonlinear_arith)
                    requires
                        acc <= 0xffff_ffff_ffff_ffff,
                        base <= 16,
                ;
                let wide: u128 = acc as u128 * base as u128 + d as u128;
                if wide > max as u128 {
                    return None;
                }
                acc = wide as u64;
            },
            None => {
                return None;
            },
        }
        i += 1;
    }
    assert(s.take(i - from) =~= s);
    Some(acc)
}

/// An unsigned number of at most `max`.
pub fn parse_unsigned(s: &str, base: u32, max: u64) -> (r: Option<u64>)
    requires
        2 <= base <= 16,
    ensures
        match r {
            Some(n) => unsigned(s@, base as nat, max as nat) == Some(n as nat) && n <= max,
            None => unsigned(s@, base as nat, max as nat) is None,
        },
{
    let v: Vec<char> = text::chars_of(s);
    assert(v@.skip(0) =~= s@);
    if v.len() > 0 && v[0] == '+' {
        assert(v@.skip(1) =~= s@.drop_first());
        parse_digits(&v, 1, base, max)
    } else {
        parse_digits(&v, 0, base, max)
    }
}

/// A decimal number between `-max - 1` and `max`.
pub fn parse_signed(s: &str, max: u64) -> (r: Option<i128>)
    requires
        max < u64::MAX,
    ensures
        match r {
            Some(n) => signed(s@, max as nat) == Some(n as int) && -max - 1 <= n <= max,
            None => signed(s@, max as nat) is None,
        },
{
    let v: Vec<char> = text::chars_of(s);
    if v.len() > 0 && v[0] == '-' {
        assert(v@.skip(1) =~= s@.drop_first());
        match parse_digits(&v, 1, 10, max + 1) {
            Some(n) => Some(-(n as i128)),
            None => None,
        }
    } else {
        match parse_unsigned(s, 10, max) {
            Some(n) => Some(n as i128),
            None => None,
        }
    }
}

/// The decimal form of a number reads back as that number.
pub proof fn law_decimal_reads_back(n: nat, max: nat)
    requires
        n <= max,
    ensures
        digits(text::dec(n), 10) == Some(n),
        unsigned(text::dec(n), 10, max) == Some(n),
{
    lemma_dec_digits(n);
    assert(text::dec(n)[0] != '+') by {
        assert(digit(text::dec(n)[0], 10) is Some);
    }
}

pub proof fn lemma_dec_digits(n: nat)
    ensures
        digits(text::dec(n), 10) == Some(n),
        text::dec(n).len() > 0,
        forall|i: int| 0 <= i < text::dec(n).len() ==> digit(#[trigger] text::dec(n)[i], 10) is Some,
    decreases n,
{
    if n < 10 {
        let s = text::dec(n);
        assert(s.drop_last() =~= seq![]);
        assert(digits(s.drop_last(), 10) == Some(0nat));
        assert(digit(s.last(), 10) == Some(n));
        assert(0 * 10 + n == n);
    } else {
        lemma_dec_digits(n / 10);
        let s = text::dec(n);
        assert(s.drop_last() =~= text::dec(n / 10));
        assert(digit(s.last(), 10) == Some(n % 10));
        assert((n / 10) * 10 + n % 10 == n);
        assert forall|i: int| 0 <= i < s.len() implies digit(#[trigger] s[i], 10) is Some by {
            if i < s.len() - 1 {
                assert(s[i] == text::dec(n / 10)[i]);
            }
        }
    }
}

/// The decimal form of a signed number reads back as that number.
pub proof fn law_signed_decimal_reads_back(n: int, max: nat)
    requires
        -max - 1 <= n <= max,
    ensures
        signed(text::dec_int(n), max) == Some(n),
{
    if n < 0 {
        let s = text::dec_int(n);
        assert(s.drop_first() =~= text::dec((-n) as nat));
        lemma_dec_digits((-n) as nat);
    } else {
        law_decimal_reads_back(n as nat, max);
        lemma_dec_digits(n as nat);
        assert(digit(text::dec(n as nat)[0], 10) is Some);
    }
}

/// Sixteen to the power of `w`.
pub open spec fn pow16(w: nat) -> nat
    decreases w,
{
    if w == 0 {
        1
    } else {
        16 * pow16((w - 1) as nat)
    }
}

proof fn lemma_hex_digits(n: nat, w: nat)
    requires
        n < pow16(w),
    ensures
        digits(text::upper_seq(text::hex(n, w)), 16) == Some(n),
        text::hex(n, w).len() == w,
        forall|i: int|
            0 <= i < w ==> digit(#[trigger] text::upper_seq(text::hex(n, w))[i], 16) is Some,
    decreases w,
{
    if w > 0 {
        let m = (w - 1) as nat;
        let q = n / 16;
        let d = n % 16;
        lemma_hex_digits(q, m);
        let s = text::upper_seq(text::hex(n, w));
        let head = text::upper_seq(text::hex(q, m));
        assert(s.drop_last() =~= head);
        let c = text::digit_char(d as int);
        assert(s.last() == text::upper(c));
        assert(digit(text::upper(c), 16) == Some(d));
        assert(n == q * 16 + d);
        assert forall|i: int| 0 <= i < w implies digit(#[trigger] s[i], 16) is Some by {
            if i < m {
                assert(s[i] == head[i]);
            }
        }
    }
}

/// The hexadecimal form of a word reads back as that word.
pub proof fn law_word_reads_back(n: u32)
    ensures
        unsigned(text::word_hex(n), 16, u32::MAX as nat) == Some(n as nat),
        text::word_hex(n).len() == 8,
        forall|i: int| 0 <= i < 8 ==> digit(#[trigger] text::word_hex(n)[i], 16) is Some,
{
    reveal_with_fuel(pow16, 9);
    assert(pow16(8) == 0x1_0000_0000);
    lemma_hex_digits(n as nat, 8);
    assert(digit(text::word_hex(n)[0], 16) is Some);
}

/// The value of a digit: that of a decimal one is its distance from zero, that of a letter ten more than
/// its distance from the first, in either case; a digit counts only below the base.
pub proof fn law_digits_have_their_value(c: char, base: nat)
    requires
        base <= 16,
    ensures
        digit(c, base) is Some ==> digit(c, base)->0 < base,
        48 <= c as u32 <= 57 && c as u32 - 48 < base ==> digit(c, base) == Some((c as u32 - 48) as nat),
        97 <= c as u32 <= 102 && c as u32 - 87 < base ==> digit(c, base) == Some((c as u32 - 87) as nat),
        65 <= c as u32 <= 70 && c as u32 - 55 < base ==> digit(c, base) == Some((c as u32 - 55) as nat),
        !(48 <= c as u32 <= 57) && !(97 <= c as u32 <= 102) && !(65 <= c as u32 <= 70) ==> digit(c, base)
            is None,
{
}

/// A number: a run of digits counts each digit as often as the base has it; one that is empty, holds
/// another character or is too great is none.
pub proof fn law_a_number_is_its_digits(s: Seq<char>, base: nat, max: nat, i: int)
    requires
        2 <= base <= 16,
    ensures
        digits(seq![], base) == Some(0nat),
        s.len() > 0 && digits(s, base) is Some ==> digits(s.drop_last(), base) is Some && digit(
            s.last(),
            base,
        ) is Some && digits(s, base)->0 == digits(s.drop_last(), base)->0 * base + digit(
            s.last(),
            base,
        )->0,
        0 <= i < s.len() && digit(s[i], base) is None ==> digits(s, base) is None,
        (forall|k: int| 0 <= k < s.len() ==> digit(#[trigger] s[k], base) is Some) ==> digits(s, base)
            is Some,
        s.len() == 0 ==> digits_upto(s, base, max) is None,
        s.len() > 0 && digits(s, base) is Some && digits(s, base)->0 <= max ==> digits_upto(s, base, max)
            == digits(s, base),
        digits(s, base) is None || digits(s, base)->0 > max ==> digits_upto(s, base, max) is None,
    decreases s.len(),
{
    if s.len() > 0 {
        let d = s.drop_last();
        law_a_number_is_its_digits(d, base, max, i);
        if forall|k: int| 0 <= k < s.len() ==> digit(#[trigger] s[k], base) is Some {
            assert forall|k: int| 0 <= k < d.len() implies digit(#[trigger] d[k], base) is Some by {
                assert(d[k] == s[k]);
            }
            assert(digit(s[s.len() - 1], base) is Some);
        }
    }
}

/// A sign may stand before the digits: a plus changes nothing, a minus negates a signed number.
pub proof fn law_signs_stand_in_front(s: Seq<char>, base: nat, max: nat)
    requires
        2 <= base <= 16,
        s.len() > 0,
        digit(s[0], base) is Some,
        digit(s[0], 10) is Some,
    ensures
        unsigned(seq!['+'] + s, base, max) == digits_upto(s, base, max),
        unsigned(s, base, max) == digits_upto(s, base, max),
        signed(s, max) == (match digits_upto(s, 10, max) {
            Some(v) => Some(v as int),
            None => None,
        }),
        signed(seq!['+'] + s, max) == signed(s, max),
        signed(seq!['-'] + s, max) == (match digits_upto(s, 10, max + 1) {
            Some(v) => Some(-(v as int)),
            None => None,
        }),
{
    assert((seq!['+'] + s).drop_first() =~= s);
    assert((seq!['-'] + s).drop_first() =~= s);
}

} // verus!
