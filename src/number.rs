//! Parsing of the numeric text of one registry entry.
use vstd::prelude::*;

use crate::model::EnumValue;

verus! {

/// The value of one digit character in the given radix (10 or 16), if it is one.
pub open spec fn digit_value(c: char, radix: nat) -> Option<nat> {
    if '0' <= c && c <= '9' && (c as nat) - ('0' as nat) < radix {
        Some(((c as nat) - ('0' as nat)) as nat)
    } else if radix == 16 && 'a' <= c && c <= 'f' {
        Some(((c as nat) - ('a' as nat) + 10) as nat)
    } else if radix == 16 && 'A' <= c && c <= 'F' {
        Some(((c as nat) - ('A' as nat) + 10) as nat)
    } else {
        None
    }
}

/// Every character of `s` is a digit in the radix.
pub open spec fn all_digits(s: Seq<char>, radix: nat) -> bool {
    forall|i: int| 0 <= i < s.len() ==> (#[trigger] digit_value(s[i], radix)) is Some
}

/// The number that the digits of `s` denote, most significant first.
pub open spec fn digits_value(s: Seq<char>, radix: nat) -> nat
    decreases s.len(),
{
    if s.len() == 0 {
        0
    } else {
        digits_value(s.drop_last(), radix) * radix + digit_value(s.last(), radix).unwrap_or(0)
    }
}

/// An unsigned number in the radix: an optional `+`, then at least one digit.
/// `None` when the text has another shape or the number is over `max`.
pub open spec fn unsigned_value(s: Seq<char>, radix: nat, max: nat) -> Option<nat> {
    let d = if s.len() > 0 && s[0] == '+' { s.drop_first() } else { s };
    if d.len() > 0 && all_digits(d, radix) && digits_value(d, radix) <= max {
        Some(digits_value(d, radix))
    } else {
        None
    }
}

proof fn lemma_digits_monotone(s: Seq<char>, radix: nat, i: int)
    requires
        0 <= i <= s.len(),
        radix >= 1,
    ensures
        digits_value(s.take(i), radix) <= digits_value(s, radix),
    decreases s.len(),
{
    if i < s.len() {
        assert(s.drop_last().take(i) =~= s.take(i));
        lemma_digits_monotone(s.drop_last(), radix, i);
        let a = digits_value(s.drop_last(), radix);
        assert(a <= a * radix) by (nonlinear_arith)
            requires radix >= 1;
    } else {
        assert(s.take(i) =~= s);
    }
}

fn char_digit(c: char, radix: u32) -> (r: Option<u32>)
    requires
        radix == 10 || radix == 16,
    ensures
        r is Some <==> digit_value(c, radix as nat) is Some,
        r is Some ==> r->0 as nat == digit_value(c, radix as nat)->0 && r->0 < radix,
{
    if '0' <= c && c <= '9' && (c as u32) - ('0' as u32) < radix {
        Some((c as u32) - ('0' as u32))
    } else if radix == 16 && 'a' <= c && c <= 'f' {
        Some((c as u32) - ('a' as u32) + 10)
    } else if radix == 16 && 'A' <= c && c <= 'F' {
        Some((c as u32) - ('A' as u32) + 10)
    } else {
        None
    }
}

/// Parses `s` from character `start` on as an unsigned number in `radix`
/// (10 or 16) of at most `max`, as `from_str_radix` does for unsigned types.
pub fn parse_unsigned(s: &str, start: usize, radix: u32, max: u64) -> (r: Option<u64>)
    requires
        radix == 10 || radix == 16,
        max >= 15,
    ensures
        start <= s@.len() ==> (r is Some <==> unsigned_value(s@.skip(start as int), radix as nat, max as nat) is Some),
        r is Some ==> r->0 as nat == unsigned_value(s@.skip(start as int), radix as nat, max as nat)->0,
        start > s@.len() ==> r is None,
{
    let len = s.unicode_len();
    if start > len {
        return None;
    }
    let ghost t = s@.skip(start as int);
    let mut i = start;
    if i < len && s.get_char(i) == '+' {
        i = i + 1;
    }
    let ghost d = s@.skip(i as int);
    assert(d =~= (if t.len() > 0 && t[0] == '+' { t.drop_first() } else { t }));
    if i == len {
        return None;
    }
    let first = i;
    let mut acc: u64 = 0;
    while i < len
        invariant
            first <= i <= len,
            len == s@.len(),
            d == s@.skip(first as int),
            t == s@.skip(start as int),
            d == (if t.len() > 0 && t[0] == '+' { t.drop_first() } else { t }),
            d.len() > 0,
            radix == 10 || radix == 16,
            all_digits(d.take(i - first), radix as nat),
            acc as nat == digits_value(d.take(i - first), radix as nat),
            acc <= max,
            max >= 15,
        decreases len - i,
    {
        let c = s.get_char(i);
        let ghost k = i - first;
        assert(d[k] == c);
        match char_digit(c, radix) {
            None => {
                assert(digit_value(d[k as int], radix as nat) is None);
                assert(!all_digits(d, radix as nat));
                assert(unsigned_value(t, radix as nat, max as nat) is None);
                return None;
            },
            Some(v) => {
                assert(d.take(k + 1).drop_last() =~= d.take(k));
                assert(d.take(k + 1).last() == c);
                assert(digits_value(d.take(k + 1), radix as nat) == acc * radix + v);
                if acc > (max - v as u64) / radix as u64 {
                    proof {
                        assert(acc * radix + v > max) by (nonlinear_arith)
                            requires
                                acc > (max - v) / radix as int,
                                radix > 0,
                                v <= max;
                        lemma_digits_monotone(d, radix as nat, k + 1);
                        assert(unsigned_value(t, radix as nat, max as nat) is None);
                    }
                    return None;
                }
                proof {
                    assert(acc * radix + v <= max) by (nonlinear_arith)
                        requires
                            acc <= (max - v) / radix as int,
                            radix > 0,
                            v <= max;
                }
                acc = acc * radix as u64 + v as u64;
                i = i + 1;
                assert(all_digits(d.take(i - first), radix as nat)) by {
                    assert forall|j: int| 0 <= j < d.take(i - first).len() implies
                        (#[trigger] digit_value(d.take(i - first)[j], radix as nat)) is Some by {
                        if j < k {
                            assert(d.take(i - first)[j] == d.take(k)[j]);
                        }
                    }
                }
            },
        }
    }
    assert(d.take(i - first) =~= d);
    Some(acc)
}

/// `s` holds the character `c`.
pub open spec fn has_char(s: Seq<char>, c: char) -> bool {
    exists|i: int| 0 <= i < s.len() && s[i] == c
}

/// A negative decimal number: `-`, then at least one digit, of magnitude at
/// most 2^31; the result is its two's-complement bit pattern in 32 bits.
pub open spec fn negative_value(s: Seq<char>) -> Option<nat> {
    if s.len() >= 2 && s[0] == '-' && s[1] != '+' {
        match unsigned_value(s.skip(1), 10, 0x8000_0000) {
            Some(n) => Some(if n == 0 { 0 } else { (0x1_0000_0000 - n) as nat }),
            None => None,
        }
    } else {
        None
    }
}

/// Tags a 32-bit value as a flag or as an ordinary enumerant.
pub open spec fn tag32(n: nat, is_bitmask: bool) -> EnumValue {
    if is_bitmask {
        EnumValue::Bitmask(n as u32)
    } else {
        EnumValue::Enum(n as u32)
    }
}

/// The value that the text `v` of an entry denotes, `None` where it is malformed.
/// - Tagged 64-bit: two prefix characters, then hex digits.
/// - Otherwise, text with an `x` or `X`: two prefix characters, then hex
///   digits of at most 32 bits.
/// - Otherwise, text with a `-`: a negative decimal number, kept as its 32-bit
///   two's-complement pattern. Decimal is chosen here for this form, as the
///   registry writes small negative numbers in decimal.
/// - Otherwise: a decimal number of at most 32 bits.
pub open spec fn resolve_spec(v: Seq<char>, is_ull: bool, is_bitmask: bool) -> Option<EnumValue> {
    if is_ull {
        if v.len() < 2 {
            None
        } else {
            match unsigned_value(v.skip(2), 16, 0xFFFF_FFFF_FFFF_FFFF) {
                Some(n) => Some(EnumValue::ULL(n as u64)),
                None => None,
            }
        }
    } else if has_char(v, 'x') || has_char(v, 'X') {
        if v.len() < 2 {
            None
        } else {
            match unsigned_value(v.skip(2), 16, 0xFFFF_FFFF) {
                Some(n) => Some(tag32(n, is_bitmask)),
                None => None,
            }
        }
    } else if has_char(v, '-') {
        match negative_value(v) {
            Some(n) => Some(tag32(n, is_bitmask)),
            None => None,
        }
    } else {
        match unsigned_value(v, 10, 0xFFFF_FFFF) {
            Some(n) => Some(tag32(n, is_bitmask)),
            None => None,
        }
    }
}

fn find_char(s: &str, c: char) -> (r: bool)
    ensures
        r == has_char(s@, c),
{
    let len = s.unicode_len();
    let mut i: usize = 0;
    while i < len
        invariant
            len == s@.len(),
            i <= len,
            forall|j: int| 0 <= j < i ==> s@[j] != c,
        decreases len - i,
    {
        if s.get_char(i) == c {
            return true;
        }
        i = i + 1;
    }
    false
}

fn tagged(n: u32, is_bitmask: bool) -> (r: EnumValue)
    ensures
        r == tag32(n as nat, is_bitmask),
{
    if is_bitmask {
        EnumValue::Bitmask(n)
    } else {
        EnumValue::Enum(n)
    }
}

/// Resolves the value text of one entry, given whether the entry is tagged
/// 64-bit and whether its scope holds flags.
pub fn resolve_value(v: &str, is_ull: bool, is_bitmask: bool) -> (r: Option<EnumValue>)
    ensures
        r == resolve_spec(v@, is_ull, is_bitmask),
{
    if is_ull {
        match parse_unsigned(v, 2, 16, 0xFFFF_FFFF_FFFF_FFFF) {
            Some(n) => Some(EnumValue::ULL(n)),
            None => None,
        }
    } else if find_char(v, 'x') || find_char(v, 'X') {
        match parse_unsigned(v, 2, 16, 0xFFFF_FFFF) {
            Some(n) => Some(tagged(n as u32, is_bitmask)),
            None => None,
        }
    } else if find_char(v, '-') {
        let len = v.unicode_len();
        if len >= 2 && v.get_char(0) == '-' && v.get_char(1) != '+' {
            match parse_unsigned(v, 1, 10, 0x8000_0000) {
                Some(n) => {
                    let bits: u32 = if n == 0 { 0 } else { (0x1_0000_0000u64 - n) as u32 };
                    Some(tagged(bits, is_bitmask))
                },
                None => None,
            }
        } else {
            None
        }
    } else {
        match parse_unsigned(v, 0, 10, 0xFFFF_FFFF) {
            Some(n) => {
                assert(v@.skip(0) =~= v@);
                Some(tagged(n as u32, is_bitmask))
            },
            None => {
                assert(v@.skip(0) =~= v@);
                None
            },
        }
    }
}

} // verus!
