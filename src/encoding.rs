//! Mathematical descriptions of the textual forms of scalars: decimal and
//! hexadecimal digit strings, and the integer grammar accepted for 256-bit
//! unsigned values.
use vstd::prelude::*;

verus! {

/// 2^64.
pub open spec fn pow64() -> nat {
    0x1_0000_0000_0000_0000nat
}

/// 2^256, the exclusive bound of a 256-bit unsigned integer.
pub open spec fn pow256() -> nat {
    0x1_0000_0000_0000_0000_0000_0000_0000_0000_0000_0000_0000_0000_0000_0000_0000_0000nat
}

/// 2^256 is the fourth power of 2^64.
pub proof fn lemma_pow256()
    ensures
        pow256() == pow64() * pow64() * pow64() * pow64(),
{
}

/// The character of a decimal digit.
pub open spec fn decimal_digit(d: nat) -> char {
    if d == 0 {
        '0'
    } else if d == 1 {
        '1'
    } else if d == 2 {
        '2'
    } else if d == 3 {
        '3'
    } else if d == 4 {
        '4'
    } else if d == 5 {
        '5'
    } else if d == 6 {
        '6'
    } else if d == 7 {
        '7'
    } else if d == 8 {
        '8'
    } else {
        '9'
    }
}

/// The lowercase character of a hexadecimal digit.
pub open spec fn hex_digit(d: nat) -> char {
    if d < 10 {
        decimal_digit(d)
    } else if d == 10 {
        'a'
    } else if d == 11 {
        'b'
    } else if d == 12 {
        'c'
    } else if d == 13 {
        'd'
    } else if d == 14 {
        'e'
    } else {
        'f'
    }
}

/// Base-10 digits of `n`, most significant first, without leading zeros.
pub open spec fn decimal_of(n: nat) -> Seq<char>
    decreases n,
{
    if n < 10 {
        seq![decimal_digit(n)]
    } else {
        decimal_of(n / 10) + seq![decimal_digit(n % 10)]
    }
}

/// Two lowercase hexadecimal digits per byte.
pub open spec fn lower_hex(b: Seq<u8>) -> Seq<char>
    decreases b.len(),
{
    if b.len() == 0 {
        Seq::empty()
    } else {
        seq![hex_digit(b[0] as nat / 16), hex_digit(b[0] as nat % 16)] + lower_hex(b.skip(1))
    }
}

/// `"0x"` followed by the lowercase hexadecimal digits of `b`.
pub open spec fn prefixed_hex(b: Seq<u8>) -> Seq<char> {
    seq!['0', 'x'] + lower_hex(b)
}

/// The value of a character as a digit in bases up to 36: `0-9`, then the
/// letters in either case.
pub open spec fn digit_value(c: char) -> Option<nat> {
    if '0' <= c && c <= '9' {
        Some((c as nat - '0' as nat) as nat)
    } else if 'a' <= c && c <= 'z' {
        Some((c as nat - 'a' as nat + 10) as nat)
    } else if 'A' <= c && c <= 'Z' {
        Some((c as nat - 'A' as nat + 10) as nat)
    } else {
        None
    }
}

/// The value of a hexadecimal digit in either case.
pub open spec fn hex_value(c: char) -> Option<nat> {
    match digit_value(c) {
        Some(d) => if d < 16 {
            Some(d)
        } else {
            None
        },
        None => None,
    }
}

/// `s` with one leading `0x` or `0X` removed.
pub open spec fn strip_hex_prefix(s: Seq<char>) -> Seq<char> {
    if s.len() >= 2 && s[0] == '0' && (s[1] == 'x' || s[1] == 'X') {
        s.skip(2)
    } else {
        s
    }
}

/// The bytes of a string of hexadecimal digit pairs.
pub open spec fn hex_pairs(s: Seq<char>) -> Option<Seq<u8>>
    decreases s.len(),
{
    if s.len() == 0 {
        Some(Seq::empty())
    } else if s.len() == 1 {
        None
    } else {
        match (hex_value(s[0]), hex_value(s[1]), hex_pairs(s.skip(2))) {
            (Some(hi), Some(lo), Some(rest)) => Some(seq![(hi * 16 + lo) as u8] + rest),
            _ => None,
        }
    }
}

/// Hexadecimal text, with or without a `0x` prefix, as bytes.
pub open spec fn hex_decode(s: Seq<char>) -> Option<Seq<u8>> {
    hex_pairs(strip_hex_prefix(s))
}

/// The radix that a two-character prefix selects, and the digits after it.
pub open spec fn radix_split(s: Seq<char>) -> (nat, Seq<char>) {
    if s.len() >= 2 && s[0] == '0' && (s[1] == 'x' || s[1] == 'X') {
        (16, s.skip(2))
    } else if s.len() >= 2 && s[0] == '0' && (s[1] == 'o' || s[1] == 'O') {
        (8, s.skip(2))
    } else if s.len() >= 2 && s[0] == '0' && (s[1] == 'b' || s[1] == 'B') {
        (2, s.skip(2))
    } else {
        (10, s)
    }
}

/// The value of a digit string in `radix`; underscores are skipped.
pub open spec fn digits_value(ds: Seq<char>, radix: nat) -> Option<nat>
    decreases ds.len(),
{
    if ds.len() == 0 {
        Some(0)
    } else {
        let c = ds.last();
        let rest = digits_value(ds.drop_last(), radix);
        if c == '_' {
            rest
        } else {
            match (rest, digit_value(c)) {
                (Some(v), Some(d)) => if d < radix {
                    Some(v * radix + d)
                } else {
                    None
                },
                _ => None,
            }
        }
    }
}

/// The 256-bit unsigned integer that `s` denotes: decimal digits, or digits
/// after a `0x`, `0o` or `0b` prefix; `None` when a character is no digit of
/// the radix or the value does not fit in 256 bits.
pub open spec fn uint_text_value(s: Seq<char>) -> Option<nat> {
    let (radix, ds) = radix_split(s);
    match digits_value(ds, radix) {
        Some(v) => if v < pow256() {
            Some(v)
        } else {
            None
        },
        None => None,
    }
}

proof fn lemma_decimal_digit(d: nat)
    requires
        d < 10,
    ensures
        digit_value(decimal_digit(d)) == Some(d),
        '0' <= decimal_digit(d) <= '9',
{
}

proof fn lemma_hex_digit(d: nat)
    requires
        d < 16,
    ensures
        hex_value(hex_digit(d)) == Some(d),
{
    if d < 10 {
        lemma_decimal_digit(d);
    }
}

/// Decimal digits of `n` are ASCII digits and read back as `n`.
pub proof fn lemma_decimal_round_trip(n: nat)
    ensures
        decimal_of(n).len() >= 1,
        forall|i: int| 0 <= i < decimal_of(n).len() ==> '0' <= #[trigger] decimal_of(n)[i] <= '9',
        digits_value(decimal_of(n), 10) == Some(n),
    decreases n,
{
    let s = decimal_of(n);
    if n < 10 {
        lemma_decimal_digit(n);
        assert(s.drop_last() =~= Seq::<char>::empty());
        assert(digits_value(s.drop_last(), 10) == Some(0nat));
        assert(s.last() != '_');
    } else {
        lemma_decimal_round_trip(n / 10);
        lemma_decimal_digit(n % 10);
        let init = decimal_of(n / 10);
        assert(s.drop_last() =~= init);
        assert(s.last() == decimal_digit(n % 10));
        assert(forall|i: int| 0 <= i < init.len() ==> s[i] == init[i]);
        assert((n / 10) * 10 + n % 10 == n);
        assert(s.last() != '_');
        assert(digits_value(s.drop_last(), 10) == Some(n / 10));
    }
}

/// Decimal digits of a number below 2^256 read back as that number.
pub proof fn lemma_uint_text_round_trip(n: nat)
    requires
        n < pow256(),
    ensures
        uint_text_value(decimal_of(n)) == Some(n),
{
    lemma_decimal_round_trip(n);
    let s = decimal_of(n);
    if s.len() >= 2 {
        assert('0' <= s[1] <= '9');
    }
    assert(radix_split(s) == (10nat, s));
}

/// Decoded hexadecimal pairs are half as many bytes as characters.
pub proof fn lemma_hex_pairs_len(s: Seq<char>)
    ensures
        hex_pairs(s) matches Some(b) ==> 2 * b.len() == s.len(),
    decreases s.len(),
{
    if s.len() >= 2 {
        lemma_hex_pairs_len(s.skip(2));
    }
}

/// Lowercase hexadecimal digits read back as the bytes they encode.
pub proof fn lemma_hex_pairs_round_trip(b: Seq<u8>)
    ensures
        hex_pairs(lower_hex(b)) == Some(b),
    decreases b.len(),
{
    if b.len() > 0 {
        let s = lower_hex(b);
        let hi = b[0] as nat / 16;
        let lo = b[0] as nat % 16;
        lemma_hex_digit(hi);
        lemma_hex_digit(lo);
        lemma_hex_pairs_round_trip(b.skip(1));
        assert(s.skip(2) =~= lower_hex(b.skip(1)));
        assert(hi * 16 + lo == b[0] as nat);
        assert(seq![(hi * 16 + lo) as u8] + b.skip(1) =~= b);
    }
}

pub proof fn lemma_lower_hex_len(b: Seq<u8>)
    ensures
        lower_hex(b).len() == 2 * b.len(),
    decreases b.len(),
{
    if b.len() > 0 {
        lemma_lower_hex_len(b.skip(1));
    }
}

/// `0x`-prefixed lowercase hexadecimal reads back as the bytes it encodes.
pub proof fn lemma_hex_round_trip(b: Seq<u8>)
    ensures
        hex_decode(prefixed_hex(b)) == Some(b),
{
    lemma_hex_pairs_round_trip(b);
    assert(prefixed_hex(b).skip(2) =~= lower_hex(b));
}

} // verus!
