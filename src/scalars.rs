//! The scalar payloads of a value: a 256-bit unsigned integer, a 20-byte
//! address and a 32-byte word, held as plain limbs and bytes. Arithmetic,
//! parsing and formatting are done by `alloy_primitives`.
use crate::encoding::{decimal_of, hex_decode, pow256, pow64, prefixed_hex, uint_text_value};
use std::cmp::Ordering;
use vstd::prelude::*;

verus! {

/// A 256-bit unsigned integer as four little-endian 64-bit limbs.
#[derive(Clone, Copy, Debug, PartialEq, Eq)]
pub struct U256 {
    pub limbs: [u64; 4],
}

/// A 20-byte account address.
#[derive(Clone, Copy, Debug, PartialEq, Eq)]
pub struct Address {
    pub bytes: [u8; 20],
}

/// A 32-byte word.
#[derive(Clone, Copy, Debug, PartialEq, Eq)]
pub struct B256 {
    pub bytes: [u8; 32],
}

/// The number that little-endian limbs stand for.
pub open spec fn limbs_value(l: Seq<u64>) -> nat {
    (l[0] + l[1] * pow64() + l[2] * pow64() * pow64() + l[3] * pow64() * pow64() * pow64()) as nat
}

/// The EIP-55 mixed-case rendering of an address, `0x` and 40 hexadecimal
/// digits whose letter case comes from a Keccak-256 hash.
pub uninterp spec fn checksummed_of(bytes: Seq<u8>) -> Seq<char>;

impl U256 {
    pub open spec fn value(&self) -> nat {
        limbs_value(self.limbs@)
    }

    pub fn from_u64(x: u64) -> (r: U256)
        ensures
            r.value() == x,
    {
        let r = U256 { limbs: [x, 0, 0, 0] };
        assert(r.limbs@ =~= seq![x, 0u64, 0u64, 0u64]);
        r
    }

    /// Parses decimal text, or text with a `0x`, `0o` or `0b` radix prefix.
    pub fn parse(s: &str) -> (r: Option<U256>)
        ensures
            r matches Some(u) ==> uint_text_value(s@) == Some(u.value()),
            r is None ==> uint_text_value(s@) is None,
    {
        uint_from_text(s)
    }

    /// Base-10 digits of the value.
    pub fn to_decimal(&self) -> (r: String)
        ensures
            r@ == decimal_of(self.value()),
    {
        uint_decimal(self)
    }
}

/// Relies on `ruint::Uint::from_str` (via `alloy_primitives::U256`): radix
/// chosen by a `0x`/`0o`/`0b` prefix, underscores skipped, an error for a
/// character that is no digit or for a value of 2^256 or more.
#[verifier::external_body]
fn uint_from_text(s: &str) -> (r: Option<U256>)
    ensures
        r matches Some(u) ==> uint_text_value(s@) == Some(u.value()),
        r is None ==> uint_text_value(s@) is None,
{
    match s.parse::<alloy_primitives::U256>() {
        Ok(v) => Some(U256 { limbs: v.into_limbs() }),
        Err(_) => None,
    }
}

/// Relies on `Display` of `ruint::Uint`: base-10 digits without leading zeros.
#[verifier::external_body]
fn uint_decimal(a: &U256) -> (r: String)
    ensures
        r@ == decimal_of(a.value()),
{
    alloy_primitives::U256::from_limbs(a.limbs).to_string()
}

/// Every limb value is below 2^256.
pub proof fn lemma_uint_bound(u: U256)
    ensures
        u.value() < pow256(),
{
    let l = u.limbs@;
    let p = pow64();
    assert(0 <= l[0] < p && 0 <= l[1] < p && 0 <= l[2] < p && 0 <= l[3] < p);
    assert(l[0] + l[1] * p + l[2] * p * p + l[3] * p * p * p < p * p * p * p) by (nonlinear_arith)
        requires
            0 <= l[0] < p,
            0 <= l[1] < p,
            0 <= l[2] < p,
            0 <= l[3] < p,
    ;
}

/// Relies on `Add` of `ruint::Uint`, which wraps modulo 2^256.
#[verifier::external_body]
pub(crate) fn uint_add(a: &U256, b: &U256) -> (r: U256)
    ensures
        r.value() == (a.value() + b.value()) % pow256(),
{
    let sum = alloy_primitives::U256::from_limbs(a.limbs) + alloy_primitives::U256::from_limbs(b.limbs);
    U256 { limbs: sum.into_limbs() }
}

/// Relies on `Sub` of `ruint::Uint`, which wraps modulo 2^256.
#[verifier::external_body]
pub(crate) fn uint_sub(a: &U256, b: &U256) -> (r: U256)
    ensures
        r.value() == (a.value() - b.value()) % (pow256() as int),
{
    let diff = alloy_primitives::U256::from_limbs(a.limbs) - alloy_primitives::U256::from_limbs(b.limbs);
    U256 { limbs: diff.into_limbs() }
}

/// Relies on `Mul` of `ruint::Uint`, which wraps modulo 2^256.
#[verifier::external_body]
pub(crate) fn uint_mul(a: &U256, b: &U256) -> (r: U256)
    ensures
        r.value() == (a.value() * b.value()) % pow256(),
{
    let product = alloy_primitives::U256::from_limbs(a.limbs) * alloy_primitives::U256::from_limbs(b.limbs);
    U256 { limbs: product.into_limbs() }
}

/// Relies on `Div` of `ruint::Uint`: the quotient rounded down; it panics on
/// a zero divisor, which `requires` rules out.
#[verifier::external_body]
pub(crate) fn uint_div(a: &U256, b: &U256) -> (r: U256)
    requires
        b.value() != 0,
    ensures
        r.value() == a.value() / b.value(),
{
    let quotient = alloy_primitives::U256::from_limbs(a.limbs) / alloy_primitives::U256::from_limbs(b.limbs);
    U256 { limbs: quotient.into_limbs() }
}

/// Relies on `Ord` of `ruint::Uint`, which orders by numeric value.
#[verifier::external_body]
pub(crate) fn uint_cmp(a: &U256, b: &U256) -> (r: Ordering)
    ensures
        r == Ordering::Less <==> a.value() < b.value(),
        r == Ordering::Equal <==> a.value() == b.value(),
        r == Ordering::Greater <==> a.value() > b.value(),
{
    alloy_primitives::U256::from_limbs(a.limbs).cmp(&alloy_primitives::U256::from_limbs(b.limbs))
}

impl Address {
    /// Parses 40 hexadecimal digits, with or without a `0x` prefix, in any
    /// letter case.
    pub fn parse(s: &str) -> (r: Option<Address>)
        ensures
            r matches Some(a) ==> hex_decode(s@) == Some(a.bytes@),
            r is None ==> !(hex_decode(s@) matches Some(b) && b.len() == 20),
    {
        address_from_text(s)
    }

    /// The EIP-55 checksummed text of the address.
    pub fn to_checksummed(&self) -> (r: String)
        ensures
            r@ == checksummed_of(self.bytes@),
            r@.len() == 42,
            r@.take(2) == seq!['0', 'x'],
            hex_decode(r@) == Some(self.bytes@),
    {
        address_checksummed(self)
    }
}

impl B256 {
    /// Parses 64 hexadecimal digits, with or without a `0x` prefix.
    pub fn parse(s: &str) -> (r: Option<B256>)
        ensures
            r matches Some(w) ==> hex_decode(s@) == Some(w.bytes@),
            r is None ==> !(hex_decode(s@) matches Some(b) && b.len() == 32),
    {
        word_from_text(s)
    }

    /// `0x` and 64 lowercase hexadecimal digits.
    pub fn to_hex(&self) -> (r: String)
        ensures
            r@ == prefixed_hex(self.bytes@),
    {
        word_hex(self)
    }
}

/// Relies on `FromStr` of `alloy_primitives::Address` (`const_hex` decoding
/// into 20 bytes): an optional `0x`/`0X` prefix, then exactly 40 hexadecimal
/// digits in either case; no checksum is checked.
#[verifier::external_body]
fn address_from_text(s: &str) -> (r: Option<Address>)
    ensures
        r matches Some(a) ==> hex_decode(s@) == Some(a.bytes@),
        r is None ==> !(hex_decode(s@) matches Some(b) && b.len() == 20),
{
    match s.parse::<alloy_primitives::Address>() {
        Ok(a) => Some(Address { bytes: a.into_array() }),
        Err(_) => None,
    }
}

/// Relies on `Display` of `alloy_primitives::Address`: the EIP-55
/// checksummed text, a function of the 20 bytes alone. It is `0x` and the 40
/// lowercase hexadecimal digits of the bytes with only the letter case of
/// some digits changed, so it decodes back to the bytes.
#[verifier::external_body]
fn address_checksummed(a: &Address) -> (r: String)
    ensures
        r@ == checksummed_of(a.bytes@),
        r@.len() == 42,
        r@.take(2) == seq!['0', 'x'],
        hex_decode(r@) == Some(a.bytes@),
{
    alloy_primitives::Address::from(a.bytes).to_string()
}

/// Relies on `FromStr` of `alloy_primitives::B256` (`const_hex` decoding into
/// 32 bytes): an optional `0x`/`0X` prefix, then exactly 64 hexadecimal digits.
#[verifier::external_body]
fn word_from_text(s: &str) -> (r: Option<B256>)
    ensures
        r matches Some(w) ==> hex_decode(s@) == Some(w.bytes@),
        r is None ==> !(hex_decode(s@) matches Some(b) && b.len() == 32),
{
    match s.parse::<alloy_primitives::B256>() {
        Ok(w) => Some(B256 { bytes: w.0 }),
        Err(_) => None,
    }
}

/// Relies on `Display` of `alloy_primitives::B256`: `0x` and the lowercase
/// hexadecimal digits of every byte.
#[verifier::external_body]
fn word_hex(w: &B256) -> (r: String)
    ensures
        r@ == prefixed_hex(w.bytes@),
{
    alloy_primitives::B256::from(w.bytes).to_string()
}

/// Relies on `FromStr` of `alloy_primitives::Bytes` (`const_hex::decode`): an
/// optional `0x`/`0X` prefix, then pairs of hexadecimal digits.
#[verifier::external_body]
pub(crate) fn bytes_from_text(s: &str) -> (r: Option<Vec<u8>>)
    ensures
        r matches Some(b) ==> hex_decode(s@) == Some(b@),
        r is None ==> hex_decode(s@) is None,
{
    match s.parse::<alloy_primitives::Bytes>() {
        Ok(b) => Some(b.to_vec()),
        Err(_) => None,
    }
}

/// Relies on `Display` of `alloy_primitives::Bytes`: `0x` and the lowercase
/// hexadecimal digits of every byte.
#[verifier::external_body]
pub(crate) fn bytes_hex(b: &Vec<u8>) -> (r: String)
    ensures
        r@ == prefixed_hex(b@),
{
    alloy_primitives::Bytes::copy_from_slice(b).to_string()
}

} // verus!
