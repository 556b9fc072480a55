//! Conversions of a value to another scalar kind: address, text, integer
//! and byte sequence. A value that has no such reading becomes `Null`.
use crate::encoding::{hex_decode, uint_text_value};
use crate::ops::canonical_text;
use crate::scalars::{Address, U256, bytes_from_text};
use crate::value::{SolidityType, SolValue};
use vstd::prelude::*;

verus! {

/// The number that big-endian bytes stand for.
pub open spec fn be_value(b: Seq<u8>) -> nat
    decreases b.len(),
{
    if b.len() == 0 {
        0
    } else {
        (be_value(b.drop_last()) * 256 + b.last()) as nat
    }
}

/// The last `len` big-endian bytes of `n`.
pub open spec fn be_bytes(n: nat, len: nat) -> Seq<u8>
    decreases len,
{
    if len == 0 {
        Seq::empty()
    } else {
        be_bytes(n / 256, (len - 1) as nat).push((n % 256) as u8)
    }
}

/// `n` zero bytes.
pub open spec fn zeros(n: nat) -> Seq<u8> {
    Seq::new(n, |i: int| 0u8)
}

/// The address a value stands for: 0 or 1 for a boolean, the low 20 bytes
/// of an integer or word, the 20 bytes after the first two of a byte
/// sequence (`Null` when it is shorter than 22 bytes), parsed text.
pub open spec fn cast_address(v: SolValue) -> SolValue {
    match v {
        SolValue::Boolean(b) => SolValue::Address(zeros(19).push(if b { 1u8 } else { 0u8 })),
        SolValue::Uint(n) => SolValue::Address(be_bytes(n, 32).subrange(12, 32)),
        SolValue::Enum(n) => SolValue::Address(zeros(19).push(n)),
        SolValue::Address(b) => SolValue::Address(b),
        SolValue::ByteArray(b) => if b.len() >= 22 {
            SolValue::Address(b.subrange(2, 22))
        } else {
            SolValue::Null
        },
        SolValue::FixedArray(b) => SolValue::Address(b.subrange(12, 32)),
        SolValue::String(s) => match hex_decode(s) {
            Some(b) => if b.len() == 20 {
                SolValue::Address(b)
            } else {
                SolValue::Null
            },
            None => SolValue::Null,
        },
        _ => SolValue::Null,
    }
}

/// The text a scalar stands for: its canonical text.
pub open spec fn cast_string(v: SolValue) -> SolValue {
    match v {
        SolValue::Tuple(_) | SolValue::List(_) | SolValue::Struct(_) | SolValue::Null => SolValue::Null,
        _ => SolValue::String(canonical_text(v)->0),
    }
}

/// The integer a value stands for: big-endian bytes (`Null` for more than
/// 32 of them), parsed text.
pub open spec fn cast_uint(v: SolValue) -> SolValue {
    match v {
        SolValue::Boolean(b) => SolValue::Uint(
            if b {
                1
            } else {
                0
            },
        ),
        SolValue::Uint(n) => SolValue::Uint(n),
        SolValue::Enum(n) => SolValue::Uint(n as nat),
        SolValue::Address(b) => SolValue::Uint(be_value(b)),
        SolValue::ByteArray(b) => if b.len() <= 32 {
            SolValue::Uint(be_value(b))
        } else {
            SolValue::Null
        },
        SolValue::FixedArray(b) => SolValue::Uint(be_value(b)),
        SolValue::String(s) => match uint_text_value(s) {
            Some(n) => SolValue::Uint(n),
            None => SolValue::Null,
        },
        _ => SolValue::Null,
    }
}

/// The bytes a value stands for: a 32-byte big-endian integer, one byte for
/// a boolean or enum, decoded hexadecimal text.
pub open spec fn cast_bytes(v: SolValue) -> SolValue {
    match v {
        SolValue::Boolean(b) => SolValue::ByteArray(
            seq![
                if b {
                    1u8
                } else {
                    0u8
                },
            ],
        ),
        SolValue::Uint(n) => SolValue::ByteArray(be_bytes(n, 32)),
        SolValue::Enum(n) => SolValue::ByteArray(seq![n]),
        SolValue::Address(b) => SolValue::ByteArray(b),
        SolValue::ByteArray(b) => SolValue::ByteArray(b),
        SolValue::FixedArray(b) => SolValue::ByteArray(b),
        SolValue::String(s) => match hex_decode(s) {
            Some(b) => SolValue::ByteArray(b),
            None => SolValue::Null,
        },
        _ => SolValue::Null,
    }
}

/// Relies on `ruint::Uint::from_be_slice`: the big-endian number of at most
/// 32 bytes; it panics on a longer slice, which `requires` rules out.
#[verifier::external_body]
fn uint_from_be_slice(b: &[u8]) -> (r: U256)
    requires
        b@.len() <= 32,
    ensures
        r.value() == be_value(b@),
{
    U256 { limbs: alloy_primitives::U256::from_be_slice(b).into_limbs() }
}

/// Relies on `ruint::Uint::to_be_bytes::<32>`: the 32 big-endian bytes.
#[verifier::external_body]
fn uint_to_be_bytes(u: &U256) -> (r: [u8; 32])
    ensures
        r@ == be_bytes(u.value(), 32),
{
    alloy_primitives::U256::from_limbs(u.limbs).to_be_bytes::<32>()
}

fn to_vec(b: &[u8]) -> (r: Vec<u8>)
    ensures
        r@ == b@,
{
    let mut out: Vec<u8> = Vec::new();
    let mut i: usize = 0;
    while i < b.len()
        invariant
            i <= b@.len(),
            out@ == b@.take(i as int),
        decreases b@.len() - i,
    {
        out.push(b[i]);
        i = i + 1;
        assert(out@ =~= b@.take(i as int));
    }
    assert(b@.take(b@.len() as int) =~= b@);
    out
}

/// The 20 bytes of `b` from `start`.
fn address_at(b: &[u8], start: usize) -> (r: Address)
    requires
        start + 20 <= b@.len(),
    ensures
        r.bytes@ == b@.subrange(start as int, start + 20),
{
    let n = b.len();
    let mut out = [0u8; 20];
    let mut i: usize = 0;
    while i < 20
        invariant
            i <= 20,
            n == b@.len(),
            start + 20 <= n,
            out@.len() == 20,
            forall|j: int| 0 <= j < i ==> out@[j] == b@[start + j],
        decreases 20 - i,
    {
        out[i] = b[start + i];
        i = i + 1;
    }
    assert(out@ =~= b@.subrange(start as int, start + 20));
    Address { bytes: out }
}

/// The value as an address, as `cast_address` describes it.
pub fn address(value: SolidityType) -> (r: SolidityType)
    ensures
        r@ == cast_address(value@),
{
    match value {
        SolidityType::Boolean(b) => {
            let mut z = [0u8; 20];
            let last: u8 = if b { 1 } else { 0 };
            z[19] = last;
            assert(z@ =~= zeros(19).push(last));
            SolidityType::Address(Address { bytes: z })
        },
        SolidityType::Uint(u) => {
            let word = uint_to_be_bytes(&u);
            SolidityType::Address(address_at(&word, 12))
        },
        SolidityType::Enum(n) => {
            let mut z = [0u8; 20];
            z[19] = n;
            assert(z@ =~= zeros(19).push(n));
            SolidityType::Address(Address { bytes: z })
        },
        SolidityType::Address(a) => SolidityType::Address(a),
        SolidityType::ByteArray(b) => {
            if b.len() >= 22 {
                SolidityType::Address(address_at(b.as_slice(), 2))
            } else {
                SolidityType::Null
            }
        },
        SolidityType::FixedArray(w) => SolidityType::Address(address_at(&w.bytes, 12)),
        SolidityType::String(s) => match Address::parse(s.as_str()) {
            Some(a) => SolidityType::Address(a),
            None => SolidityType::Null,
        },
        _ => SolidityType::Null,
    }
}

/// The value as text, as `cast_string` describes it.
pub fn string(value: SolidityType) -> (r: SolidityType)
    ensures
        r@ == cast_string(value@),
{
    match value {
        SolidityType::Tuple(_) | SolidityType::List(_) | SolidityType::Struct(_) | SolidityType::Null => {
            SolidityType::Null
        },
        SolidityType::String(s) => SolidityType::String(s),
        _ => match value.to_string() {
            Ok(t) => SolidityType::String(t),
            Err(_) => SolidityType::Null,
        },
    }
}

/// The value as an integer, as `cast_uint` describes it.
pub fn uint(value: SolidityType) -> (r: SolidityType)
    ensures
        r@ == cast_uint(value@),
{
    match value {
        SolidityType::Boolean(b) => SolidityType::Uint(U256::from_u64(if b { 1 } else { 0 })),
        SolidityType::Uint(u) => SolidityType::Uint(u),
        SolidityType::Enum(n) => SolidityType::Uint(U256::from_u64(n as u64)),
        SolidityType::Address(a) => SolidityType::Uint(uint_from_be_slice(&a.bytes)),
        SolidityType::ByteArray(b) => {
            if b.len() <= 32 {
                SolidityType::Uint(uint_from_be_slice(b.as_slice()))
            } else {
                SolidityType::Null
            }
        },
        SolidityType::FixedArray(w) => SolidityType::Uint(uint_from_be_slice(&w.bytes)),
        SolidityType::String(s) => match U256::parse(s.as_str()) {
            Some(u) => SolidityType::Uint(u),
            None => SolidityType::Null,
        },
        _ => SolidityType::Null,
    }
}

/// The value as bytes, as `cast_bytes` describes it.
pub fn bytes(value: SolidityType) -> (r: SolidityType)
    ensures
        r@ == cast_bytes(value@),
{
    match value {
        SolidityType::Boolean(b) => {
            let mut out: Vec<u8> = Vec::new();
            out.push(if b { 1 } else { 0 });
            assert(out@ =~= seq![if b { 1u8 } else { 0u8 }]);
            SolidityType::ByteArray(out)
        },
        SolidityType::Uint(u) => {
            let word = uint_to_be_bytes(&u);
            SolidityType::ByteArray(to_vec(&word))
        },
        SolidityType::Enum(n) => {
            let mut out: Vec<u8> = Vec::new();
            out.push(n);
            assert(out@ =~= seq![n]);
            SolidityType::ByteArray(out)
        },
        SolidityType::Address(a) => SolidityType::ByteArray(to_vec(&a.bytes)),
        SolidityType::ByteArray(b) => SolidityType::ByteArray(b),
        SolidityType::FixedArray(w) => SolidityType::ByteArray(to_vec(&w.bytes)),
        SolidityType::String(s) => match bytes_from_text(s.as_str()) {
            Some(b) => SolidityType::ByteArray(b),
            None => SolidityType::Null,
        },
        _ => SolidityType::Null,
    }
}

} // verus!
