//! Canonical text of scalars, arithmetic on values, and comparisons.
use crate::encoding::{decimal_of, hex_decode, pow256, prefixed_hex};
use crate::scalars::{U256, bytes_hex, checksummed_of, lemma_uint_bound, uint_add, uint_cmp, uint_div, uint_mul, uint_sub};
use crate::value::{Fault, Kind, SolidityType, SolValue, ValueError, kind_of};
use std::cmp::Ordering;
use vstd::prelude::*;

verus! {

pub open spec fn true_text() -> Seq<char> {
    seq!['t', 'r', 'u', 'e']
}

pub open spec fn false_text() -> Seq<char> {
    seq!['f', 'a', 'l', 's', 'e']
}

pub open spec fn null_text() -> Seq<char> {
    seq!['n', 'u', 'l', 'l']
}

/// The canonical text of a scalar; tuples, lists and structs have none.
pub open spec fn canonical_text(v: SolValue) -> Option<Seq<char>> {
    match v {
        SolValue::Boolean(b) => Some(
            if b {
                true_text()
            } else {
                false_text()
            },
        ),
        SolValue::Enum(n) => Some(decimal_of(n as nat)),
        SolValue::Uint(n) => Some(decimal_of(n)),
        SolValue::Address(b) => Some(checksummed_of(b)),
        SolValue::ByteArray(b) => Some(prefixed_hex(b)),
        SolValue::FixedArray(b) => Some(prefixed_hex(b)),
        SolValue::String(s) => Some(s),
        SolValue::Null => Some(null_text()),
        _ => None,
    }
}

/// `+`: `Null` is the identity on either side; text is concatenated with the
/// canonical text of the other operand; integers add modulo 2^256.
pub open spec fn add_values(a: SolValue, b: SolValue) -> Result<SolValue, Fault> {
    if a is Null {
        Ok(b)
    } else if b is Null {
        Ok(a)
    } else {
        match (a, b) {
            (SolValue::String(s), _) => match canonical_text(b) {
                Some(t) => Ok(SolValue::String(s + t)),
                None => Err(Fault::TypeMismatch(kind_of(a), kind_of(b))),
            },
            (SolValue::Uint(x), SolValue::Uint(y)) => Ok(SolValue::Uint((x + y) % pow256())),
            _ => Err(Fault::TypeMismatch(kind_of(a), kind_of(b))),
        }
    }
}

/// `Null` is a two-sided identity of `+`.
pub proof fn law_add_null_identity(x: SolValue)
    ensures
        add_values(SolValue::Null, x) == Ok::<SolValue, Fault>(x),
        add_values(x, SolValue::Null) == Ok::<SolValue, Fault>(x),
{
}

/// `-`: `Null` on either side yields the other operand; integers subtract
/// modulo 2^256.
pub open spec fn sub_values(a: SolValue, b: SolValue) -> Result<SolValue, Fault> {
    if a is Null {
        Ok(b)
    } else if b is Null {
        Ok(a)
    } else {
        match (a, b) {
            (SolValue::Uint(x), SolValue::Uint(y)) => Ok(
                SolValue::Uint(((x - y) % (pow256() as int)) as nat),
            ),
            _ => Err(Fault::TypeMismatch(kind_of(a), kind_of(b))),
        }
    }
}

/// `*`: `Null` on either side yields `Null`; integers multiply modulo 2^256.
pub open spec fn mul_values(a: SolValue, b: SolValue) -> Result<SolValue, Fault> {
    if a is Null || b is Null {
        Ok(SolValue::Null)
    } else {
        match (a, b) {
            (SolValue::Uint(x), SolValue::Uint(y)) => Ok(SolValue::Uint((x * y) % pow256())),
            _ => Err(Fault::TypeMismatch(kind_of(a), kind_of(b))),
        }
    }
}

/// `/`: `Null` on either side yields `Null`; integers divide rounding down.
pub open spec fn div_values(a: SolValue, b: SolValue) -> Result<SolValue, Fault> {
    if a is Null || b is Null {
        Ok(SolValue::Null)
    } else {
        match (a, b) {
            (SolValue::Uint(x), SolValue::Uint(y)) => if y == 0 {
                Err(Fault::DivisionByZero)
            } else {
                Ok(SolValue::Uint(x / y))
            },
            _ => Err(Fault::TypeMismatch(kind_of(a), kind_of(b))),
        }
    }
}

/// Equality, defined between two integers and between two addresses.
pub open spec fn equal_values(a: SolValue, b: SolValue) -> Result<bool, Fault> {
    match (a, b) {
        (SolValue::Uint(x), SolValue::Uint(y)) => Ok(x == y),
        (SolValue::Address(x), SolValue::Address(y)) => Ok(x == y),
        _ => Err(Fault::TypeMismatch(kind_of(a), kind_of(b))),
    }
}

/// Lexicographic order of texts by code point.
pub open spec fn text_order(a: Seq<char>, b: Seq<char>) -> Ordering
    decreases a.len(),
{
    if a.len() == 0 {
        if b.len() == 0 {
            Ordering::Equal
        } else {
            Ordering::Less
        }
    } else if b.len() == 0 {
        Ordering::Greater
    } else if (a[0] as u32) < (b[0] as u32) {
        Ordering::Less
    } else if (a[0] as u32) > (b[0] as u32) {
        Ordering::Greater
    } else {
        text_order(a.skip(1), b.skip(1))
    }
}

pub open spec fn number_order(x: nat, y: nat) -> Ordering {
    if x < y {
        Ordering::Less
    } else if x == y {
        Ordering::Equal
    } else {
        Ordering::Greater
    }
}

/// Ordering, defined between two integers and between two texts.
pub open spec fn order_values(a: SolValue, b: SolValue) -> Result<Ordering, Fault> {
    match (a, b) {
        (SolValue::Uint(x), SolValue::Uint(y)) => Ok(number_order(x, y)),
        (SolValue::String(x), SolValue::String(y)) => Ok(text_order(x, y)),
        _ => Err(Fault::TypeMismatch(kind_of(a), kind_of(b))),
    }
}

fn text_cmp(a: &String, b: &String) -> (r: Ordering)
    ensures
        r == text_order(a@, b@),
{
    let x = a.as_str();
    let y = b.as_str();
    let n = x.unicode_len();
    let m = y.unicode_len();
    let mut i: usize = 0;
    assert(a@.skip(0) =~= a@);
    assert(b@.skip(0) =~= b@);
    while i < n && i < m
        invariant
            n == a@.len(),
            m == b@.len(),
            i <= n,
            i <= m,
            x@ == a@,
            y@ == b@,
            text_order(a@, b@) == text_order(a@.skip(i as int), b@.skip(i as int)),
        decreases n - i,
    {
        let c = x.get_char(i);
        let d = y.get_char(i);
        if (c as u32) < (d as u32) {
            return Ordering::Less;
        } else if (c as u32) > (d as u32) {
            return Ordering::Greater;
        }
        assert(a@.skip(i as int).skip(1) =~= a@.skip(i + 1));
        assert(b@.skip(i as int).skip(1) =~= b@.skip(i + 1));
        i = i + 1;
    }
    if i < m {
        Ordering::Less
    } else if i < n {
        Ordering::Greater
    } else {
        Ordering::Equal
    }
}

fn same_address(x: &[u8; 20], y: &[u8; 20]) -> (r: bool)
    ensures
        r == (x@ == y@),
{
    let mut i: usize = 0;
    while i < 20
        invariant
            i <= 20,
            forall|j: int| 0 <= j < i ==> x@[j] == y@[j],
        decreases 20 - i,
    {
        if x[i] != y[i] {
            assert(x@[i as int] != y@[i as int]);
            return false;
        }
        i = i + 1;
    }
    assert(x@ =~= y@);
    true
}

impl SolidityType {
    /// The canonical text of a scalar: `true`/`false`, decimal digits for
    /// integers and enum ordinals, the checksummed address, `0x`-prefixed
    /// lowercase hexadecimal for bytes, text as it is, and `null` for `Null`.
    /// A tuple, list or struct has none: `ValueError::Unsupported`.
    pub fn to_string(&self) -> (r: Result<String, ValueError>)
        ensures
            match canonical_text(self@) {
                Some(t) => r matches Ok(s) && s@ == t,
                None => r matches Err(x) && x@ == Fault::Unsupported(kind_of(self@)),
            },
            self@ matches SolValue::Address(b) ==> (r matches Ok(s) && s@.len() == 42 && s@.take(2)
                == seq!['0', 'x'] && hex_decode(s@) == Some(b)),
    {
        match self {
            SolidityType::Boolean(b) => {
                if *b {
                    let s = "true".to_string();
                    proof {
                        reveal_strlit("true");
                    }
                    assert(s@ =~= true_text());
                    Ok(s)
                } else {
                    let s = "false".to_string();
                    proof {
                        reveal_strlit("false");
                    }
                    assert(s@ =~= false_text());
                    Ok(s)
                }
            },
            SolidityType::Enum(n) => Ok(U256::from_u64(*n as u64).to_decimal()),
            SolidityType::Uint(u) => Ok(u.to_decimal()),
            SolidityType::Address(a) => Ok(a.to_checksummed()),
            SolidityType::ByteArray(b) => Ok(bytes_hex(b)),
            SolidityType::FixedArray(w) => Ok(w.to_hex()),
            SolidityType::String(s) => Ok(s.clone()),
            SolidityType::Null => {
                let s = "null".to_string();
                proof {
                    reveal_strlit("null");
                }
                assert(s@ =~= null_text());
                Ok(s)
            },
            _ => Err(ValueError::Unsupported(self.kind())),
        }
    }

    /// `self + rhs`, as `add_values` describes it.
    pub fn add(self, rhs: SolidityType) -> (r: Result<SolidityType, ValueError>)
        ensures
            match add_values(self@, rhs@) {
                Ok(v) => r matches Ok(x) && x@ == v,
                Err(e) => r matches Err(x) && x@ == e,
            },
    {
        if let SolidityType::Null = self {
            return Ok(rhs);
        }
        if let SolidityType::Null = rhs {
            return Ok(self);
        }
        if let SolidityType::String(s) = &self {
            return match rhs.to_string() {
                Ok(t) => {
                    let mut out = s.clone();
                    out.append(t.as_str());
                    Ok(SolidityType::String(out))
                },
                Err(_) => Err(ValueError::TypeMismatch(Kind::String, rhs.kind())),
            };
        }
        match (&self, &rhs) {
            (SolidityType::Uint(x), SolidityType::Uint(y)) => Ok(SolidityType::Uint(uint_add(x, y))),
            _ => Err(ValueError::TypeMismatch(self.kind(), rhs.kind())),
        }
    }

    /// `self - rhs`, as `sub_values` describes it.
    pub fn sub(self, rhs: SolidityType) -> (r: Result<SolidityType, ValueError>)
        ensures
            match sub_values(self@, rhs@) {
                Ok(v) => r matches Ok(x) && x@ == v,
                Err(e) => r matches Err(x) && x@ == e,
            },
    {
        if let SolidityType::Null = self {
            return Ok(rhs);
        }
        if let SolidityType::Null = rhs {
            return Ok(self);
        }
        match (&self, &rhs) {
            (SolidityType::Uint(x), SolidityType::Uint(y)) => {
                let d = uint_sub(x, y);
                proof {
                    lemma_uint_bound(d);
                }
                Ok(SolidityType::Uint(d))
            },
            _ => Err(ValueError::TypeMismatch(self.kind(), rhs.kind())),
        }
    }

    /// `self * rhs`, as `mul_values` describes it.
    pub fn mul(self, rhs: SolidityType) -> (r: Result<SolidityType, ValueError>)
        ensures
            match mul_values(self@, rhs@) {
                Ok(v) => r matches Ok(x) && x@ == v,
                Err(e) => r matches Err(x) && x@ == e,
            },
    {
        if let SolidityType::Null = self {
            return Ok(SolidityType::Null);
        }
        if let SolidityType::Null = rhs {
            return Ok(SolidityType::Null);
        }
        match (&self, &rhs) {
            (SolidityType::Uint(x), SolidityType::Uint(y)) => Ok(SolidityType::Uint(uint_mul(x, y))),
            _ => Err(ValueError::TypeMismatch(self.kind(), rhs.kind())),
        }
    }

    /// `self / rhs`, as `div_values` describes it.
    pub fn div(self, rhs: SolidityType) -> (r: Result<SolidityType, ValueError>)
        ensures
            match div_values(self@, rhs@) {
                Ok(v) => r matches Ok(x) && x@ == v,
                Err(e) => r matches Err(x) && x@ == e,
            },
    {
        if let SolidityType::Null = self {
            return Ok(SolidityType::Null);
        }
        if let SolidityType::Null = rhs {
            return Ok(SolidityType::Null);
        }
        match (&self, &rhs) {
            (SolidityType::Uint(x), SolidityType::Uint(y)) => {
                if let Ordering::Equal = uint_cmp(y, &U256::from_u64(0)) {
                    Err(ValueError::DivisionByZero)
                } else {
                    Ok(SolidityType::Uint(uint_div(x, y)))
                }
            },
            _ => Err(ValueError::TypeMismatch(self.kind(), rhs.kind())),
        }
    }

    /// `self == other` between two integers or two addresses.
    pub fn try_eq(&self, other: &SolidityType) -> (r: Result<bool, ValueError>)
        ensures
            match equal_values(self@, other@) {
                Ok(b) => r == Ok::<bool, ValueError>(b),
                Err(e) => r matches Err(x) && x@ == e,
            },
    {
        match (self, other) {
            (SolidityType::Uint(x), SolidityType::Uint(y)) => match uint_cmp(x, y) {
                Ordering::Equal => Ok(true),
                _ => Ok(false),
            },
            (SolidityType::Address(x), SolidityType::Address(y)) => Ok(same_address(&x.bytes, &y.bytes)),
            _ => Err(ValueError::TypeMismatch(self.kind(), other.kind())),
        }
    }

    /// `self != other` between two integers or two addresses.
    pub fn try_ne(&self, other: &SolidityType) -> (r: Result<bool, ValueError>)
        ensures
            match equal_values(self@, other@) {
                Ok(b) => r == Ok::<bool, ValueError>(!b),
                Err(e) => r matches Err(x) && x@ == e,
            },
    {
        match self.try_eq(other) {
            Ok(b) => Ok(!b),
            Err(e) => Err(e),
        }
    }

    /// The order of two integers or two texts.
    pub fn try_cmp(&self, other: &SolidityType) -> (r: Result<Ordering, ValueError>)
        ensures
            match order_values(self@, other@) {
                Ok(o) => r == Ok::<Ordering, ValueError>(o),
                Err(e) => r matches Err(x) && x@ == e,
            },
    {
        match (self, other) {
            (SolidityType::Uint(x), SolidityType::Uint(y)) => Ok(uint_cmp(x, y)),
            (SolidityType::String(x), SolidityType::String(y)) => Ok(text_cmp(x, y)),
            _ => Err(ValueError::TypeMismatch(self.kind(), other.kind())),
        }
    }
}

} // verus!
