//! The dynamic value itself, its mathematical model, and the errors that
//! operations on it report.
use crate::scalars::{Address, B256, U256};
use vstd::prelude::*;

verus! {

/// A decoded Solidity value whose type is known only at run time.
#[derive(Debug, PartialEq)]
pub enum SolidityType {
    Boolean(bool),
    Enum(u8),
    Uint(U256),
    Address(Address),
    ByteArray(Vec<u8>),
    FixedArray(B256),
    String(String),
    Tuple(Vec<SolidityType>),
    List(Vec<SolidityType>),
    Struct(Vec<(String, SolidityType)>),
    Null,
}

/// What a [`SolidityType`] stands for: integers as numbers, bytes and text as
/// sequences, and struct fields as an ordered sequence of name and value.
pub enum SolValue {
    Boolean(bool),
    Enum(u8),
    Uint(nat),
    Address(Seq<u8>),
    ByteArray(Seq<u8>),
    FixedArray(Seq<u8>),
    String(Seq<char>),
    Tuple(Seq<SolValue>),
    List(Seq<SolValue>),
    Struct(Seq<(Seq<char>, SolValue)>),
    Null,
}

/// The variant of a value, as errors name it.
#[derive(Clone, Copy, Debug, PartialEq, Eq, Structural)]
pub enum Kind {
    Boolean,
    Enum,
    Uint,
    Address,
    ByteArray,
    FixedArray,
    String,
    Tuple,
    List,
    Struct,
    Null,
}

/// Why an operation on values failed, with the key or the variants involved.
#[derive(Debug, PartialEq, Eq)]
pub enum ValueError {
    /// Text does not have the form of the kind it should hold.
    Parse,
    /// A binary operation is not defined on these two variants.
    TypeMismatch(Kind, Kind),
    /// The operation is not defined on this variant.
    Unsupported(Kind),
    /// The key cannot address the value.
    Key(String),
    /// Untyped input has no value kind.
    Guess,
    /// A field that is to be added is already there.
    Collision,
    /// An integer division by zero.
    DivisionByZero,
}

/// What a [`ValueError`] stands for.
pub enum Fault {
    Parse,
    TypeMismatch(Kind, Kind),
    Unsupported(Kind),
    Key(Seq<char>),
    Guess,
    Collision,
    DivisionByZero,
}

impl View for ValueError {
    type V = Fault;

    open spec fn view(&self) -> Fault {
        match self {
            ValueError::Parse => Fault::Parse,
            ValueError::TypeMismatch(a, b) => Fault::TypeMismatch(*a, *b),
            ValueError::Unsupported(k) => Fault::Unsupported(*k),
            ValueError::Key(k) => Fault::Key(k@),
            ValueError::Guess => Fault::Guess,
            ValueError::Collision => Fault::Collision,
            ValueError::DivisionByZero => Fault::DivisionByZero,
        }
    }
}

/// The variant of a value.
pub open spec fn kind_of(v: SolValue) -> Kind {
    match v {
        SolValue::Boolean(_) => Kind::Boolean,
        SolValue::Enum(_) => Kind::Enum,
        SolValue::Uint(_) => Kind::Uint,
        SolValue::Address(_) => Kind::Address,
        SolValue::ByteArray(_) => Kind::ByteArray,
        SolValue::FixedArray(_) => Kind::FixedArray,
        SolValue::String(_) => Kind::String,
        SolValue::Tuple(_) => Kind::Tuple,
        SolValue::List(_) => Kind::List,
        SolValue::Struct(_) => Kind::Struct,
        SolValue::Null => Kind::Null,
    }
}

/// Each field name of a struct once.
pub open spec fn unique_names(fs: Seq<(Seq<char>, SolValue)>) -> bool {
    forall|i: int, j: int| 0 <= i < j < fs.len() ==> fs[i].0 != fs[j].0
}

/// Every struct, at every depth, names each of its fields once.
pub open spec fn well_formed(v: SolValue) -> bool
    decreases v,
{
    match v {
        SolValue::Tuple(s) => forall|i: int| 0 <= i < s.len() ==> well_formed(#[trigger] s[i]),
        SolValue::List(s) => forall|i: int| 0 <= i < s.len() ==> well_formed(#[trigger] s[i]),
        SolValue::Struct(fs) => unique_names(fs) && forall|i: int|
            0 <= i < fs.len() ==> well_formed(#[trigger] fs[i].1),
        _ => true,
    }
}

pub open spec fn model(v: SolidityType) -> SolValue
    decreases v,
{
    match v {
        SolidityType::Boolean(b) => SolValue::Boolean(b),
        SolidityType::Enum(n) => SolValue::Enum(n),
        SolidityType::Uint(u) => SolValue::Uint(u.value()),
        SolidityType::Address(a) => SolValue::Address(a.bytes@),
        SolidityType::ByteArray(b) => SolValue::ByteArray(b@),
        SolidityType::FixedArray(w) => SolValue::FixedArray(w.bytes@),
        SolidityType::String(s) => SolValue::String(s@),
        SolidityType::Tuple(xs) => SolValue::Tuple(models(xs@)),
        SolidityType::List(xs) => SolValue::List(models(xs@)),
        SolidityType::Struct(fs) => SolValue::Struct(field_models(fs@)),
        SolidityType::Null => SolValue::Null,
    }
}

pub open spec fn models(s: Seq<SolidityType>) -> Seq<SolValue>
    decreases s,
{
    if s.len() == 0 {
        Seq::empty()
    } else {
        models(s.subrange(0, s.len() - 1)).push(model(s[s.len() - 1]))
    }
}

pub open spec fn field_models(s: Seq<(String, SolidityType)>) -> Seq<(Seq<char>, SolValue)>
    decreases s,
{
    if s.len() == 0 {
        Seq::empty()
    } else {
        field_models(s.subrange(0, s.len() - 1)).push(
            (s[s.len() - 1].0@, model(s[s.len() - 1].1)),
        )
    }
}

impl View for SolidityType {
    type V = SolValue;

    open spec fn view(&self) -> SolValue {
        model(*self)
    }
}

pub proof fn lemma_models(s: Seq<SolidityType>)
    ensures
        models(s).len() == s.len(),
        forall|i: int| 0 <= i < s.len() ==> #[trigger] models(s)[i] == model(s[i]),
    decreases s.len(),
{
    if s.len() > 0 {
        lemma_models(s.subrange(0, s.len() - 1));
    }
}

pub proof fn lemma_field_models(s: Seq<(String, SolidityType)>)
    ensures
        field_models(s).len() == s.len(),
        forall|i: int|
            0 <= i < s.len() ==> #[trigger] field_models(s)[i] == (s[i].0@, model(s[i].1)),
    decreases s.len(),
{
    if s.len() > 0 {
        lemma_field_models(s.subrange(0, s.len() - 1));
    }
}

/// Sequences with pointwise equal models have equal models.
pub proof fn lemma_models_eq(a: Seq<SolidityType>, b: Seq<SolidityType>)
    requires
        a.len() == b.len(),
        forall|i: int| 0 <= i < a.len() ==> model(#[trigger] a[i]) == model(b[i]),
    ensures
        models(a) == models(b),
{
    lemma_models(a);
    lemma_models(b);
    assert(models(a) =~= models(b));
}

pub proof fn lemma_models_update(s: Seq<SolidityType>, i: int, x: SolidityType)
    requires
        0 <= i < s.len(),
    ensures
        models(s.update(i, x)) == models(s).update(i, model(x)),
{
    lemma_models(s);
    lemma_models(s.update(i, x));
    assert(models(s.update(i, x)) =~= models(s).update(i, model(x)));
}

pub proof fn lemma_models_push(s: Seq<SolidityType>, x: SolidityType)
    ensures
        models(s.push(x)) == models(s).push(model(x)),
{
    lemma_models(s);
    lemma_models(s.push(x));
    assert(models(s.push(x)) =~= models(s).push(model(x)));
}

pub proof fn lemma_field_models_update(s: Seq<(String, SolidityType)>, i: int, x: (String, SolidityType))
    requires
        0 <= i < s.len(),
    ensures
        field_models(s.update(i, x)) == field_models(s).update(i, (x.0@, model(x.1))),
{
    lemma_field_models(s);
    lemma_field_models(s.update(i, x));
    assert(field_models(s.update(i, x)) =~= field_models(s).update(i, (x.0@, model(x.1))));
}

pub proof fn lemma_field_models_push(s: Seq<(String, SolidityType)>, x: (String, SolidityType))
    ensures
        field_models(s.push(x)) == field_models(s).push((x.0@, model(x.1))),
{
    lemma_field_models(s);
    lemma_field_models(s.push(x));
    assert(field_models(s.push(x)) =~= field_models(s).push((x.0@, model(x.1))));
}

impl SolidityType {
    /// A copy of the value, child by child.
    pub fn deep_clone(&self) -> (r: SolidityType)
        ensures
            r@ == self@,
        decreases self,
    {
        match self {
            SolidityType::Boolean(b) => SolidityType::Boolean(*b),
            SolidityType::Enum(n) => SolidityType::Enum(*n),
            SolidityType::Uint(u) => SolidityType::Uint(*u),
            SolidityType::Address(a) => SolidityType::Address(*a),
            SolidityType::ByteArray(b) => SolidityType::ByteArray(copy_bytes(b)),
            SolidityType::FixedArray(w) => SolidityType::FixedArray(*w),
            SolidityType::String(s) => SolidityType::String(s.clone()),
            SolidityType::Tuple(xs) => SolidityType::Tuple(clone_all(xs)),
            SolidityType::List(xs) => SolidityType::List(clone_all(xs)),
            SolidityType::Struct(fs) => SolidityType::Struct(clone_fields(fs)),
            SolidityType::Null => SolidityType::Null,
        }
    }
}

impl SolidityType {
    /// The variant of the value.
    pub fn kind(&self) -> (r: Kind)
        ensures
            r == kind_of(self@),
    {
        match self {
            SolidityType::Boolean(_) => Kind::Boolean,
            SolidityType::Enum(_) => Kind::Enum,
            SolidityType::Uint(_) => Kind::Uint,
            SolidityType::Address(_) => Kind::Address,
            SolidityType::ByteArray(_) => Kind::ByteArray,
            SolidityType::FixedArray(_) => Kind::FixedArray,
            SolidityType::String(_) => Kind::String,
            SolidityType::Tuple(_) => Kind::Tuple,
            SolidityType::List(_) => Kind::List,
            SolidityType::Struct(_) => Kind::Struct,
            SolidityType::Null => Kind::Null,
        }
    }

    /// The boolean a `Boolean` holds; `None` for any other variant.
    pub fn as_bool(&self) -> (r: Option<bool>)
        ensures
            match self@ {
                SolValue::Boolean(b) => r == Some(b),
                _ => r is None,
            },
    {
        match self {
            SolidityType::Boolean(b) => Some(*b),
            _ => None,
        }
    }

    /// Bytes as a value: exactly 32 bytes make a word, any other length a
    /// byte sequence.
    pub fn from_bytes(value: Vec<u8>) -> (r: SolidityType)
        ensures
            r@ == if value@.len() == 32 {
                SolValue::FixedArray(value@)
            } else {
                SolValue::ByteArray(value@)
            },
    {
        if value.len() == 32 {
            let mut word = [0u8; 32];
            let mut i: usize = 0;
            while i < 32
                invariant
                    i <= 32,
                    value@.len() == 32,
                    forall|j: int| 0 <= j < i ==> word@[j] == value@[j],
                decreases 32 - i,
            {
                word[i] = value[i];
                i = i + 1;
            }
            assert(word@ =~= value@);
            SolidityType::FixedArray(B256 { bytes: word })
        } else {
            SolidityType::ByteArray(value)
        }
    }
}

fn copy_bytes(b: &Vec<u8>) -> (r: Vec<u8>)
    ensures
        r@ == b@,
{
    let mut out: Vec<u8> = Vec::new();
    let mut i: usize = 0;
    while i < b.len()
        invariant
            i <= b.len(),
            out@ == b@.take(i as int),
        decreases b.len() - i,
    {
        out.push(b[i]);
        i = i + 1;
        assert(out@ =~= b@.take(i as int));
    }
    assert(b@.take(b.len() as int) =~= b@);
    out
}

fn clone_all(xs: &Vec<SolidityType>) -> (r: Vec<SolidityType>)
    ensures
        models(r@) == models(xs@),
    decreases xs, 0nat,
{
    let mut out: Vec<SolidityType> = Vec::new();
    let mut i: usize = 0;
    while i < xs.len()
        invariant
            i <= xs.len(),
            out@.len() == i,
            forall|j: int| 0 <= j < i ==> model(#[trigger] out@[j]) == model(xs@[j]),
        decreases xs.len() - i,
    {
        proof {
            assert(decreases_to!(xs => xs[i as int]));
        }
        let c = xs[i].deep_clone();
        out.push(c);
        i = i + 1;
    }
    proof {
        lemma_models_eq(out@, xs@);
    }
    out
}

fn clone_fields(fs: &Vec<(String, SolidityType)>) -> (r: Vec<(String, SolidityType)>)
    ensures
        field_models(r@) == field_models(fs@),
    decreases fs, 0nat,
{
    let mut out: Vec<(String, SolidityType)> = Vec::new();
    let mut i: usize = 0;
    while i < fs.len()
        invariant
            i <= fs.len(),
            out@.len() == i,
            forall|j: int|
                0 <= j < i ==> (#[trigger] out@[j]).0@ == fs@[j].0@ && model(out@[j].1) == model(
                    fs@[j].1,
                ),
        decreases fs.len() - i,
    {
        proof {
            assert(decreases_to!(fs => fs[i as int]));
        }
        let name = fs[i].0.clone();
        let c = fs[i].1.deep_clone();
        out.push((name, c));
        i = i + 1;
    }
    proof {
        lemma_field_models(out@);
        lemma_field_models(fs@);
        assert(field_models(out@) =~= field_models(fs@));
    }
    out
}

} // verus!
