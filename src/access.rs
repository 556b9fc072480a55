//! Reading and writing the children of a value by key: a decimal index for
//! tuples and lists, a field name for structs.
use crate::encoding::digits_value;
use crate::value::{
    Fault, SolidityType, SolValue, ValueError, unique_names, well_formed, field_models, lemma_field_models,
    lemma_field_models_push, lemma_field_models_update, lemma_models, lemma_models_push,
    lemma_models_update, model, models,
};
use vstd::prelude::*;

verus! {

/// Nonempty text of ASCII decimal digits.
pub open spec fn is_decimal_text(k: Seq<char>) -> bool {
    k.len() > 0 && forall|i: int| 0 <= i < k.len() ==> '0' <= #[trigger] k[i] && k[i] <= '9'
}

/// The value of nonempty ASCII decimal digits.
pub open spec fn digits_index(k: Seq<char>) -> Option<nat> {
    if is_decimal_text(k) {
        digits_value(k, 10)
    } else {
        None
    }
}

/// A key without its one optional leading `+`.
pub open spec fn index_digits(k: Seq<char>) -> Seq<char> {
    if k.len() > 0 && k[0] == '+' {
        k.skip(1)
    } else {
        k
    }
}

/// The index that a key names in a tuple or list: decimal digits, after
/// one optional `+`, as `usize` text is read.
pub open spec fn decimal_index(k: Seq<char>) -> Option<nat> {
    digits_index(index_digits(k))
}

/// The first position whose field has the name `key`, if any.
pub open spec fn is_first_field(fs: Seq<(Seq<char>, SolValue)>, key: Seq<char>, j: int) -> bool {
    &&& 0 <= j < fs.len()
    &&& fs[j].0 == key
    &&& forall|k: int| 0 <= k < j ==> (#[trigger] fs[k]).0 != key
}

pub open spec fn field_position(fs: Seq<(Seq<char>, SolValue)>, key: Seq<char>) -> int {
    if exists|j: int| is_first_field(fs, key, j) {
        choose|j: int| is_first_field(fs, key, j)
    } else {
        -1
    }
}

/// The value of the field `key`, or `Null` where there is none.
pub open spec fn field_value(fs: Seq<(Seq<char>, SolValue)>, key: Seq<char>) -> SolValue {
    let p = field_position(fs, key);
    if p >= 0 {
        fs[p].1
    } else {
        SolValue::Null
    }
}

/// Fields with `key` set to `x`: replaced in place, or added at the end.
pub open spec fn upsert_field(fs: Seq<(Seq<char>, SolValue)>, key: Seq<char>, x: SolValue) -> Seq<
    (Seq<char>, SolValue),
> {
    let p = field_position(fs, key);
    if p >= 0 {
        fs.update(p, (key, x))
    } else {
        fs.push((key, x))
    }
}

/// Struct fields from member names and values; a repeated name keeps its
/// first place and its last value.
pub open spec fn fields_of(names: Seq<Seq<char>>, vs: Seq<SolValue>) -> Seq<(Seq<char>, SolValue)>
    decreases names.len(),
{
    if names.len() == 0 {
        Seq::empty()
    } else {
        upsert_field(fields_of(names.drop_last(), vs.drop_last()), names.last(), vs.last())
    }
}

/// The names of fields, in order.
pub open spec fn field_names(fs: Seq<(Seq<char>, SolValue)>) -> Seq<Seq<char>> {
    Seq::new(fs.len(), |i: int| fs[i].0)
}

/// The values of fields, in order.
pub open spec fn field_values(fs: Seq<(Seq<char>, SolValue)>) -> Seq<SolValue> {
    Seq::new(fs.len(), |i: int| fs[i].1)
}

/// Where names are unique, a name that is there is found at its place, and
/// a name that is not is found nowhere.
proof fn lemma_unique_position(fs: Seq<(Seq<char>, SolValue)>, key: Seq<char>)
    requires
        unique_names(fs),
    ensures
        forall|j: int| 0 <= j < fs.len() && fs[j].0 == key ==> field_position(fs, key) == j,
        (forall|j: int| 0 <= j < fs.len() ==> fs[j].0 != key) ==> field_position(fs, key) == -1,
{
    assert forall|j: int| 0 <= j < fs.len() && fs[j].0 == key implies field_position(fs, key)
        == j by {
        assert(is_first_field(fs, key, j));
        let p = field_position(fs, key);
        assert(is_first_field(fs, key, p));
        if p < j {
            assert(fs[p].0 == key);
        } else if p > j {
            assert(fs[j].0 != key);
        }
    }
}

/// Upserting keeps names unique and keeps every value well formed.
pub proof fn lemma_upsert_well_formed(fs: Seq<(Seq<char>, SolValue)>, key: Seq<char>, x: SolValue)
    requires
        unique_names(fs),
    ensures
        unique_names(upsert_field(fs, key, x)),
        (forall|i: int| 0 <= i < fs.len() ==> well_formed(#[trigger] fs[i].1)) && well_formed(x)
            ==> forall|i: int|
            0 <= i < upsert_field(fs, key, x).len() ==> well_formed(
                #[trigger] upsert_field(fs, key, x)[i].1,
            ),
{
    lemma_unique_position(fs, key);
    let p = field_position(fs, key);
    if p < 0 {
        assert(forall|j: int| 0 <= j < fs.len() ==> fs[j].0 != key) by {
            if exists|j: int| 0 <= j < fs.len() && fs[j].0 == key {
                let j = choose|j: int| 0 <= j < fs.len() && fs[j].0 == key;
                assert(field_position(fs, key) == j);
            }
        }
    } else {
        assert(is_first_field(fs, key, p));
    }
}

/// Fields built from names and values have unique names and well-formed
/// values where the values are well formed.
pub proof fn lemma_fields_of_well_formed(names: Seq<Seq<char>>, vs: Seq<SolValue>)
    requires
        names.len() == vs.len(),
        forall|i: int| 0 <= i < vs.len() ==> well_formed(#[trigger] vs[i]),
    ensures
        unique_names(fields_of(names, vs)),
        forall|i: int|
            0 <= i < fields_of(names, vs).len() ==> well_formed(#[trigger] fields_of(names, vs)[i].1),
    decreases names.len(),
{
    if names.len() > 0 {
        let d = vs.drop_last();
        assert(forall|i: int| 0 <= i < d.len() ==> d[i] == vs[i]);
        lemma_fields_of_well_formed(names.drop_last(), d);
        lemma_upsert_well_formed(fields_of(names.drop_last(), d), names.last(), vs.last());
    }
}

/// Building fields from the names and values of fields with unique names
/// gives those fields back.
pub proof fn lemma_fields_of_unique(fs: Seq<(Seq<char>, SolValue)>)
    requires
        unique_names(fs),
    ensures
        fields_of(field_names(fs), field_values(fs)) == fs,
    decreases fs.len(),
{
    if fs.len() == 0 {
        assert(fields_of(field_names(fs), field_values(fs)) =~= fs);
    } else {
        let init = fs.drop_last();
        let last = fs.last();
        lemma_fields_of_unique(init);
        assert(field_names(fs).drop_last() =~= field_names(init));
        assert(field_values(fs).drop_last() =~= field_values(init));
        lemma_unique_position(init, last.0);
        assert(forall|j: int| 0 <= j < init.len() ==> init[j].0 != last.0) by {
            assert(forall|j: int| 0 <= j < init.len() ==> init[j] == fs[j]);
        }
        assert(init.push((last.0, last.1)) =~= fs);
    }
}

/// Inserting a well-formed value into a well-formed value leaves it well
/// formed: struct field names stay unique.
pub proof fn law_insert_well_formed(v: SolValue, key: Seq<char>, x: SolValue)
    requires
        well_formed(v),
        well_formed(x),
    ensures
        insert_value(v, key, x) matches Ok(w) ==> well_formed(w),
{
    match v {
        SolValue::Struct(fs) => lemma_upsert_well_formed(fs, key, x),
        _ => {},
    }
}

/// What `get` reads: an element by index, `Null` past the end; a field by
/// name, `Null` when missing; `Null` from a scalar or `Null`.
pub open spec fn get_value(v: SolValue, key: Seq<char>) -> Result<SolValue, Fault> {
    match v {
        SolValue::Tuple(s) => get_element(s, key),
        SolValue::List(s) => get_element(s, key),
        SolValue::Struct(fs) => Ok(field_value(fs, key)),
        _ => Ok(SolValue::Null),
    }
}

pub open spec fn get_element(s: Seq<SolValue>, key: Seq<char>) -> Result<SolValue, Fault> {
    match decimal_index(key) {
        Some(i) => Ok(
            if i < s.len() {
                s[i as int]
            } else {
                SolValue::Null
            },
        ),
        None => Err(Fault::Key(key)),
    }
}

/// The elements after writing `x` at the position that `key` names: an
/// existing element is overwritten, the position just past the end appends.
pub open spec fn put_element(s: Seq<SolValue>, key: Seq<char>, x: SolValue) -> Result<
    Seq<SolValue>,
    Fault,
> {
    match decimal_index(key) {
        Some(i) => if i < s.len() {
            Ok(s.update(i as int, x))
        } else if i == s.len() {
            Ok(s.push(x))
        } else {
            Err(Fault::Key(key))
        },
        None => Err(Fault::Key(key)),
    }
}

/// What `insert` makes of a value; scalars and `Null` stay as they are.
pub open spec fn insert_value(v: SolValue, key: Seq<char>, x: SolValue) -> Result<
    SolValue,
    Fault,
> {
    match v {
        SolValue::Tuple(s) => match put_element(s, key, x) {
            Ok(t) => Ok(SolValue::Tuple(t)),
            Err(e) => Err(e),
        },
        SolValue::List(s) => match put_element(s, key, x) {
            Ok(t) => Ok(SolValue::List(t)),
            Err(e) => Err(e),
        },
        SolValue::Struct(fs) => Ok(SolValue::Struct(upsert_field(fs, key, x))),
        _ => Ok(v),
    }
}

proof fn lemma_digits_step(k: Seq<char>, i: int, v: nat)
    requires
        0 <= i < k.len(),
        '0' <= k[i] <= '9',
        digits_value(k.take(i), 10) == Some(v),
    ensures
        digits_value(k.take(i + 1), 10) == Some((v * 10 + (k[i] as nat - '0' as nat)) as nat),
{
    let t = k.take(i + 1);
    assert(t.drop_last() =~= k.take(i));
    assert(t.subrange(0, t.len() - 1) =~= k.take(i));
}

/// Decimal text always has a value.
pub proof fn lemma_decimal_text_value(k: Seq<char>)
    requires
        forall|i: int| 0 <= i < k.len() ==> '0' <= #[trigger] k[i] && k[i] <= '9',
    ensures
        digits_value(k, 10) is Some,
    decreases k.len(),
{
    if k.len() > 0 {
        let d = k.drop_last();
        assert(forall|i: int| 0 <= i < d.len() ==> d[i] == k[i]);
        lemma_decimal_text_value(d);
    }
}

/// Reads decimal digits: `None` unless they are nonempty ASCII digits;
/// `Some(None)` for a value beyond `usize`.
pub fn parse_digits(key: &str) -> (r: Option<Option<usize>>)
    ensures
        r is None <==> digits_index(key@) is None,
        r matches Some(Some(i)) ==> digits_index(key@) == Some(i as nat),
        r matches Some(None) ==> digits_index(key@)->0 > usize::MAX,
{
    let n = key.unicode_len();
    if n == 0 {
        return None;
    }
    let mut acc: usize = 0;
    let mut big = false;
    let ghost mut v: nat = 0;
    let mut i: usize = 0;
    while i < n
        invariant
            n == key@.len(),
            i <= n,
            forall|j: int| 0 <= j < i ==> '0' <= #[trigger] key@[j] && key@[j] <= '9',
            digits_value(key@.take(i as int), 10) == Some(v),
            !big ==> acc == v,
            big ==> v > usize::MAX,
        decreases n - i,
    {
        let c = key.get_char(i);
        if c < '0' || c > '9' {
            return None;
        }
        let d = (c as u32 - '0' as u32) as usize;
        proof {
            lemma_digits_step(key@, i as int, v);
        }
        if !big {
            if acc > (usize::MAX - d) / 10 {
                big = true;
            } else {
                acc = acc * 10 + d;
            }
        }
        proof {
            v = v * 10 + d as nat;
        }
        i = i + 1;
    }
    assert(key@.take(n as int) =~= key@);
    if big {
        Some(None)
    } else {
        Some(Some(acc))
    }
}

/// Reads a key as an index, as `decimal_index` describes it: `None` unless
/// it is decimal digits after one optional `+`; `Some(None)` for an index
/// beyond `usize`.
pub fn parse_index(key: &str) -> (r: Option<Option<usize>>)
    ensures
        r is None <==> decimal_index(key@) is None,
        r matches Some(Some(i)) ==> decimal_index(key@) == Some(i as nat),
        r matches Some(None) ==> decimal_index(key@)->0 > usize::MAX,
{
    let n = key.unicode_len();
    if n > 0 && key.get_char(0) == '+' {
        let digits = key.substring_char(1, n);
        assert(digits@ =~= key@.skip(1));
        parse_digits(digits)
    } else {
        parse_digits(key)
    }
}

/// The first position of the field `key`, as `field_position` describes it.
fn find_field(fs: &Vec<(String, SolidityType)>, key: &str) -> (r: Option<usize>)
    ensures
        r matches Some(j) ==> field_position(field_models(fs@), key@) == j,
        r is None ==> field_position(field_models(fs@), key@) == -1,
{
    proof {
        lemma_field_models(fs@);
    }
    let ghost m = field_models(fs@);
    let wanted = key.to_string();
    let mut i: usize = 0;
    while i < fs.len()
        invariant
            wanted@ == key@,
            i <= fs.len(),
            m == field_models(fs@),
            m.len() == fs@.len(),
            forall|j: int| 0 <= j < fs@.len() ==> #[trigger] m[j] == (fs@[j].0@, model(fs@[j].1)),
            forall|j: int| 0 <= j < i ==> (#[trigger] m[j]).0 != key@,
        decreases fs.len() - i,
    {
        if fs[i].0 == wanted {
            assert(is_first_field(m, key@, i as int));
            let ghost p = field_position(m, key@);
            assert(is_first_field(m, key@, p));
            assert(p == i) by {
                if p < i {
                    assert(m[p].0 != key@);
                } else if p > i {
                    assert(m[i as int].0 != key@);
                }
            }
            return Some(i);
        }
        i = i + 1;
    }
    assert(!exists|j: int| is_first_field(m, key@, j));
    None
}

/// Whether a field named `key` is there.
pub fn has_field(fs: &Vec<(String, SolidityType)>, key: &str) -> (r: bool)
    ensures
        r == (field_position(field_models(fs@), key@) >= 0),
{
    match find_field(fs, key) {
        Some(_) => true,
        None => false,
    }
}

fn get_from(xs: &Vec<SolidityType>, key: &str) -> (r: Result<SolidityType, ValueError>)
    ensures
        match get_element(models(xs@), key@) {
            Ok(v) => r matches Ok(x) && x@ == v,
            Err(e) => r matches Err(x) && x@ == e,
        },
{
    proof {
        lemma_models(xs@);
    }
    match parse_index(key) {
        None => Err(ValueError::Key(key.to_string())),
        Some(Some(i)) => {
            if i < xs.len() {
                Ok(xs[i].deep_clone())
            } else {
                Ok(SolidityType::Null)
            }
        },
        Some(None) => {
            assert(xs@.len() == xs.len());
            Ok(SolidityType::Null)
        },
    }
}

fn put_into(xs: &mut Vec<SolidityType>, key: &str, value: SolidityType) -> (r: Result<(), ValueError>)
    ensures
        match put_element(models(old(xs)@), key@, model(value)) {
            Ok(t) => r is Ok && models(final(xs)@) == t,
            Err(e) => r matches Err(x) && x@ == e && final(xs)@ == old(xs)@,
        },
{
    proof {
        lemma_models(xs@);
    }
    match parse_index(key) {
        None => Err(ValueError::Key(key.to_string())),
        Some(Some(i)) => {
            if i < xs.len() {
                proof {
                    lemma_models_update(xs@, i as int, value);
                }
                xs.set(i, value);
                Ok(())
            } else if i == xs.len() {
                proof {
                    lemma_models_push(xs@, value);
                }
                xs.push(value);
                Ok(())
            } else {
                Err(ValueError::Key(key.to_string()))
            }
        },
        Some(None) => {
            assert(xs@.len() == xs.len());
            Err(ValueError::Key(key.to_string()))
        },
    }
}

/// Map-like access to the children of a value.
pub trait MapLike {
    fn get(&self, key: &str) -> Result<SolidityType, ValueError>;

    fn insert(&mut self, key: &str, value: SolidityType) -> Result<(), ValueError>;
}

impl MapLike for SolidityType {
    fn get(&self, key: &str) -> (r: Result<SolidityType, ValueError>) {
        SolidityType::get(self, key)
    }

    fn insert(&mut self, key: &str, value: SolidityType) -> (r: Result<(), ValueError>) {
        SolidityType::insert(self, key, value)
    }
}

impl SolidityType {
    /// The child that `key` addresses.
    ///
    /// For a tuple or list the key is a decimal index, optionally after one
    /// `+`; an index past the end
    /// gives `Null`, a key that is no index gives `ValueError::Key` with the key. For a
    /// struct a missing field gives `Null`. A scalar or `Null` gives `Null`.
    pub fn get(&self, key: &str) -> (r: Result<SolidityType, ValueError>)
        ensures
            match get_value(self@, key@) {
                Ok(v) => r matches Ok(x) && x@ == v,
                Err(e) => r matches Err(x) && x@ == e,
            },
    {
        match self {
            SolidityType::Tuple(xs) => get_from(xs, key),
            SolidityType::List(xs) => get_from(xs, key),
            SolidityType::Struct(fs) => {
                proof {
                    lemma_field_models(fs@);
                }
                match find_field(fs, key) {
                    Some(j) => Ok(fs[j].1.deep_clone()),
                    None => Ok(SolidityType::Null),
                }
            },
            _ => Ok(SolidityType::Null),
        }
    }

    /// Writes `value` at `key`.
    ///
    /// In a tuple or list an existing element is overwritten and the index
    /// just past the end appends; any other index, or a key that is no index,
    /// gives `ValueError::Key` and leaves the value unchanged. In a struct the
    /// field is replaced or added. A scalar or `Null` is left as it is.
    pub fn insert(&mut self, key: &str, value: SolidityType) -> (r: Result<(), ValueError>)
        ensures
            match insert_value(old(self)@, key@, value@) {
                Ok(v) => r is Ok && final(self)@ == v,
                Err(e) => r matches Err(x) && x@ == e && final(self)@ == old(self)@,
            },
    {
        match self {
            SolidityType::Tuple(xs) => put_into(xs, key, value),
            SolidityType::List(xs) => put_into(xs, key, value),
            SolidityType::Struct(fs) => {
                proof {
                    lemma_field_models(fs@);
                }
                let ghost m = field_models(fs@);
                let ghost k = key@;
                match find_field(fs, key) {
                    Some(j) => {
                        let name = key.to_string();
                        proof {
                            lemma_field_models_update(fs@, j as int, (name, value));
                            assert(m.update(j as int, (k, model(value))) == upsert_field(m, k, model(value)));
                        }
                        fs.set(j, (name, value));
                    },
                    None => {
                        let name = key.to_string();
                        proof {
                            lemma_field_models_push(fs@, (name, value));
                        }
                        fs.push((name, value));
                    },
                }
                Ok(())
            },
            _ => Ok(()),
        }
    }
}

} // verus!
