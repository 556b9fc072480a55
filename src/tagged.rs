//! The self-describing JSON form of a value, `{"type": <kind>, "value":
//! <payload>}`, and the bridge from store documents back to values.
use crate::encoding::{
    decimal_of, hex_decode, lemma_hex_round_trip, lemma_uint_text_round_trip, pow256, pow64,
    prefixed_hex, uint_text_value,
};
use crate::guess::guess;
use crate::json::{
    Json, JsonValue, json_field_models, json_model, json_models, lemma_json_field_models,
    lemma_json_field_models_push, lemma_json_models, lemma_json_models_push,
};
use crate::ops::{false_text, true_text};
use crate::scalars::{Address, B256, U256, bytes_from_text, bytes_hex, lemma_uint_bound};
use crate::access::{
    field_names, field_values, fields_of, lemma_fields_of_unique, lemma_fields_of_well_formed,
};
use crate::value::{
    Fault, Kind, SolidityType, SolValue, ValueError, field_models, lemma_field_models,
    lemma_field_models_push, lemma_models, lemma_models_push, model, models, well_formed,
};
use vstd::prelude::*;

verus! {

/// The kind name that the `type` member carries.
pub open spec fn tag_of(v: SolValue) -> Seq<char> {
    match v {
        SolValue::Boolean(_) => "boolean"@,
        SolValue::Enum(_) => "enum"@,
        SolValue::Uint(_) => "uint"@,
        SolValue::Address(_) => "address"@,
        SolValue::ByteArray(_) => "byteArray"@,
        SolValue::FixedArray(_) => "fixedArray"@,
        SolValue::String(_) => "string"@,
        SolValue::Tuple(_) => "tuple"@,
        SolValue::List(_) => "list"@,
        SolValue::Struct(_) => "struct"@,
        SolValue::Null => Seq::empty(),
    }
}

/// The payload text of a scalar: `true`/`false`, decimal digits, or
/// `0x`-prefixed lowercase hexadecimal.
pub open spec fn payload_text(v: SolValue) -> Seq<char> {
    match v {
        SolValue::Boolean(b) => if b {
            true_text()
        } else {
            false_text()
        },
        SolValue::Enum(n) => decimal_of(n as nat),
        SolValue::Uint(n) => decimal_of(n),
        SolValue::Address(b) => prefixed_hex(b),
        SolValue::ByteArray(b) => prefixed_hex(b),
        SolValue::FixedArray(b) => prefixed_hex(b),
        SolValue::String(s) => s,
        _ => Seq::empty(),
    }
}

pub open spec fn tagged(tag: Seq<char>, payload: Json) -> Json {
    Json::Object(seq![("type"@, Json::String(tag)), ("value"@, payload)])
}

/// The tagged form of a value; `None` when it holds a `Null` anywhere.
pub open spec fn encode(v: SolValue) -> Option<Json>
    decreases v,
{
    match v {
        SolValue::Null => None,
        SolValue::Tuple(s) => match encode_all(s) {
            Some(js) => Some(tagged(tag_of(v), Json::Array(js))),
            None => None,
        },
        SolValue::List(s) => match encode_all(s) {
            Some(js) => Some(tagged(tag_of(v), Json::Array(js))),
            None => None,
        },
        SolValue::Struct(fs) => match encode_members(fs) {
            Some(ms) => Some(tagged(tag_of(v), Json::Object(ms))),
            None => None,
        },
        _ => Some(tagged(tag_of(v), Json::String(payload_text(v)))),
    }
}

pub open spec fn encode_all(s: Seq<SolValue>) -> Option<Seq<Json>>
    decreases s,
{
    if s.len() == 0 {
        Some(Seq::empty())
    } else {
        match (encode_all(s.subrange(0, s.len() - 1)), encode(s[s.len() - 1])) {
            (Some(js), Some(j)) => Some(js.push(j)),
            _ => None,
        }
    }
}

pub open spec fn encode_members(fs: Seq<(Seq<char>, SolValue)>) -> Option<Seq<(Seq<char>, Json)>>
    decreases fs,
{
    if fs.len() == 0 {
        Some(Seq::empty())
    } else {
        match (encode_members(fs.subrange(0, fs.len() - 1)), encode(fs[fs.len() - 1].1)) {
            (Some(ms), Some(j)) => Some(ms.push((fs[fs.len() - 1].0, j))),
            _ => None,
        }
    }
}

/// The first member named `key`, if any.
pub open spec fn is_first_member(fs: Seq<(Seq<char>, Json)>, key: Seq<char>, j: int) -> bool {
    &&& 0 <= j < fs.len()
    &&& fs[j].0 == key
    &&& forall|k: int| 0 <= k < j ==> (#[trigger] fs[k]).0 != key
}

pub open spec fn member_position(fs: Seq<(Seq<char>, Json)>, key: Seq<char>) -> int {
    if exists|j: int| is_first_member(fs, key, j) {
        choose|j: int| is_first_member(fs, key, j)
    } else {
        -1
    }
}

/// The value a tagged document stands for: the `type` member, a string,
/// names the kind and the `value` member holds the payload.
pub open spec fn decode(j: Json) -> Result<SolValue, Fault>
    decreases j,
{
    match j {
        Json::Object(fs) => {
            let t = member_position(fs, "type"@);
            let p = member_position(fs, "value"@);
            if 0 <= t < fs.len() && 0 <= p < fs.len() {
                match fs[t].1 {
                    Json::String(tag) => decode_payload(tag, fs[p].1),
                    _ => Err(Fault::Parse),
                }
            } else {
                Err(Fault::Parse)
            }
        },
        _ => Err(Fault::Parse),
    }
}

/// A payload read as the kind `tag` names; an unknown kind, or a payload
/// of the wrong shape or text, is `ValueError::Parse`. A struct member name
/// that repeats keeps its first place and its last value.
pub open spec fn decode_payload(tag: Seq<char>, p: Json) -> Result<SolValue, Fault>
    decreases p,
{
    if tag == "tuple"@ || tag == "list"@ {
        match p {
            Json::Array(xs) => match decode_all(xs) {
                Ok(vs) => Ok(
                    if tag == "tuple"@ {
                        SolValue::Tuple(vs)
                    } else {
                        SolValue::List(vs)
                    },
                ),
                Err(e) => Err(e),
            },
            _ => Err(Fault::Parse),
        }
    } else if tag == "struct"@ {
        match p {
            Json::Object(ms) => match decode_members(ms) {
                Ok(fs) => Ok(SolValue::Struct(fields_of(field_names(fs), field_values(fs)))),
                Err(e) => Err(e),
            },
            _ => Err(Fault::Parse),
        }
    } else {
        match p {
            Json::String(s) => decode_scalar(tag, s),
            _ => Err(Fault::Parse),
        }
    }
}

/// Scalar payload text read as the kind `tag` names.
pub open spec fn decode_scalar(tag: Seq<char>, s: Seq<char>) -> Result<SolValue, Fault> {
    if tag == "boolean"@ {
        if s == true_text() {
            Ok(SolValue::Boolean(true))
        } else if s == false_text() {
            Ok(SolValue::Boolean(false))
        } else {
            Err(Fault::Parse)
        }
    } else if tag == "enum"@ {
        match uint_text_value(s) {
            Some(n) => if n < 256 {
                Ok(SolValue::Enum(n as u8))
            } else {
                Err(Fault::Parse)
            },
            None => Err(Fault::Parse),
        }
    } else if tag == "uint"@ {
        match uint_text_value(s) {
            Some(n) => Ok(SolValue::Uint(n)),
            None => Err(Fault::Parse),
        }
    } else if tag == "address"@ || tag == "fixedArray"@ || tag == "byteArray"@ {
        match hex_decode(s) {
            Some(b) => if tag == "address"@ {
                if b.len() == 20 {
                    Ok(SolValue::Address(b))
                } else {
                    Err(Fault::Parse)
                }
            } else if tag == "fixedArray"@ {
                if b.len() == 32 {
                    Ok(SolValue::FixedArray(b))
                } else {
                    Err(Fault::Parse)
                }
            } else {
                Ok(SolValue::ByteArray(b))
            },
            None => Err(Fault::Parse),
        }
    } else if tag == "string"@ {
        Ok(SolValue::String(s))
    } else {
        Err(Fault::Parse)
    }
}

pub open spec fn decode_all(xs: Seq<Json>) -> Result<Seq<SolValue>, Fault>
    decreases xs,
{
    if xs.len() == 0 {
        Ok(Seq::empty())
    } else {
        match decode_all(xs.subrange(0, xs.len() - 1)) {
            Ok(vs) => match decode(xs[xs.len() - 1]) {
                Ok(v) => Ok(vs.push(v)),
                Err(e) => Err(e),
            },
            Err(e) => Err(e),
        }
    }
}

pub open spec fn decode_members(ms: Seq<(Seq<char>, Json)>) -> Result<
    Seq<(Seq<char>, SolValue)>,
    Fault,
>
    decreases ms,
{
    if ms.len() == 0 {
        Ok(Seq::empty())
    } else {
        match decode_members(ms.subrange(0, ms.len() - 1)) {
            Ok(fs) => match decode(ms[ms.len() - 1].1) {
                Ok(v) => Ok(fs.push((ms[ms.len() - 1].0, v))),
                Err(e) => Err(e),
            },
            Err(e) => Err(e),
        }
    }
}

/// A store document as a value: its tagged reading where it has one, else
/// what the guesser takes it for.
pub open spec fn from_document(j: Json) -> Result<SolValue, Fault> {
    match decode(j) {
        Ok(v) => Ok(v),
        Err(_) => guess(j),
    }
}

/// A value with no `Null` anywhere in it.
pub open spec fn null_free(v: SolValue) -> bool
    decreases v,
{
    match v {
        SolValue::Null => false,
        SolValue::Tuple(s) => forall|i: int| 0 <= i < s.len() ==> null_free(#[trigger] s[i]),
        SolValue::List(s) => forall|i: int| 0 <= i < s.len() ==> null_free(#[trigger] s[i]),
        SolValue::Struct(fs) => forall|i: int| 0 <= i < fs.len() ==> null_free(#[trigger] fs[i].1),
        _ => true,
    }
}

/// Integers below 2^256, addresses of 20 bytes and words of 32 bytes, at
/// every depth: what every [`SolidityType`] stands for.
pub open spec fn in_range(v: SolValue) -> bool
    decreases v,
{
    match v {
        SolValue::Uint(n) => n < pow256(),
        SolValue::Address(b) => b.len() == 20,
        SolValue::FixedArray(b) => b.len() == 32,
        SolValue::Tuple(s) => forall|i: int| 0 <= i < s.len() ==> in_range(#[trigger] s[i]),
        SolValue::List(s) => forall|i: int| 0 <= i < s.len() ==> in_range(#[trigger] s[i]),
        SolValue::Struct(fs) => forall|i: int| 0 <= i < fs.len() ==> in_range(#[trigger] fs[i].1),
        _ => true,
    }
}

/// Every value's model is in range.
pub proof fn lemma_in_range(x: SolidityType)
    ensures
        in_range(x@),
    decreases x,
{
    match x {
        SolidityType::Uint(u) => lemma_uint_bound(u),
        SolidityType::Tuple(xs) => {
            lemma_models(xs@);
            assert forall|i: int| 0 <= i < xs@.len() implies in_range(#[trigger] models(xs@)[i]) by {
                assert(decreases_to!(xs => xs[i]));
                lemma_in_range(xs@[i]);
            }
        },
        SolidityType::List(xs) => {
            lemma_models(xs@);
            assert forall|i: int| 0 <= i < xs@.len() implies in_range(#[trigger] models(xs@)[i]) by {
                assert(decreases_to!(xs => xs[i]));
                lemma_in_range(xs@[i]);
            }
        },
        SolidityType::Struct(fs) => {
            lemma_field_models(fs@);
            assert forall|i: int| 0 <= i < fs@.len() implies in_range(
                #[trigger] field_models(fs@)[i].1,
            ) by {
                assert(decreases_to!(fs => fs[i]));
                lemma_in_range(fs@[i].1);
            }
        },
        _ => {},
    }
}

proof fn lemma_literals()
    ensures
        "type"@ != "value"@,
        "tuple"@ != "list"@,
        "boolean"@ != "tuple"@ && "boolean"@ != "list"@ && "boolean"@ != "struct"@,
        "enum"@ != "tuple"@ && "enum"@ != "list"@ && "enum"@ != "struct"@ && "enum"@ != "boolean"@,
        "uint"@ != "tuple"@ && "uint"@ != "list"@ && "uint"@ != "struct"@ && "uint"@ != "boolean"@
            && "uint"@ != "enum"@,
        "address"@ != "tuple"@ && "address"@ != "list"@ && "address"@ != "struct"@ && "address"@
            != "boolean"@ && "address"@ != "enum"@ && "address"@ != "uint"@,
        "fixedArray"@ != "tuple"@ && "fixedArray"@ != "list"@ && "fixedArray"@ != "struct"@
            && "fixedArray"@ != "boolean"@ && "fixedArray"@ != "enum"@ && "fixedArray"@ != "uint"@
            && "fixedArray"@ != "address"@,
        "byteArray"@ != "tuple"@ && "byteArray"@ != "list"@ && "byteArray"@ != "struct"@
            && "byteArray"@ != "boolean"@ && "byteArray"@ != "enum"@ && "byteArray"@ != "uint"@
            && "byteArray"@ != "address"@ && "byteArray"@ != "fixedArray"@,
        "string"@ != "tuple"@ && "string"@ != "list"@ && "string"@ != "struct"@ && "string"@
            != "boolean"@ && "string"@ != "enum"@ && "string"@ != "uint"@ && "string"@
            != "address"@ && "string"@ != "fixedArray"@ && "string"@ != "byteArray"@,
        "struct"@ != "tuple"@ && "struct"@ != "list"@,
        true_text() != false_text(),
{
    reveal_strlit("type");
    reveal_strlit("value");
    reveal_strlit("boolean");
    reveal_strlit("enum");
    reveal_strlit("uint");
    reveal_strlit("address");
    reveal_strlit("byteArray");
    reveal_strlit("fixedArray");
    reveal_strlit("string");
    reveal_strlit("tuple");
    reveal_strlit("list");
    reveal_strlit("struct");
    assert(true_text()[0] != false_text()[0]);
    assert("type"@[0] != "value"@[0]);
    assert("tuple"@[0] != "list"@[0]);
    assert("struct"@[0] != "tuple"@[0]);
    assert("enum"@[0] != "uint"@[0]);
    assert("boolean"@[0] != "address"@[0]);
    assert("string"@[3] != "struct"@[3]);
    assert("byteArray"@.len() == 9);
    assert("fixedArray"@.len() == 10);
    assert("boolean"@.len() == 7 && "address"@.len() == 7 && "struct"@.len() == 6);
    assert("tuple"@.len() == 5 && "list"@.len() == 4 && "enum"@.len() == 4 && "uint"@.len() == 4);
}

proof fn lemma_tagged_members(tag: Seq<char>, payload: Json)
    ensures
        tagged(tag, payload) matches Json::Object(fs) && member_position(fs, "type"@) == 0
            && member_position(fs, "value"@) == 1 && fs.len() == 2 && fs[0].1 == Json::String(tag)
            && fs[1].1 == payload,
{
    lemma_literals();
    let fs = seq![("type"@, Json::String(tag)), ("value"@, payload)];
    assert(is_first_member(fs, "type"@, 0));
    assert(is_first_member(fs, "value"@, 1));
    let t = member_position(fs, "type"@);
    let p = member_position(fs, "value"@);
    assert(is_first_member(fs, "type"@, t));
    assert(is_first_member(fs, "value"@, p));
    assert(t == 0) by {
        if t != 0 {
            assert(fs[0].0 != "type"@);
        }
    }
    assert(p == 1) by {
        if p == 0 {
            assert(fs[0].0 == "value"@);
        }
    }
}

proof fn lemma_round_trip(v: SolValue)
    requires
        in_range(v),
        null_free(v),
        well_formed(v),
    ensures
        encode(v) matches Some(j) && decode(j) == Ok::<SolValue, Fault>(v),
    decreases v,
{
    lemma_literals();
    match v {
        SolValue::Tuple(s) => {
            lemma_round_trip_all(s);
            lemma_tagged_members(tag_of(v), Json::Array(encode_all(s)->0));
        },
        SolValue::List(s) => {
            lemma_round_trip_all(s);
            lemma_tagged_members(tag_of(v), Json::Array(encode_all(s)->0));
        },
        SolValue::Struct(fs) => {
            lemma_round_trip_members(fs);
            lemma_fields_of_unique(fs);
            lemma_tagged_members(tag_of(v), Json::Object(encode_members(fs)->0));
        },
        SolValue::Null => {},
        _ => {
            lemma_tagged_members(tag_of(v), Json::String(payload_text(v)));
            match v {
                SolValue::Enum(n) => lemma_uint_text_round_trip(n as nat),
                SolValue::Uint(n) => lemma_uint_text_round_trip(n),
                SolValue::Address(b) => lemma_hex_round_trip(b),
                SolValue::ByteArray(b) => lemma_hex_round_trip(b),
                SolValue::FixedArray(b) => lemma_hex_round_trip(b),
                _ => {},
            }
        },
    }
}

proof fn lemma_round_trip_all(s: Seq<SolValue>)
    requires
        forall|i: int| 0 <= i < s.len() ==> in_range(#[trigger] s[i]),
        forall|i: int| 0 <= i < s.len() ==> null_free(#[trigger] s[i]),
        forall|i: int| 0 <= i < s.len() ==> well_formed(#[trigger] s[i]),
    ensures
        encode_all(s) matches Some(js) && decode_all(js) == Ok::<Seq<SolValue>, Fault>(s),
    decreases s,
{
    if s.len() > 0 {
        let init = s.subrange(0, s.len() - 1);
        let last = s[s.len() - 1];
        assert(forall|i: int| 0 <= i < init.len() ==> init[i] == s[i]);
        lemma_round_trip_all(init);
        lemma_round_trip(last);
        let js = encode_all(init)->0;
        let j = encode(last)->0;
        let q = js.push(j);
        assert(q.subrange(0, q.len() - 1) =~= js);
        assert(init.push(last) =~= s);
    } else {
        assert(s =~= Seq::<SolValue>::empty());
    }
}

proof fn lemma_round_trip_members(fs: Seq<(Seq<char>, SolValue)>)
    requires
        forall|i: int| 0 <= i < fs.len() ==> in_range(#[trigger] fs[i].1),
        forall|i: int| 0 <= i < fs.len() ==> null_free(#[trigger] fs[i].1),
        forall|i: int| 0 <= i < fs.len() ==> well_formed(#[trigger] fs[i].1),
    ensures
        encode_members(fs) matches Some(ms) && decode_members(ms) == Ok::<
            Seq<(Seq<char>, SolValue)>,
            Fault,
        >(fs),
    decreases fs,
{
    if fs.len() > 0 {
        let init = fs.subrange(0, fs.len() - 1);
        let last = fs[fs.len() - 1];
        assert(forall|i: int| 0 <= i < init.len() ==> init[i] == fs[i]);
        lemma_round_trip_members(init);
        lemma_round_trip(last.1);
        let ms = encode_members(init)->0;
        let j = encode(last.1)->0;
        let q = ms.push((last.0, j));
        assert(q.subrange(0, q.len() - 1) =~= ms);
        assert(init.push((last.0, last.1)) =~= fs);
    } else {
        assert(fs =~= Seq::<(Seq<char>, SolValue)>::empty());
    }
}

/// Decoding the tagged form of a value gives the value back, for every
/// well-formed value with no `Null` in it; such a value always has a tagged
/// form.
pub proof fn law_tagged_round_trip(x: SolidityType)
    requires
        null_free(x@),
        well_formed(x@),
    ensures
        encode(x@) matches Some(j) && decode(j) == Ok::<SolValue, Fault>(x@),
{
    lemma_in_range(x);
    lemma_round_trip(x@);
}

/// Every value that tagged decoding produces is well formed: struct field
/// names are unique at every depth.
pub proof fn law_decode_well_formed(j: Json)
    ensures
        decode(j) matches Ok(v) ==> well_formed(v),
    decreases j,
{
    match j {
        Json::Object(fs) => {
            let t = member_position(fs, "type"@);
            let p = member_position(fs, "value"@);
            if 0 <= t < fs.len() && 0 <= p < fs.len() {
                match fs[t].1 {
                    Json::String(tag) => lemma_decode_payload_well_formed(tag, fs[p].1),
                    _ => {},
                }
            }
        },
        _ => {},
    }
}

proof fn lemma_decode_payload_well_formed(tag: Seq<char>, p: Json)
    ensures
        decode_payload(tag, p) matches Ok(v) ==> well_formed(v),
    decreases p,
{
    match p {
        Json::Array(xs) => lemma_decode_all_well_formed(xs),
        Json::Object(ms) => {
            lemma_decode_members_well_formed(ms);
            if decode_members(ms) is Ok {
                let fs = decode_members(ms)->Ok_0;
                lemma_fields_of_well_formed(field_names(fs), field_values(fs));
            }
        },
        _ => {},
    }
}

proof fn lemma_decode_all_well_formed(xs: Seq<Json>)
    ensures
        decode_all(xs) matches Ok(vs) ==> forall|i: int| 0 <= i < vs.len() ==> well_formed(#[trigger] vs[i]),
    decreases xs,
{
    if xs.len() > 0 {
        lemma_decode_all_well_formed(xs.subrange(0, xs.len() - 1));
        law_decode_well_formed(xs[xs.len() - 1]);
    }
}

proof fn lemma_decode_members_well_formed(ms: Seq<(Seq<char>, Json)>)
    ensures
        decode_members(ms) matches Ok(fs) ==> forall|i: int|
            0 <= i < fs.len() ==> well_formed(#[trigger] fs[i].1),
    decreases ms,
{
    if ms.len() > 0 {
        lemma_decode_members_well_formed(ms.subrange(0, ms.len() - 1));
        law_decode_well_formed(ms[ms.len() - 1].1);
    }
}

/// A struct value from fields, as `fields_of` builds it.
fn struct_from_fields(fs: Vec<(String, SolidityType)>) -> (r: SolidityType)
    ensures
        r@ == SolValue::Struct(
            fields_of(field_names(field_models(fs@)), field_values(field_models(fs@))),
        ),
{
    proof {
        lemma_field_models(fs@);
        lemma_field_models(Seq::<(String, SolidityType)>::empty());
    }
    let ghost m = field_models(fs@);
    let n = fs.len();
    let mut st = SolidityType::Struct(Vec::new());
    assert(field_names(m).take(0) =~= Seq::<Seq<char>>::empty());
    assert(st@ == SolValue::Struct(Seq::empty()));
    let mut i: usize = 0;
    while i < n
        invariant
            i <= n,
            n == fs@.len(),
            m == field_models(fs@),
            m.len() == n,
            forall|j: int| 0 <= j < n ==> #[trigger] m[j] == (fs@[j].0@, model(fs@[j].1)),
            st@ == SolValue::Struct(
                fields_of(field_names(m).take(i as int), field_values(m).take(i as int)),
            ),
        decreases n - i,
    {
        let c = fs[i].1.deep_clone();
        let _ = st.insert(fs[i].0.as_str(), c);
        proof {
            let ns = field_names(m).take(i + 1);
            let ws = field_values(m).take(i + 1);
            assert(ns.drop_last() =~= field_names(m).take(i as int));
            assert(ws.drop_last() =~= field_values(m).take(i as int));
            assert(ns.last() == fs@[i as int].0@);
            assert(ws.last() == model(fs@[i as int].1));
        }
        i = i + 1;
    }
    proof {
        assert(field_names(m).take(n as int) =~= field_names(m));
        assert(field_values(m).take(n as int) =~= field_values(m));
    }
    st
}

proof fn lemma_encode_all_prefix(s: Seq<SolValue>, k: int)
    requires
        0 <= k <= s.len(),
        encode_all(s.subrange(0, k)) is None,
    ensures
        encode_all(s) is None,
    decreases s.len(),
{
    if s.len() > k {
        let d = s.subrange(0, s.len() - 1);
        assert(d.subrange(0, k) =~= s.subrange(0, k));
        lemma_encode_all_prefix(d, k);
    } else {
        assert(s.subrange(0, k) =~= s);
    }
}

proof fn lemma_encode_members_prefix(fs: Seq<(Seq<char>, SolValue)>, k: int)
    requires
        0 <= k <= fs.len(),
        encode_members(fs.subrange(0, k)) is None,
    ensures
        encode_members(fs) is None,
    decreases fs.len(),
{
    if fs.len() > k {
        let d = fs.subrange(0, fs.len() - 1);
        assert(d.subrange(0, k) =~= fs.subrange(0, k));
        lemma_encode_members_prefix(d, k);
    } else {
        assert(fs.subrange(0, k) =~= fs);
    }
}

proof fn lemma_decode_all_prefix(xs: Seq<Json>, k: int)
    requires
        0 <= k <= xs.len(),
        decode_all(xs.subrange(0, k)) is Err,
    ensures
        decode_all(xs) == decode_all(xs.subrange(0, k)),
    decreases xs.len(),
{
    if xs.len() > k {
        let d = xs.subrange(0, xs.len() - 1);
        assert(d.subrange(0, k) =~= xs.subrange(0, k));
        lemma_decode_all_prefix(d, k);
    } else {
        assert(xs.subrange(0, k) =~= xs);
    }
}

proof fn lemma_decode_members_prefix(ms: Seq<(Seq<char>, Json)>, k: int)
    requires
        0 <= k <= ms.len(),
        decode_members(ms.subrange(0, k)) is Err,
    ensures
        decode_members(ms) == decode_members(ms.subrange(0, k)),
    decreases ms.len(),
{
    if ms.len() > k {
        let d = ms.subrange(0, ms.len() - 1);
        assert(d.subrange(0, k) =~= ms.subrange(0, k));
        lemma_decode_members_prefix(d, k);
    } else {
        assert(ms.subrange(0, k) =~= ms);
    }
}

fn text_of(lit: &str) -> (r: String)
    ensures
        r@ == lit@,
{
    lit.to_string()
}

fn text_eq(s: &String, lit: &str) -> (r: bool)
    ensures
        r == (s@ == lit@),
{
    let t = lit.to_string();
    *s == t
}

fn tagged_json(tag: &str, payload: JsonValue) -> (r: JsonValue)
    ensures
        r@ == tagged(tag@, payload@),
{
    let mut fs: Vec<(String, JsonValue)> = Vec::new();
    let t = JsonValue::String(text_of(tag));
    fs.push((text_of("type"), t));
    fs.push((text_of("value"), payload));
    proof {
        lemma_json_field_models(fs@);
        assert(json_field_models(fs@) =~= seq![("type"@, Json::String(tag@)), ("value"@, payload@)]);
    }
    JsonValue::Object(fs)
}

fn tag_name(v: &SolidityType) -> (r: &'static str)
    ensures
        r@ == tag_of(v@),
{
    match v {
        SolidityType::Boolean(_) => "boolean",
        SolidityType::Enum(_) => "enum",
        SolidityType::Uint(_) => "uint",
        SolidityType::Address(_) => "address",
        SolidityType::ByteArray(_) => "byteArray",
        SolidityType::FixedArray(_) => "fixedArray",
        SolidityType::String(_) => "string",
        SolidityType::Tuple(_) => "tuple",
        SolidityType::List(_) => "list",
        SolidityType::Struct(_) => "struct",
        SolidityType::Null => {
            proof {
                reveal_strlit("");
            }
            assert(""@ =~= Seq::<char>::empty());
            ""
        },
    }
}

fn address_bytes(a: &Address) -> (r: Vec<u8>)
    ensures
        r@ == a.bytes@,
{
    let mut out: Vec<u8> = Vec::new();
    let mut i: usize = 0;
    while i < 20
        invariant
            i <= 20,
            out@ == a.bytes@.take(i as int),
        decreases 20 - i,
    {
        out.push(a.bytes[i]);
        i = i + 1;
        assert(out@ =~= a.bytes@.take(i as int));
    }
    assert(a.bytes@.take(20) =~= a.bytes@);
    out
}

fn payload_string(v: &SolidityType) -> (r: String)
    ensures
        r@ == payload_text(v@),
{
    match v {
        SolidityType::Boolean(b) => {
            proof {
                reveal_strlit("true");
                reveal_strlit("false");
            }
            if *b {
                let s = text_of("true");
                assert(s@ =~= true_text());
                s
            } else {
                let s = text_of("false");
                assert(s@ =~= false_text());
                s
            }
        },
        SolidityType::Enum(n) => U256::from_u64(*n as u64).to_decimal(),
        SolidityType::Uint(u) => u.to_decimal(),
        SolidityType::Address(a) => bytes_hex(&address_bytes(a)),
        SolidityType::ByteArray(b) => bytes_hex(b),
        SolidityType::FixedArray(w) => w.to_hex(),
        SolidityType::String(s) => s.clone(),
        _ => String::new(),
    }
}

fn encode_elements(xs: &Vec<SolidityType>) -> (r: Result<Vec<JsonValue>, ValueError>)
    ensures
        match encode_all(models(xs@)) {
            Some(js) => r matches Ok(x) && json_models(x@) == js,
            None => r matches Err(x) && x@ == Fault::Unsupported(Kind::Null),
        },
    decreases xs, 0nat,
{
    proof {
        lemma_models(xs@);
    }
    let ghost m = models(xs@);
    let mut out: Vec<JsonValue> = Vec::new();
    let mut i: usize = 0;
    assert(m.subrange(0, 0) =~= Seq::<SolValue>::empty());
    while i < xs.len()
        invariant
            i <= xs.len(),
            m == models(xs@),
            m.len() == xs@.len(),
            forall|j: int| 0 <= j < xs@.len() ==> #[trigger] m[j] == model(xs@[j]),
            encode_all(m.subrange(0, i as int)) == Some(json_models(out@)),
        decreases xs.len() - i,
    {
        proof {
            assert(decreases_to!(xs => xs[i as int]));
            let t = m.subrange(0, i + 1);
            assert(t.subrange(0, t.len() - 1) =~= m.subrange(0, i as int));
        }
        match xs[i].to_tagged_json() {
            Ok(j) => {
                proof {
                    lemma_json_models_push(out@, j);
                }
                out.push(j);
            },
            Err(e) => {
                proof {
                    lemma_encode_all_prefix(m, i + 1);
                }
                return Err(e);
            },
        }
        i = i + 1;
    }
    assert(m.subrange(0, xs@.len() as int) =~= m);
    Ok(out)
}

fn encode_fields(fs: &Vec<(String, SolidityType)>) -> (r: Result<Vec<(String, JsonValue)>, ValueError>)
    ensures
        match encode_members(field_models(fs@)) {
            Some(ms) => r matches Ok(x) && json_field_models(x@) == ms,
            None => r matches Err(x) && x@ == Fault::Unsupported(Kind::Null),
        },
    decreases fs, 0nat,
{
    proof {
        lemma_field_models(fs@);
    }
    let ghost m = field_models(fs@);
    let mut out: Vec<(String, JsonValue)> = Vec::new();
    let mut i: usize = 0;
    assert(m.subrange(0, 0) =~= Seq::<(Seq<char>, SolValue)>::empty());
    while i < fs.len()
        invariant
            i <= fs.len(),
            m == field_models(fs@),
            m.len() == fs@.len(),
            forall|j: int| 0 <= j < fs@.len() ==> #[trigger] m[j] == (fs@[j].0@, model(fs@[j].1)),
            encode_members(m.subrange(0, i as int)) == Some(json_field_models(out@)),
        decreases fs.len() - i,
    {
        proof {
            assert(decreases_to!(fs => fs[i as int]));
            let t = m.subrange(0, i + 1);
            assert(t.subrange(0, t.len() - 1) =~= m.subrange(0, i as int));
        }
        match fs[i].1.to_tagged_json() {
            Ok(j) => {
                let name = fs[i].0.clone();
                proof {
                    lemma_json_field_models_push(out@, (name, j));
                }
                out.push((name, j));
            },
            Err(e) => {
                proof {
                    lemma_encode_members_prefix(m, i + 1);
                }
                return Err(e);
            },
        }
        i = i + 1;
    }
    assert(m.subrange(0, fs@.len() as int) =~= m);
    Ok(out)
}

/// The first member named `key`, as `member_position` describes it.
fn find_member(fs: &Vec<(String, JsonValue)>, key: &str) -> (r: Option<usize>)
    ensures
        r matches Some(j) ==> member_position(json_field_models(fs@), key@) == j && j < fs@.len(),
        r is None ==> member_position(json_field_models(fs@), key@) == -1,
{
    proof {
        lemma_json_field_models(fs@);
    }
    let ghost m = json_field_models(fs@);
    let wanted = key.to_string();
    let mut i: usize = 0;
    while i < fs.len()
        invariant
            wanted@ == key@,
            i <= fs.len(),
            m == json_field_models(fs@),
            m.len() == fs@.len(),
            forall|j: int| 0 <= j < fs@.len() ==> #[trigger] m[j] == (fs@[j].0@, json_model(fs@[j].1)),
            forall|j: int| 0 <= j < i ==> (#[trigger] m[j]).0 != key@,
        decreases fs.len() - i,
    {
        if fs[i].0 == wanted {
            assert(is_first_member(m, key@, i as int));
            let ghost p = member_position(m, key@);
            assert(is_first_member(m, key@, p));
            assert(p == i) by {
                if p < i {
                    assert(m[p].0 != key@);
                } else if p > i {
                    assert(m[i as int].0 != key@);
                }
            }
            return Some(i);
        }
        i = i + 1;
    }
    assert(!exists|j: int| is_first_member(m, key@, j));
    None
}

/// The value of a 256-bit integer when it fits in a byte.
fn small_value(u: &U256) -> (r: Option<u8>)
    ensures
        r matches Some(b) ==> u.value() == b as nat,
        r is None ==> u.value() >= 256,
{
    let l = u.limbs;
    if l[1] == 0 && l[2] == 0 && l[3] == 0 && l[0] < 256 {
        Some(l[0] as u8)
    } else {
        assert(u.value() >= 256) by (nonlinear_arith)
            requires
                u.value() == l@[0] + l@[1] * pow64() + l@[2] * pow64() * pow64() + l@[3] * pow64()
                    * pow64() * pow64(),
                !(l@[1] == 0 && l@[2] == 0 && l@[3] == 0 && l@[0] < 256),
                pow64() == 0x1_0000_0000_0000_0000nat,
                l@[0] >= 0 && l@[1] >= 0 && l@[2] >= 0 && l@[3] >= 0,
        ;
        None
    }
}

fn decode_scalar_text(tag: &String, s: &String) -> (r: Result<SolidityType, ValueError>)
    ensures
        match decode_scalar(tag@, s@) {
            Ok(v) => r matches Ok(x) && x@ == v,
            Err(e) => r matches Err(x) && x@ == e,
        },
{
    proof {
        reveal_strlit("true");
        reveal_strlit("false");
        assert("true"@ =~= true_text());
        assert("false"@ =~= false_text());
    }
    let t = s.as_str();
    if text_eq(tag, "boolean") {
        if text_eq(s, "true") {
            Ok(SolidityType::Boolean(true))
        } else if text_eq(s, "false") {
            Ok(SolidityType::Boolean(false))
        } else {
            Err(ValueError::Parse)
        }
    } else if text_eq(tag, "enum") {
        match U256::parse(t) {
            Some(u) => match small_value(&u) {
                Some(b) => Ok(SolidityType::Enum(b)),
                None => Err(ValueError::Parse),
            },
            None => Err(ValueError::Parse),
        }
    } else if text_eq(tag, "uint") {
        match U256::parse(t) {
            Some(u) => Ok(SolidityType::Uint(u)),
            None => Err(ValueError::Parse),
        }
    } else if text_eq(tag, "address") {
        match Address::parse(t) {
            Some(a) => Ok(SolidityType::Address(a)),
            None => Err(ValueError::Parse),
        }
    } else if text_eq(tag, "fixedArray") {
        match B256::parse(t) {
            Some(w) => Ok(SolidityType::FixedArray(w)),
            None => Err(ValueError::Parse),
        }
    } else if text_eq(tag, "byteArray") {
        match bytes_from_text(t) {
            Some(b) => Ok(SolidityType::ByteArray(b)),
            None => Err(ValueError::Parse),
        }
    } else if text_eq(tag, "string") {
        Ok(SolidityType::String(s.clone()))
    } else {
        Err(ValueError::Parse)
    }
}

fn decode_elements(xs: &Vec<JsonValue>) -> (r: Result<Vec<SolidityType>, ValueError>)
    ensures
        match decode_all(json_models(xs@)) {
            Ok(vs) => r matches Ok(x) && models(x@) == vs,
            Err(e) => r matches Err(x) && x@ == e,
        },
    decreases xs, 0nat,
{
    proof {
        lemma_json_models(xs@);
    }
    let ghost m = json_models(xs@);
    let mut out: Vec<SolidityType> = Vec::new();
    let mut i: usize = 0;
    assert(m.subrange(0, 0) =~= Seq::<Json>::empty());
    while i < xs.len()
        invariant
            i <= xs.len(),
            m == json_models(xs@),
            m.len() == xs@.len(),
            forall|j: int| 0 <= j < xs@.len() ==> #[trigger] m[j] == json_model(xs@[j]),
            decode_all(m.subrange(0, i as int)) == Ok::<Seq<SolValue>, Fault>(models(out@)),
        decreases xs.len() - i,
    {
        proof {
            assert(decreases_to!(xs => xs[i as int]));
            let t = m.subrange(0, i + 1);
            assert(t.subrange(0, t.len() - 1) =~= m.subrange(0, i as int));
        }
        match SolidityType::from_tagged_json(&xs[i]) {
            Ok(v) => {
                proof {
                    lemma_models_push(out@, v);
                }
                out.push(v);
            },
            Err(e) => {
                proof {
                    lemma_decode_all_prefix(m, i + 1);
                }
                return Err(e);
            },
        }
        i = i + 1;
    }
    assert(m.subrange(0, xs@.len() as int) =~= m);
    Ok(out)
}

fn decode_fields(ms: &Vec<(String, JsonValue)>) -> (r: Result<Vec<(String, SolidityType)>, ValueError>)
    ensures
        match decode_members(json_field_models(ms@)) {
            Ok(fs) => r matches Ok(x) && field_models(x@) == fs,
            Err(e) => r matches Err(x) && x@ == e,
        },
    decreases ms, 0nat,
{
    proof {
        lemma_json_field_models(ms@);
    }
    let ghost m = json_field_models(ms@);
    let mut out: Vec<(String, SolidityType)> = Vec::new();
    let mut i: usize = 0;
    assert(m.subrange(0, 0) =~= Seq::<(Seq<char>, Json)>::empty());
    while i < ms.len()
        invariant
            i <= ms.len(),
            m == json_field_models(ms@),
            m.len() == ms@.len(),
            forall|j: int| 0 <= j < ms@.len() ==> #[trigger] m[j] == (ms@[j].0@, json_model(ms@[j].1)),
            decode_members(m.subrange(0, i as int)) == Ok::<Seq<(Seq<char>, SolValue)>, Fault>(
                field_models(out@),
            ),
        decreases ms.len() - i,
    {
        proof {
            assert(decreases_to!(ms => ms[i as int]));
            let t = m.subrange(0, i + 1);
            assert(t.subrange(0, t.len() - 1) =~= m.subrange(0, i as int));
        }
        match SolidityType::from_tagged_json(&ms[i].1) {
            Ok(v) => {
                let name = ms[i].0.clone();
                proof {
                    lemma_field_models_push(out@, (name, v));
                }
                out.push((name, v));
            },
            Err(e) => {
                proof {
                    lemma_decode_members_prefix(m, i + 1);
                }
                return Err(e);
            },
        }
        i = i + 1;
    }
    assert(m.subrange(0, ms@.len() as int) =~= m);
    Ok(out)
}

fn decode_payload_value(tag: &String, p: &JsonValue) -> (r: Result<SolidityType, ValueError>)
    ensures
        match decode_payload(tag@, p@) {
            Ok(v) => r matches Ok(x) && x@ == v,
            Err(e) => r matches Err(x) && x@ == e,
        },
    decreases p, 0nat,
{
    if text_eq(tag, "tuple") || text_eq(tag, "list") {
        match p {
            JsonValue::Array(xs) => match decode_elements(xs) {
                Ok(vs) => {
                    if text_eq(tag, "tuple") {
                        Ok(SolidityType::Tuple(vs))
                    } else {
                        Ok(SolidityType::List(vs))
                    }
                },
                Err(e) => Err(e),
            },
            _ => Err(ValueError::Parse),
        }
    } else if text_eq(tag, "struct") {
        match p {
            JsonValue::Object(ms) => match decode_fields(ms) {
                Ok(fs) => Ok(struct_from_fields(fs)),
                Err(e) => Err(e),
            },
            _ => Err(ValueError::Parse),
        }
    } else {
        match p {
            JsonValue::String(s) => decode_scalar_text(tag, s),
            _ => Err(ValueError::Parse),
        }
    }
}

impl SolidityType {
    /// The tagged JSON form, as `encode` describes it; a value that holds
    /// `Null` anywhere has none and gives `ValueError::Unsupported(Kind::Null)`.
    pub fn to_tagged_json(&self) -> (r: Result<JsonValue, ValueError>)
        ensures
            match encode(self@) {
                Some(j) => r matches Ok(x) && x@ == j,
                None => r matches Err(x) && x@ == Fault::Unsupported(Kind::Null),
            },
        decreases self,
    {
        let tag = tag_name(self);
        match self {
            SolidityType::Null => Err(ValueError::Unsupported(Kind::Null)),
            SolidityType::Tuple(xs) => match encode_elements(xs) {
                Ok(js) => Ok(tagged_json(tag, JsonValue::Array(js))),
                Err(e) => Err(e),
            },
            SolidityType::List(xs) => match encode_elements(xs) {
                Ok(js) => Ok(tagged_json(tag, JsonValue::Array(js))),
                Err(e) => Err(e),
            },
            SolidityType::Struct(fs) => match encode_fields(fs) {
                Ok(ms) => Ok(tagged_json(tag, JsonValue::Object(ms))),
                Err(e) => Err(e),
            },
            _ => Ok(tagged_json(tag, JsonValue::String(payload_string(self)))),
        }
    }

    /// The value a tagged JSON document stands for, as `decode` describes it.
    pub fn from_tagged_json(value: &JsonValue) -> (r: Result<SolidityType, ValueError>)
        ensures
            match decode(value@) {
                Ok(v) => r matches Ok(x) && x@ == v,
                Err(e) => r matches Err(x) && x@ == e,
            },
        decreases value,
    {
        match value {
            JsonValue::Object(fs) => {
                proof {
                    lemma_json_field_models(fs@);
                }
                match (find_member(fs, "type"), find_member(fs, "value")) {
                    (Some(t), Some(p)) => match &fs[t].1 {
                        JsonValue::String(tag) => {
                            proof {
                                assert(decreases_to!(fs => fs[p as int]));
                            }
                            decode_payload_value(tag, &fs[p].1)
                        },
                        _ => Err(ValueError::Parse),
                    },
                    _ => Err(ValueError::Parse),
                }
            },
            _ => Err(ValueError::Parse),
        }
    }

    /// A store document as a value: its tagged reading where it has one,
    /// else what the guesser takes it for.
    pub fn from_document(value: &JsonValue) -> (r: Result<SolidityType, ValueError>)
        ensures
            match from_document(value@) {
                Ok(v) => r matches Ok(x) && x@ == v,
                Err(e) => r matches Err(x) && x@ == e,
            },
    {
        match SolidityType::from_tagged_json(value) {
            Ok(v) => Ok(v),
            Err(_) => SolidityType::guess_json_value(value),
        }
    }
}

} // verus!
