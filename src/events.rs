//! Decoded events and their provenance: transaction metadata, the merge of
//! that metadata into an event, the choice of logs by contract address, and
//! store deltas as values.
use crate::access::{field_position, has_field};
use crate::encoding::{hex_decode, lower_hex, prefixed_hex, uint_text_value};
use crate::scalars::{Address, U256};
use crate::transform::list_or_null;
use crate::value::{
    Fault, SolidityType, SolValue, ValueError, kind_of, field_models, lemma_field_models, lemma_field_models_push,
    lemma_models, models,
};
use vstd::prelude::*;

verus! {

/// The name under which an event carries its transaction metadata.
pub open spec fn meta_key() -> Seq<char> {
    "tx_meta"@
}

/// Sender, receiver and block number of the transaction that emitted an
/// event, as a struct value.
#[derive(Debug)]
pub struct TxMeta {
    value: SolidityType,
}

/// The metadata struct for the given texts: two addresses and a block
/// number; `ValueError::Parse` when one of them does not parse.
pub open spec fn tx_meta_value(from: Seq<char>, to: Seq<char>, block_number: Seq<char>) -> Result<
    SolValue,
    Fault,
> {
    match (hex_decode(from), hex_decode(to), uint_text_value(block_number)) {
        (Some(f), Some(t), Some(n)) => if f.len() == 20 && t.len() == 20 {
            Ok(
                SolValue::Struct(
                    seq![
                        ("from"@, SolValue::Address(f)),
                        ("to"@, SolValue::Address(t)),
                        ("block_number"@, SolValue::Uint(n)),
                    ],
                ),
            )
        } else {
            Err(Fault::Parse)
        },
        _ => Err(Fault::Parse),
    }
}

/// An event with the metadata added under `tx_meta`; an event that is no
/// struct is `ValueError::Unsupported`, one that has the field already is
/// `ValueError::Collision`.
pub open spec fn with_meta(event: SolValue, meta: SolValue) -> Result<SolValue, Fault> {
    match event {
        SolValue::Struct(fs) => if field_position(fs, meta_key()) >= 0 {
            Err(Fault::Collision)
        } else {
            Ok(SolValue::Struct(fs.push((meta_key(), meta))))
        },
        _ => Err(Fault::Unsupported(kind_of(event))),
    }
}

/// The name a store delta gives its operation; a deletion reads as an update.
pub open spec fn operation_name(op: DeltaOperation) -> Seq<char> {
    match op {
        DeltaOperation::Unset => "Unset"@,
        DeltaOperation::Create => "Create"@,
        DeltaOperation::Update => "Update"@,
        DeltaOperation::Delete => "Update"@,
    }
}

/// The operation of a store delta.
#[derive(Clone, Copy, Debug, PartialEq, Eq, Structural)]
pub enum DeltaOperation {
    Unset,
    Create,
    Update,
    Delete,
}

/// A store delta as a struct of operation, key, old value and new value.
pub open spec fn delta_struct(op: DeltaOperation, key: Seq<char>, old: SolValue, new: SolValue) -> SolValue {
    SolValue::Struct(
        seq![
            ("operation"@, SolValue::String(operation_name(op))),
            ("key"@, SolValue::String(key)),
            ("old_value"@, old),
            ("new_value"@, new),
        ],
    )
}

/// Whether a log from `address` is wanted: every log when no address is
/// given, else those from one of the addresses.
pub open spec fn wanted(addresses: Seq<Address>, address: Address) -> bool {
    addresses.len() == 0 || exists|i: int| 0 <= i < addresses.len() && addresses[i].bytes@ == address.bytes@
}

/// Relies on `Display` of `substreams::Hex`: two lowercase hexadecimal
/// digits per byte, without a prefix.
#[verifier::external_body]
fn hex_digits(input: &[u8]) -> (r: String)
    ensures
        r@ == lower_hex(input@),
{
    substreams::Hex(input).to_string()
}

/// `0x` followed by the lowercase hexadecimal digits of `input`.
pub fn format_hex(input: &[u8]) -> (r: String)
    ensures
        r@ == prefixed_hex(input@),
{
    let mut out = String::new();
    out.append("0x");
    let digits = hex_digits(input);
    out.append(digits.as_str());
    proof {
        reveal_strlit("0x");
        assert(out@ =~= prefixed_hex(input@));
    }
    out
}

fn same_bytes(x: &[u8; 20], y: &[u8; 20]) -> (r: bool)
    ensures
        r == (x@ == y@),
{
    let mut i: usize = 0;
    while i < 20
        invariant
            i <= 20,
            forall|j: int| 0 <= j < i ==> x@[j] == y@[j],
        decreases 20 - i,
    {
        if x[i] != y[i] {
            assert(x@[i as int] != y@[i as int]);
            return false;
        }
        i = i + 1;
    }
    assert(x@ =~= y@);
    true
}

/// Whether a log emitted by `address` is to be decoded, as `wanted` says.
pub fn log_matches(addresses: &Vec<Address>, address: &Address) -> (r: bool)
    ensures
        r == wanted(addresses@, *address),
{
    if addresses.len() == 0 {
        return true;
    }
    let mut i: usize = 0;
    while i < addresses.len()
        invariant
            i <= addresses@.len(),
            forall|j: int| 0 <= j < i ==> addresses@[j].bytes@ != address.bytes@,
        decreases addresses.len() - i,
    {
        if same_bytes(&addresses[i].bytes, &address.bytes) {
            return true;
        }
        i = i + 1;
    }
    false
}

/// The decoded events of a block: a list, or `Null` when there are none.
pub fn collect_events(events: Vec<SolidityType>) -> (r: SolidityType)
    ensures
        r@ == list_or_null(models(events@)),
{
    proof {
        lemma_models(events@);
    }
    if events.len() == 0 {
        SolidityType::Null
    } else {
        SolidityType::List(events)
    }
}

fn text_of(lit: &str) -> (r: String)
    ensures
        r@ == lit@,
{
    lit.to_string()
}

fn struct_of(entries: Vec<(String, SolidityType)>) -> (r: SolidityType)
    ensures
        r@ == SolValue::Struct(field_models(entries@)),
{
    SolidityType::Struct(entries)
}

impl TxMeta {
    pub closed spec fn view(&self) -> SolValue {
        self.value@
    }

    /// Metadata from the sender and receiver addresses and the block number.
    pub fn new(from: &String, to: &String, block_number: &String) -> (r: Result<TxMeta, ValueError>)
        ensures
            match tx_meta_value(from@, to@, block_number@) {
                Ok(v) => r matches Ok(m) && m.view() == v,
                Err(e) => r matches Err(x) && x@ == e,
            },
    {
        let f = match Address::parse(from.as_str()) {
            Some(a) => a,
            None => return Err(ValueError::Parse),
        };
        let t = match Address::parse(to.as_str()) {
            Some(a) => a,
            None => return Err(ValueError::Parse),
        };
        let n = match U256::parse(block_number.as_str()) {
            Some(u) => u,
            None => return Err(ValueError::Parse),
        };
        let mut fs: Vec<(String, SolidityType)> = Vec::new();
        fs.push((text_of("from"), SolidityType::Address(f)));
        fs.push((text_of("to"), SolidityType::Address(t)));
        fs.push((text_of("block_number"), SolidityType::Uint(n)));
        proof {
            lemma_field_models(fs@);
            assert(field_models(fs@) =~= seq![
                ("from"@, SolValue::Address(f.bytes@)),
                ("to"@, SolValue::Address(t.bytes@)),
                ("block_number"@, SolValue::Uint(n.value())),
            ]);
        }
        Ok(TxMeta { value: struct_of(fs) })
    }

    /// The metadata as a struct value.
    pub fn value(&self) -> (r: &SolidityType)
        ensures
            r@ == self.view(),
    {
        &self.value
    }
}

/// Adds the metadata to a decoded event under `tx_meta`, as `with_meta`
/// describes it; an existing `tx_meta` field is never overwritten.
pub fn attach_tx_meta(event: SolidityType, meta: &TxMeta) -> (r: Result<SolidityType, ValueError>)
    ensures
        match with_meta(event@, meta.view()) {
            Ok(v) => r matches Ok(x) && x@ == v,
            Err(e) => r matches Err(x) && x@ == e,
        },
{
    match event {
        SolidityType::Struct(mut fs) => {
            proof {
                lemma_field_models(fs@);
            }
            if has_field(&fs, "tx_meta") {
                Err(ValueError::Collision)
            } else {
                let m = meta.value().deep_clone();
                let name = text_of("tx_meta");
                proof {
                    lemma_field_models_push(fs@, (name, m));
                }
                fs.push((name, m));
                Ok(SolidityType::Struct(fs))
            }
        },
        other => Err(ValueError::Unsupported(other.kind())),
    }
}

/// A store delta as a struct value, as `delta_struct` describes it.
pub fn delta_value(op: DeltaOperation, key: String, old: SolidityType, new: SolidityType) -> (r:
    SolidityType)
    ensures
        r@ == delta_struct(op, key@, old@, new@),
{
    let name = match op {
        DeltaOperation::Unset => text_of("Unset"),
        DeltaOperation::Create => text_of("Create"),
        DeltaOperation::Update => text_of("Update"),
        DeltaOperation::Delete => text_of("Update"),
    };
    let ghost k = key@;
    let ghost o = old@;
    let ghost n = new@;
    let mut fs: Vec<(String, SolidityType)> = Vec::new();
    fs.push((text_of("operation"), SolidityType::String(name)));
    fs.push((text_of("key"), SolidityType::String(key)));
    fs.push((text_of("old_value"), old));
    fs.push((text_of("new_value"), new));
    proof {
        lemma_field_models(fs@);
        assert(field_models(fs@) =~= seq![
            ("operation"@, SolValue::String(operation_name(op))),
            ("key"@, SolValue::String(k)),
            ("old_value"@, o),
            ("new_value"@, n),
        ]);
    }
    struct_of(fs)
}

/// A batch of store deltas as a list value.
pub fn deltas_value(deltas: Vec<SolidityType>) -> (r: SolidityType)
    ensures
        r@ == SolValue::List(models(deltas@)),
{
    SolidityType::List(deltas)
}

} // verus!
