use std::cmp::Ordering;
use substreams_sol_values::events::{
    attach_tx_meta, collect_events, delta_value, format_hex, log_matches, DeltaOperation, TxMeta,
};
use substreams_sol_values::scalars::{Address, B256, U256};
use substreams_sol_values::value::{Kind, SolidityType, ValueError};

fn uint(n: u64) -> SolidityType {
    SolidityType::Uint(U256::from_u64(n))
}

fn text(s: &str) -> SolidityType {
    SolidityType::String(s.to_string())
}

fn field(name: &str, v: SolidityType) -> (String, SolidityType) {
    (name.to_string(), v)
}

#[test]
fn null_is_the_identity_of_add() {
    assert_eq!(SolidityType::Null.add(uint(4)), Ok(uint(4)));
    assert_eq!(uint(4).add(SolidityType::Null), Ok(uint(4)));
    assert_eq!(text("x").add(SolidityType::Null), Ok(text("x")));
}

#[test]
fn integers_add() {
    assert_eq!(uint(5).add(uint(7)), Ok(uint(12)));
}

#[test]
fn addition_wraps_at_two_to_the_256() {
    let max = SolidityType::Uint(U256 { limbs: [u64::MAX; 4] });
    assert_eq!(max.add(uint(1)), Ok(uint(0)));
}

#[test]
fn text_concatenates_canonical_text() {
    assert_eq!(text("ab").add(uint(3)), Ok(text("ab3")));
    assert_eq!(text("ok ").add(SolidityType::Boolean(true)), Ok(text("ok true")));
}

#[test]
fn adding_mismatched_kinds_fails() {
    assert_eq!(SolidityType::Boolean(true).add(uint(1)), Err(ValueError::TypeMismatch(Kind::Boolean, Kind::Uint)));
    assert_eq!(text("a").add(SolidityType::List(vec![uint(1)])), Err(ValueError::TypeMismatch(Kind::String, Kind::List)));
}

#[test]
fn subtraction_multiplication_division() {
    assert_eq!(uint(10).sub(uint(4)), Ok(uint(6)));
    assert_eq!(uint(0).sub(uint(1)), Ok(SolidityType::Uint(U256 { limbs: [u64::MAX; 4] })));
    assert_eq!(SolidityType::Null.sub(uint(3)), Ok(uint(3)));
    assert_eq!(uint(6).mul(uint(7)), Ok(uint(42)));
    assert_eq!(uint(6).mul(SolidityType::Null), Ok(SolidityType::Null));
    assert_eq!(uint(43).div(uint(7)), Ok(uint(6)));
    assert_eq!(SolidityType::Null.div(uint(7)), Ok(SolidityType::Null));
    assert_eq!(uint(1).div(uint(0)), Err(ValueError::DivisionByZero));
    assert_eq!(text("a").mul(uint(2)), Err(ValueError::TypeMismatch(Kind::String, Kind::Uint)));
}

#[test]
fn comparisons() {
    assert_eq!(uint(3).try_eq(&uint(3)), Ok(true));
    assert_eq!(uint(3).try_ne(&uint(4)), Ok(true));
    let a = SolidityType::Address(Address { bytes: [1; 20] });
    let b = SolidityType::Address(Address { bytes: [2; 20] });
    assert_eq!(a.try_eq(&b), Ok(false));
    assert_eq!(a.try_eq(&a.deep_clone()), Ok(true));
    assert_eq!(uint(2).try_cmp(&uint(10)), Ok(Ordering::Less));
    assert_eq!(text("b").try_cmp(&text("ab")), Ok(Ordering::Greater));
    assert_eq!(text("ab").try_cmp(&text("ab")), Ok(Ordering::Equal));
    assert_eq!(text("a").try_eq(&text("a")), Err(ValueError::TypeMismatch(Kind::String, Kind::String)));
    assert_eq!(a.try_cmp(&b), Err(ValueError::TypeMismatch(Kind::Address, Kind::Address)));
}

#[test]
fn canonical_text_of_scalars() {
    assert_eq!(SolidityType::Boolean(true).to_string(), Ok("true".to_string()));
    assert_eq!(SolidityType::Enum(7).to_string(), Ok("7".to_string()));
    assert_eq!(uint(42069).to_string(), Ok("42069".to_string()));
    assert_eq!(SolidityType::ByteArray(vec![1, 0xab]).to_string(), Ok("0x01ab".to_string()));
    assert_eq!(
        SolidityType::FixedArray(B256 { bytes: [0x11; 32] }).to_string(),
        Ok(format!("0x{}", "11".repeat(32)))
    );
    assert_eq!(SolidityType::Null.to_string(), Ok("null".to_string()));
    assert_eq!(SolidityType::Tuple(vec![]).to_string(), Err(ValueError::Unsupported(Kind::Tuple)));
}

#[test]
fn addresses_print_checksummed() {
    let a = Address::parse("0xd8da6bf26964af9d7eed9e03e53415d37aa96045").unwrap();
    assert_eq!(
        SolidityType::Address(a).to_string(),
        Ok("0xd8dA6BF26964aF9D7eEd9e03E53415D37aA96045".to_string())
    );
}

#[test]
fn uint_parsing() {
    assert_eq!(U256::parse("0x10"), Some(U256::from_u64(16)));
    assert_eq!(U256::parse("1_000"), Some(U256::from_u64(1000)));
    assert_eq!(U256::parse("12a"), None);
    assert_eq!(U256::from_u64(900).to_decimal(), "900");
}

#[test]
fn get_by_index_and_name() {
    let list = SolidityType::List(vec![uint(1), uint(2)]);
    assert_eq!(list.get("1"), Ok(uint(2)));
    assert_eq!(list.get("5"), Ok(SolidityType::Null));
    assert_eq!(list.get("x"), Err(ValueError::Key("x".to_string())));
    let st = SolidityType::Struct(vec![field("a", uint(1))]);
    assert_eq!(st.get("a"), Ok(uint(1)));
    assert_eq!(st.get("b"), Ok(SolidityType::Null));
    assert_eq!(uint(1).get("a"), Ok(SolidityType::Null));
}

#[test]
fn inserting_a_non_numeric_key_into_a_list_fails() {
    let mut list = SolidityType::List(vec![uint(1)]);
    assert_eq!(list.insert("foo", uint(2)), Err(ValueError::Key("foo".to_string())));
    assert_eq!(list, SolidityType::List(vec![uint(1)]));
}

#[test]
fn insert_overwrites_appends_and_upserts() {
    let mut list = SolidityType::List(vec![uint(1)]);
    assert_eq!(list.insert("0", uint(9)), Ok(()));
    assert_eq!(list.insert("1", uint(8)), Ok(()));
    assert_eq!(list, SolidityType::List(vec![uint(9), uint(8)]));
    assert_eq!(list.insert("5", uint(0)), Err(ValueError::Key("5".to_string())));
    let mut st = SolidityType::Struct(vec![field("a", uint(1))]);
    assert_eq!(st.insert("a", uint(2)), Ok(()));
    assert_eq!(st.insert("b", uint(3)), Ok(()));
    assert_eq!(st, SolidityType::Struct(vec![field("a", uint(2)), field("b", uint(3))]));
    let mut scalar = uint(1);
    assert_eq!(scalar.insert("a", uint(2)), Ok(()));
    assert_eq!(scalar, uint(1));
}

#[test]
fn prune_drops_nulls_and_empty_composites() {
    let v = SolidityType::Struct(vec![
        field("a", SolidityType::Null),
        field("b", SolidityType::List(vec![SolidityType::Null])),
        field("c", SolidityType::Tuple(vec![uint(1), SolidityType::Null])),
    ]);
    let pruned = v.to_maybe_value().unwrap();
    assert_eq!(pruned, SolidityType::Struct(vec![field("c", SolidityType::Tuple(vec![uint(1)]))]));
    assert_eq!(pruned.to_maybe_value(), Some(pruned.deep_clone()));
}

#[test]
fn all_null_struct_prunes_to_nothing() {
    let v = SolidityType::Struct(vec![field("a", SolidityType::Null), field("b", SolidityType::Null)]);
    assert_eq!(v.to_maybe_value(), None);
    assert_eq!(SolidityType::Null.to_maybe_value(), None);
    assert_eq!(uint(3).to_maybe_value(), Some(uint(3)));
}

#[test]
fn map_drops_null_results() {
    let list = SolidityType::Tuple(vec![uint(1), uint(2), uint(3)]);
    let doubled = list.map(|x: &SolidityType| {
        if x == &uint(2) {
            SolidityType::Null
        } else {
            x.deep_clone().mul(uint(2)).unwrap()
        }
    });
    assert_eq!(doubled, Ok(SolidityType::List(vec![uint(2), uint(6)])));
    let none = list.map(|_x: &SolidityType| SolidityType::Null);
    assert_eq!(none, Ok(SolidityType::Null));
    assert_eq!(uint(1).map(|x: &SolidityType| x.deep_clone()), Err(ValueError::Unsupported(Kind::Uint)));
    assert_eq!(
        SolidityType::Struct(vec![]).map(|x: &SolidityType| x.deep_clone()),
        Err(ValueError::Unsupported(Kind::Struct))
    );
}

#[test]
fn filter_keeps_true_elements() {
    let list = SolidityType::List(vec![uint(1), uint(2), uint(3)]);
    let odd = list.filter(|x: &SolidityType| SolidityType::Boolean(x != &uint(2)));
    assert_eq!(odd, Ok(SolidityType::List(vec![uint(1), uint(3)])));
    let none = list.filter(|_x: &SolidityType| SolidityType::Null);
    assert_eq!(none, Ok(SolidityType::Null));
    let bad = list.filter(|x: &SolidityType| x.deep_clone());
    assert_eq!(bad, Err(ValueError::Unsupported(Kind::Uint)));
}

#[test]
fn tx_meta_collision_is_refused() {
    let meta = TxMeta::new(
        &"0x0000000000000000000000000000000000000001".to_string(),
        &"0x0000000000000000000000000000000000000002".to_string(),
        &"17".to_string(),
    )
    .unwrap();
    let event = SolidityType::Struct(vec![field("tx_meta", uint(1))]);
    assert_eq!(attach_tx_meta(event, &meta), Err(ValueError::Collision));

    let event = SolidityType::Struct(vec![field("value", uint(5))]);
    let merged = attach_tx_meta(event, &meta).unwrap();
    assert_eq!(merged.get("tx_meta").unwrap(), meta.value().deep_clone());
    assert_eq!(merged.get("tx_meta").unwrap().get("block_number"), Ok(uint(17)));
    assert_eq!(attach_tx_meta(uint(1), &meta), Err(ValueError::Unsupported(Kind::Uint)));
}

#[test]
fn tx_meta_needs_parsable_fields() {
    let bad = TxMeta::new(&"0x12".to_string(), &"0x12".to_string(), &"1".to_string());
    assert!(matches!(bad, Err(ValueError::Parse)));
}

#[test]
fn events_collect_into_a_list() {
    assert_eq!(collect_events(vec![]), SolidityType::Null);
    assert_eq!(collect_events(vec![uint(1)]), SolidityType::List(vec![uint(1)]));
}

#[test]
fn logs_are_chosen_by_address() {
    let a = Address { bytes: [1; 20] };
    let b = Address { bytes: [2; 20] };
    assert!(log_matches(&vec![], &a));
    assert!(log_matches(&vec![b, a], &a));
    assert!(!log_matches(&vec![b], &a));
}

#[test]
fn hex_formatting() {
    assert_eq!(format_hex(&[0x00, 0x1f, 0xa0]), "0x001fa0");
    assert_eq!(format_hex(&[]), "0x");
}

#[test]
fn deltas_become_structs() {
    let d = delta_value(DeltaOperation::Delete, "k".to_string(), uint(1), SolidityType::Null);
    assert_eq!(
        d,
        SolidityType::Struct(vec![
            field("operation", text("Update")),
            field("key", text("k")),
            field("old_value", uint(1)),
            field("new_value", SolidityType::Null),
        ])
    );
}

#[test]
fn index_keys_may_carry_a_plus_sign() {
    let list = SolidityType::List(vec![uint(1), uint(2)]);
    assert_eq!(list.get("+1"), Ok(uint(2)));
    assert_eq!(list.get("+"), Err(ValueError::Key("+".to_string())));
    assert_eq!(list.get("-1"), Err(ValueError::Key("-1".to_string())));
    assert_eq!(list.get("++1"), Err(ValueError::Key("++1".to_string())));
    let mut one = SolidityType::List(vec![uint(1)]);
    assert_eq!(one.insert("+0", uint(7)), Ok(()));
    assert_eq!(one, SolidityType::List(vec![uint(7)]));
}
