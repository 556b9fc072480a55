use substreams_sol_values::json::JsonValue;
use substreams_sol_values::scalars::{Address, B256, U256};
use substreams_sol_values::value::{Kind, SolidityType, ValueError};

fn uint(n: u64) -> SolidityType {
    SolidityType::Uint(U256::from_u64(n))
}

fn text(s: &str) -> SolidityType {
    SolidityType::String(s.to_string())
}

fn sample_address() -> Address {
    Address::parse("000000000000Ad05Ccc4F10045630fb830B95127").unwrap()
}

fn json_text(s: &str) -> JsonValue {
    JsonValue::String(s.to_string())
}

fn object(members: Vec<(&str, JsonValue)>) -> JsonValue {
    JsonValue::Object(members.into_iter().map(|(k, v)| (k.to_string(), v)).collect())
}

fn round_trip(v: &SolidityType) -> SolidityType {
    let tagged = v.to_tagged_json().unwrap();
    SolidityType::from_tagged_json(&tagged).unwrap()
}

#[test]
fn test_serializations() {
    let solidity_value = SolidityType::Boolean(false);
    println!("Bool: {:?}", solidity_value.to_tagged_json());
    assert_eq!(round_trip(&solidity_value), solidity_value);

    let solidity_value = SolidityType::Enum(2);
    println!("Enum: {:?}", solidity_value.to_tagged_json());
    assert_eq!(round_trip(&solidity_value), solidity_value);

    let solidity_value = uint(42069);
    println!("Uint: {:?}", solidity_value.to_tagged_json());
    assert_eq!(round_trip(&solidity_value), solidity_value);

    let solidity_value = SolidityType::Address(sample_address());
    println!("Address: {:?}", solidity_value.to_tagged_json());
    assert_eq!(round_trip(&solidity_value), solidity_value);

    let solidity_value = text("Hello World!");
    println!("String: {:?}", solidity_value.to_tagged_json());
    assert_eq!(round_trip(&solidity_value), solidity_value);

    let solidity_value = SolidityType::Tuple(vec![
        SolidityType::Boolean(false),
        SolidityType::Address(sample_address()),
    ]);
    println!("Tuple: {:?}", solidity_value.to_tagged_json());
    assert_eq!(round_trip(&solidity_value), solidity_value);

    let solidity_value = SolidityType::List(vec![
        SolidityType::Boolean(false),
        SolidityType::Address(sample_address()),
    ]);
    println!("List: {:?}", solidity_value.to_tagged_json());
    assert_eq!(round_trip(&solidity_value), solidity_value);

    let solidity_value = SolidityType::Struct(vec![
        ("bool".to_string(), SolidityType::Boolean(false)),
        ("addr".to_string(), SolidityType::Address(sample_address())),
        (
            "foo".to_string(),
            SolidityType::List(vec![
                SolidityType::Boolean(false),
                SolidityType::Address(sample_address()),
            ]),
        ),
    ]);
    println!("Map: {:?}", solidity_value.to_tagged_json());
    assert_eq!(round_trip(&solidity_value), solidity_value);
}

#[test]
fn tagged_form_of_a_uint() {
    let tagged = uint(42069).to_tagged_json().unwrap();
    assert_eq!(tagged, object(vec![("type", json_text("uint")), ("value", json_text("42069"))]));
}

#[test]
fn tagged_form_of_an_address_is_lowercase_hex() {
    let tagged = SolidityType::Address(sample_address()).to_tagged_json().unwrap();
    assert_eq!(
        tagged,
        object(vec![
            ("type", json_text("address")),
            ("value", json_text("0x000000000000ad05ccc4f10045630fb830b95127")),
        ])
    );
}

#[test]
fn round_trip_of_bytes_and_words() {
    let bytes = SolidityType::ByteArray(vec![0, 1, 0xab, 0xff]);
    assert_eq!(round_trip(&bytes), bytes);
    let word = SolidityType::FixedArray(B256 { bytes: [7u8; 32] });
    assert_eq!(round_trip(&word), word);
    let big = SolidityType::Uint(U256 { limbs: [u64::MAX; 4] });
    assert_eq!(round_trip(&big), big);
}

#[test]
fn tagged_null_is_refused() {
    let v = SolidityType::List(vec![uint(1), SolidityType::Null]);
    assert_eq!(v.to_tagged_json(), Err(ValueError::Unsupported(Kind::Null)));
}

#[test]
fn unknown_tag_is_a_parse_error() {
    let doc = object(vec![("type", json_text("float")), ("value", json_text("1.5"))]);
    assert_eq!(SolidityType::from_tagged_json(&doc), Err(ValueError::Parse));
}

#[test]
fn tagged_members_in_any_order() {
    let doc = object(vec![("value", json_text("true")), ("type", json_text("boolean"))]);
    assert_eq!(SolidityType::from_tagged_json(&doc), Ok(SolidityType::Boolean(true)));
}

#[test]
fn tagged_enum_above_a_byte_is_refused() {
    let doc = object(vec![("type", json_text("enum")), ("value", json_text("256"))]);
    assert_eq!(SolidityType::from_tagged_json(&doc), Err(ValueError::Parse));
}

#[test]
fn document_without_tags_is_guessed() {
    let doc = object(vec![("amount", JsonValue::Number(5)), ("flag", JsonValue::Bool(true))]);
    assert_eq!(
        SolidityType::from_document(&doc),
        Ok(SolidityType::Struct(vec![
            ("amount".to_string(), uint(5)),
            ("flag".to_string(), SolidityType::Boolean(true)),
        ]))
    );
    let tagged = object(vec![("type", json_text("uint")), ("value", json_text("7"))]);
    assert_eq!(SolidityType::from_document(&tagged), Ok(uint(7)));
}

#[test]
fn bytes_of_word_length_make_a_word() {
    assert_eq!(SolidityType::from_bytes(vec![5; 32]), SolidityType::FixedArray(B256 { bytes: [5; 32] }));
    assert_eq!(SolidityType::from_bytes(vec![5; 3]), SolidityType::ByteArray(vec![5; 3]));
    assert_eq!(SolidityType::Boolean(true).as_bool(), Some(true));
    assert_eq!(uint(1).as_bool(), None);
}

#[test]
fn tagged_struct_with_repeated_names_keeps_the_last_value() {
    let member = |n: &str| object(vec![("type", json_text("uint")), ("value", json_text(n))]);
    let fields = JsonValue::Object(vec![
        ("x".to_string(), member("1")),
        ("y".to_string(), member("2")),
        ("x".to_string(), member("3")),
    ]);
    let doc = object(vec![("type", json_text("struct")), ("value", fields)]);
    assert_eq!(
        SolidityType::from_tagged_json(&doc),
        Ok(SolidityType::Struct(vec![("x".to_string(), uint(3)), ("y".to_string(), uint(2))]))
    );
}
