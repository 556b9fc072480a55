use substreams_sol_values::json::JsonValue;
use substreams_sol_values::scalars::{Address, U256};
use substreams_sol_values::value::{SolidityType, ValueError};

fn uint(n: u64) -> SolidityType {
    SolidityType::Uint(U256::from_u64(n))
}

fn json_text(s: &str) -> JsonValue {
    JsonValue::String(s.to_string())
}

fn object(members: Vec<(&str, JsonValue)>) -> JsonValue {
    JsonValue::Object(members.into_iter().map(|(k, v)| (k.to_string(), v)).collect())
}

fn clone_json(j: &JsonValue) -> JsonValue {
    match j {
        JsonValue::Null => JsonValue::Null,
        JsonValue::Bool(b) => JsonValue::Bool(*b),
        JsonValue::Number(n) => JsonValue::Number(*n),
        JsonValue::String(s) => JsonValue::String(s.clone()),
        JsonValue::Array(xs) => JsonValue::Array(xs.iter().map(clone_json).collect()),
        JsonValue::Object(fs) => {
            JsonValue::Object(fs.iter().map(|(k, v)| (k.clone(), clone_json(v))).collect())
        }
    }
}

fn guess(j: &JsonValue) -> Result<SolidityType, ValueError> {
    SolidityType::guess_json_value(j)
}

#[test]
fn forty_two_characters_make_an_address() {
    let s = format!("0x{}", "a".repeat(40));
    let expected = Address::parse(&s).unwrap();
    assert_eq!(guess(&json_text(&s)), Ok(SolidityType::Address(expected)));
    assert_eq!(expected.bytes, [0xaa; 20]);
}

#[test]
fn sixty_six_characters_make_an_integer() {
    let s = format!("0x{}", "a".repeat(64));
    assert_eq!(guess(&json_text(&s)), Ok(SolidityType::Uint(U256 { limbs: [0xaaaa_aaaa_aaaa_aaaa; 4] })));
}

#[test]
fn seventy_characters_make_bytes() {
    let s = format!("0x{}", "a".repeat(70));
    assert_eq!(guess(&json_text(&s)), Ok(SolidityType::ByteArray(vec![0xaa; 35])));
}

#[test]
fn short_hex_is_an_integer() {
    assert_eq!(guess(&json_text("0x10")), Ok(uint(16)));
}

#[test]
fn other_text_stays_text() {
    assert_eq!(guess(&json_text("hello")), Ok(SolidityType::String("hello".to_string())));
}

#[test]
fn bad_hex_is_a_parse_error() {
    assert_eq!(guess(&json_text("0xzz")), Err(ValueError::Parse));
    let s = format!("0x{}", "g".repeat(40));
    assert_eq!(guess(&json_text(&s)), Err(ValueError::Parse));
}

#[test]
fn null_is_a_guess_error() {
    assert_eq!(guess(&JsonValue::Null), Err(ValueError::Guess));
    let list = JsonValue::Array(vec![JsonValue::Bool(true), JsonValue::Null]);
    assert_eq!(guess(&list), Err(ValueError::Guess));
}

#[test]
fn numbers_and_booleans() {
    assert_eq!(guess(&JsonValue::Number(42)), Ok(uint(42)));
    assert_eq!(guess(&JsonValue::Bool(false)), Ok(SolidityType::Boolean(false)));
}

#[test]
fn arrays_become_lists() {
    let arr = JsonValue::Array(vec![JsonValue::Number(1), json_text("x")]);
    assert_eq!(
        guess(&arr),
        Ok(SolidityType::List(vec![uint(1), SolidityType::String("x".to_string())]))
    );
}

#[test]
fn positional_keys_make_a_tuple_in_index_order() {
    let a = JsonValue::Number(1);
    let b = json_text("b");
    let c = JsonValue::Bool(true);
    let expected = SolidityType::Tuple(vec![
        uint(1),
        SolidityType::String("b".to_string()),
        SolidityType::Boolean(true),
    ]);
    let orders = [[0, 1, 2], [0, 2, 1], [1, 0, 2], [1, 2, 0], [2, 0, 1], [2, 1, 0]];
    let members = [("_0", a), ("_1", b), ("_2", c)];
    for order in orders.iter() {
        let doc = object(order.iter().map(|&i| (members[i].0, clone_json(&members[i].1))).collect());
        assert_eq!(guess(&doc), Ok(expected.deep_clone()));
    }
}

#[test]
fn positional_keys_sort_numerically() {
    let doc = object(vec![
        ("_10", JsonValue::Number(10)),
        ("_2", JsonValue::Number(2)),
        ("_1", JsonValue::Number(1)),
    ]);
    assert_eq!(guess(&doc), Ok(SolidityType::Tuple(vec![uint(1), uint(2), uint(10)])));
}

#[test]
fn a_single_positional_key_unwraps() {
    let doc = object(vec![("_0", JsonValue::Number(9))]);
    assert_eq!(guess(&doc), Ok(uint(9)));
}

#[test]
fn other_keys_make_a_struct() {
    let doc = object(vec![("_0", JsonValue::Number(1)), ("name", json_text("n"))]);
    assert_eq!(
        guess(&doc),
        Ok(SolidityType::Struct(vec![
            ("_0".to_string(), uint(1)),
            ("name".to_string(), SolidityType::String("n".to_string())),
        ]))
    );
}

#[test]
fn guess_keeps_canonical_text() {
    let addr = Address::parse("0xd8da6bf26964af9d7eed9e03e53415d37aa96045").unwrap();
    let plain = json_text("0xd8da6bf26964af9d7eed9e03e53415d37aa96045");
    let guessed = guess(&plain).unwrap();
    assert_eq!(guessed.to_string(), SolidityType::Address(addr).to_string());

    let n = uint(123456789);
    let guessed = guess(&json_text("123456789")).unwrap();
    assert_eq!(guessed.to_string(), n.to_string());

    let bytes = SolidityType::ByteArray(vec![0x12; 40]);
    let plain = json_text(&format!("0x{}", "12".repeat(40)));
    assert_eq!(guess(&plain).unwrap().to_string(), bytes.to_string());
}

#[test]
fn checksummed_address_text_guesses_back() {
    let addr = Address::parse("0xd8da6bf26964af9d7eed9e03e53415d37aa96045").unwrap();
    let text = SolidityType::Address(addr).to_string().unwrap();
    assert_eq!(text.len(), 42);
    assert_eq!(guess(&json_text(&text)), Ok(SolidityType::Address(addr)));
}

#[test]
fn repeated_member_names_keep_the_last_value() {
    let doc = object(vec![("a", JsonValue::Number(1)), ("b", JsonValue::Number(2)), ("a", JsonValue::Number(3))]);
    assert_eq!(
        guess(&doc),
        Ok(SolidityType::Struct(vec![("a".to_string(), uint(3)), ("b".to_string(), uint(2))]))
    );
}
