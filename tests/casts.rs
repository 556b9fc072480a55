use substreams_sol_values::casts::{address, bytes, string, uint};
use substreams_sol_values::scalars::{Address, B256, U256};
use substreams_sol_values::value::SolidityType;

fn num(n: u64) -> SolidityType {
    SolidityType::Uint(U256::from_u64(n))
}

fn addr_with_last(b: u8) -> SolidityType {
    let mut bytes = [0u8; 20];
    bytes[19] = b;
    SolidityType::Address(Address { bytes })
}

#[test]
fn address_casts() {
    assert_eq!(address(num(1)), addr_with_last(1));
    assert_eq!(address(SolidityType::Boolean(false)), addr_with_last(0));
    assert_eq!(address(SolidityType::Enum(5)), addr_with_last(5));
    let raw: Vec<u8> = (0u8..22).collect();
    let expected: Vec<u8> = (2u8..22).collect();
    let mut arr = [0u8; 20];
    arr.copy_from_slice(&expected);
    assert_eq!(address(SolidityType::ByteArray(raw)), SolidityType::Address(Address { bytes: arr }));
    let mut word = [0u8; 32];
    word[31] = 9;
    assert_eq!(address(SolidityType::FixedArray(B256 { bytes: word })), addr_with_last(9));
    assert_eq!(
        address(SolidityType::String("0x0000000000000000000000000000000000000007".to_string())),
        addr_with_last(7)
    );
    assert_eq!(address(SolidityType::String("nope".to_string())), SolidityType::Null);
    assert_eq!(address(SolidityType::List(vec![])), SolidityType::Null);
}

#[test]
fn string_casts() {
    assert_eq!(string(num(42)), SolidityType::String("42".to_string()));
    assert_eq!(string(SolidityType::Boolean(false)), SolidityType::String("false".to_string()));
    assert_eq!(string(SolidityType::ByteArray(vec![0xbe, 0xef])), SolidityType::String("0xbeef".to_string()));
    assert_eq!(string(SolidityType::List(vec![num(1)])), SolidityType::Null);
    assert_eq!(string(SolidityType::Null), SolidityType::Null);
}

#[test]
fn uint_casts() {
    assert_eq!(uint(SolidityType::Boolean(true)), num(1));
    assert_eq!(uint(SolidityType::Enum(3)), num(3));
    assert_eq!(uint(addr_with_last(0x12)), num(0x12));
    assert_eq!(uint(SolidityType::ByteArray(vec![1, 0])), num(256));
    assert_eq!(uint(SolidityType::String("0x10".to_string())), num(16));
    assert_eq!(uint(SolidityType::String("xyz".to_string())), SolidityType::Null);
    assert_eq!(uint(SolidityType::Tuple(vec![])), SolidityType::Null);
}

#[test]
fn bytes_casts() {
    let mut word = vec![0u8; 32];
    word[31] = 1;
    assert_eq!(bytes(num(1)), SolidityType::ByteArray(word));
    assert_eq!(bytes(SolidityType::Enum(3)), SolidityType::ByteArray(vec![3]));
    assert_eq!(bytes(SolidityType::Boolean(true)), SolidityType::ByteArray(vec![1]));
    assert_eq!(bytes(SolidityType::String("0x0102".to_string())), SolidityType::ByteArray(vec![1, 2]));
    assert_eq!(bytes(SolidityType::String("0x0".to_string())), SolidityType::Null);
    assert_eq!(bytes(addr_with_last(4)).to_string().unwrap().len(), 42);
}

#[test]
fn casts_are_total() {
    assert_eq!(address(SolidityType::Boolean(true)), addr_with_last(1));
    assert_eq!(address(SolidityType::ByteArray(vec![1, 2, 3])), SolidityType::Null);
    assert_eq!(uint(SolidityType::ByteArray(vec![1; 33])), SolidityType::Null);
    assert_eq!(uint(SolidityType::ByteArray(vec![0xff; 32])), SolidityType::Uint(U256 { limbs: [u64::MAX; 4] }));
}

#[test]
fn integer_text_of_two_to_the_256_does_not_parse() {
    let max = "115792089237316195423570985008687907853269984665640564039457584007913129639935";
    let over = "115792089237316195423570985008687907853269984665640564039457584007913129639936";
    assert_eq!(uint(SolidityType::String(max.to_string())), SolidityType::Uint(U256 { limbs: [u64::MAX; 4] }));
    assert_eq!(uint(SolidityType::String(over.to_string())), SolidityType::Null);
    assert_eq!(U256::parse(over), None);
}
