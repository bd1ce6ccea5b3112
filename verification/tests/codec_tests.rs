//! The per-call signature codec: selectors, argument encoding, return
//! decoding, and round trips, cross-checked against alloy's dynamic ABI
//! implementation.

use alloy_dyn_abi::{FunctionExt, JsonAbiExt};
use dyn_multicall::sig::{DecodeError, EncodeError, FunctionSig};
use dyn_multicall::values::{AbiType, DynValue};

fn word(n: u64) -> Vec<u8> {
    let mut w = vec![0u8; 24];
    w.extend_from_slice(&n.to_be_bytes());
    w
}

fn owner_address() -> Vec<u8> {
    // d8dA6BF26964aF9D7eEd9e03E53415D37aA96045
    vec![
        0xd8, 0xda, 0x6b, 0xf2, 0x69, 0x64, 0xaf, 0x9d, 0x7e, 0xed, 0x9e, 0x03, 0xe5, 0x34, 0x15,
        0xd3, 0x7a, 0xa9, 0x60, 0x45,
    ]
}

fn balance_of_sig() -> FunctionSig {
    FunctionSig::new(
        b"balanceOf".to_vec(),
        vec![AbiType::Address],
        vec![AbiType::Uint],
    )
}

fn total_supply_sig() -> FunctionSig {
    FunctionSig::new(b"totalSupply".to_vec(), Vec::new(), vec![AbiType::Uint])
}

#[test]
fn selector_balance_of() {
    assert_eq!(balance_of_sig().selector(), vec![0x70, 0xa0, 0x82, 0x31]);
}

#[test]
fn selector_total_supply() {
    assert_eq!(total_supply_sig().selector(), vec![0x18, 0x16, 0x0d, 0xdd]);
}

#[test]
fn selector_matches_alloy() {
    let cases = [
        ("balanceOf(address)", balance_of_sig()),
        ("totalSupply()", total_supply_sig()),
        (
            "transfer(address,uint256)",
            FunctionSig::new(
                b"transfer".to_vec(),
                vec![AbiType::Address, AbiType::Uint],
                vec![AbiType::Bool],
            ),
        ),
        (
            "submit(bytes,bool)",
            FunctionSig::new(
                b"submit".to_vec(),
                vec![AbiType::Bytes, AbiType::Bool],
                Vec::new(),
            ),
        ),
    ];
    for (text, sig) in cases {
        let theirs = alloy_json_abi::Function::parse(text).unwrap().selector();
        assert_eq!(sig.selector(), theirs.to_vec(), "selector of {text}");
    }
}

#[test]
fn encode_input_exact_bytes() {
    let sig = balance_of_sig();
    let out = sig
        .encode_input(&vec![DynValue::Address(owner_address())])
        .unwrap();
    let mut expected = vec![0x70, 0xa0, 0x82, 0x31];
    expected.extend_from_slice(&[0u8; 12]);
    expected.extend_from_slice(&owner_address());
    assert_eq!(out, expected);
}

#[test]
fn encode_input_matches_alloy() {
    let sig = FunctionSig::new(
        b"submit".to_vec(),
        vec![AbiType::Address, AbiType::Bytes, AbiType::Uint, AbiType::Bool],
        Vec::new(),
    );
    let data = vec![1u8, 2, 3, 4, 5, 6, 7];
    let ours = sig
        .encode_input(&vec![
            DynValue::Address(owner_address()),
            DynValue::Bytes(data.clone()),
            DynValue::Uint(word(99)),
            DynValue::Bool(true),
        ])
        .unwrap();

    let f = alloy_json_abi::Function::parse("submit(address,bytes,uint256,bool)").unwrap();
    let theirs = f
        .abi_encode_input(&[
            alloy_dyn_abi::DynSolValue::Address(alloy_primitives::Address::from_slice(
                &owner_address(),
            )),
            alloy_dyn_abi::DynSolValue::Bytes(data),
            alloy_dyn_abi::DynSolValue::Uint(alloy_primitives::U256::from(99u64), 256),
            alloy_dyn_abi::DynSolValue::Bool(true),
        ])
        .unwrap();
    assert_eq!(ours, theirs);
}

#[test]
fn encode_input_rejects_wrong_count() {
    let sig = balance_of_sig();
    assert_eq!(
        sig.encode_input(&Vec::new()),
        Err(EncodeError::ArgumentMismatch)
    );
}

#[test]
fn encode_input_rejects_wrong_type() {
    let sig = balance_of_sig();
    assert_eq!(
        sig.encode_input(&vec![DynValue::Bool(true)]),
        Err(EncodeError::ArgumentMismatch)
    );
    // an address value must hold exactly 20 bytes
    assert_eq!(
        sig.encode_input(&vec![DynValue::Address(vec![1, 2, 3])]),
        Err(EncodeError::ArgumentMismatch)
    );
}

/// Encodes `values` with a signature whose inputs are `types`, strips the
/// selector, and hands back the bare sequence encoding: the shape of a
/// return payload with those declared types.
fn encode_return_payload(types: Vec<AbiType>, values: &Vec<DynValue>) -> Vec<u8> {
    let sig = FunctionSig::new(b"probe".to_vec(), types, Vec::new());
    let encoded = sig.encode_input(values).unwrap();
    encoded[4..].to_vec()
}

#[test]
fn uint_value_holds_big_endian_word() {
    assert_eq!(
        dyn_multicall::values::uint_value_u64(123_456_789),
        DynValue::Uint(word(123_456_789))
    );
}

#[test]
fn round_trip_uint() {
    let vals = vec![DynValue::Uint(word(123_456_789))];
    let payload = encode_return_payload(vec![AbiType::Uint], &vals);
    let sig = FunctionSig::new(b"probe".to_vec(), Vec::new(), vec![AbiType::Uint]);
    assert_eq!(sig.decode_output(&payload).unwrap(), vals);
}

#[test]
fn round_trip_address() {
    let vals = vec![DynValue::Address(owner_address())];
    let payload = encode_return_payload(vec![AbiType::Address], &vals);
    let sig = FunctionSig::new(b"probe".to_vec(), Vec::new(), vec![AbiType::Address]);
    assert_eq!(sig.decode_output(&payload).unwrap(), vals);
}

#[test]
fn round_trip_bytes() {
    // a length that is not a multiple of the word size, so padding is real
    let vals = vec![DynValue::Bytes(vec![9u8; 45])];
    let payload = encode_return_payload(vec![AbiType::Bytes], &vals);
    let sig = FunctionSig::new(b"probe".to_vec(), Vec::new(), vec![AbiType::Bytes]);
    assert_eq!(sig.decode_output(&payload).unwrap(), vals);
}

#[test]
fn round_trip_empty_bytes() {
    let vals = vec![DynValue::Bytes(Vec::new())];
    let payload = encode_return_payload(vec![AbiType::Bytes], &vals);
    let sig = FunctionSig::new(b"probe".to_vec(), Vec::new(), vec![AbiType::Bytes]);
    assert_eq!(sig.decode_output(&payload).unwrap(), vals);
}

#[test]
fn round_trip_mixed() {
    let vals = vec![
        DynValue::Bool(true),
        DynValue::Bytes(vec![1, 2, 3]),
        DynValue::Uint(word(7)),
        DynValue::Address(owner_address()),
        DynValue::Bytes(vec![0xff; 32]),
    ];
    let types = vec![
        AbiType::Bool,
        AbiType::Bytes,
        AbiType::Uint,
        AbiType::Address,
        AbiType::Bytes,
    ];
    let payload = encode_return_payload(types.clone(), &vals);
    let sig = FunctionSig::new(b"probe".to_vec(), Vec::new(), types);
    assert_eq!(sig.decode_output(&payload).unwrap(), vals);
}

#[test]
fn decode_output_matches_alloy() {
    let f = alloy_json_abi::Function::parse("probe()(uint256,bytes)").unwrap();
    let payload = f
        .abi_encode_output(&[
            alloy_dyn_abi::DynSolValue::Uint(alloy_primitives::U256::from(42u64), 256),
            alloy_dyn_abi::DynSolValue::Bytes(vec![7, 8, 9]),
        ])
        .unwrap();
    let sig = FunctionSig::new(
        b"probe".to_vec(),
        Vec::new(),
        vec![AbiType::Uint, AbiType::Bytes],
    );
    let vals = sig.decode_output(&payload).unwrap();
    assert_eq!(
        vals,
        vec![DynValue::Uint(word(42)), DynValue::Bytes(vec![7, 8, 9])]
    );
}

#[test]
fn decode_output_rejects_truncated() {
    let sig = FunctionSig::new(b"probe".to_vec(), Vec::new(), vec![AbiType::Uint]);
    assert_eq!(
        sig.decode_output(&vec![0u8; 31]),
        Err(DecodeError::MalformedData)
    );
}

#[test]
fn decode_output_rejects_trailing_garbage() {
    let sig = FunctionSig::new(b"probe".to_vec(), Vec::new(), vec![AbiType::Uint]);
    let mut payload = word(5);
    payload.push(0);
    assert_eq!(
        sig.decode_output(&payload),
        Err(DecodeError::MalformedData)
    );
}

#[test]
fn decode_output_rejects_bad_bool_word() {
    let sig = FunctionSig::new(b"probe".to_vec(), Vec::new(), vec![AbiType::Bool]);
    assert_eq!(sig.decode_output(&word(1)).unwrap(), vec![DynValue::Bool(true)]);
    assert_eq!(
        sig.decode_output(&word(2)),
        Err(DecodeError::MalformedData)
    );
}

#[test]
fn decode_output_rejects_bad_offset() {
    let sig = FunctionSig::new(b"probe".to_vec(), Vec::new(), vec![AbiType::Bytes]);
    // canonical would be offset 32; point the tail elsewhere
    let mut payload = word(64);
    payload.extend_from_slice(&word(0));
    assert_eq!(
        sig.decode_output(&payload),
        Err(DecodeError::MalformedData)
    );
}

#[test]
fn decode_output_rejects_nonzero_padding() {
    let sig = FunctionSig::new(b"probe".to_vec(), Vec::new(), vec![AbiType::Bytes]);
    let mut payload = word(32);
    payload.extend_from_slice(&word(1));
    let mut tail = vec![0xabu8];
    tail.extend_from_slice(&vec![0u8; 30]);
    tail.push(1); // padding must be zero
    payload.extend_from_slice(&tail);
    assert_eq!(
        sig.decode_output(&payload),
        Err(DecodeError::MalformedData)
    );
}
