//! The aggregation builder: queueing, configuration, request encoding,
//! and decoding transport outcomes into per-call results.

use dyn_multicall::batch::{encode_reply, BatchResult};
use dyn_multicall::builder::{
    AccountOverride, AggregateError, BlockRef, DynCallItem, DynamicMulticallBuilder, InputKind,
    StorageSlot, TransportFault,
};
use dyn_multicall::sig::FunctionSig;
use dyn_multicall::values::{AbiType, DynValue};

/// A stand-in transport handle; the builder only carries it.
#[derive(Clone, Copy, Debug, PartialEq, Eq)]
struct StubProvider(u32);

fn word(n: u64) -> Vec<u8> {
    let mut w = vec![0u8; 24];
    w.extend_from_slice(&n.to_be_bytes());
    w
}

fn weth_address() -> Vec<u8> {
    // C02aaA39b223FE8D0A0e5C4F27eAD9083C756Cc2
    vec![
        0xc0, 0x2a, 0xaa, 0x39, 0xb2, 0x23, 0xfe, 0x8d, 0x0a, 0x0e, 0x5c, 0x4f, 0x27, 0xea, 0xd9,
        0x08, 0x3c, 0x75, 0x6c, 0xc2,
    ]
}

fn owner_address() -> Vec<u8> {
    // d8dA6BF26964aF9D7eEd9e03E53415D37aA96045
    vec![
        0xd8, 0xda, 0x6b, 0xf2, 0x69, 0x64, 0xaf, 0x9d, 0x7e, 0xed, 0x9e, 0x03, 0xe5, 0x34, 0x15,
        0xd3, 0x7a, 0xa9, 0x60, 0x45,
    ]
}

fn balance_of_sig() -> FunctionSig {
    FunctionSig::new(
        b"balanceOf".to_vec(),
        vec![AbiType::Address],
        vec![AbiType::Uint],
    )
}

fn total_supply_sig() -> FunctionSig {
    FunctionSig::new(b"totalSupply".to_vec(), Vec::new(), vec![AbiType::Uint])
}

fn balance_of_call() -> DynCallItem {
    DynCallItem::new(
        weth_address(),
        vec![DynValue::Address(owner_address())],
        balance_of_sig(),
        false,
    )
}

fn total_supply_call() -> DynCallItem {
    DynCallItem::new(weth_address(), Vec::new(), total_supply_sig(), false)
}

#[test]
fn new_builder_defaults() {
    let b = DynamicMulticallBuilder::new(StubProvider(7));
    assert_eq!(b.len(), 0);
    assert!(b.is_empty());
    assert_eq!(b.provider, StubProvider(7));
    assert!(b.block.is_none());
    assert!(b.state_override.is_none());
    assert_eq!(b.input_kind(), InputKind::Input);
    // the canonical batching contract deployment address
    assert_eq!(
        b.address,
        vec![
            0xca, 0x11, 0xbd, 0xe0, 0x59, 0x77, 0xb3, 0x63, 0x11, 0x67, 0x02, 0x88, 0x62, 0xbe,
            0x2a, 0x17, 0x39, 0x76, 0xca, 0x11,
        ]
    );
}

#[test]
fn add_call_extends_queue_in_order() {
    let b = DynamicMulticallBuilder::new(StubProvider(0))
        .add_call(balance_of_call())
        .add_call(total_supply_call());
    assert_eq!(b.len(), 2);
    assert!(!b.is_empty());
    assert_eq!(b.calls[0].decoder.name, b"balanceOf".to_vec());
    assert_eq!(b.calls[1].decoder.name, b"totalSupply".to_vec());
}

#[test]
fn clear_empties_queue_and_preserves_configuration() {
    let overrides = vec![AccountOverride {
        address: weth_address(),
        balance: Some(word(5)),
        code: None,
        storage: vec![StorageSlot { key: word(1), value: word(2) }],
    }];
    let b = DynamicMulticallBuilder::new(StubProvider(3))
        .with_block(Some(BlockRef::Number(123_456)))
        .with_state_override(Some(overrides))
        .with_address(owner_address())
        .with_input_kind(InputKind::Both)
        .add_call(balance_of_call())
        .add_call(total_supply_call());
    assert_eq!(b.len(), 2);
    let cleared = b.clear();
    assert_eq!(cleared.len(), 0);
    assert!(cleared.is_empty());
    assert_eq!(cleared.provider, StubProvider(3));
    assert!(matches!(cleared.block, Some(BlockRef::Number(123_456))));
    let kept = cleared.state_override.as_ref().unwrap();
    assert_eq!(kept.len(), 1);
    assert_eq!(kept[0].address, weth_address());
    assert_eq!(kept[0].balance, Some(word(5)));
    assert_eq!(cleared.address, owner_address());
    assert_eq!(cleared.input_kind(), InputKind::Both);
}

#[test]
fn call_item_builder_setters() {
    let item = balance_of_call();
    assert!(!item.allow_failure);
    assert_eq!(item.value, word(0));
    let item = item.allow_failure(true);
    assert!(item.allow_failure);
    assert_eq!(item.target, weth_address());
    let item = item.value(word(42));
    assert_eq!(item.value, word(42));
    assert!(item.allow_failure);
    assert_eq!(item.params, vec![DynValue::Address(owner_address())]);
}

#[test]
fn encode_request_exact_bytes_single_call() {
    let b = DynamicMulticallBuilder::new(StubProvider(0)).add_call(total_supply_call());
    let out = b.encode_request().unwrap();
    let mut expected = vec![0x82, 0xad, 0x56, 0xcb]; // the batching function's selector
    expected.extend_from_slice(&word(32)); // offset of the call array
    expected.extend_from_slice(&word(1)); // one call
    expected.extend_from_slice(&word(32)); // offset of the only tuple
    expected.extend_from_slice(&[0u8; 12]); // address, left-padded
    expected.extend_from_slice(&weth_address());
    expected.extend_from_slice(&word(0)); // allow_failure == false
    expected.extend_from_slice(&word(96)); // offset of the call bytes
    expected.extend_from_slice(&word(4)); // selector-only call data
    expected.extend_from_slice(&[0x18, 0x16, 0x0d, 0xdd]); // totalSupply()
    expected.extend_from_slice(&[0u8; 28]); // padding to a full word
    assert_eq!(out, expected);
}

#[test]
fn encode_request_fails_before_transport_on_mismatch() {
    // balanceOf(address) queued with no arguments
    let bad = DynCallItem::new(weth_address(), Vec::new(), balance_of_sig(), false);
    let b = DynamicMulticallBuilder::new(StubProvider(0)).add_call(bad);
    let mut transport_invoked = false;
    let outcome = match b.encode_request() {
        Ok(request) => {
            transport_invoked = true;
            let _ = request;
            unreachable!("a mismatched call must not produce a request");
        }
        Err(e) => e,
    };
    assert_eq!(outcome, AggregateError::EncodeFailed);
    assert!(!transport_invoked);
}

#[test]
fn aggregate_two_calls_end_to_end() {
    let b = DynamicMulticallBuilder::new(StubProvider(0))
        .add_call(balance_of_call())
        .add_call(total_supply_call());
    assert_eq!(b.len(), 2);
    let request = b.encode_request().unwrap();
    assert!(!request.is_empty());
    // a conforming batching contract's reply: balanceOf returns zero,
    // totalSupply a fixed constant
    let reply = encode_reply(&vec![
        BatchResult { success: true, return_data: word(0) },
        BatchResult { success: true, return_data: word(3_000_000) },
    ])
    .unwrap();
    let res = b.aggregate3(Ok(reply)).unwrap();
    assert_eq!(res.len(), 2);
    for result in &res {
        assert_eq!(result.as_ref().unwrap().len(), 1);
    }
    assert_eq!(res[0], Ok(vec![DynValue::Uint(word(0))]));
    assert_eq!(res[1], Ok(vec![DynValue::Uint(word(3_000_000))]));
}

#[test]
fn allowed_failure_is_reported_in_place() {
    let b = DynamicMulticallBuilder::new(StubProvider(0))
        .add_call(balance_of_call().allow_failure(true))
        .add_call(total_supply_call());
    let reply = encode_reply(&vec![
        BatchResult { success: false, return_data: vec![0xde, 0xad] },
        BatchResult { success: true, return_data: word(9) },
    ])
    .unwrap();
    let res = b.aggregate3(Ok(reply)).unwrap();
    assert_eq!(res.len(), 2);
    let failure = res[0].as_ref().unwrap_err();
    assert_eq!(failure.idx, 0);
    assert_eq!(failure.return_data, vec![0xde, 0xad]);
    // the sibling call still decodes
    assert_eq!(res[1], Ok(vec![DynValue::Uint(word(9))]));
}

#[test]
fn transport_failure_aborts_whole_aggregation() {
    let b = DynamicMulticallBuilder::new(StubProvider(0))
        .add_call(balance_of_call())
        .add_call(total_supply_call());
    let fault = TransportFault { message: b"execution reverted".to_vec() };
    assert_eq!(b.aggregate3(Err(fault)), Err(AggregateError::TransportFailed));
}

#[test]
fn count_mismatch_yields_no_results() {
    let b = DynamicMulticallBuilder::new(StubProvider(0))
        .add_call(balance_of_call())
        .add_call(total_supply_call());
    let reply = encode_reply(&vec![BatchResult { success: true, return_data: word(1) }]).unwrap();
    assert_eq!(b.aggregate3(Ok(reply)), Err(AggregateError::CountMismatch));
}

#[test]
fn undecodable_successful_item_aborts_aggregation() {
    let b = DynamicMulticallBuilder::new(StubProvider(0)).add_call(total_supply_call());
    // reported success, but three bytes cannot hold a uint256
    let reply = encode_reply(&vec![BatchResult {
        success: true,
        return_data: vec![1, 2, 3],
    }])
    .unwrap();
    assert_eq!(b.aggregate3(Ok(reply)), Err(AggregateError::DecodeFailed));
}

#[test]
fn malformed_outer_reply_aborts_aggregation() {
    let b = DynamicMulticallBuilder::new(StubProvider(0)).add_call(total_supply_call());
    assert_eq!(
        b.aggregate3(Ok(vec![0u8; 7])),
        Err(AggregateError::DecodeFailed)
    );
}

#[test]
fn empty_builder_aggregates_to_no_results() {
    let b = DynamicMulticallBuilder::new(StubProvider(0));
    let reply = encode_reply(&Vec::new()).unwrap();
    let res = b.aggregate3(Ok(reply)).unwrap();
    assert!(res.is_empty());
}

#[test]
fn reply_wire_form_matches_alloy() {
    let items = vec![
        BatchResult { success: true, return_data: word(5) },
        BatchResult { success: false, return_data: vec![0xca, 0xfe, 0xba, 0xbe, 0x01] },
    ];
    let ours = encode_reply(&items).unwrap();
    let theirs = alloy_dyn_abi::DynSolValue::Array(
        items
            .iter()
            .map(|it| {
                alloy_dyn_abi::DynSolValue::Tuple(vec![
                    alloy_dyn_abi::DynSolValue::Bool(it.success),
                    alloy_dyn_abi::DynSolValue::Bytes(it.return_data.clone()),
                ])
            })
            .collect(),
    )
    .abi_encode();
    assert_eq!(ours, theirs);
}

#[test]
fn reply_wire_form_round_trips() {
    let items = vec![
        BatchResult { success: true, return_data: word(5) },
        BatchResult { success: false, return_data: vec![1, 2, 3, 4, 5] },
        BatchResult { success: true, return_data: Vec::new() },
    ];
    let bytes = encode_reply(&items).unwrap();
    assert_eq!(dyn_multicall::batch::decode_reply(&bytes).unwrap(), items);
}

#[test]
fn encode_request_matches_alloy_wire_form() {
    let b = DynamicMulticallBuilder::new(StubProvider(0))
        .add_call(balance_of_call().allow_failure(true))
        .add_call(total_supply_call());
    let ours = b.encode_request().unwrap();

    let tuple_of = |call: &DynCallItem| {
        let data = call
            .decoder
            .encode_input(&call.params)
            .expect("test call encodes");
        alloy_dyn_abi::DynSolValue::Tuple(vec![
            alloy_dyn_abi::DynSolValue::Address(alloy_primitives::Address::from_slice(
                &call.target,
            )),
            alloy_dyn_abi::DynSolValue::Bool(call.allow_failure),
            alloy_dyn_abi::DynSolValue::Bytes(data),
        ])
    };
    let theirs = alloy_dyn_abi::DynSolValue::Array(vec![
        tuple_of(&b.calls[0]),
        tuple_of(&b.calls[1]),
    ])
    .abi_encode();

    assert_eq!(ours[..4], [0x82, 0xad, 0x56, 0xcb]);
    assert_eq!(ours[4..], theirs);
}

#[test]
fn request_selector_is_keccak_of_batching_signature() {
    let digest = alloy_primitives::keccak256(b"aggregate3((address,bool,bytes)[])");
    assert_eq!(digest[..4], [0x82, 0xad, 0x56, 0xcb]);
}
