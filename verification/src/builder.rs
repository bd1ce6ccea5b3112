//! The call-aggregation builder.
//!
//! A builder owns an ordered queue of call items plus its execution
//! configuration.  Aggregation is one round trip: the queue is encoded into
//! a single request against the batching contract, the transport adapter
//! performs that one read-only call, and the reply is decoded back into one
//! result per queued call, in queue order.  The transport itself lives
//! outside this crate; the builder exposes the two pure halves,
//! [`DynamicMulticallBuilder::encode_request`] before the call and
//! [`DynamicMulticallBuilder::aggregate3`] on its outcome.

use vstd::prelude::*;

use crate::batch::{
    blob_views, decode_reply, enc_call_item, enc_dyn_array, encode_outer_array,
    lemma_concat_blobs_index, outer_len, request_selector, request_selector_vec,
    spec_decode_reply, BatchResultModel,
};
use crate::codec::{
    enc_len, enc_values, encode_values_raw, lemma_heads_len, spec_decode, wf_vals,
};
use crate::sig::{spec_selector, FunctionSig};
use crate::values::{matches_types, views_of, DynValue, ValModel};
use crate::words::{append_bytes, copy_range, word_of_u64, word_u64_vec};

verus! {

/// Where a read-only call is pinned: a specific height, a block hash, or a
/// named chain state.
#[derive(Clone, Debug)]
pub enum BlockRef {
    Number(u64),
    Hash(Vec<u8>),
    Earliest,
    Latest,
    Pending,
    Safe,
    Finalized,
}

/// One overridden storage slot.
#[derive(Clone, Debug)]
pub struct StorageSlot {
    pub key: Vec<u8>,
    pub value: Vec<u8>,
}

/// A call-scoped simulated change to one account's balance, code or
/// storage, applied only for the duration of the one read-only call.
#[derive(Clone, Debug)]
pub struct AccountOverride {
    pub address: Vec<u8>,
    pub balance: Option<Vec<u8>>,
    pub code: Option<Vec<u8>>,
    pub storage: Vec<StorageSlot>,
}

/// Which request field carries the call bytes on the wire.
#[derive(Clone, Copy, Debug, PartialEq, Eq, Structural)]
pub enum InputKind {
    Input,
    Data,
    Both,
}

impl Default for InputKind {
    fn default() -> (r: Self)
        ensures
            r == InputKind::Input,
    {
        InputKind::Input
    }
}

/// The transport adapter's failure: the one underlying call produced no
/// reply bytes.
#[derive(Clone, Debug)]
pub struct TransportFault {
    pub message: Vec<u8>,
}

/// Why an aggregation aborted with no results.
#[derive(Clone, Copy, Debug, PartialEq, Eq, Structural)]
pub enum AggregateError {
    /// A queued call's arguments do not match its signature, so the
    /// request was never sent.
    EncodeFailed,
    /// The underlying transport call itself failed.
    TransportFailed,
    /// The reply item count differs from the queued call count.
    CountMismatch,
    /// A reported-successful item's bytes do not decode against its
    /// call's signature.
    DecodeFailed,
}

/// One call's failure inside an otherwise successful aggregation: its
/// position and raw return bytes.
#[derive(Clone, Debug, PartialEq, Eq)]
pub struct CallFailure {
    pub idx: usize,
    pub return_data: Vec<u8>,
}

/// An individual batched call: destination, dynamically typed arguments,
/// failure tolerance, attached native-asset amount, and the signature that
/// drives its codec.
#[derive(Clone, Debug)]
pub struct DynCallItem {
    /// The 20-byte destination address.
    pub target: Vec<u8>,
    /// The argument values, in declared order.
    pub params: Vec<DynValue>,
    /// Whether this call may fail without aborting the whole batch.
    pub allow_failure: bool,
    /// The attached amount, as a 32-byte big-endian word.
    pub value: Vec<u8>,
    /// The signature used to encode arguments and decode the return value.
    pub decoder: FunctionSig,
}

impl DynCallItem {
    /// A new call item with a zero attached amount.  Arguments are not
    /// validated here; a mismatch against the signature surfaces at
    /// aggregation time.
    pub fn new(target: Vec<u8>, params: Vec<DynValue>, function: FunctionSig, allow_failure: bool)
        -> (r: Self)
        ensures
            r.target == target,
            r.params == params,
            r.allow_failure == allow_failure,
            r.value@ == word_of_u64(0),
            r.decoder == function,
    {
        DynCallItem { target, params, allow_failure, value: word_u64_vec(0), decoder: function }
    }

    /// The same call with its failure tolerance replaced.
    pub fn allow_failure(self, allow_failure: bool) -> (r: Self)
        ensures
            r == (DynCallItem { allow_failure, ..self }),
    {
        DynCallItem { allow_failure, ..self }
    }

    /// The same call with its attached amount replaced.
    pub fn value(self, value: Vec<u8>) -> (r: Self)
        ensures
            r == (DynCallItem { value, ..self }),
    {
        DynCallItem { value, ..self }
    }
}

/// The selector-prefixed argument encoding of one call.
pub open spec fn call_data(c: DynCallItem) -> Seq<u8> {
    spec_selector(c.decoder.name@, c.decoder.inputs@) + enc_values(views_of(c.params@))
}

/// The wire tuple of one queued call.
pub open spec fn call_blob(c: DynCallItem) -> Seq<u8> {
    enc_call_item(c.target@, c.allow_failure, call_data(c))
}

/// Whether one call can be encoded: its target is a 20-byte address and
/// its arguments type-check against its signature's input types.
pub open spec fn call_encodable(c: DynCallItem) -> bool {
    c.target@.len() == 20 && matches_types(views_of(c.params@), c.decoder.inputs@)
}

pub open spec fn calls_encodable(cs: Seq<DynCallItem>) -> bool {
    forall|i: int| 0 <= i < cs.len() ==> call_encodable(#[trigger] cs[i])
}

pub open spec fn request_blobs(cs: Seq<DynCallItem>) -> Seq<Seq<u8>> {
    cs.map_values(|c: DynCallItem| call_blob(c))
}

/// The outer request: the batching function's selector, the outer offset
/// word, then the call array.
pub open spec fn spec_request(cs: Seq<DynCallItem>) -> Seq<u8> {
    request_selector() + word_of_u64(32) + enc_dyn_array(request_blobs(cs))
}

/// The whole aggregation pipeline, minus the one transport call.
pub struct DynamicMulticallBuilder<T> {
    /// The queued calls; queue order is execution and result order.
    pub calls: Vec<DynCallItem>,
    /// The transport handle the aggregation is run against.
    pub provider: T,
    /// An optional pin to a chain state.
    pub block: Option<BlockRef>,
    /// Optional call-scoped account overrides.
    pub state_override: Option<Vec<AccountOverride>>,
    /// The batching contract's address.
    pub address: Vec<u8>,
    /// The request field that carries the call bytes.
    pub input_kind: InputKind,
}

/// The batching contract's canonical deployment address, reused across
/// chains.
pub open spec fn multicall3_address() -> Seq<u8> {
    seq![
        0xcau8,
        0x11u8,
        0xbdu8,
        0xe0u8,
        0x59u8,
        0x77u8,
        0xb3u8,
        0x63u8,
        0x11u8,
        0x67u8,
        0x02u8,
        0x88u8,
        0x62u8,
        0xbeu8,
        0x2au8,
        0x17u8,
        0x39u8,
        0x76u8,
        0xcau8,
        0x11u8,
    ]
}

/// Builds the canonical batching contract address.
pub fn multicall3_address_vec() -> (r: Vec<u8>)
    ensures
        r@ == multicall3_address(),
{
    let mut r: Vec<u8> = Vec::new();
    r.push(0xca);
    r.push(0x11);
    r.push(0xbd);
    r.push(0xe0);
    r.push(0x59);
    r.push(0x77);
    r.push(0xb3);
    r.push(0x63);
    r.push(0x11);
    r.push(0x67);
    r.push(0x02);
    r.push(0x88);
    r.push(0x62);
    r.push(0xbe);
    r.push(0x2a);
    r.push(0x17);
    r.push(0x39);
    r.push(0x76);
    r.push(0xca);
    r.push(0x11);
    assert(r@ =~= multicall3_address());
    r
}

impl<T> DynamicMulticallBuilder<T> {
    /// A fresh builder over `provider`: no queued calls, no block pin, no
    /// overrides, the canonical batching contract address, and the default
    /// payload-encoding convention.
    pub fn new(provider: T) -> (r: Self)
        ensures
            r.calls@ == Seq::<DynCallItem>::empty(),
            r.provider == provider,
            r.block is None,
            r.state_override is None,
            r.address@ == multicall3_address(),
            r.input_kind == InputKind::Input,
    {
        DynamicMulticallBuilder {
            calls: Vec::new(),
            provider,
            block: None,
            state_override: None,
            address: multicall3_address_vec(),
            input_kind: InputKind::default(),
        }
    }

    /// The builder with `call` appended at the end of the queue; no
    /// deduplication, no reordering.
    pub fn add_call(self, call: DynCallItem) -> (r: Self)
        ensures
            r.calls@ == self.calls@.push(call),
            r.provider == self.provider,
            r.block == self.block,
            r.state_override == self.state_override,
            r.address == self.address,
            r.input_kind == self.input_kind,
    {
        let mut calls = self.calls;
        calls.push(call);
        DynamicMulticallBuilder {
            calls,
            provider: self.provider,
            block: self.block,
            state_override: self.state_override,
            address: self.address,
            input_kind: self.input_kind,
        }
    }

    /// The builder with an empty queue; transport handle, address, block
    /// pin and overrides are preserved.
    pub fn clear(self) -> (r: Self)
        ensures
            r.calls@ == Seq::<DynCallItem>::empty(),
            r.provider == self.provider,
            r.block == self.block,
            r.state_override == self.state_override,
            r.address == self.address,
            r.input_kind == self.input_kind,
    {
        DynamicMulticallBuilder {
            calls: Vec::new(),
            provider: self.provider,
            block: self.block,
            state_override: self.state_override,
            address: self.address,
            input_kind: self.input_kind,
        }
    }

    /// The number of queued calls.
    pub fn len(&self) -> (r: usize)
        ensures
            r == self.calls@.len(),
    {
        self.calls.len()
    }

    /// Whether the queue is empty.
    pub fn is_empty(&self) -> (r: bool)
        ensures
            r == (self.calls@.len() == 0),
    {
        self.calls.is_empty()
    }

    /// The builder with its payload-encoding convention replaced.
    pub fn with_input_kind(self, input_kind: InputKind) -> (r: Self)
        ensures
            r == (DynamicMulticallBuilder { input_kind, ..self }),
    {
        DynamicMulticallBuilder { input_kind, ..self }
    }

    /// The payload-encoding convention of this builder.
    pub fn input_kind(&self) -> (r: InputKind)
        ensures
            r == self.input_kind,
    {
        self.input_kind
    }

    /// The builder with its block pin replaced.
    pub fn with_block(self, block: Option<BlockRef>) -> (r: Self)
        ensures
            r == (DynamicMulticallBuilder { block, ..self }),
    {
        DynamicMulticallBuilder { block, ..self }
    }

    /// The builder with its state overrides replaced.
    pub fn with_state_override(self, state_override: Option<Vec<AccountOverride>>) -> (r: Self)
        ensures
            r == (DynamicMulticallBuilder { state_override, ..self }),
    {
        DynamicMulticallBuilder { state_override, ..self }
    }

    /// The builder with its batching contract address replaced.
    pub fn with_address(self, address: Vec<u8>) -> (r: Self)
        ensures
            r == (DynamicMulticallBuilder { address, ..self }),
    {
        DynamicMulticallBuilder { address, ..self }
    }

    /// Encodes the queued calls into the one outer request.  Fails with
    /// `EncodeFailed`, before any transport interaction, exactly when some
    /// queued call's arguments do not match its signature or its target is
    /// not a 20-byte address (or the request would not fit in memory); the
    /// first such call aborts the whole encoding.
    #[verifier::loop_isolation(false)]
    pub fn encode_request(&self) -> (r: Result<Vec<u8>, AggregateError>)
        ensures
            match r {
                Ok(out) => calls_encodable(self.calls@) && outer_len(request_blobs(self.calls@))
                    <= usize::MAX && out@ == spec_request(self.calls@),
                Err(e) => e == AggregateError::EncodeFailed && !(calls_encodable(self.calls@)
                    && outer_len(request_blobs(self.calls@)) <= usize::MAX),
            },
    {
        let ghost cs = self.calls@;
        let ghost rblobs = request_blobs(cs);
        let n = self.calls.len();
        let mut blobs: Vec<Vec<u8>> = Vec::new();
        let mut i: usize = 0;
        proof {
            assert(blob_views(blobs@) =~= rblobs.take(0));
        }
        while i < n
            invariant
                cs == self.calls@,
                rblobs == request_blobs(cs),
                n == cs.len(),
                i <= n,
                blobs@.len() == i,
                blob_views(blobs@) == rblobs.take(i as int),
                forall|k: int| 0 <= k < i ==> call_encodable(#[trigger] cs[k]),
            decreases n - i,
        {
            let c = &self.calls[i];
            if c.target.len() != 20 {
                proof {
                    assert(!call_encodable(cs[i as int]));
                }
                return Err(AggregateError::EncodeFailed);
            }
            let cd = match c.decoder.encode_input(&c.params) {
                Ok(cd) => cd,
                Err(_) => {
                    proof {
                        if matches_types(views_of(cs[i as int].params@), cs[i as int].decoder.inputs@) {
                            // only the in-memory bound failed: the blob, and so
                            // the whole request, is longer than any vector
                            lemma_call_blob_long(cs, i as int);
                        }
                    }
                    return Err(AggregateError::EncodeFailed);
                },
            };
            let target = copy_range(&c.target, 0, c.target.len());
            let mut triple: Vec<DynValue> = Vec::new();
            triple.push(DynValue::Address(target));
            triple.push(DynValue::Bool(c.allow_failure));
            triple.push(DynValue::Bytes(cd));
            proof {
                assert(target@ =~= cs[i as int].target@);
                assert(views_of(triple@) =~= seq![
                    ValModel::Address(cs[i as int].target@),
                    ValModel::Bool(cs[i as int].allow_failure),
                    ValModel::Bytes(call_data(cs[i as int])),
                ]);
                assert(wf_vals(views_of(triple@)));
            }
            let blob = match encode_values_raw(&triple) {
                Some(b) => b,
                None => {
                    proof {
                        lemma_heads_len(views_of(triple@), 96);
                        assert(rblobs[i as int] == enc_values(views_of(triple@)));
                        lemma_concat_blobs_index(rblobs, i as int);
                    }
                    return Err(AggregateError::EncodeFailed);
                },
            };
            blobs.push(blob);
            proof {
                assert(rblobs[i as int] == enc_values(views_of(triple@)));
                assert(blob_views(blobs@) =~= rblobs.take(i + 1));
            }
            i = i + 1;
        }
        proof {
            assert(rblobs.take(n as int) =~= rblobs);
        }
        let arr = match encode_outer_array(&blobs) {
            Some(a) => a,
            None => {
                return Err(AggregateError::EncodeFailed);
            },
        };
        let sel = request_selector_vec();
        let out = append_bytes(sel, &arr);
        proof {
            assert(out@ =~= spec_request(cs));
        }
        Ok(out)
    }

    /// Turns the one transport outcome into per-call results, in queue
    /// order.  A transport failure aborts with `TransportFailed`; an
    /// undecodable outer reply aborts with `DecodeFailed`; a reply whose
    /// item count differs from the queue aborts with `CountMismatch`; a
    /// reported-successful item whose bytes do not decode against its
    /// call's signature aborts the whole aggregation with `DecodeFailed`.
    /// Otherwise each reported-successful item becomes its decoded values
    /// and each reported-failed item becomes a failure record carrying its
    /// position and raw bytes.
    #[verifier::loop_isolation(false)]
    pub fn aggregate3(&self, transport_outcome: Result<Vec<u8>, TransportFault>) -> (r: Result<
        Vec<Result<Vec<DynValue>, CallFailure>>,
        AggregateError,
    >)
        ensures
            aggregate3_post(self.calls@, transport_outcome, r),
    {
        let reply = match transport_outcome {
            Ok(reply) => reply,
            Err(_) => {
                return Err(AggregateError::TransportFailed);
            },
        };
        let items = match decode_reply(&reply) {
            Some(items) => items,
            None => {
                return Err(AggregateError::DecodeFailed);
            },
        };
        let ghost models = crate::batch::result_views(items@);
        let n = items.len();
        if n != self.calls.len() {
            return Err(AggregateError::CountMismatch);
        }
        let mut results: Vec<Result<Vec<DynValue>, CallFailure>> = Vec::new();
        let mut i: usize = 0;
        while i < n
            invariant
                models == crate::batch::result_views(items@),
                spec_decode_reply(reply@) == Some(models),
                n == items@.len() == self.calls@.len(),
                i <= n,
                results@.len() == i,
                forall|k: int| 0 <= k < i ==> result_matches_at(self.calls@, models, results@, k),
            decreases n - i,
        {
            let ghost prev = results@;
            if items[i].success {
                match self.calls[i].decoder.decode_output(&items[i].return_data) {
                    Ok(vals) => {
                        results.push(Ok(vals));
                        proof {
                            assert forall|k: int| 0 <= k < i + 1 implies result_matches_at(
                                self.calls@,
                                models,
                                results@,
                                k,
                            ) by {
                                if k < i as int {
                                    assert(result_matches_at(self.calls@, models, prev, k));
                                    assert(results@[k] == prev[k]);
                                }
                            }
                        }
                    },
                    Err(_) => {
                        proof {
                            assert(models[i as int].success && spec_decode(
                                self.calls@[i as int].decoder.outputs@,
                                models[i as int].return_data,
                            ) is None);
                        }
                        return Err(AggregateError::DecodeFailed);
                    },
                }
            } else {
                let data = copy_range(&items[i].return_data, 0, items[i].return_data.len());
                proof {
                    assert(data@ =~= models[i as int].return_data);
                }
                results.push(Err(CallFailure { idx: i, return_data: data }));
                proof {
                    assert forall|k: int| 0 <= k < i + 1 implies result_matches_at(
                        self.calls@,
                        models,
                        results@,
                        k,
                    ) by {
                        if k < i as int {
                            assert(result_matches_at(self.calls@, models, prev, k));
                            assert(results@[k] == prev[k]);
                        }
                    }
                }
            }
            i = i + 1;
        }
        proof {
            if exists|k: int|
                0 <= k < models.len() && #[trigger] models[k].success && spec_decode(
                    self.calls@[k].decoder.outputs@,
                    models[k].return_data,
                ) is None {
                let k = choose|k: int|
                    0 <= k < models.len() && #[trigger] models[k].success && spec_decode(
                        self.calls@[k].decoder.outputs@,
                        models[k].return_data,
                    ) is None;
                assert(result_matches_at(self.calls@, models, results@, k));
                assert(false);
            }
        }
        Ok(results)
    }
}

/// If call `i`'s argument encoding is longer than any vector, so is the
/// whole request.
proof fn lemma_call_blob_long(cs: Seq<DynCallItem>, i: int)
    requires
        0 <= i < cs.len(),
        call_encodable(cs[i]),
        enc_len(views_of(cs[i].params@)) > usize::MAX,
    ensures
        outer_len(request_blobs(cs)) > usize::MAX,
{
    let vs3 = seq![
        ValModel::Address(cs[i].target@),
        ValModel::Bool(cs[i].allow_failure),
        ValModel::Bytes(call_data(cs[i])),
    ];
    crate::codec::lemma_matches_wf(views_of(cs[i].params@), cs[i].decoder.inputs@);
    lemma_heads_len(views_of(cs[i].params@), 32 * views_of(cs[i].params@).len() as int);
    assert(call_data(cs[i]).len() >= enc_len(views_of(cs[i].params@)));
    assert(wf_vals(vs3));
    lemma_heads_len(vs3, 96);
    assert(vs3.drop_first() =~= seq![ValModel::Bool(cs[i].allow_failure), ValModel::Bytes(call_data(cs[i]))]);
    assert(vs3.drop_first().drop_first() =~= seq![ValModel::Bytes(call_data(cs[i]))]);
    assert(vs3.drop_first().drop_first().drop_first() =~= Seq::<ValModel>::empty());
    let d = call_data(cs[i]);
    assert(crate::codec::tails(vs3) == crate::codec::tail_of(vs3[0]) + crate::codec::tails(
        vs3.drop_first(),
    ));
    assert(crate::codec::tails(vs3.drop_first()) == crate::codec::tail_of(vs3.drop_first()[0])
        + crate::codec::tails(vs3.drop_first().drop_first()));
    assert(crate::codec::tails(vs3.drop_first().drop_first()) == crate::codec::tail_of(
        ValModel::Bytes(d),
    ) + crate::codec::tails(Seq::<ValModel>::empty()));
    assert(0 <= d.len() % 32 < 32);
    assert(crate::codec::tail_of(ValModel::Bytes(d)).len() >= 32 + d.len());
    assert(request_blobs(cs)[i].len() > usize::MAX);
    lemma_concat_blobs_index(request_blobs(cs), i);
}

/// Whether result `k` mirrors reply item `k`: decoded values for a
/// reported success, a positioned failure record for a reported failure.
pub open spec fn result_matches_at(
    cs: Seq<DynCallItem>,
    items: Seq<BatchResultModel>,
    results: Seq<Result<Vec<DynValue>, CallFailure>>,
    k: int,
) -> bool {
    if items[k].success {
        results[k] matches Ok(vals) && spec_decode(cs[k].decoder.outputs@, items[k].return_data)
            == Some(views_of(vals@))
    } else {
        results[k] matches Err(f) && f.idx == k && f.return_data@ == items[k].return_data
    }
}

/// Each result mirrors its reply item, by position, one per queued call.
pub open spec fn results_match(
    cs: Seq<DynCallItem>,
    items: Seq<BatchResultModel>,
    results: Seq<Result<Vec<DynValue>, CallFailure>>,
) -> bool {
    results.len() == cs.len() && forall|k: int|
        0 <= k < cs.len() ==> #[trigger] result_matches_at(cs, items, results, k)
}

/// What `aggregate3` returns, for every queue and transport outcome.
pub open spec fn aggregate3_post(
    cs: Seq<DynCallItem>,
    outcome: Result<Vec<u8>, TransportFault>,
    r: Result<Vec<Result<Vec<DynValue>, CallFailure>>, AggregateError>,
) -> bool {
    match outcome {
        Err(_) => r matches Err(e) && e == AggregateError::TransportFailed,
        Ok(reply) => match spec_decode_reply(reply@) {
            None => r matches Err(e) && e == AggregateError::DecodeFailed,
            Some(items) => if items.len() != cs.len() {
                r matches Err(e) && e == AggregateError::CountMismatch
            } else if exists|k: int|
                0 <= k < items.len() && #[trigger] items[k].success && spec_decode(
                    cs[k].decoder.outputs@,
                    items[k].return_data,
                ) is None {
                r matches Err(e) && e == AggregateError::DecodeFailed
            } else {
                r matches Ok(results) && results_match(cs, items, results@)
            },
        },
    }
}

} // verus!
