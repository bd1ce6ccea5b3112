//! The batching contract's wire protocol.
//!
//! The outer request is the batching function's selector followed by one
//! dynamic array of `(target address, allow_failure, call bytes)` tuples;
//! the outer reply is one dynamic array of `(success, return bytes)`
//! tuples, positionally matching the request.  Each tuple holds a dynamic
//! member, so the array body is one offset word per element, relative to
//! the start of the element area, followed by the element encodings packed
//! in order.

use vstd::prelude::*;

use crate::codec::{
    enc_values, encode_values_raw, lemma_heads_len, wf_vals, heads, tails, tail_of,
};
use crate::values::{views_of, DynValue, ValModel};
use crate::words::{
    append_bytes, copy_range, pad32, read_word_u64, word_of_u64, word_u64_of, word_u64_vec, zeros,
};

verus! {

/// One raw per-item reply: the reported success flag and raw return bytes.
#[derive(Clone, Debug, PartialEq, Eq)]
pub struct BatchResult {
    pub success: bool,
    pub return_data: Vec<u8>,
}

/// The mathematical model of a [`BatchResult`].
pub struct BatchResultModel {
    pub success: bool,
    pub return_data: Seq<u8>,
}

impl View for BatchResult {
    type V = BatchResultModel;

    open spec fn view(&self) -> BatchResultModel {
        BatchResultModel { success: self.success, return_data: self.return_data@ }
    }
}

pub open spec fn result_views(items: Seq<BatchResult>) -> Seq<BatchResultModel> {
    items.map_values(|it: BatchResult| it@)
}

/// The tuple encoding of one batched call.
pub open spec fn enc_call_item(target: Seq<u8>, allow_failure: bool, data: Seq<u8>) -> Seq<u8> {
    enc_values(
        seq![ValModel::Address(target), ValModel::Bool(allow_failure), ValModel::Bytes(data)],
    )
}

/// The tuple encoding of one reply item.
pub open spec fn enc_result_item(success: bool, data: Seq<u8>) -> Seq<u8> {
    enc_values(seq![ValModel::Bool(success), ValModel::Bytes(data)])
}

/// One offset word per element, relative to the start of the element area.
pub open spec fn blob_offsets(blobs: Seq<Seq<u8>>, ofs: int) -> Seq<u8>
    decreases blobs.len(),
{
    if blobs.len() == 0 {
        Seq::empty()
    } else {
        word_of_u64(ofs as u64) + blob_offsets(blobs.drop_first(), ofs + blobs[0].len())
    }
}

/// The element encodings, packed in order.
pub open spec fn concat_blobs(blobs: Seq<Seq<u8>>) -> Seq<u8>
    decreases blobs.len(),
{
    if blobs.len() == 0 {
        Seq::empty()
    } else {
        blobs[0] + concat_blobs(blobs.drop_first())
    }
}

/// The encoding of a dynamic array of dynamic elements: length word,
/// offset words, element encodings.
pub open spec fn enc_dyn_array(blobs: Seq<Seq<u8>>) -> Seq<u8> {
    word_of_u64(blobs.len() as u64) + blob_offsets(blobs, 32 * blobs.len() as int) + concat_blobs(
        blobs,
    )
}

/// The length of `word(32) ++ enc_dyn_array(blobs)`.
pub open spec fn outer_len(blobs: Seq<Seq<u8>>) -> int {
    64 + 32 * blobs.len() + concat_blobs(blobs).len() as int
}

pub proof fn lemma_blob_offsets_len(blobs: Seq<Seq<u8>>, ofs: int)
    ensures
        blob_offsets(blobs, ofs).len() == 32 * blobs.len(),
    decreases blobs.len(),
{
    if blobs.len() > 0 {
        lemma_blob_offsets_len(blobs.drop_first(), ofs + blobs[0].len());
    }
}

pub proof fn lemma_concat_blobs_snoc(blobs: Seq<Seq<u8>>, x: Seq<u8>)
    ensures
        concat_blobs(blobs.push(x)) == concat_blobs(blobs) + x,
    decreases blobs.len(),
{
    if blobs.len() == 0 {
        assert(blobs.push(x)[0] == x);
        assert(blobs.push(x).drop_first() =~= Seq::<Seq<u8>>::empty());
        assert(concat_blobs(blobs.push(x)) == x + concat_blobs(Seq::<Seq<u8>>::empty()));
        assert(concat_blobs(blobs.push(x)) =~= concat_blobs(blobs) + x);
    } else {
        assert(blobs.push(x)[0] == blobs[0]);
        assert(blobs.push(x).drop_first() =~= blobs.drop_first().push(x));
        assert(concat_blobs(blobs.push(x)) == blobs[0] + concat_blobs(blobs.drop_first().push(x)));
        lemma_concat_blobs_snoc(blobs.drop_first(), x);
        assert(concat_blobs(blobs) == blobs[0] + concat_blobs(blobs.drop_first()));
        assert(concat_blobs(blobs.push(x)) =~= concat_blobs(blobs) + x);
    }
}

pub proof fn lemma_blob_offsets_snoc(blobs: Seq<Seq<u8>>, ofs: int, x: Seq<u8>)
    ensures
        blob_offsets(blobs.push(x), ofs) == blob_offsets(blobs, ofs) + word_of_u64(
            (ofs + concat_blobs(blobs).len()) as u64,
        ),
    decreases blobs.len(),
{
    if blobs.len() == 0 {
        assert(blobs.push(x)[0] == x);
        assert(blobs.push(x).drop_first() =~= Seq::<Seq<u8>>::empty());
        assert(blob_offsets(blobs.push(x), ofs) == word_of_u64(ofs as u64) + blob_offsets(
            Seq::<Seq<u8>>::empty(),
            ofs + x.len(),
        ));
        assert(blob_offsets(blobs.push(x), ofs) =~= blob_offsets(blobs, ofs) + word_of_u64(
            (ofs + concat_blobs(blobs).len()) as u64,
        ));
    } else {
        assert(blobs.push(x)[0] == blobs[0]);
        assert(blobs.push(x).drop_first() =~= blobs.drop_first().push(x));
        assert(blob_offsets(blobs.push(x), ofs) == word_of_u64(ofs as u64) + blob_offsets(
            blobs.drop_first().push(x),
            ofs + blobs[0].len(),
        ));
        lemma_blob_offsets_snoc(blobs.drop_first(), ofs + blobs[0].len(), x);
        assert(blob_offsets(blobs, ofs) == word_of_u64(ofs as u64) + blob_offsets(
            blobs.drop_first(),
            ofs + blobs[0].len(),
        ));
        assert(concat_blobs(blobs) == blobs[0] + concat_blobs(blobs.drop_first()));
        assert(blob_offsets(blobs.push(x), ofs) =~= blob_offsets(blobs, ofs) + word_of_u64(
            (ofs + concat_blobs(blobs).len()) as u64,
        ));
    }
}

pub proof fn lemma_concat_take_le(blobs: Seq<Seq<u8>>, j: int)
    requires
        0 <= j <= blobs.len(),
    ensures
        concat_blobs(blobs.take(j)).len() <= concat_blobs(blobs).len(),
    decreases blobs.len() - j,
{
    if j == blobs.len() {
        assert(blobs.take(j) =~= blobs);
    } else {
        assert(blobs.take(j + 1) =~= blobs.take(j).push(blobs[j]));
        lemma_concat_blobs_snoc(blobs.take(j), blobs[j]);
        lemma_concat_take_le(blobs, j + 1);
    }
}

/// The offset word of element `i` within the offsets area.
pub proof fn lemma_blob_offsets_index(blobs: Seq<Seq<u8>>, ofs: int, i: int)
    requires
        0 <= i < blobs.len(),
    ensures
        blob_offsets(blobs, ofs).subrange(32 * i, 32 * i + 32) == word_of_u64(
            (ofs + concat_blobs(blobs.take(i)).len()) as u64,
        ),
    decreases i,
{
    lemma_blob_offsets_len(blobs, ofs);
    lemma_blob_offsets_len(blobs.drop_first(), ofs + blobs[0].len());
    if i == 0 {
        assert(blobs.take(0) =~= Seq::<Seq<u8>>::empty());
        assert(blob_offsets(blobs, ofs).subrange(0, 32) =~= word_of_u64(ofs as u64));
    } else {
        lemma_blob_offsets_index(blobs.drop_first(), ofs + blobs[0].len(), i - 1);
        assert(blobs.drop_first().take(i - 1) =~= blobs.take(i).drop_first());
        assert(concat_blobs(blobs.take(i)) == blobs[0] + concat_blobs(blobs.take(i).drop_first()))
            by {
            assert(blobs.take(i)[0] == blobs[0]);
        }
        assert(blob_offsets(blobs, ofs).subrange(32 * i, 32 * i + 32) =~= blob_offsets(
            blobs.drop_first(),
            ofs + blobs[0].len(),
        ).subrange(32 * (i - 1), 32 * (i - 1) + 32));
    }
}

/// The bytes of element `i` within the packed element area.
pub proof fn lemma_concat_blobs_index(blobs: Seq<Seq<u8>>, i: int)
    requires
        0 <= i < blobs.len(),
    ensures
        concat_blobs(blobs.take(i)).len() + blobs[i].len() <= concat_blobs(blobs).len(),
        concat_blobs(blobs).subrange(
            concat_blobs(blobs.take(i)).len() as int,
            concat_blobs(blobs.take(i)).len() + blobs[i].len() as int,
        ) == blobs[i],
    decreases i,
{
    if i == 0 {
        assert(blobs.take(0) =~= Seq::<Seq<u8>>::empty());
        assert(concat_blobs(blobs).subrange(0, blobs[0].len() as int) =~= blobs[0]);
    } else {
        lemma_concat_blobs_index(blobs.drop_first(), i - 1);
        assert(blobs.drop_first()[i - 1] == blobs[i]);
        assert(blobs.drop_first().take(i - 1) =~= blobs.take(i).drop_first());
        assert(concat_blobs(blobs.take(i)) == blobs[0] + concat_blobs(blobs.take(i).drop_first()))
            by {
            assert(blobs.take(i)[0] == blobs[0]);
        }
        let s0 = blobs[0].len() as int;
        let sp = concat_blobs(blobs.drop_first().take(i - 1)).len() as int;
        let ti = blobs[i].len() as int;
        assert(concat_blobs(blobs).subrange(s0 + sp, s0 + sp + ti) =~= concat_blobs(
            blobs.drop_first(),
        ).subrange(sp, sp + ti));
    }
}

pub open spec fn blob_views(bs: Seq<Vec<u8>>) -> Seq<Seq<u8>> {
    bs.map_values(|b: Vec<u8>| b@)
}

/// Encodes `blobs` as one dynamic-array parameter: the outer offset word
/// followed by the array encoding.  `None` only when the result would not
/// fit in memory.
#[verifier::loop_isolation(false)]
pub(crate) fn encode_outer_array(blobs: &Vec<Vec<u8>>) -> (r: Option<Vec<u8>>)
    ensures
        match r {
            Some(out) => out@ == word_of_u64(32) + enc_dyn_array(blob_views(blobs@)) && outer_len(
                blob_views(blobs@),
            ) <= usize::MAX,
            None => outer_len(blob_views(blobs@)) > usize::MAX,
        },
{
    let ghost views = blob_views(blobs@);
    let n = blobs.len();
    let elems_base = match 32usize.checked_mul(n) {
        Some(e) => e,
        None => {
            proof {
                assert(concat_blobs(views).len() >= 0);
            }
            return None;
        },
    };
    if elems_base > usize::MAX - 64 {
        return None;
    }
    let mut head: Vec<u8> = word_u64_vec(32);
    let lenw = word_u64_vec(n as u64);
    head = append_bytes(head, &lenw);
    let mut offs: Vec<u8> = Vec::new();
    let mut elems: Vec<u8> = Vec::new();
    let mut ofs: usize = elems_base;
    let mut i: usize = 0;
    proof {
        assert(views.take(0) =~= Seq::<Seq<u8>>::empty());
    }
    while i < n
        invariant
            views == blob_views(blobs@),
            n == blobs@.len(),
            i <= n,
            elems_base == 32 * n,
            elems_base <= usize::MAX - 64,
            head@ == word_of_u64(32) + word_of_u64(n as u64),
            offs@ == blob_offsets(views.take(i as int), elems_base as int),
            elems@ == concat_blobs(views.take(i as int)),
            ofs == elems_base + elems@.len(),
        decreases n - i,
    {
        proof {
            assert(views.take(i + 1) =~= views.take(i as int).push(views[i as int]));
            lemma_blob_offsets_snoc(views.take(i as int), elems_base as int, views[i as int]);
            lemma_concat_blobs_snoc(views.take(i as int), views[i as int]);
            assert(views[i as int] == blobs@[i as int]@);
        }
        let w = word_u64_vec(ofs as u64);
        offs = append_bytes(offs, &w);
        elems = append_bytes(elems, &blobs[i]);
        ofs = match ofs.checked_add(blobs[i].len()) {
            Some(o) => o,
            None => {
                proof {
                    lemma_concat_take_le(views, i + 1);
                }
                return None;
            },
        };
        i = i + 1;
    }
    proof {
        assert(views.take(n as int) =~= views);
    }
    if ofs > usize::MAX - 64 {
        return None;
    }
    let mut out = append_bytes(head, &offs);
    out = append_bytes(out, &elems);
    proof {
        assert(out@ =~= word_of_u64(32) + enc_dyn_array(views));
    }
    Some(out)
}

/// The batching function's 4-byte selector: the fixed constant that leads
/// the outer request on the wire.
pub open spec fn request_selector() -> Seq<u8> {
    seq![0x82u8, 0xadu8, 0x56u8, 0xcbu8]
}

/// Builds the batching function's selector.
pub fn request_selector_vec() -> (r: Vec<u8>)
    ensures
        r@ == request_selector(),
{
    let mut r: Vec<u8> = Vec::new();
    r.push(0x82);
    r.push(0xad);
    r.push(0x56);
    r.push(0xcb);
    assert(r@ =~= request_selector());
    r
}

/// The element encodings of a reply item sequence.
pub open spec fn reply_blobs(items: Seq<BatchResultModel>) -> Seq<Seq<u8>> {
    items.map_values(|it: BatchResultModel| enc_result_item(it.success, it.return_data))
}

/// The reply wire form: the outer offset word, then the item array.
pub open spec fn spec_reply(items: Seq<BatchResultModel>) -> Seq<u8> {
    word_of_u64(32) + enc_dyn_array(reply_blobs(items))
}

/// Strict decode of reply items `i..n`, the next element beginning exactly
/// at `pos` and the last ending exactly at the end of `bytes`.
pub open spec fn dec_reply_items(bytes: Seq<u8>, n: int, i: int, pos: int) -> Option<
    Seq<BatchResultModel>,
>
    decreases n - i,
{
    if i < 0 || i >= n {
        if i == n && pos == bytes.len() {
            Some(Seq::empty())
        } else {
            None
        }
    } else if !(64 <= pos && pos - 64 <= u64::MAX && bytes.subrange(64 + 32 * i, 96 + 32 * i)
        == word_of_u64((pos - 64) as u64)) {
        None
    } else if bytes.len() < pos + 96 {
        None
    } else {
        let bw = bytes.subrange(pos, pos + 32);
        let ow = bytes.subrange(pos + 32, pos + 64);
        if !(bw == word_of_u64(0) || bw == word_of_u64(1)) {
            None
        } else if ow != word_of_u64(64) {
            None
        } else {
            match word_u64_of(bytes.subrange(pos + 64, pos + 96)) {
                None => None,
                Some(l64) => {
                    let l = l64 as int;
                    if bytes.len() < pos + 96 + pad32(l) {
                        None
                    } else if bytes.subrange(pos + 96 + l, pos + 96 + pad32(l)) != zeros(
                        pad32(l) - l,
                    ) {
                        None
                    } else {
                        let item = BatchResultModel {
                            success: bw == word_of_u64(1),
                            return_data: bytes.subrange(pos + 96, pos + 96 + l),
                        };
                        match dec_reply_items(bytes, n, i + 1, pos + 96 + pad32(l)) {
                            Some(s) => Some(seq![item] + s),
                            None => None,
                        }
                    }
                },
            }
        }
    }
}

/// Strict decode of the outer reply: `Some` exactly on the canonical reply
/// encoding of an item sequence.
pub open spec fn spec_decode_reply(bytes: Seq<u8>) -> Option<Seq<BatchResultModel>> {
    if bytes.len() < 64 {
        None
    } else if bytes.subrange(0, 32) != word_of_u64(32) {
        None
    } else {
        match word_u64_of(bytes.subrange(32, 64)) {
            None => None,
            Some(n64) => {
                let n = n64 as int;
                if bytes.len() < 64 + 32 * n {
                    None
                } else {
                    dec_reply_items(bytes, n, 0, 64 + 32 * n)
                }
            },
        }
    }
}

/// Encodes `items` in the reply wire form; how a conforming batching
/// contract lays out what it returns.  `None` only when the result would
/// not fit in memory.
#[verifier::loop_isolation(false)]
pub fn encode_reply(items: &Vec<BatchResult>) -> (r: Option<Vec<u8>>)
    ensures
        match r {
            Some(out) => out@ == spec_reply(result_views(items@)),
            None => outer_len(reply_blobs(result_views(items@))) > usize::MAX,
        },
{
    let ghost models = result_views(items@);
    let ghost rblobs = reply_blobs(models);
    let n = items.len();
    let mut blobs: Vec<Vec<u8>> = Vec::new();
    let mut i: usize = 0;
    proof {
        assert(blob_views(blobs@) =~= rblobs.take(0));
    }
    while i < n
        invariant
            models == result_views(items@),
            rblobs == reply_blobs(models),
            n == items@.len(),
            i <= n,
            blobs@.len() == i,
            blob_views(blobs@) == rblobs.take(i as int),
        decreases n - i,
    {
        let data = copy_range(&items[i].return_data, 0, items[i].return_data.len());
        let mut pair: Vec<DynValue> = Vec::new();
        pair.push(DynValue::Bool(items[i].success));
        pair.push(DynValue::Bytes(data));
        proof {
            assert(data@ =~= items@[i as int].return_data@);
            assert(views_of(pair@) =~= seq![
                ValModel::Bool(models[i as int].success),
                ValModel::Bytes(models[i as int].return_data),
            ]);
            assert(wf_vals(views_of(pair@)));
        }
        let blob = match encode_values_raw(&pair) {
            Some(b) => b,
            None => {
                proof {
                    lemma_heads_len(views_of(pair@), 64);
                    assert(rblobs[i as int] == enc_values(views_of(pair@)));
                    lemma_concat_blobs_index(rblobs, i as int);
                }
                return None;
            },
        };
        blobs.push(blob);
        proof {
            assert(rblobs[i as int] == enc_values(views_of(pair@)));
            assert(blob_views(blobs@) =~= rblobs.take(i + 1));
        }
        i = i + 1;
    }
    proof {
        assert(rblobs.take(n as int) =~= rblobs);
    }
    match encode_outer_array(&blobs) {
        Some(out) => Some(out),
        None => None,
    }
}

/// The byte layout of one encoded reply item: success word, inner offset
/// word, length word, data, zero padding.
#[verifier::rlimit(60)]
proof fn lemma_result_blob_shape(sc: bool, d: Seq<u8>)
    ensures
        enc_result_item(sc, d) == word_of_u64(
            if sc {
                1u64
            } else {
                0u64
            },
        ) + word_of_u64(64) + word_of_u64(d.len() as u64) + d + zeros(
            pad32(d.len() as int) - d.len(),
        ),
        enc_result_item(sc, d).len() == 96 + pad32(d.len() as int),
{
    let vs = seq![ValModel::Bool(sc), ValModel::Bytes(d)];
    assert(vs.drop_first() =~= seq![ValModel::Bytes(d)]);
    assert(vs.drop_first().drop_first() =~= Seq::<ValModel>::empty());
    assert(tail_of(vs[0]) == Seq::<u8>::empty());
    assert(heads(vs, 64) == head_of_bool(sc) + heads(vs.drop_first(), 64)) by {
        assert(crate::codec::head_of(vs[0], 64) == head_of_bool(sc));
    }
    assert(heads(vs.drop_first(), 64) == word_of_u64(64) + heads(
        vs.drop_first().drop_first(),
        64 + tail_of(vs.drop_first()[0]).len() as int,
    )) by {
        assert(vs.drop_first()[0] == ValModel::Bytes(d));
    }
    assert(tails(vs) == tail_of(vs[0]) + tails(vs.drop_first()));
    assert(tails(vs.drop_first()) == tail_of(ValModel::Bytes(d)) + tails(
        vs.drop_first().drop_first(),
    ));
    assert(0 <= d.len() % 32 < 32);
    assert(enc_result_item(sc, d) =~= head_of_bool(sc) + word_of_u64(64) + word_of_u64(
        d.len() as u64,
    ) + d + zeros(pad32(d.len() as int) - d.len()));
}

/// The head word of a boolean.
spec fn head_of_bool(sc: bool) -> Seq<u8> {
    word_of_u64(
        if sc {
            1u64
        } else {
            0u64
        },
    )
}

proof fn lemma_dec_reply_rec(items: Seq<BatchResultModel>, i: int)
    requires
        spec_reply(items).len() <= u64::MAX,
        0 <= i <= items.len(),
    ensures
        dec_reply_items(
            spec_reply(items),
            items.len() as int,
            i,
            64 + 32 * items.len() + concat_blobs(reply_blobs(items).take(i)).len() as int,
        ) == Some(items.skip(i)),
    decreases items.len() - i,
{
    let b = spec_reply(items);
    let blobs = reply_blobs(items);
    let n = items.len() as int;
    lemma_blob_offsets_len(blobs, 32 * n);
    let s = concat_blobs(blobs.take(i)).len() as int;
    let pos = 64 + 32 * n + s;
    lemma_concat_take_le(blobs, i);
    assert(b.len() == 64 + 32 * n + concat_blobs(blobs).len());
    if i == n {
        assert(blobs.take(i) =~= blobs);
        assert(items.skip(i) =~= Seq::<BatchResultModel>::empty());
    } else {
        let sc = items[i].success;
        let d = items[i].return_data;
        let l = d.len() as int;
        let blob = blobs[i];
        assert(blob == enc_result_item(sc, d));
        lemma_result_blob_shape(sc, d);
        lemma_concat_blobs_index(blobs, i);
        lemma_blob_offsets_index(blobs, 32 * n, i);
        let bl = blob.len() as int;
        assert(l <= u64::MAX && pad32(l) - l >= 0);
        // the offset word of this element
        assert(b.subrange(64 + 32 * i, 96 + 32 * i) =~= blob_offsets(blobs, 32 * n).subrange(
            32 * i,
            32 * i + 32,
        ));
        assert(b.subrange(64 + 32 * i, 96 + 32 * i) == word_of_u64((pos - 64) as u64));
        // the element's bytes inside the reply
        assert(b.subrange(pos, pos + bl) =~= concat_blobs(blobs).subrange(s, s + bl));
        assert(b.subrange(pos, pos + bl) == blob);
        assert(b.subrange(pos, pos + 32) =~= blob.subrange(0, 32));
        assert(blob.subrange(0, 32) =~= head_of_bool(sc));
        assert(b.subrange(pos + 32, pos + 64) =~= blob.subrange(32, 64));
        assert(blob.subrange(32, 64) =~= word_of_u64(64));
        assert(b.subrange(pos + 64, pos + 96) =~= blob.subrange(64, 96));
        assert(blob.subrange(64, 96) =~= word_of_u64(l as u64));
        crate::words::lemma_word_u64_of_canonical(l as u64);
        assert((l as u64) as int == l);
        assert(b.subrange(pos + 96, pos + 96 + l) =~= blob.subrange(96, 96 + l));
        assert(blob.subrange(96, 96 + l) =~= d);
        assert(b.subrange(pos + 96 + l, pos + 96 + pad32(l)) =~= blob.subrange(
            96 + l,
            96 + pad32(l),
        ));
        assert(blob.subrange(96 + l, 96 + pad32(l)) =~= zeros(pad32(l) - l));
        if word_of_u64(1) == word_of_u64(0) {
            crate::words::lemma_word_of_u64_injective(1, 0);
        }
        let bw = b.subrange(pos, pos + 32);
        assert(bw == word_of_u64(0) || bw == word_of_u64(1));
        assert((bw == word_of_u64(1)) == sc);
        // the rest of the items, one element further on
        lemma_concat_blobs_snoc(blobs.take(i), blob);
        assert(blobs.take(i + 1) =~= blobs.take(i).push(blob));
        assert(concat_blobs(blobs.take(i + 1)).len() == s + bl);
        lemma_dec_reply_rec(items, i + 1);
        assert(seq![items[i]] + items.skip(i + 1) =~= items.skip(i));
        assert(items[i] == BatchResultModel { success: sc, return_data: d });
    }
}

/// Law: decoding the reply wire form of an item sequence reconstructs
/// exactly that sequence.
pub proof fn lemma_reply_round_trip(items: Seq<BatchResultModel>)
    requires
        spec_reply(items).len() <= u64::MAX,
    ensures
        spec_decode_reply(spec_reply(items)) == Some(items),
{
    let b = spec_reply(items);
    let blobs = reply_blobs(items);
    let n = items.len() as int;
    lemma_blob_offsets_len(blobs, 32 * n);
    assert(b.len() == 64 + 32 * n + concat_blobs(blobs).len());
    assert(b.subrange(0, 32) =~= word_of_u64(32));
    assert(b.subrange(32, 64) =~= word_of_u64(n as u64));
    crate::words::lemma_word_u64_of_canonical(n as u64);
    assert((n as u64) as int == n);
    assert(blobs.take(0) =~= Seq::<Seq<u8>>::empty());
    lemma_dec_reply_rec(items, 0);
    assert(items.skip(0) =~= items);
}

/// Prepends already-decoded reply items onto the rest of a decode.
pub open spec fn prepend_reply(p: Seq<BatchResultModel>, rest: Option<Seq<BatchResultModel>>)
    -> Option<Seq<BatchResultModel>> {
    match rest {
        Some(s) => Some(p + s),
        None => None,
    }
}

/// Decodes reply bytes strictly; `Some` exactly when `bytes` is a
/// canonical reply encoding.
#[verifier::loop_isolation(false)]
#[verifier::rlimit(100)]
pub fn decode_reply(bytes: &Vec<u8>) -> (r: Option<Vec<BatchResult>>)
    ensures
        match r {
            Some(out) => spec_decode_reply(bytes@) == Some(result_views(out@)),
            None => spec_decode_reply(bytes@) is None,
        },
{
    let blen = bytes.len();
    if blen < 64 {
        return None;
    }
    match read_word_u64(bytes, 0) {
        Some(o) => {
            if o != 32 {
                proof {
                    if bytes@.subrange(0, 32) == word_of_u64(32) {
                        crate::words::lemma_word_of_u64_injective(o, 32);
                    }
                }
                return None;
            }
        },
        None => {
            proof {
                if bytes@.subrange(0, 32) == word_of_u64(32) {
                    assert(exists|m: u64| bytes@.subrange(0, 32) == word_of_u64(m));
                }
            }
            return None;
        },
    }
    let n64 = match read_word_u64(bytes, 32) {
        Some(n64) => n64,
        None => {
            return None;
        },
    };
    proof {
        crate::words::lemma_word_u64_of_canonical(n64);
    }
    if n64 > usize::MAX as u64 {
        return None;
    }
    let n = n64 as usize;
    let head_end = match 32usize.checked_mul(n) {
        Some(e) => match e.checked_add(64) {
            Some(he) => he,
            None => {
                return None;
            },
        },
        None => {
            return None;
        },
    };
    if blen < head_end {
        return None;
    }
    let mut pos: usize = head_end;
    let mut acc: Vec<BatchResult> = Vec::new();
    let mut i: usize = 0;
    proof {
        assert(result_views(acc@) =~= Seq::<BatchResultModel>::empty());
    }
    while i < n
        invariant
            i <= n,
            acc@.len() == i,
            64 <= pos <= blen,
            spec_decode_reply(bytes@) == prepend_reply(
                result_views(acc@),
                dec_reply_items(bytes@, n as int, i as int, pos as int),
            ),
        decreases n - i,
    {
        let ghost rest0 = dec_reply_items(bytes@, n as int, i as int, pos as int);
        let ow_pos = 64 + 32 * i;
        assert(ow_pos + 32 <= head_end);
        match read_word_u64(bytes, ow_pos) {
            Some(o) => {
                if o != (pos - 64) as u64 {
                    proof {
                        if bytes@.subrange(64 + 32 * i as int, 96 + 32 * i) == word_of_u64(
                            (pos - 64) as u64,
                        ) {
                            crate::words::lemma_word_of_u64_injective(o, (pos - 64) as u64);
                        }
                    }
                    return None;
                }
            },
            None => {
                proof {
                    if bytes@.subrange(64 + 32 * i as int, 96 + 32 * i) == word_of_u64(
                        (pos - 64) as u64,
                    ) {
                        assert(exists|m: u64|
                            bytes@.subrange(64 + 32 * i as int, 96 + 32 * i) == word_of_u64(m));
                    }
                }
                return None;
            },
        }
        let body_end = match pos.checked_add(96) {
            Some(s) => s,
            None => {
                return None;
            },
        };
        if blen < body_end {
            return None;
        }
        let ghost bw = bytes@.subrange(pos as int, pos + 32);
        let success = match read_word_u64(bytes, pos) {
            Some(0) => false,
            Some(1) => true,
            Some(m) => {
                proof {
                    if bw == word_of_u64(0) {
                        crate::words::lemma_word_of_u64_injective(m, 0);
                    }
                    if bw == word_of_u64(1) {
                        crate::words::lemma_word_of_u64_injective(m, 1);
                    }
                }
                return None;
            },
            None => {
                proof {
                    if bw == word_of_u64(0) || bw == word_of_u64(1) {
                        assert(exists|m: u64| bw == word_of_u64(m));
                    }
                }
                return None;
            },
        };
        proof {
            if success && bw == word_of_u64(0) {
                crate::words::lemma_word_of_u64_injective(1, 0);
            }
            if !success && bw == word_of_u64(1) {
                crate::words::lemma_word_of_u64_injective(0, 1);
            }
        }
        let ghost ow = bytes@.subrange(pos + 32, pos + 64);
        match read_word_u64(bytes, pos + 32) {
            Some(o) => {
                if o != 64 {
                    proof {
                        if ow == word_of_u64(64) {
                            crate::words::lemma_word_of_u64_injective(o, 64);
                        }
                    }
                    return None;
                }
            },
            None => {
                proof {
                    if ow == word_of_u64(64) {
                        assert(exists|m: u64| ow == word_of_u64(m));
                    }
                }
                return None;
            },
        }
        let l64 = match read_word_u64(bytes, pos + 64) {
            Some(l64) => l64,
            None => {
                return None;
            },
        };
        proof {
            crate::words::lemma_word_u64_of_canonical(l64);
        }
        if l64 > usize::MAX as u64 {
            proof {
                assert(pad32(l64 as int) >= l64 as int);
            }
            return None;
        }
        let l = l64 as usize;
        let rem = l % 32;
        let padn = if rem == 0 {
            0
        } else {
            32 - rem
        };
        let padded = match l.checked_add(padn) {
            Some(p) => p,
            None => {
                proof {
                    assert(pad32(l as int) == l + padn);
                }
                return None;
            },
        };
        let elem_end = match body_end.checked_add(padded) {
            Some(t) => t,
            None => {
                proof {
                    assert(pad32(l as int) == l + padn);
                }
                return None;
            },
        };
        if blen < elem_end {
            return None;
        }
        proof {
            assert(pad32(l as int) == l + padn);
        }
        let pad_start = body_end + l;
        let mut k: usize = 0;
        while k < padn
            invariant
                k <= padn,
                pad_start == body_end + l,
                pad_start + padn <= blen,
                forall|j: int| 0 <= j < k ==> #[trigger] bytes@[pad_start + j] == 0,
            decreases padn - k,
        {
            if bytes[pad_start + k] != 0 {
                proof {
                    let sub = bytes@.subrange(pad_start as int, pad_start + padn as int);
                    assert(sub[k as int] == bytes@[pad_start + k]);
                    assert(zeros(padn as int)[k as int] == 0);
                    assert(sub != zeros(padn as int));
                }
                return None;
            }
            k = k + 1;
        }
        proof {
            assert forall|j: int| 0 <= j < padn implies #[trigger] bytes@.subrange(
                pad_start as int,
                pad_start + padn as int,
            )[j] == 0 by {
                assert(bytes@[pad_start + j] == 0);
            }
            assert(bytes@.subrange(pad_start as int, pad_start + padn as int) =~= zeros(
                padn as int,
            ));
        }
        let data = copy_range(bytes, body_end, pad_start);
        let ghost p = result_views(acc@);
        let ghost item = BatchResultModel {
            success: success,
            return_data: bytes@.subrange(body_end as int, pad_start as int),
        };
        proof {
            assert(rest0 == match dec_reply_items(bytes@, n as int, i + 1, elem_end as int) {
                Some(s) => Some(seq![item] + s),
                None => None::<Seq<BatchResultModel>>,
            });
        }
        acc.push(BatchResult { success, return_data: data });
        proof {
            assert(result_views(acc@) =~= p.push(item));
            match dec_reply_items(bytes@, n as int, i + 1, elem_end as int) {
                Some(s) => {
                    assert(p + (seq![item] + s) =~= p.push(item) + s);
                },
                None => {},
            }
        }
        pos = elem_end;
        i = i + 1;
    }
    if pos != blen {
        return None;
    }
    proof {
        assert(dec_reply_items(bytes@, n as int, n as int, pos as int) == Some(
            Seq::<BatchResultModel>::empty(),
        ));
        assert(result_views(acc@) + Seq::<BatchResultModel>::empty() =~= result_views(acc@));
    }
    Some(acc)
}

} // verus!
