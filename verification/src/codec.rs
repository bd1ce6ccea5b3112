//! The contract-ABI encoding of a sequence of dynamically typed values.
//!
//! The wire form is word-aligned: each value contributes one 32-byte head
//! word, in declared order.  A static value's head is the value itself;
//! a dynamic value's head is the offset, from the start of the sequence
//! encoding, of its tail, which holds a big-endian length word followed by
//! the data padded with zeros to a multiple of 32 bytes.  Tails follow the
//! heads in the same order, packed without gaps, so the encoding of a
//! well-formed value sequence is canonical, and decoding accepts exactly
//! the canonical encodings.

use vstd::prelude::*;

use crate::values::{matches_type, matches_types, views_of, AbiType, DynValue, ValModel};
use crate::words::{
    append_bytes, copy_range, pad32, read_word_u64, word_of_u64, word_u64_of, word_u64_vec, zeros,
};

verus! {

/// Whether `v` carries bytes of the length its tag promises.
pub open spec fn wf_val(v: ValModel) -> bool {
    match v {
        ValModel::Uint(w) => w.len() == 32,
        ValModel::Address(a) => a.len() == 20,
        ValModel::Bool(_) => true,
        ValModel::Bytes(_) => true,
    }
}

pub open spec fn wf_vals(vs: Seq<ValModel>) -> bool {
    forall|i: int| 0 <= i < vs.len() ==> wf_val(#[trigger] vs[i])
}

/// The tail of a value: empty for static values, length word plus padded
/// data for dynamic ones.
pub open spec fn tail_of(v: ValModel) -> Seq<u8> {
    match v {
        ValModel::Bytes(d) => word_of_u64(d.len() as u64) + d + zeros(
            pad32(d.len() as int) - d.len(),
        ),
        _ => Seq::empty(),
    }
}

/// The head word of a value whose tail, if any, begins at `ofs`.
pub open spec fn head_of(v: ValModel, ofs: int) -> Seq<u8> {
    match v {
        ValModel::Uint(w) => w,
        ValModel::Address(a) => zeros(12) + a,
        ValModel::Bool(b) => word_of_u64(
            if b {
                1u64
            } else {
                0u64
            },
        ),
        ValModel::Bytes(_) => word_of_u64(ofs as u64),
    }
}

/// The concatenated head words of `vs`, the first tail beginning at `ofs`.
pub open spec fn heads(vs: Seq<ValModel>, ofs: int) -> Seq<u8>
    decreases vs.len(),
{
    if vs.len() == 0 {
        Seq::empty()
    } else {
        head_of(vs[0], ofs) + heads(vs.drop_first(), ofs + tail_of(vs[0]).len())
    }
}

/// The concatenated tails of `vs`.
pub open spec fn tails(vs: Seq<ValModel>) -> Seq<u8>
    decreases vs.len(),
{
    if vs.len() == 0 {
        Seq::empty()
    } else {
        tail_of(vs[0]) + tails(vs.drop_first())
    }
}

/// The contract-ABI encoding of the value sequence `vs`.
pub open spec fn enc_values(vs: Seq<ValModel>) -> Seq<u8> {
    heads(vs, 32 * vs.len() as int) + tails(vs)
}

pub proof fn lemma_head_of_len(v: ValModel, ofs: int)
    requires
        wf_val(v),
    ensures
        head_of(v, ofs).len() == 32,
{
}

pub proof fn lemma_heads_len(vs: Seq<ValModel>, ofs: int)
    requires
        wf_vals(vs),
    ensures
        heads(vs, ofs).len() == 32 * vs.len(),
    decreases vs.len(),
{
    if vs.len() > 0 {
        assert(wf_vals(vs.drop_first()));
        lemma_heads_len(vs.drop_first(), ofs + tail_of(vs[0]).len());
    }
}

pub proof fn lemma_tails_snoc(vs: Seq<ValModel>, x: ValModel)
    ensures
        tails(vs.push(x)) == tails(vs) + tail_of(x),
    decreases vs.len(),
{
    if vs.len() == 0 {
        assert(vs.push(x)[0] == x);
        assert(vs.push(x).drop_first() =~= Seq::<ValModel>::empty());
        assert(tails(vs.push(x)) == tail_of(x) + tails(Seq::<ValModel>::empty()));
        assert(tails(vs.push(x)) =~= tails(vs) + tail_of(x));
    } else {
        assert(vs.push(x)[0] == vs[0]);
        assert(vs.push(x).drop_first() =~= vs.drop_first().push(x));
        assert(tails(vs.push(x)) == tail_of(vs[0]) + tails(vs.drop_first().push(x)));
        lemma_tails_snoc(vs.drop_first(), x);
        assert(tails(vs) == tail_of(vs[0]) + tails(vs.drop_first()));
        assert(tails(vs.push(x)) =~= tails(vs) + tail_of(x));
    }
}

pub proof fn lemma_heads_snoc(vs: Seq<ValModel>, ofs: int, x: ValModel)
    ensures
        heads(vs.push(x), ofs) == heads(vs, ofs) + head_of(x, ofs + tails(vs).len()),
    decreases vs.len(),
{
    if vs.len() == 0 {
        assert(vs.push(x)[0] == x);
        assert(vs.push(x).drop_first() =~= Seq::<ValModel>::empty());
        assert(heads(vs.push(x), ofs) == head_of(x, ofs) + heads(
            Seq::<ValModel>::empty(),
            ofs + tail_of(x).len(),
        ));
        assert(heads(vs.push(x), ofs) =~= heads(vs, ofs) + head_of(x, ofs + tails(vs).len()));
    } else {
        assert(vs.push(x)[0] == vs[0]);
        assert(vs.push(x).drop_first() =~= vs.drop_first().push(x));
        assert(heads(vs.push(x), ofs) == head_of(vs[0], ofs) + heads(
            vs.drop_first().push(x),
            ofs + tail_of(vs[0]).len(),
        ));
        lemma_heads_snoc(vs.drop_first(), ofs + tail_of(vs[0]).len(), x);
        assert(heads(vs, ofs) == head_of(vs[0], ofs) + heads(
            vs.drop_first(),
            ofs + tail_of(vs[0]).len(),
        ));
        assert(tails(vs) == tail_of(vs[0]) + tails(vs.drop_first()));
        assert(heads(vs.push(x), ofs) =~= heads(vs, ofs) + head_of(x, ofs + tails(vs).len()));
    }
}

/// A prefix of the value sequence contributes at most the whole tail region.
pub proof fn lemma_tails_take_le(vs: Seq<ValModel>, j: int)
    requires
        0 <= j <= vs.len(),
    ensures
        tails(vs.take(j)).len() <= tails(vs).len(),
    decreases vs.len() - j,
{
    if j == vs.len() {
        assert(vs.take(j) =~= vs);
    } else {
        assert(vs.take(j + 1) =~= vs.take(j).push(vs[j]));
        lemma_tails_snoc(vs.take(j), vs[j]);
        lemma_tails_take_le(vs, j + 1);
    }
}

/// The head word of element `i` within the concatenated heads.
pub proof fn lemma_heads_index(vs: Seq<ValModel>, ofs: int, i: int)
    requires
        wf_vals(vs),
        0 <= i < vs.len(),
    ensures
        heads(vs, ofs).subrange(32 * i, 32 * i + 32) == head_of(
            vs[i],
            ofs + tails(vs.take(i)).len(),
        ),
    decreases i,
{
    lemma_heads_len(vs, ofs);
    lemma_heads_len(vs.drop_first(), ofs + tail_of(vs[0]).len());
    assert(wf_vals(vs.drop_first()));
    if i == 0 {
        assert(vs.take(0) =~= Seq::<ValModel>::empty());
        lemma_head_of_len(vs[0], ofs);
        assert(heads(vs, ofs).subrange(0, 32) =~= head_of(vs[0], ofs));
    } else {
        lemma_head_of_len(vs[0], ofs);
        lemma_heads_index(vs.drop_first(), ofs + tail_of(vs[0]).len(), i - 1);
        assert(vs.drop_first().take(i - 1) =~= vs.take(i).drop_first());
        assert(tails(vs.take(i)) == tail_of(vs[0]) + tails(vs.take(i).drop_first())) by {
            assert(vs.take(i)[0] == vs[0]);
        }
        assert(heads(vs, ofs).subrange(32 * i, 32 * i + 32) =~= heads(
            vs.drop_first(),
            ofs + tail_of(vs[0]).len(),
        ).subrange(32 * (i - 1), 32 * (i - 1) + 32));
        assert(vs.drop_first()[i - 1] == vs[i]);
    }
}

/// The tail bytes of element `i` within the concatenated tails.
pub proof fn lemma_tails_index(vs: Seq<ValModel>, i: int)
    requires
        0 <= i < vs.len(),
    ensures
        tails(vs.take(i)).len() + tail_of(vs[i]).len() <= tails(vs).len(),
        tails(vs).subrange(
            tails(vs.take(i)).len() as int,
            tails(vs.take(i)).len() + tail_of(vs[i]).len() as int,
        ) == tail_of(vs[i]),
    decreases i,
{
    if i == 0 {
        assert(vs.take(0) =~= Seq::<ValModel>::empty());
        assert(tails(vs).subrange(0, tail_of(vs[0]).len() as int) =~= tail_of(vs[0]));
    } else {
        lemma_tails_index(vs.drop_first(), i - 1);
        assert(vs.drop_first()[i - 1] == vs[i]);
        assert(vs.drop_first().take(i - 1) =~= vs.take(i).drop_first());
        assert(tails(vs.take(i)) == tail_of(vs[0]) + tails(vs.take(i).drop_first())) by {
            assert(vs.take(i)[0] == vs[0]);
        }
        let s0 = tail_of(vs[0]).len() as int;
        let sp = tails(vs.drop_first().take(i - 1)).len() as int;
        let ti = tail_of(vs[i]).len() as int;
        assert(tails(vs).subrange(s0 + sp, s0 + sp + ti) =~= tails(vs.drop_first()).subrange(
            sp,
            sp + ti,
        ));
    }
}

/// Prepends a decoded value onto the rest of a decode, if the rest succeeded.
pub open spec fn cons_dec(v: ValModel, rest: Option<Seq<ValModel>>) -> Option<Seq<ValModel>> {
    match rest {
        Some(s) => Some(seq![v] + s),
        None => None,
    }
}

/// Strict decode of elements `i..` of `ts` from `bytes`, where the next
/// tail must begin exactly at `tail` and the last one must end exactly at
/// the end of `bytes`.
pub open spec fn dec_rec(ts: Seq<AbiType>, bytes: Seq<u8>, i: int, tail: int) -> Option<
    Seq<ValModel>,
>
    decreases ts.len() - i,
{
    if i < 0 || i >= ts.len() {
        if i == ts.len() && tail == bytes.len() {
            Some(Seq::empty())
        } else {
            None
        }
    } else {
        let w = bytes.subrange(32 * i, 32 * i + 32);
        match ts[i] {
            AbiType::Uint => cons_dec(ValModel::Uint(w), dec_rec(ts, bytes, i + 1, tail)),
            AbiType::Address => if w.take(12) == zeros(12) {
                cons_dec(ValModel::Address(w.skip(12)), dec_rec(ts, bytes, i + 1, tail))
            } else {
                None
            },
            AbiType::Bool => if w == word_of_u64(0) {
                cons_dec(ValModel::Bool(false), dec_rec(ts, bytes, i + 1, tail))
            } else if w == word_of_u64(1) {
                cons_dec(ValModel::Bool(true), dec_rec(ts, bytes, i + 1, tail))
            } else {
                None
            },
            AbiType::Bytes => if !(0 <= tail <= u64::MAX && w == word_of_u64(tail as u64)) {
                None
            } else if bytes.len() < tail + 32 {
                None
            } else {
                match word_u64_of(bytes.subrange(tail, tail + 32)) {
                    None => None,
                    Some(l64) => {
                        let l = l64 as int;
                        if bytes.len() < tail + 32 + pad32(l) {
                            None
                        } else if bytes.subrange(tail + 32 + l, tail + 32 + pad32(l)) != zeros(
                            pad32(l) - l,
                        ) {
                            None
                        } else {
                            cons_dec(
                                ValModel::Bytes(bytes.subrange(tail + 32, tail + 32 + l)),
                                dec_rec(ts, bytes, i + 1, tail + 32 + pad32(l)),
                            )
                        }
                    },
                }
            },
        }
    }
}

/// Strict decode of `bytes` as the encoding of one value per type in `ts`:
/// `Some` exactly on the canonical encodings.
pub open spec fn spec_decode(ts: Seq<AbiType>, bytes: Seq<u8>) -> Option<Seq<ValModel>> {
    if 32 * ts.len() <= bytes.len() {
        dec_rec(ts, bytes, 0, 32 * ts.len() as int)
    } else {
        None
    }
}

pub proof fn lemma_matches_wf(vs: Seq<ValModel>, ts: Seq<AbiType>)
    requires
        matches_types(vs, ts),
    ensures
        wf_vals(vs),
{
    assert forall|i: int| 0 <= i < vs.len() implies wf_val(#[trigger] vs[i]) by {
        assert(matches_type(vs[i], ts[i]));
    }
}

proof fn lemma_dec_enc_rec(ts: Seq<AbiType>, vs: Seq<ValModel>, i: int)
    requires
        matches_types(vs, ts),
        enc_values(vs).len() <= u64::MAX,
        0 <= i <= vs.len(),
    ensures
        dec_rec(ts, enc_values(vs), i, 32 * vs.len() + tails(vs.take(i)).len() as int) == Some(
            vs.skip(i),
        ),
    decreases vs.len() - i,
{
    lemma_matches_wf(vs, ts);
    let b = enc_values(vs);
    let n = vs.len() as int;
    let h = heads(vs, 32 * n);
    lemma_heads_len(vs, 32 * n);
    let tt = tails(vs);
    let s = tails(vs.take(i)).len() as int;
    let t = 32 * n + s;
    lemma_tails_take_le(vs, i);
    if i == n {
        assert(vs.take(i) =~= vs);
        assert(t == b.len());
        assert(vs.skip(i) =~= Seq::<ValModel>::empty());
    } else {
        assert(matches_type(vs[i], ts[i]));
        let w = b.subrange(32 * i, 32 * i + 32);
        lemma_heads_index(vs, 32 * n, i);
        assert(w =~= h.subrange(32 * i, 32 * i + 32));
        assert(w == head_of(vs[i], t));
        // the decode of the remaining elements, one position further on
        lemma_dec_enc_rec(ts, vs, i + 1);
        lemma_tails_snoc(vs.take(i), vs[i]);
        assert(vs.take(i + 1) =~= vs.take(i).push(vs[i]));
        assert(tails(vs.take(i + 1)).len() == s + tail_of(vs[i]).len());
        assert(seq![vs[i]] + vs.skip(i + 1) =~= vs.skip(i));
        match vs[i] {
            ValModel::Uint(wd) => {
                assert(ts[i] == AbiType::Uint);
                assert(tail_of(vs[i]).len() == 0);
                assert(dec_rec(ts, b, i, t) == cons_dec(
                    ValModel::Uint(w),
                    dec_rec(ts, b, i + 1, t),
                ));
            },
            ValModel::Address(a) => {
                assert(ts[i] == AbiType::Address);
                assert(w.take(12) =~= zeros(12));
                assert(w.skip(12) =~= a);
                assert(tail_of(vs[i]).len() == 0);
                assert(dec_rec(ts, b, i, t) == cons_dec(
                    ValModel::Address(w.skip(12)),
                    dec_rec(ts, b, i + 1, t),
                ));
            },
            ValModel::Bool(v) => {
                assert(ts[i] == AbiType::Bool);
                assert(tail_of(vs[i]).len() == 0);
                if word_of_u64(1) == word_of_u64(0) {
                    crate::words::lemma_word_of_u64_injective(1, 0);
                }
                if v {
                    assert(w == word_of_u64(1) && w != word_of_u64(0));
                } else {
                    assert(w == word_of_u64(0));
                }
                assert(dec_rec(ts, b, i, t) == cons_dec(
                    ValModel::Bool(v),
                    dec_rec(ts, b, i + 1, t),
                ));
            },
            ValModel::Bytes(d) => {
                assert(ts[i] == AbiType::Bytes);
                let l = d.len() as int;
                let tl = tail_of(vs[i]).len() as int;
                lemma_tails_index(vs, i);
                assert(zeros(pad32(l) - l).len() == pad32(l) - l);
                assert(tl == 32 + pad32(l));
                assert(t + tl <= b.len());
                assert(l <= u64::MAX);
                // the whole tail of this element, as it sits inside `b`
                assert(b.subrange(t, t + tl) =~= tt.subrange(s, s + tl));
                assert(b.subrange(t, t + tl) == tail_of(vs[i]));
                assert(0 <= t <= u64::MAX);
                assert(w == word_of_u64(t as u64));
                // its length word
                assert(b.subrange(t, t + 32) =~= tail_of(vs[i]).subrange(0, 32));
                assert(tail_of(vs[i]).subrange(0, 32) =~= word_of_u64(l as u64));
                crate::words::lemma_word_u64_of_canonical(l as u64);
                assert(word_u64_of(b.subrange(t, t + 32)) == Some(l as u64));
                assert((l as u64) as int == l);
                // its data and padding
                assert(b.subrange(t + 32, t + 32 + l) =~= tail_of(vs[i]).subrange(32, 32 + l));
                assert(tail_of(vs[i]).subrange(32, 32 + l) =~= d);
                assert(b.subrange(t + 32 + l, t + 32 + pad32(l)) =~= tail_of(vs[i]).subrange(
                    32 + l,
                    32 + pad32(l),
                ));
                assert(tail_of(vs[i]).subrange(32 + l, 32 + pad32(l)) =~= zeros(pad32(l) - l));
                assert(dec_rec(ts, b, i, t) == cons_dec(
                    ValModel::Bytes(d),
                    dec_rec(ts, b, i + 1, t + 32 + pad32(l)),
                ));
            },
        }
    }
}

/// The length of the encoding of `vs`.
pub open spec fn enc_len(vs: Seq<ValModel>) -> int {
    32 * vs.len() + tails(vs).len() as int
}

/// Encodes `vs` per the wire format.  `None` only when the encoding would
/// not fit in memory.
pub(crate) fn encode_values_raw(vs: &Vec<DynValue>) -> (r: Option<Vec<u8>>)
    requires
        wf_vals(views_of(vs@)),
    ensures
        match r {
            Some(out) => out@ == enc_values(views_of(vs@)) && enc_len(views_of(vs@))
                <= usize::MAX,
            None => enc_len(views_of(vs@)) > usize::MAX,
        },
{
    let ghost views = views_of(vs@);
    let n = vs.len();
    let head_base = match 32usize.checked_mul(n) {
        Some(hb) => hb,
        None => {
            return None;
        },
    };
    let mut headsv: Vec<u8> = Vec::new();
    let mut tailsv: Vec<u8> = Vec::new();
    let mut ofs: usize = head_base;
    let mut i: usize = 0;
    proof {
        assert(views.take(0) =~= Seq::<ValModel>::empty());
    }
    while i < n
        invariant
            views == views_of(vs@),
            wf_vals(views),
            n == vs@.len(),
            i <= n,
            head_base == 32 * n,
            headsv@ == heads(views.take(i as int), head_base as int),
            tailsv@ == tails(views.take(i as int)),
            ofs == head_base + tailsv@.len(),
        decreases n - i,
    {
        let ghost pre = views.take(i as int);
        proof {
            assert(views.take(i + 1) =~= pre.push(views[i as int]));
            lemma_heads_snoc(pre, head_base as int, views[i as int]);
            lemma_tails_snoc(pre, views[i as int]);
            assert(views[i as int] == vs@[i as int]@);
        }
        match &vs[i] {
            DynValue::Uint(w) => {
                headsv = append_bytes(headsv, w);
                proof {
                    assert(tails(pre) + tail_of(views[i as int]) =~= tails(pre));
                }
            },
            DynValue::Address(a) => {
                let ghost h0 = headsv@;
                let mut k: usize = 0;
                while k < 12
                    invariant
                        k <= 12,
                        headsv@ == h0 + zeros(k as int),
                    decreases 12 - k,
                {
                    headsv.push(0);
                    k = k + 1;
                    assert(headsv@ =~= h0 + zeros(k as int));
                }
                headsv = append_bytes(headsv, a);
                proof {
                    assert(headsv@ =~= h0 + (zeros(12) + a@));
                    assert(tails(pre) + tail_of(views[i as int]) =~= tails(pre));
                }
            },
            DynValue::Bool(b) => {
                let w = word_u64_vec(
                    if *b {
                        1
                    } else {
                        0
                    },
                );
                headsv = append_bytes(headsv, &w);
                proof {
                    assert(tails(pre) + tail_of(views[i as int]) =~= tails(pre));
                }
            },
            DynValue::Bytes(d) => {
                let l = d.len();
                let rem = l % 32;
                let padn = if rem == 0 {
                    0
                } else {
                    32 - rem
                };
                // the head is the offset of this tail
                let w = word_u64_vec(ofs as u64);
                headsv = append_bytes(headsv, &w);
                // the tail: length word, data, zero padding
                let lw = word_u64_vec(l as u64);
                tailsv = append_bytes(tailsv, &lw);
                tailsv = append_bytes(tailsv, d);
                let ghost t0 = tailsv@;
                let mut k: usize = 0;
                while k < padn
                    invariant
                        k <= padn,
                        tailsv@ == t0 + zeros(k as int),
                    decreases padn - k,
                {
                    tailsv.push(0);
                    k = k + 1;
                    assert(tailsv@ =~= t0 + zeros(k as int));
                }
                proof {
                    assert(pad32(l as int) - l == padn);
                    assert(tailsv@ =~= tails(pre) + tail_of(views[i as int]));
                }
                let step = match 32usize.checked_add(l) {
                    Some(s) => match s.checked_add(padn) {
                        Some(s2) => s2,
                        None => {
                            proof {
                                overflow_means_too_long(views, i as int);
                            }
                            return None;
                        },
                    },
                    None => {
                        proof {
                            overflow_means_too_long(views, i as int);
                        }
                        return None;
                    },
                };
                ofs = match ofs.checked_add(step) {
                    Some(o) => o,
                    None => {
                        proof {
                            overflow_means_too_long(views, i as int);
                        }
                        return None;
                    },
                };
            },
        }
        i = i + 1;
    }
    proof {
        assert(views.take(n as int) =~= views);
    }
    let out = append_bytes(headsv, &tailsv);
    proof {
        lemma_heads_len(views, head_base as int);
        assert(out@ == enc_values(views));
    }
    Some(out)
}

/// If the running offset overflows while tail `i` is appended, the whole
/// encoding is longer than any vector can be.
proof fn overflow_means_too_long(views: Seq<ValModel>, i: int)
    requires
        wf_vals(views),
        0 <= i < views.len(),
        32 * views.len() + tails(views.take(i)).len() + tail_of(views[i]).len() > usize::MAX,
    ensures
        enc_len(views) > usize::MAX,
{
    assert(views.take(i + 1) =~= views.take(i).push(views[i]));
    lemma_tails_snoc(views.take(i), views[i]);
    lemma_tails_take_le(views, i + 1);
}

/// Prepends already-decoded values onto the rest of a decode.
pub open spec fn prepend_dec(p: Seq<ValModel>, rest: Option<Seq<ValModel>>) -> Option<
    Seq<ValModel>,
> {
    match rest {
        Some(s) => Some(p + s),
        None => None,
    }
}

/// Decodes `bytes` strictly as one value per type in `ts`; `Some` exactly
/// when `bytes` is a canonical encoding.
#[verifier::loop_isolation(false)]
pub fn decode_values(ts: &Vec<AbiType>, bytes: &Vec<u8>) -> (r: Option<Vec<DynValue>>)
    ensures
        match r {
            Some(vals) => spec_decode(ts@, bytes@) == Some(views_of(vals@)) && matches_types(
                views_of(vals@),
                ts@,
            ),
            None => spec_decode(ts@, bytes@) is None,
        },
{
    let n = ts.len();
    let blen = bytes.len();
    let head_end = match 32usize.checked_mul(n) {
        Some(he) => he,
        None => {
            return None;
        },
    };
    if blen < head_end {
        return None;
    }
    let mut tail: usize = head_end;
    let mut acc: Vec<DynValue> = Vec::new();
    let mut i: usize = 0;
    proof {
        assert(views_of(acc@) =~= Seq::<ValModel>::empty());
        assert(spec_decode(ts@, bytes@) == prepend_dec(
            views_of(acc@),
            dec_rec(ts@, bytes@, 0, head_end as int),
        ));
    }
    while i < n
        invariant
            n == ts@.len(),
            blen == bytes@.len(),
            head_end == 32 * n,
            i <= n,
            acc@.len() == i,
            tail <= blen,
            spec_decode(ts@, bytes@) == prepend_dec(
                views_of(acc@),
                dec_rec(ts@, bytes@, i as int, tail as int),
            ),
            forall|k: int|
                0 <= k < i ==> matches_type(#[trigger] views_of(acc@)[k], ts@[k]),
        decreases n - i,
    {
        let ghost w = bytes@.subrange(32 * i as int, 32 * i + 32);
        let ghost rest0 = dec_rec(ts@, bytes@, i as int, tail as int);
        assert(32 * i + 32 <= head_end);
        let pos = 32 * i;
        match &ts[i] {
            AbiType::Uint => {
                let word = copy_range(bytes, pos, pos + 32);
                proof {
                    assert(rest0 == cons_dec(
                        ValModel::Uint(w),
                        dec_rec(ts@, bytes@, i + 1, tail as int),
                    ));
                }
                push_decoded(&mut acc, DynValue::Uint(word), Ghost(ts@), Ghost(bytes@), Ghost(
                    tail as int,
                ), Ghost(i as int));
            },
            AbiType::Address => {
                let mut k: usize = 0;
                while k < 12
                    invariant
                        k <= 12,
                        blen == bytes@.len(),
                        pos == 32 * i,
                        32 * i + 32 <= blen,
                        w == bytes@.subrange(32 * i as int, 32 * i + 32),
                        forall|j: int| 0 <= j < k ==> #[trigger] w[j] == 0,
                    decreases 12 - k,
                {
                    if bytes[pos + k] != 0 {
                        proof {
                            assert(w[k as int] != 0);
                            assert(w.take(12)[k as int] == w[k as int]);
                            assert(zeros(12)[k as int] == 0);
                            assert(w.take(12) != zeros(12));
                        }
                        return None;
                    }
                    k = k + 1;
                }
                proof {
                    assert(w.take(12) =~= zeros(12));
                }
                let a = copy_range(bytes, pos + 12, pos + 32);
                proof {
                    assert(a@ =~= w.skip(12));
                    assert(rest0 == cons_dec(
                        ValModel::Address(w.skip(12)),
                        dec_rec(ts@, bytes@, i + 1, tail as int),
                    ));
                }
                push_decoded(&mut acc, DynValue::Address(a), Ghost(ts@), Ghost(bytes@), Ghost(
                    tail as int,
                ), Ghost(i as int));
            },
            AbiType::Bool => {
                let v = match read_word_u64(bytes, pos) {
                    Some(0) => false,
                    Some(1) => true,
                    Some(m) => {
                        proof {
                            if w == word_of_u64(0) {
                                crate::words::lemma_word_of_u64_injective(m, 0);
                            }
                            if w == word_of_u64(1) {
                                crate::words::lemma_word_of_u64_injective(m, 1);
                            }
                        }
                        return None;
                    },
                    None => {
                        proof {
                            if w == word_of_u64(0) || w == word_of_u64(1) {
                                assert(exists|m: u64| w == word_of_u64(m));
                            }
                        }
                        return None;
                    },
                };
                proof {
                    if v {
                        if w == word_of_u64(0) {
                            crate::words::lemma_word_of_u64_injective(1, 0);
                        }
                    }
                    assert(rest0 == cons_dec(
                        ValModel::Bool(v),
                        dec_rec(ts@, bytes@, i + 1, tail as int),
                    ));
                }
                push_decoded(&mut acc, DynValue::Bool(v), Ghost(ts@), Ghost(bytes@), Ghost(
                    tail as int,
                ), Ghost(i as int));
            },
            AbiType::Bytes => {
                let o = match read_word_u64(bytes, pos) {
                    Some(o) => o,
                    None => {
                        proof {
                            if w == word_of_u64(tail as u64) {
                                assert(exists|m: u64| w == word_of_u64(m));
                            }
                        }
                        return None;
                    },
                };
                if o != tail as u64 {
                    proof {
                        if w == word_of_u64(tail as u64) {
                            crate::words::lemma_word_of_u64_injective(o, tail as u64);
                        }
                    }
                    return None;
                }
                let data_start = match tail.checked_add(32) {
                    Some(s) => s,
                    None => {
                        return None;
                    },
                };
                if blen < data_start {
                    return None;
                }
                let l64 = match read_word_u64(bytes, tail) {
                    Some(l64) => l64,
                    None => {
                        return None;
                    },
                };
                proof {
                    crate::words::lemma_word_u64_of_canonical(l64);
                }
                if l64 > usize::MAX as u64 {
                    proof {
                        assert(pad32(l64 as int) >= l64 as int);
                    }
                    return None;
                }
                let l = l64 as usize;
                let rem = l % 32;
                let padn = if rem == 0 {
                    0
                } else {
                    32 - rem
                };
                let padded = match l.checked_add(padn) {
                    Some(p) => p,
                    None => {
                        proof {
                            assert(pad32(l as int) == l + padn);
                        }
                        return None;
                    },
                };
                let tail_next = match data_start.checked_add(padded) {
                    Some(t) => t,
                    None => {
                        proof {
                            assert(pad32(l as int) == l + padn);
                        }
                        return None;
                    },
                };
                if blen < tail_next {
                    return None;
                }
                proof {
                    assert(pad32(l as int) == l + padn);
                }
                let pad_start = data_start + l;
                let mut k: usize = 0;
                while k < padn
                    invariant
                        k <= padn,
                        blen == bytes@.len(),
                        pad_start == data_start + l,
                        pad_start + padn <= blen,
                        forall|j: int| 0 <= j < k ==> #[trigger] bytes@[pad_start + j] == 0,
                    decreases padn - k,
                {
                    if bytes[pad_start + k] != 0 {
                        proof {
                            let sub = bytes@.subrange(
                                pad_start as int,
                                pad_start + padn as int,
                            );
                            assert(sub[k as int] == bytes@[pad_start + k]);
                            assert(zeros(padn as int)[k as int] == 0);
                            assert(sub != zeros(padn as int));
                        }
                        return None;
                    }
                    k = k + 1;
                }
                proof {
                    assert forall|j: int| 0 <= j < padn implies #[trigger] bytes@.subrange(
                        pad_start as int,
                        pad_start + padn as int,
                    )[j] == 0 by {
                        assert(bytes@[pad_start + j] == 0);
                    }
                    assert(bytes@.subrange(pad_start as int, pad_start + padn as int) =~= zeros(
                        padn as int,
                    ));
                }
                let data = copy_range(bytes, data_start, pad_start);
                proof {
                    assert(rest0 == cons_dec(
                        ValModel::Bytes(bytes@.subrange(data_start as int, pad_start as int)),
                        dec_rec(ts@, bytes@, i + 1, tail_next as int),
                    ));
                }
                tail = tail_next;
                push_decoded(&mut acc, DynValue::Bytes(data), Ghost(ts@), Ghost(bytes@), Ghost(
                    tail as int,
                ), Ghost(i as int));
            },
        }
        i = i + 1;
    }
    if tail != blen {
        return None;
    }
    proof {
        assert(dec_rec(ts@, bytes@, n as int, tail as int) == Some(Seq::<ValModel>::empty()));
        assert(views_of(acc@) + Seq::<ValModel>::empty() =~= views_of(acc@));
    }
    Some(acc)
}

/// Records one decoded value; the caller has just shown that the decode at
/// `i` is `v` consed onto the decode at `i + 1` with tail mark `tail`.
fn push_decoded(
    acc: &mut Vec<DynValue>,
    v: DynValue,
    Ghost(ts): Ghost<Seq<AbiType>>,
    Ghost(bytes): Ghost<Seq<u8>>,
    Ghost(tail): Ghost<int>,
    Ghost(i): Ghost<int>,
)
    requires
        spec_decode(ts, bytes) == prepend_dec(
            views_of(old(acc)@),
            cons_dec(v@, dec_rec(ts, bytes, i + 1, tail)),
        ),
    ensures
        final(acc)@ == old(acc)@.push(v),
        views_of(final(acc)@) == views_of(old(acc)@).push(v@),
        spec_decode(ts, bytes) == prepend_dec(
            views_of(final(acc)@),
            dec_rec(ts, bytes, i + 1, tail),
        ),
{
    let ghost p = views_of(acc@);
    acc.push(v);
    proof {
        assert(views_of(acc@) =~= p.push(v@));
        match dec_rec(ts, bytes, i + 1, tail) {
            Some(s) => {
                assert(p + (seq![v@] + s) =~= p.push(v@) + s);
            },
            None => {},
        }
    }
}

/// Law: decoding the encoding of a well-typed value sequence reconstructs
/// exactly that sequence.
pub proof fn lemma_codec_round_trip(ts: Seq<AbiType>, vs: Seq<ValModel>)
    requires
        matches_types(vs, ts),
        enc_values(vs).len() <= u64::MAX,
    ensures
        spec_decode(ts, enc_values(vs)) == Some(vs),
{
    lemma_matches_wf(vs, ts);
    lemma_heads_len(vs, 32 * vs.len() as int);
    assert(vs.take(0) =~= Seq::<ValModel>::empty());
    lemma_dec_enc_rec(ts, vs, 0);
    assert(vs.skip(0) =~= vs);
}

} // verus!
