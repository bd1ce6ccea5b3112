//! Runtime function-signature descriptors.
//!
//! A signature holds a function's ASCII name and its ordered input and
//! output type tags.  It drives both directions of the per-call codec:
//! arguments are encoded, selector-prefixed, against the input tags, and
//! reply bytes are decoded against the output tags.  The selector is the
//! first four bytes of the Keccak-256 digest of `name(type1,...,typeN)`.

use vstd::prelude::*;

use crate::codec::{
    enc_len, enc_values, lemma_matches_wf, spec_decode, encode_values_raw, decode_values,
};
use crate::values::{check_types, matches_types, views_of, AbiType, DynValue};
use crate::words::copy_range;

verus! {

/// The Keccak-256 digest of a byte sequence: a function of the bytes alone.
pub uninterp spec fn keccak_of(input: Seq<u8>) -> Seq<u8>;

/// Relies on `alloy_primitives::keccak256`: computes the 32-byte Keccak-256
/// digest of the input bytes, a pure function of the input.
#[verifier::external_body]
fn keccak256_digest(input: &Vec<u8>) -> (r: Vec<u8>)
    ensures
        r@ == keccak_of(input@),
        r@.len() == 32,
{
    alloy_primitives::keccak256(input.as_slice()).to_vec()
}

/// The canonical ABI name of a type tag, in ASCII.
pub open spec fn type_name_bytes(t: AbiType) -> Seq<u8> {
    match t {
        // "uint256"
        AbiType::Uint => seq![117u8, 105u8, 110u8, 116u8, 50u8, 53u8, 54u8],
        // "address"
        AbiType::Address => seq![97u8, 100u8, 100u8, 114u8, 101u8, 115u8, 115u8],
        // "bool"
        AbiType::Bool => seq![98u8, 111u8, 111u8, 108u8],
        // "bytes"
        AbiType::Bytes => seq![98u8, 121u8, 116u8, 101u8, 115u8],
    }
}

/// The type names of `ts`, comma-separated.
pub open spec fn joined_type_names(ts: Seq<AbiType>) -> Seq<u8>
    decreases ts.len(),
{
    if ts.len() == 0 {
        Seq::empty()
    } else if ts.len() == 1 {
        type_name_bytes(ts[0])
    } else {
        type_name_bytes(ts[0]) + seq![44u8] + joined_type_names(ts.drop_first())
    }
}

/// The digest preimage of a signature: `name(type1,...,typeN)` in ASCII.
pub open spec fn sig_preimage(name: Seq<u8>, inputs: Seq<AbiType>) -> Seq<u8> {
    name + seq![40u8] + joined_type_names(inputs) + seq![41u8]
}

/// The 4-byte selector of a signature.
pub open spec fn spec_selector(name: Seq<u8>, inputs: Seq<AbiType>) -> Seq<u8> {
    keccak_of(sig_preimage(name, inputs)).take(4)
}

proof fn lemma_joined_snoc(ts: Seq<AbiType>, x: AbiType)
    ensures
        joined_type_names(ts.push(x)) == if ts.len() == 0 {
            type_name_bytes(x)
        } else {
            joined_type_names(ts) + seq![44u8] + type_name_bytes(x)
        },
    decreases ts.len(),
{
    if ts.len() == 0 {
        assert(ts.push(x)[0] == x);
    } else {
        assert(ts.push(x)[0] == ts[0]);
        assert(ts.push(x).drop_first() =~= ts.drop_first().push(x));
        lemma_joined_snoc(ts.drop_first(), x);
        if ts.len() == 1 {
            assert(joined_type_names(ts.push(x)) =~= joined_type_names(ts) + seq![44u8]
                + type_name_bytes(x));
        } else {
            assert(joined_type_names(ts.push(x)) =~= joined_type_names(ts) + seq![44u8]
                + type_name_bytes(x));
        }
    }
}

/// Appends the ASCII name of `t` to `dst`.
fn push_type_name(dst: Vec<u8>, t: &AbiType) -> (r: Vec<u8>)
    ensures
        r@ == dst@ + type_name_bytes(*t),
{
    let mut r = dst;
    match t {
        AbiType::Uint => {
            r.push(117);
            r.push(105);
            r.push(110);
            r.push(116);
            r.push(50);
            r.push(53);
            r.push(54);
        },
        AbiType::Address => {
            r.push(97);
            r.push(100);
            r.push(100);
            r.push(114);
            r.push(101);
            r.push(115);
            r.push(115);
        },
        AbiType::Bool => {
            r.push(98);
            r.push(111);
            r.push(111);
            r.push(108);
        },
        AbiType::Bytes => {
            r.push(98);
            r.push(121);
            r.push(116);
            r.push(101);
            r.push(115);
        },
    }
    assert(r@ =~= dst@ + type_name_bytes(*t));
    r
}

/// Builds the digest preimage `name(type1,...,typeN)`.
#[verifier::loop_isolation(false)]
fn sig_preimage_vec(name: &Vec<u8>, inputs: &Vec<AbiType>) -> (r: Vec<u8>)
    ensures
        r@ == sig_preimage(name@, inputs@),
{
    let mut r = copy_range(name, 0, name.len());
    proof {
        assert(r@ =~= name@);
    }
    r.push(40);
    let n = inputs.len();
    let mut i: usize = 0;
    proof {
        assert(inputs@.take(0) =~= Seq::<AbiType>::empty());
        assert(r@ =~= name@ + seq![40u8] + joined_type_names(inputs@.take(0)));
    }
    while i < n
        invariant
            i <= n,
            r@ == name@ + seq![40u8] + joined_type_names(inputs@.take(i as int)),
        decreases n - i,
    {
        if i > 0 {
            r.push(44);
        }
        r = push_type_name(r, &inputs[i]);
        proof {
            lemma_joined_snoc(inputs@.take(i as int), inputs@[i as int]);
            assert(inputs@.take(i + 1) =~= inputs@.take(i as int).push(inputs@[i as int]));
            assert(r@ =~= name@ + seq![40u8] + joined_type_names(inputs@.take(i + 1)));
        }
        i = i + 1;
    }
    proof {
        assert(inputs@.take(n as int) =~= inputs@);
    }
    r.push(41);
    assert(r@ =~= sig_preimage(name@, inputs@));
    r
}

/// An argument sequence does not match the signature's declared input
/// types, or its encoding would not fit in memory.
#[derive(Clone, Copy, Debug, PartialEq, Eq, Structural)]
pub enum EncodeError {
    ArgumentMismatch,
}

/// Return bytes are not a canonical encoding of the signature's declared
/// output types: truncated, malformed or type-mismatched.
#[derive(Clone, Copy, Debug, PartialEq, Eq, Structural)]
pub enum DecodeError {
    MalformedData,
}

/// A runtime function signature: a name plus ordered input and output type
/// tags.
#[derive(Clone, Debug)]
pub struct FunctionSig {
    /// The function's name, in ASCII.
    pub name: Vec<u8>,
    /// The declared parameter types, in order.
    pub inputs: Vec<AbiType>,
    /// The declared return types, in order.
    pub outputs: Vec<AbiType>,
}

impl FunctionSig {
    pub fn new(name: Vec<u8>, inputs: Vec<AbiType>, outputs: Vec<AbiType>) -> (r: Self)
        ensures
            r.name == name,
            r.inputs == inputs,
            r.outputs == outputs,
    {
        FunctionSig { name, inputs, outputs }
    }

    /// The 4-byte selector of this signature.
    pub fn selector(&self) -> (r: Vec<u8>)
        ensures
            r@ == spec_selector(self.name@, self.inputs@),
            r@.len() == 4,
    {
        let pre = sig_preimage_vec(&self.name, &self.inputs);
        let digest = keccak256_digest(&pre);
        let sel = copy_range(&digest, 0, 4);
        proof {
            assert(sel@ =~= keccak_of(pre@).take(4));
        }
        sel
    }

    /// Encodes `args` against the declared input types, in declared order:
    /// the selector followed by the sequence encoding of the arguments.
    /// Fails exactly when the arguments do not type-check (or the encoding
    /// would not fit in memory).
    pub fn encode_input(&self, args: &Vec<DynValue>) -> (r: Result<Vec<u8>, EncodeError>)
        ensures
            match r {
                Ok(out) => matches_types(views_of(args@), self.inputs@) && enc_len(
                    views_of(args@),
                ) <= usize::MAX && out@ == spec_selector(self.name@, self.inputs@) + enc_values(
                    views_of(args@),
                ),
                Err(e) => e == EncodeError::ArgumentMismatch && !(matches_types(
                    views_of(args@),
                    self.inputs@,
                ) && enc_len(views_of(args@)) <= usize::MAX),
            },
    {
        if !check_types(args, &self.inputs) {
            return Err(EncodeError::ArgumentMismatch);
        }
        proof {
            lemma_matches_wf(views_of(args@), self.inputs@);
        }
        let body = match encode_values_raw(args) {
            Some(b) => b,
            None => {
                return Err(EncodeError::ArgumentMismatch);
            },
        };
        let sel = self.selector();
        let out = crate::words::append_bytes(sel, &body);
        Ok(out)
    }

    /// Decodes return bytes against the declared output types, in declared
    /// order.  Fails exactly when the bytes are not a canonical encoding of
    /// those types.
    pub fn decode_output(&self, data: &Vec<u8>) -> (r: Result<Vec<DynValue>, DecodeError>)
        ensures
            match r {
                Ok(vals) => spec_decode(self.outputs@, data@) == Some(views_of(vals@))
                    && matches_types(views_of(vals@), self.outputs@),
                Err(e) => e == DecodeError::MalformedData && spec_decode(self.outputs@, data@)
                    is None,
            },
    {
        match decode_values(&self.outputs, data) {
            Some(vals) => Ok(vals),
            None => Err(DecodeError::MalformedData),
        }
    }
}

} // verus!
