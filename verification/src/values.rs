//! Dynamically typed contract-ABI values.
//!
//! A call's arguments and return values are tagged variants rather than
//! compile-time types, so one builder can queue calls against function
//! signatures that are known only at runtime.  Unsigned 256-bit integers
//! are carried as their 32-byte big-endian word, addresses as their 20
//! raw bytes, and dynamic byte strings as-is.

use vstd::prelude::*;

verus! {

/// The type tag of one function parameter or return value.
#[derive(Clone, Copy, Debug, PartialEq, Eq, Structural)]
pub enum AbiType {
    /// `uint256`: an unsigned 256-bit integer.
    Uint,
    /// `address`: a 20-byte account address.
    Address,
    /// `bool`.
    Bool,
    /// `bytes`: a dynamically sized byte string.
    Bytes,
}

/// One dynamically typed value.
#[derive(Clone, Debug, PartialEq, Eq)]
pub enum DynValue {
    /// An unsigned 256-bit integer as its 32-byte big-endian word.
    Uint(Vec<u8>),
    /// A 20-byte address.
    Address(Vec<u8>),
    /// A boolean.
    Bool(bool),
    /// A dynamically sized byte string.
    Bytes(Vec<u8>),
}

/// The mathematical model of a [`DynValue`].
pub enum ValModel {
    Uint(Seq<u8>),
    Address(Seq<u8>),
    Bool(bool),
    Bytes(Seq<u8>),
}

impl View for DynValue {
    type V = ValModel;

    open spec fn view(&self) -> ValModel {
        match self {
            DynValue::Uint(w) => ValModel::Uint(w@),
            DynValue::Address(a) => ValModel::Address(a@),
            DynValue::Bool(b) => ValModel::Bool(*b),
            DynValue::Bytes(d) => ValModel::Bytes(d@),
        }
    }
}

/// The models of a sequence of values.
pub open spec fn views_of(vs: Seq<DynValue>) -> Seq<ValModel> {
    vs.map_values(|v: DynValue| v@)
}

/// Whether `v` is a well-formed value of type `t`.
pub open spec fn matches_type(v: ValModel, t: AbiType) -> bool {
    match v {
        ValModel::Uint(w) => t == AbiType::Uint && w.len() == 32,
        ValModel::Address(a) => t == AbiType::Address && a.len() == 20,
        ValModel::Bool(_) => t == AbiType::Bool,
        ValModel::Bytes(_) => t == AbiType::Bytes,
    }
}

/// Whether the values `vs` type-check, in order and in count, against `ts`.
pub open spec fn matches_types(vs: Seq<ValModel>, ts: Seq<AbiType>) -> bool {
    vs.len() == ts.len() && forall|i: int|
        0 <= i < vs.len() ==> matches_type(#[trigger] vs[i], ts[i])
}

/// Builds the `uint256` value holding `n`.
pub fn uint_value_u64(n: u64) -> (r: DynValue)
    ensures
        r@ == ValModel::Uint(crate::words::word_of_u64(n)),
{
    DynValue::Uint(crate::words::word_u64_vec(n))
}

/// Checks that the values `vs` type-check against `ts`.
pub fn check_types(vs: &Vec<DynValue>, ts: &Vec<AbiType>) -> (r: bool)
    ensures
        r == matches_types(views_of(vs@), ts@),
{
    if vs.len() != ts.len() {
        return false;
    }
    let n = vs.len();
    let mut i: usize = 0;
    while i < n
        invariant
            n == vs@.len() == ts@.len(),
            i <= n,
            forall|k: int| 0 <= k < i ==> matches_type(#[trigger] views_of(vs@)[k], ts@[k]),
        decreases n - i,
    {
        let ok = match (&vs[i], &ts[i]) {
            (DynValue::Uint(w), AbiType::Uint) => w.len() == 32,
            (DynValue::Address(a), AbiType::Address) => a.len() == 20,
            (DynValue::Bool(_), AbiType::Bool) => true,
            (DynValue::Bytes(_), AbiType::Bytes) => true,
            _ => false,
        };
        if !ok {
            assert(!matches_type(views_of(vs@)[i as int], ts@[i as int]));
            return false;
        }
        assert(matches_type(views_of(vs@)[i as int], ts@[i as int]));
        i = i + 1;
    }
    true
}

} // verus!
