//! The byte-oriented backing store, an in-memory ordered map supplied by
//! `cosmwasm_std`, seen through a handful of trusted wrappers. Everything the
//! library proves about table contents is stated over `store_contents`, the
//! mathematical map of byte keys to byte values that the store holds.
use vstd::prelude::*;

use crate::bytes::lex_le;

verus! {

#[verifier::external_type_specification]
#[verifier::external_body]
pub struct ExMockStorage(cosmwasm_std::testing::MockStorage);

/// The key-value pairs the store currently holds.
pub uninterp spec fn store_contents(s: cosmwasm_std::testing::MockStorage) -> Map<Seq<u8>, Seq<u8>>;

/// Relies on `MockStorage::get`: the value at `key`, if any.
#[verifier::external_body]
pub(crate) fn store_get(store: &cosmwasm_std::testing::MockStorage, key: &Vec<u8>) -> (r: Option<Vec<u8>>)
    ensures
        match r {
            Some(v) => store_contents(*store).contains_key(key@)
                && v@ == store_contents(*store)[key@],
            None => !store_contents(*store).contains_key(key@),
        },
{
    cosmwasm_std::Storage::get(store, key.as_slice())
}

/// Relies on `MockStorage::set`: stores `value` under `key`. The store
/// refuses empty values (it cannot tell them from absent keys), so callers
/// must hand in at least one byte.
#[verifier::external_body]
pub(crate) fn store_set(store: &mut cosmwasm_std::testing::MockStorage, key: &Vec<u8>, value: &Vec<u8>)
    requires
        value@.len() > 0,
    ensures
        store_contents(*final(store)) == store_contents(*old(store)).insert(key@, value@),
{
    cosmwasm_std::Storage::set(store, key.as_slice(), value.as_slice())
}

/// Relies on `MockStorage::remove`: deletes the entry under `key`, if any.
#[verifier::external_body]
pub(crate) fn store_remove(store: &mut cosmwasm_std::testing::MockStorage, key: &Vec<u8>)
    ensures
        store_contents(*final(store)) == store_contents(*old(store)).remove(key@),
{
    cosmwasm_std::Storage::remove(store, key.as_slice())
}

/// Relies on `MockStorage::range` (over a `BTreeMap` of byte strings, so
/// ascending order is byte-lexicographic, the lower bound inclusive) and on
/// `Iterator::next` for its first item: the least stored key at or above
/// `lo`, with its value.
#[verifier::external_body]
pub(crate) fn store_first_at_least(store: &cosmwasm_std::testing::MockStorage, lo: &Vec<u8>) -> (r: Option<
    (Vec<u8>, Vec<u8>),
>)
    ensures
        match r {
            Some(kv) => store_contents(*store).contains_key(kv.0@)
                && kv.1@ == store_contents(*store)[kv.0@]
                && lex_le(lo@, kv.0@)
                && forall|j: Seq<u8>|
                    store_contents(*store).contains_key(j) && lex_le(lo@, j)
                        ==> lex_le(kv.0@, j),
            None => forall|j: Seq<u8>| store_contents(*store).contains_key(j) ==> !lex_le(lo@, j),
        },
{
    cosmwasm_std::Storage::range(
        store,
        Some(lo.as_slice()),
        None,
        cosmwasm_std::Order::Ascending,
    ).next()
}

} // verus!
