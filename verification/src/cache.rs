//! The block cache: a concurrent map from a table's id and a block's index to
//! the decoded block, shared between readers.

use crate::block::Block;
use std::sync::Arc;
use vstd::prelude::*;

verus! {

/// `moka::sync::Cache`, a concurrent cache. What a cache holds at a moment
/// depends on the other threads and on its eviction, so nothing is stated
/// of it.
#[verifier::external_type_specification]
#[verifier::external_body]
#[verifier::reject_recursive_types(K)]
#[verifier::reject_recursive_types(V)]
#[verifier::reject_recursive_types(S)]
pub struct ExCache<K, V, S>(moka::sync::Cache<K, V, S>);

/// A cache of decoded blocks, keyed by table id and block index.
pub type BlockCache = moka::sync::Cache<(usize, usize), Arc<Block>>;

/// `Cache::get`: the block that the cache holds for the key, if it holds
/// one. What a cache holds changes with other readers and with eviction, so
/// nothing is claimed of the result.
#[verifier::external_body]
pub(crate) fn cache_get(cache: &BlockCache, id: usize, idx: usize) -> (r: Option<Arc<Block>>) {
    cache.get(&(id, idx))
}

/// `Cache::insert`: offers the block to the cache under the key.
#[verifier::external_body]
pub(crate) fn cache_insert(cache: &BlockCache, id: usize, idx: usize, block: Arc<Block>) {
    cache.insert((id, idx), block)
}

} // verus!
