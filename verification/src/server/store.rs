//! The cache of the `ttl_cache` crate, as far as the proxy uses it.
//!
//! Nothing in this file is proved: each function states what the method it
//! calls does to the entries of the cache. The cache asks the clock when an
//! entry is inserted and when one is looked up, so what a lookup finds is
//! stated only as far as it holds at every time.

use std::hash::{BuildHasher, Hash};
use std::time::Duration;
use ttl_cache::TtlCache;
use vstd::prelude::*;
use crate::dns::message::record_views;
use crate::dns::question::Question;
use crate::dns::record::ResourceRecord;
use crate::server::entries::{inserted, Entry};

verus! {

/// `ttl_cache::TtlCache`, a map whose entries expire. The verifier sees
/// nothing inside it.
#[verifier::external_type_specification]
#[verifier::external_body]
#[verifier::reject_recursive_types(K)]
#[verifier::reject_recursive_types(V)]
#[verifier::reject_recursive_types(S)]
pub struct ExTtlCache<K: Eq + Hash, V, S: BuildHasher>(TtlCache<K, V, S>);

/// The entries that the cache holds, expired or not, the one that was
/// inserted longest ago first.
pub uninterp spec fn entries(cache: &TtlCache<Question, Vec<ResourceRecord>>) -> Seq<Entry>;

/// The number of entries that the cache was made for.
pub uninterp spec fn capacity(cache: &TtlCache<Question, Vec<ResourceRecord>>) -> nat;

/// `TtlCache::new`: an empty cache for at most `size` entries.
#[verifier::external_body]
pub(crate) fn new_store(size: usize) -> (cache: TtlCache<Question, Vec<ResourceRecord>>)
    ensures
        entries(&cache) == Seq::<Entry>::empty(),
        capacity(&cache) == size,
{
    TtlCache::new(size)
}

/// `TtlCache::get`: the records of the entry for `question`, where the
/// cache holds one and it has not expired. That nothing is found says nothing
/// of the entries: the one for `question` may have expired.
#[verifier::external_body]
pub(crate) fn get<'a>(
    cache: &'a TtlCache<Question, Vec<ResourceRecord>>,
    question: &Question,
) -> (found: Option<&'a Vec<ResourceRecord>>)
    ensures
        found matches Some(records) ==> entries(cache).contains(
            (question@, record_views(records@)),
        ),
{
    cache.get(question)
}

/// `TtlCache::insert`: makes the entry for `question` the youngest, with
/// `records` and an expiry `ttl` seconds from now, in place of any entry for
/// the same question; then, where the cache holds more entries than it was
/// made for, removes the oldest.
#[verifier::external_body]
pub(crate) fn insert(
    cache: &mut TtlCache<Question, Vec<ResourceRecord>>,
    question: Question,
    records: Vec<ResourceRecord>,
    ttl: u32,
)
    ensures
        entries(final(cache)) == inserted(
            entries(old(cache)),
            capacity(old(cache)),
            question@,
            record_views(records@),
        ),
        capacity(final(cache)) == capacity(old(cache)),
    no_unwind
{
    cache.insert(question, records, Duration::from_secs(ttl as u64));
}

} // verus!
