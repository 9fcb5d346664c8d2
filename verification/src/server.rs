//! The answer cache, and, in the modules below it, what the proxy and its
//! upstream client decide.

use ttl_cache::TtlCache;
use vstd::prelude::*;
use crate::dns::message::record_views;
use crate::dns::question::Question;
use crate::dns::record::{RecordView, ResourceRecord};
use crate::server::entries::{inserted, lemma_inserted, one_entry_each, Entry};
use crate::server::store::{capacity, entries, get, insert, new_store};

pub mod entries;
pub mod frontend;
pub mod store;
pub mod upstream;

verus! {

/// A copy of the records.
pub fn clone_records(records: &Vec<ResourceRecord>) -> (copy: Vec<ResourceRecord>)
    ensures
        record_views(copy@) == record_views(records@),
{
    let mut copy: Vec<ResourceRecord> = Vec::with_capacity(records.len());
    let mut i: usize = 0;
    while i < records.len()
        invariant
            i <= records.len(),
            copy.len() == i,
            forall|j: int| 0 <= j < i ==> copy[j]@ == records[j]@,
        decreases records.len() - i,
    {
        copy.push(records[i].clone());
        i += 1;
    }
    assert(record_views(copy@) =~= record_views(records@));
    copy
}

/// What a lookup hands out for what the store found: a copy of the
/// records, so that nothing refers into the store, or nothing.
pub fn copy_found(found: Option<&Vec<ResourceRecord>>) -> (r: Option<Vec<ResourceRecord>>)
    ensures
        match found {
            Some(records) => r matches Some(copy) && record_views(copy@) == record_views(records@),
            None => r is None,
        },
{
    match found {
        Some(records) => Some(clone_records(records)),
        None => None,
    }
}

/// For how many seconds an answer is kept: for the time to live of its
/// first record, whatever those of the others are. An answer without
/// records is not kept at all.
pub open spec fn keeping_time(records: Seq<RecordView>) -> Option<u32> {
    if records.len() == 0 {
        None
    } else {
        Some(records[0].ttl)
    }
}

/// For how many seconds `records` are kept as an answer, if at all.
pub fn time_to_keep(records: &Vec<ResourceRecord>) -> (ttl: Option<u32>)
    ensures
        ttl == keeping_time(record_views(records@)),
{
    if records.len() > 0 {
        Some(records[0].ttl)
    } else {
        None
    }
}

/// The answers that are kept, by question. An answer is kept until the
/// time it is kept for is over, or until newer answers have taken the
/// room: the cache never holds more entries than it was made for.
pub struct Cache {
    answers: TtlCache<Question, Vec<ResourceRecord>>,
}

impl Cache {
    #[verifier::type_invariant]
    spec fn bounded(self) -> bool {
        &&& entries(&self.answers).len() <= capacity(&self.answers)
        &&& one_entry_each(entries(&self.answers))
    }

    /// The entries of the cache, expired or not, the oldest first.
    pub closed spec fn held(&self) -> Seq<Entry> {
        entries(&self.answers)
    }

    /// The number of entries that the cache was made for.
    pub closed spec fn limit(&self) -> nat {
        capacity(&self.answers)
    }

    /// An empty cache for at most `size` answers.
    pub fn new(size: usize) -> (cache: Self)
        ensures
            cache.held() == Seq::<Entry>::empty(),
            cache.limit() == size,
    {
        Cache { answers: new_store(size) }
    }

    /// The answer kept for `question`, where there is one whose time is not
    /// over: a copy of the records as they were remembered. Where there is
    /// none, the question has to be resolved upstream.
    pub fn lookup(&self, question: &Question) -> (found: Option<Vec<ResourceRecord>>)
        ensures
            self.held().len() <= self.limit(),
            one_entry_each(self.held()),
            found matches Some(records) ==> self.held().contains(
                (question@, record_views(records@)),
            ),
    {
        proof {
            use_type_invariant(self);
        }
        copy_found(get(&self.answers, question))
    }

    /// Takes note of the answer that upstream gave to `question`. An answer
    /// with records is kept, in place of any older one to the same question,
    /// for the time to live of its first record; where the cache is full, its
    /// oldest entry makes room. An answer without records is not kept.
    pub fn remember(&mut self, question: Question, records: &Vec<ResourceRecord>) -> (kept: Option<
        u32,
    >)
        ensures
            kept == keeping_time(record_views(records@)),
            final(self).limit() == old(self).limit(),
            final(self).held() == if kept is Some {
                inserted(
                    old(self).held(),
                    old(self).limit(),
                    question@,
                    record_views(records@),
                )
            } else {
                old(self).held()
            },
            final(self).held().len() <= final(self).limit(),
            one_entry_each(final(self).held()),
            kept is Some && final(self).limit() >= 1 ==> final(self).held().len() >= 1
                && final(self).held().last() == (question@, record_views(records@)),
    {
        proof {
            use_type_invariant(&*self);
            lemma_inserted(
                self.held(),
                self.limit(),
                question@,
                record_views(records@),
            );
        }
        let kept = time_to_keep(records);
        match kept {
            Some(ttl) => {
                insert(&mut self.answers, question, clone_records(records), ttl);
            },
            None => {},
        }
        kept
    }
}

} // verus!
