//! The entries of the answer cache as a sequence, the oldest first, and
//! what an insertion makes of them.

use vstd::prelude::*;
use crate::dns::question::QuestionView;
use crate::dns::record::RecordView;

verus! {

/// A cached answer: the question, and the records held for it.
pub type Entry = (QuestionView, Seq<RecordView>);

/// The entries without the one for `question`, in the same order.
pub open spec fn without(held: Seq<Entry>, question: QuestionView) -> Seq<Entry>
    decreases held.len(),
{
    if held.len() == 0 {
        held
    } else if held.last().0 == question {
        without(held.drop_last(), question)
    } else {
        without(held.drop_last(), question).push(held.last())
    }
}

/// The entries after an insertion into a cache made for `limit` entries:
/// the new entry is the youngest and takes the place of any other for the
/// same question; where that makes more than `limit`, the oldest entry goes.
pub open spec fn inserted(
    held: Seq<Entry>,
    limit: nat,
    question: QuestionView,
    records: Seq<RecordView>,
) -> Seq<Entry> {
    let grown = without(held, question).push((question, records));
    if grown.len() > limit {
        grown.drop_first()
    } else {
        grown
    }
}

/// No two entries are for the same question.
pub open spec fn one_entry_each(held: Seq<Entry>) -> bool {
    forall|i: int, j: int| 0 <= i < j < held.len() ==> held[i].0 != held[j].0
}

/// Taking the entry for a question out leaves the other entries, and
/// nothing else.
pub proof fn lemma_without(held: Seq<Entry>, question: QuestionView)
    ensures
        without(held, question).len() <= held.len(),
        forall|e: Entry| #[trigger]
            without(held, question).contains(e) <==> held.contains(e) && e.0 != question,
        one_entry_each(held) ==> one_entry_each(without(held, question)),
    decreases held.len(),
{
    let out = without(held, question);
    if held.len() > 0 {
        let front = held.drop_last();
        let last = held.last();
        let inner = without(front, question);
        lemma_without(front, question);
        assert forall|e: Entry| #[trigger] out.contains(e) <==> held.contains(e) && e.0
            != question by {
            if out.contains(e) {
                let i = choose|i: int| 0 <= i < out.len() && out[i] == e;
                if last.0 != question && i == inner.len() {
                    assert(held[held.len() - 1] == e);
                } else {
                    assert(inner[i] == e);
                    assert(inner.contains(e));
                    let j = choose|j: int| 0 <= j < front.len() && front[j] == e;
                    assert(held[j] == e);
                }
            }
            if held.contains(e) && e.0 != question {
                let j = choose|j: int| 0 <= j < held.len() && held[j] == e;
                if j < front.len() {
                    assert(front[j] == e);
                    assert(front.contains(e));
                    assert(inner.contains(e));
                    let i = choose|i: int| 0 <= i < inner.len() && inner[i] == e;
                    assert(out[i] == e);
                } else {
                    assert(out[out.len() - 1] == e);
                }
            }
        }
        if one_entry_each(held) {
            assert(one_entry_each(front)) by {
                assert forall|i: int, j: int| 0 <= i < j < front.len() implies front[i].0
                    != front[j].0 by {
                    assert(front[i] == held[i] && front[j] == held[j]);
                }
            }
            if last.0 != question {
                assert forall|i: int, j: int| 0 <= i < j < out.len() implies out[i].0
                    != out[j].0 by {
                    assert(out[i] == inner[i]);
                    if j < inner.len() {
                        assert(out[j] == inner[j]);
                    } else {
                        assert(inner.contains(inner[i]));
                        assert(front.contains(inner[i]));
                        let k = choose|k: int| 0 <= k < front.len() && front[k] == inner[i];
                        assert(held[k].0 != held[held.len() - 1].0);
                    }
                }
            }
        }
    }
}

/// An insertion keeps the cache within its bound and with one entry for
/// each question. Where the cache was made for one entry or more, the
/// youngest entry is then the one inserted, and every other entry is one
/// that was held before, for another question.
pub proof fn lemma_inserted(
    held: Seq<Entry>,
    limit: nat,
    question: QuestionView,
    records: Seq<RecordView>,
)
    requires
        held.len() <= limit,
        one_entry_each(held),
    ensures
        inserted(held, limit, question, records).len() <= limit,
        one_entry_each(inserted(held, limit, question, records)),
        limit >= 1 ==> inserted(held, limit, question, records).len() >= 1 && inserted(
            held,
            limit,
            question,
            records,
        ).last() == (question, records),
        forall|e: Entry| #[trigger]
            inserted(held, limit, question, records).contains(e) ==> e == (question, records) || (
            held.contains(e) && e.0 != question),
{
    lemma_without(held, question);
    let rest = without(held, question);
    let grown = rest.push((question, records));
    let after = inserted(held, limit, question, records);
    assert(one_entry_each(grown)) by {
        assert forall|i: int, j: int| 0 <= i < j < grown.len() implies grown[i].0
            != grown[j].0 by {
            assert(grown[i] == rest[i]);
            if j < rest.len() {
                assert(grown[j] == rest[j]);
            } else {
                assert(rest.contains(rest[i]));
            }
        }
    }
    assert forall|e: Entry| #[trigger] grown.contains(e) implies e == (question, records) || (
    held.contains(e) && e.0 != question) by {
        let i = choose|i: int| 0 <= i < grown.len() && grown[i] == e;
        if i < rest.len() {
            assert(rest[i] == e);
            assert(rest.contains(e));
        }
    }
    if grown.len() > limit {
        assert(one_entry_each(after)) by {
            assert forall|i: int, j: int| 0 <= i < j < after.len() implies after[i].0
                != after[j].0 by {
                assert(after[i] == grown[i + 1] && after[j] == grown[j + 1]);
            }
        }
        assert forall|e: Entry| #[trigger] after.contains(e) implies grown.contains(e) by {
            let i = choose|i: int| 0 <= i < after.len() && after[i] == e;
            assert(grown[i + 1] == e);
        }
    }
}

/// With one entry for each question, the records held for a question are
/// the same wherever they are found.
pub proof fn lemma_one_answer(
    held: Seq<Entry>,
    question: QuestionView,
    a: Seq<RecordView>,
    b: Seq<RecordView>,
)
    requires
        one_entry_each(held),
        held.contains((question, a)),
        held.contains((question, b)),
    ensures
        a == b,
{
    let i = choose|i: int| 0 <= i < held.len() && held[i] == (question, a);
    let j = choose|j: int| 0 <= j < held.len() && held[j] == (question, b);
    if i < j {
        assert(held[i].0 != held[j].0);
    } else if j < i {
        assert(held[j].0 != held[i].0);
    }
}

/// What is looked up is what was remembered: once an answer has been
/// inserted into a cache made for one entry or more, the only records that
/// the cache holds for its question are those of that answer.
pub proof fn lemma_held_as_inserted(
    held: Seq<Entry>,
    limit: nat,
    question: QuestionView,
    records: Seq<RecordView>,
    found: Seq<RecordView>,
)
    requires
        held.len() <= limit,
        one_entry_each(held),
        limit >= 1,
        inserted(held, limit, question, records).contains((question, found)),
    ensures
        found == records,
{
    lemma_inserted(held, limit, question, records);
    let after = inserted(held, limit, question, records);
    assert(after[after.len() - 1] == (question, records));
    lemma_one_answer(after, question, found, records);
}

} // verus!
