//! The paragraph indexer: turns the ordered paragraph records of a document
//! into a single normalized text buffer plus tables mapping each retained
//! paragraph to its offset range within that buffer.

use vstd::prelude::*;
use crate::normalize::lemma_norm_concat;
use crate::normalize::lemma_norm_idempotent;
use crate::normalize::norm;
use crate::normalize::normalize_text;

verus! {

/// One ingested paragraph: its raw text and its structural location path.
/// A record missing either field is tolerated and skipped by the indexer.
pub struct ParagraphRecord {
    pub raw_text: Option<String>,
    pub location: Option<String>,
}

/// A record is retained only when both fields are present.
pub open spec fn keep_record(r: ParagraphRecord) -> bool {
    r.raw_text is Some && r.location is Some
}

/// The records that the indexer retains, in document order.
pub open spec fn retained(recs: Seq<ParagraphRecord>) -> Seq<ParagraphRecord>
    decreases recs.len(),
{
    if recs.len() == 0 {
        Seq::empty()
    } else if keep_record(recs.last()) {
        retained(recs.drop_last()).push(recs.last())
    } else {
        retained(recs.drop_last())
    }
}

/// The concatenation of the normalized raw texts of `recs`, in order.
pub open spec fn norm_concat(recs: Seq<ParagraphRecord>) -> Seq<char>
    decreases recs.len(),
{
    if recs.len() == 0 {
        Seq::empty()
    } else {
        norm_concat(recs.drop_last()) + norm(recs.last().raw_text->0@)
    }
}

/// The entries cut the buffer into contiguous, non-overlapping ranges:
/// the first starts at zero, each starts where the previous one ends, and
/// the last ends at the buffer's length.
pub open spec fn entries_partition(entries: Seq<(usize, usize)>, buf_len: int) -> bool {
    &&& (entries.len() == 0 ==> buf_len == 0)
    &&& (entries.len() > 0 ==> entries[0].0 == 0 && entries[entries.len() - 1].1 == buf_len)
    &&& (forall|i: int| 0 <= i < entries.len() ==> (#[trigger] entries[i]).0 <= entries[i].1)
    &&& (forall|i: int| 1 <= i < entries.len() ==> (#[trigger] entries[i]).0 == entries[i - 1].1)
}

/// The indexer's output: the normalized concatenated buffer and, aligned
/// 1:1 with each other in retained-paragraph order, the offset-range table,
/// the raw texts kept for display, and the structural locations.
pub struct ParagraphIndex {
    pub buffer: String,
    pub entries: Vec<(usize, usize)>,
    pub raw_texts: Vec<String>,
    pub locations: Vec<String>,
}

impl ParagraphIndex {
    /// Tables aligned, and the entries partition the buffer exactly.
    pub open spec fn wf(self) -> bool {
        &&& self.raw_texts@.len() == self.entries@.len()
        &&& self.locations@.len() == self.entries@.len()
        &&& entries_partition(self.entries@, self.buffer@.len() as int)
    }
}

/// Build the normalized buffer and the paragraph tables for a document.
///
/// Records missing a text or a location are skipped. For each retained
/// record, in order, the entry holds the half-open range its normalized
/// text occupies within the buffer, in normalized-character units.
pub fn build_index(records: &Vec<ParagraphRecord>) -> (idx: ParagraphIndex)
    ensures
        idx.wf(),
        ({
            let kept = retained(records@);
            &&& idx.entries@.len() == kept.len()
            &&& (forall|i: int|
                0 <= i < kept.len() ==> idx.raw_texts@[i] == #[trigger] kept[i].raw_text->0)
            &&& (forall|i: int|
                0 <= i < kept.len() ==> idx.locations@[i] == #[trigger] kept[i].location->0)
            &&& idx.buffer@ == norm_concat(kept)
            &&& (forall|i: int|
                0 <= i < kept.len() ==> (#[trigger] idx.entries@[i]).0 == norm_concat(
                    kept.take(i),
                ).len() && idx.entries@[i].1 == norm_concat(kept.take(i + 1)).len())
        }),
        norm(idx.buffer@) == idx.buffer@,
{
    let mut buffer = String::new();
    let mut entries: Vec<(usize, usize)> = Vec::new();
    let mut raw_texts: Vec<String> = Vec::new();
    let mut locations: Vec<String> = Vec::new();
    let mut cursor: usize = 0;
    let n = records.len();
    let mut i: usize = 0;
    while i < n
        invariant
            n == records@.len(),
            i <= n,
            cursor == buffer@.len(),
            entries_partition(entries@, buffer@.len() as int),
            raw_texts@.len() == entries@.len(),
            locations@.len() == entries@.len(),
            ({
                let kept = retained(records@.take(i as int));
                &&& entries@.len() == kept.len()
                &&& (forall|j: int|
                    0 <= j < kept.len() ==> raw_texts@[j] == #[trigger] kept[j].raw_text->0)
                &&& (forall|j: int|
                    0 <= j < kept.len() ==> locations@[j] == #[trigger] kept[j].location->0)
                &&& buffer@ == norm_concat(kept)
                &&& (forall|j: int|
                    0 <= j < kept.len() ==> (#[trigger] entries@[j]).0 == norm_concat(
                        kept.take(j),
                    ).len() && entries@[j].1 == norm_concat(kept.take(j + 1)).len())
            }),
            norm(buffer@) == buffer@,
        decreases n - i,
    {
        let ghost kept_before = retained(records@.take(i as int));
        proof {
            assert(records@.take(i + 1).drop_last() =~= records@.take(i as int));
            assert(records@.take(i + 1).last() == records@[i as int]);
        }
        match (&records[i].raw_text, &records[i].location) {
            (Some(raw), Some(loc)) => {
                let ghost kept_after = retained(records@.take(i + 1));
                proof {
                    assert(kept_after == kept_before.push(records@[i as int]));
                    assert(kept_after.drop_last() =~= kept_before);
                    assert forall|j: int| 0 <= j <= kept_before.len() implies #[trigger] kept_after
                        .take(j) == kept_before.take(j) by {
                        assert(kept_after.take(j) =~= kept_before.take(j));
                    }
                    assert(kept_after.take(kept_after.len() as int) =~= kept_after);
                }
                let ghost buf_old = buffer@;
                let normalized = normalize_text(raw.as_str());
                buffer.append(normalized.as_str());
                let end = buffer.unicode_len();
                proof {
                    lemma_norm_concat(buf_old, normalized@);
                    lemma_norm_idempotent(raw@);
                    assert(norm_concat(kept_after.drop_last()) == norm_concat(kept_before));
                    assert(buffer@ == norm_concat(kept_after));
                }
                entries.push((cursor, end));
                raw_texts.push(raw.clone());
                locations.push(loc.clone());
                cursor = end;
            },
            _ => {
                proof {
                    assert(retained(records@.take(i + 1)) == kept_before);
                }
            },
        }
        i = i + 1;
    }
    proof {
        assert(records@.take(n as int) =~= records@);
    }
    ParagraphIndex { buffer, entries, raw_texts, locations }
}

} // verus!
