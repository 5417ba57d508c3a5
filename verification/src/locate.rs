//! The query locator: finds the normalized query inside the normalized
//! buffer and maps the flat match offsets back to the owning paragraphs.

use vstd::prelude::*;
use crate::index::entries_partition;
use crate::normalize::norm;
use crate::normalize::normalize_text;

verus! {

/// `pat` occurs in `text` starting at offset `i`.
pub open spec fn match_at(text: Seq<char>, pat: Seq<char>, i: int) -> bool {
    &&& 0 <= i
    &&& i + pat.len() <= text.len()
    &&& text.subrange(i, i + pat.len() as int) == pat
}

/// Offset of the leftmost occurrence of `pat` in `text` at or after `i`.
pub open spec fn first_match_from(text: Seq<char>, pat: Seq<char>, i: int) -> Option<int>
    decreases text.len() + 1 - i,
{
    if i < 0 || i + pat.len() > text.len() {
        None
    } else if match_at(text, pat, i) {
        Some(i)
    } else {
        first_match_from(text, pat, i + 1)
    }
}

/// Offset of the leftmost occurrence of `pat` in `text`, if any.
pub open spec fn first_match(text: Seq<char>, pat: Seq<char>) -> Option<int> {
    first_match_from(text, pat, 0)
}

proof fn lemma_first_match_from_correct(text: Seq<char>, pat: Seq<char>, i: int)
    requires
        0 <= i,
    ensures
        match first_match_from(text, pat, i) {
            Some(j) => i <= j && match_at(text, pat, j) && forall|k: int|
                i <= k < j ==> !match_at(text, pat, k),
            None => forall|k: int| i <= k ==> !match_at(text, pat, k),
        },
    decreases text.len() + 1 - i,
{
    if i + pat.len() > text.len() {
        assert forall|k: int| i <= k implies !match_at(text, pat, k) by {}
    } else if match_at(text, pat, i) {
    } else {
        lemma_first_match_from_correct(text, pat, i + 1);
    }
}

/// The leftmost occurrence is an occurrence, and nothing earlier is one.
pub proof fn lemma_first_match_correct(text: Seq<char>, pat: Seq<char>)
    ensures
        match first_match(text, pat) {
            Some(j) => 0 <= j && match_at(text, pat, j) && forall|k: int|
                0 <= k < j ==> !match_at(text, pat, k),
            None => forall|k: int| !match_at(text, pat, k),
        },
{
    lemma_first_match_from_correct(text, pat, 0);
}

/// An occurrence with nothing earlier pins the leftmost occurrence.
pub proof fn lemma_first_match_is(text: Seq<char>, pat: Seq<char>, i: int)
    requires
        match_at(text, pat, i),
        forall|j: int| 0 <= j < i ==> !match_at(text, pat, j),
    ensures
        first_match(text, pat) == Some(i),
{
    lemma_first_match_correct(text, pat);
}

/// No occurrence anywhere means no leftmost occurrence.
pub proof fn lemma_first_match_none(text: Seq<char>, pat: Seq<char>)
    requires
        forall|j: int| !match_at(text, pat, j),
    ensures
        first_match(text, pat) is None,
{
    lemma_first_match_correct(text, pat);
}

/// `pat` occurs in `text` at offset `i`, checked character by character.
fn matches_at(text: &str, pat: &str, i: usize) -> (r: bool)
    requires
        i + pat@.len() <= text@.len(),
        text@.len() <= usize::MAX,
    ensures
        r == match_at(text@, pat@, i as int),
{
    let m = pat.unicode_len();
    let mut k: usize = 0;
    while k < m
        invariant
            m == pat@.len(),
            i + m <= text@.len(),
            text@.len() <= usize::MAX,
            k <= m,
            forall|l: int| 0 <= l < k ==> text@[i + l] == #[trigger] pat@[l],
        decreases m - k,
    {
        if text.get_char(i + k) != pat.get_char(k) {
            proof {
                assert(!match_at(text@, pat@, i as int)) by {
                    if text@.subrange(i as int, i + m as int) == pat@ {
                        assert(pat@[k as int] == text@.subrange(i as int, i + m as int)[k as int]);
                    }
                }
            }
            return false;
        }
        k = k + 1;
    }
    proof {
        assert(text@.subrange(i as int, i + m as int) =~= pat@);
    }
    true
}

/// Leftmost occurrence of `pat` in `text`, by character offset.
pub fn find_first(text: &str, pat: &str) -> (r: Option<usize>)
    ensures
        match r {
            Some(u) => first_match(text@, pat@) == Some(u as int),
            None => first_match(text@, pat@) is None,
        },
{
    let n = text.unicode_len();
    let m = pat.unicode_len();
    if m > n {
        proof {
            lemma_first_match_none(text@, pat@);
        }
        return None;
    }
    if m == 0 {
        proof {
            assert(text@.subrange(0, 0) =~= pat@);
            lemma_first_match_is(text@, pat@, 0);
        }
        return Some(0);
    }
    let mut i: usize = 0;
    while i <= n - m
        invariant
            n == text@.len(),
            m == pat@.len(),
            0 < m <= n,
            i <= n - m + 1,
            forall|j: int| 0 <= j < i ==> !match_at(text@, pat@, j),
        decreases n - m + 1 - i,
    {
        if matches_at(text, pat, i) {
            proof {
                lemma_first_match_is(text@, pat@, i as int);
            }
            return Some(i);
        }
        i = i + 1;
    }
    proof {
        assert forall|j: int| !match_at(text@, pat@, j) by {
            if 0 <= j <= n - m {
                assert(!match_at(text@, pat@, j));
            }
        }
        lemma_first_match_none(text@, pat@);
    }
    None
}

/// Offset `x` lies inside entry `e`, both boundaries included.
pub open spec fn covers(e: (usize, usize), x: int) -> bool {
    e.0 <= x && x <= e.1
}

/// Index of the first entry covering `x`, looking at positions `i` and later.
pub open spec fn first_cover_from(entries: Seq<(usize, usize)>, x: int, i: int) -> Option<int>
    decreases entries.len() - i,
{
    if i < 0 || i >= entries.len() {
        None
    } else if covers(entries[i], x) {
        Some(i)
    } else {
        first_cover_from(entries, x, i + 1)
    }
}

/// Index of the first entry covering `x`: the earliest paragraph, in
/// document order, whose range contains the offset.
pub open spec fn first_cover(entries: Seq<(usize, usize)>, x: int) -> Option<int> {
    first_cover_from(entries, x, 0)
}

proof fn lemma_first_cover_from_correct(entries: Seq<(usize, usize)>, x: int, i: int)
    requires
        0 <= i,
    ensures
        match first_cover_from(entries, x, i) {
            Some(j) => i <= j < entries.len() && covers(entries[j], x) && forall|k: int|
                i <= k < j ==> !covers(#[trigger] entries[k], x),
            None => forall|k: int| i <= k < entries.len() ==> !covers(#[trigger] entries[k], x),
        },
    decreases entries.len() - i,
{
    if i >= entries.len() {
    } else if covers(entries[i], x) {
    } else {
        lemma_first_cover_from_correct(entries, x, i + 1);
    }
}

/// The first covering entry covers, and no earlier entry does.
pub proof fn lemma_first_cover_correct(entries: Seq<(usize, usize)>, x: int)
    ensures
        match first_cover(entries, x) {
            Some(j) => 0 <= j < entries.len() && covers(entries[j], x) && forall|k: int|
                0 <= k < j ==> !covers(#[trigger] entries[k], x),
            None => forall|k: int| 0 <= k < entries.len() ==> !covers(#[trigger] entries[k], x),
        },
{
    lemma_first_cover_from_correct(entries, x, 0);
}

/// A covering entry with no earlier one pins the first covering entry.
pub proof fn lemma_first_cover_is(entries: Seq<(usize, usize)>, x: int, i: int)
    requires
        0 <= i < entries.len(),
        covers(entries[i], x),
        forall|j: int| 0 <= j < i ==> !covers(#[trigger] entries[j], x),
    ensures
        first_cover(entries, x) == Some(i),
{
    lemma_first_cover_correct(entries, x);
}

fn first_cover_exec(entries: &Vec<(usize, usize)>, x: usize) -> (r: Option<usize>)
    ensures
        match r {
            Some(u) => first_cover(entries@, x as int) == Some(u as int),
            None => first_cover(entries@, x as int) is None,
        },
{
    let n = entries.len();
    let mut i: usize = 0;
    while i < n
        invariant
            n == entries@.len(),
            i <= n,
            forall|j: int| 0 <= j < i ==> !covers(#[trigger] entries@[j], x as int),
        decreases n - i,
    {
        let e = entries[i];
        if e.0 <= x && x <= e.1 {
            proof {
                lemma_first_cover_is(entries@, x as int, i as int);
            }
            return Some(i);
        }
        i = i + 1;
    }
    proof {
        lemma_first_cover_correct(entries@, x as int);
    }
    None
}

/// Map the two endpoints of a flat match back to the owning paragraphs.
///
/// Each endpoint is attributed to the earliest paragraph, in document order,
/// whose half-open range touches it (both boundaries included, so an offset
/// on a paragraph boundary belongs to the earlier paragraph). Returns the
/// two paragraphs' raw texts, their structural locations, and the offset of
/// each endpoint within its paragraph; `None` if either endpoint lies in no
/// paragraph's range.
pub fn find_paragraph_range(
    char_start: usize,
    char_end: usize,
    paragraph_indexes: &Vec<(usize, usize)>,
    paragraphs: &Vec<String>,
    cfis: &Vec<String>,
) -> (r: Option<(String, String, String, String, usize, usize)>)
    requires
        paragraphs@.len() == paragraph_indexes@.len(),
        cfis@.len() == paragraph_indexes@.len(),
    ensures
        ({
            let fs = first_cover(paragraph_indexes@, char_start as int);
            let fe = first_cover(paragraph_indexes@, char_end as int);
            match r {
                Some(t) => {
                    &&& fs is Some
                    &&& fe is Some
                    &&& t.0 == paragraphs@[fs->0]
                    &&& t.1 == paragraphs@[fe->0]
                    &&& t.2 == cfis@[fs->0]
                    &&& t.3 == cfis@[fe->0]
                    &&& t.4 == char_start - paragraph_indexes@[fs->0].0
                    &&& t.5 == char_end - paragraph_indexes@[fe->0].0
                },
                None => fs is None || fe is None,
            }
        }),
{
    let start_idx = first_cover_exec(paragraph_indexes, char_start);
    let end_idx = first_cover_exec(paragraph_indexes, char_end);
    match (start_idx, end_idx) {
        (Some(si), Some(ei)) => {
            proof {
                lemma_first_cover_correct(paragraph_indexes@, char_start as int);
                lemma_first_cover_correct(paragraph_indexes@, char_end as int);
            }
            let start_offset_in_paragraph = char_start - paragraph_indexes[si].0;
            let end_offset_in_paragraph = char_end - paragraph_indexes[ei].0;
            Some(
                (
                    paragraphs[si].clone(),
                    paragraphs[ei].clone(),
                    cfis[si].clone(),
                    cfis[ei].clone(),
                    start_offset_in_paragraph,
                    end_offset_in_paragraph,
                ),
            )
        },
        _ => None,
    }
}

proof fn lemma_cover_from_partition(
    entries: Seq<(usize, usize)>,
    buf_len: int,
    x: int,
    i: int,
)
    requires
        entries_partition(entries, buf_len),
        0 <= i < entries.len(),
        entries[i].0 <= x <= buf_len,
    ensures
        first_cover_from(entries, x, i) is Some,
    decreases entries.len() - i,
{
    if !covers(entries[i], x) {
        assert(x > entries[i].1);
        if i == entries.len() - 1 {
            assert(entries[i].1 == buf_len);
        } else {
            assert(entries[i + 1].0 == entries[i].1);
            lemma_cover_from_partition(entries, buf_len, x, i + 1);
        }
    }
}

/// In a partitioned index every offset of the buffer, its end included,
/// lies inside some entry.
pub proof fn lemma_partition_covers(entries: Seq<(usize, usize)>, buf_len: int, x: int)
    requires
        entries_partition(entries, buf_len),
        entries.len() > 0,
        0 <= x <= buf_len,
    ensures
        first_cover(entries, x) is Some,
{
    lemma_cover_from_partition(entries, buf_len, x, 0);
}

/// Every true substring of the buffer is located: when the normalized query
/// occurs in the buffer of a non-empty partitioned index, the leftmost
/// occurrence exists, both of its endpoints map to a paragraph, and the
/// buffer's characters between the match offsets are exactly the
/// normalized query. Under `search_query`'s contract this forces an `Ok`
/// result carrying those offsets.
pub proof fn lemma_locate_succeeds(
    text: Seq<char>,
    query: Seq<char>,
    entries: Seq<(usize, usize)>,
)
    requires
        entries_partition(entries, text.len() as int),
        entries.len() > 0,
        exists|i: int| match_at(text, norm(query), i),
    ensures
        ({
            let fm = first_match(text, norm(query));
            &&& fm is Some
            &&& first_cover(entries, fm->0) is Some
            &&& first_cover(entries, fm->0 + norm(query).len()) is Some
            &&& text.subrange(fm->0, fm->0 + norm(query).len() as int) == norm(query)
        }),
{
    let nq = norm(query);
    lemma_first_match_correct(text, nq);
    let i = choose|i: int| match_at(text, nq, i);
    assert(first_match(text, nq) is Some);
    let j = first_match(text, nq)->0;
    lemma_partition_covers(entries, text.len() as int, j);
    lemma_partition_covers(entries, text.len() as int, j + nq.len());
}

/// A query whose normalized form is empty is found at offset zero, and in
/// a non-empty partitioned index both endpoints of that empty match map to
/// the first paragraph, at offset zero within it.
pub proof fn lemma_empty_query_match(
    text: Seq<char>,
    query: Seq<char>,
    entries: Seq<(usize, usize)>,
)
    requires
        norm(query).len() == 0,
        entries_partition(entries, text.len() as int),
        entries.len() > 0,
    ensures
        first_match(text, norm(query)) == Some(0int),
        first_cover(entries, 0) == Some(0int),
{
    assert(text.subrange(0, 0) =~= norm(query));
    lemma_first_match_is(text, norm(query), 0);
    assert(covers(entries[0], 0));
    lemma_first_cover_is(entries, 0, 0);
}

/// A located match: the flat offsets into the normalized buffer, the raw
/// texts and structural locations of the two owning paragraphs, and the
/// offset of each endpoint within its paragraph.
#[derive(Debug)]
pub struct SearchResult {
    pub start_index: usize,
    pub end_index: usize,
    pub start_paragraph: String,
    pub end_paragraph: String,
    pub start_cfi: String,
    pub end_cfi: String,
    pub start_offset_in_paragraph: usize,
    pub end_offset_in_paragraph: usize,
}

/// Locate the whitespace-normalized query inside the normalized buffer and
/// express the match in document terms.
///
/// Succeeds exactly when the normalized query occurs in the buffer and both
/// endpoints of its leftmost occurrence fall inside some entry's range;
/// otherwise it returns the single not-found error.
pub fn search_query(
    query: &str,
    normalized_text: &str,
    paragraph_indexes: &Vec<(usize, usize)>,
    paragraphs: &Vec<String>,
    cfis: &Vec<String>,
) -> (r: Result<SearchResult, &'static str>)
    requires
        paragraphs@.len() == paragraph_indexes@.len(),
        cfis@.len() == paragraph_indexes@.len(),
    ensures
        ({
            let nq = norm(query@);
            let t = normalized_text@;
            let fm = first_match(t, nq);
            match r {
                Ok(res) => {
                    let fs = first_cover(paragraph_indexes@, fm->0);
                    let fe = first_cover(paragraph_indexes@, fm->0 + nq.len());
                    &&& fm is Some
                    &&& fs is Some
                    &&& fe is Some
                    &&& res.start_index == fm->0
                    &&& res.end_index == fm->0 + nq.len()
                    &&& t.subrange(res.start_index as int, res.end_index as int) == nq
                    &&& res.start_paragraph == paragraphs@[fs->0]
                    &&& res.end_paragraph == paragraphs@[fe->0]
                    &&& res.start_cfi == cfis@[fs->0]
                    &&& res.end_cfi == cfis@[fe->0]
                    &&& res.start_offset_in_paragraph == fm->0 - paragraph_indexes@[fs->0].0
                    &&& res.end_offset_in_paragraph == fm->0 + nq.len() - paragraph_indexes@[
                        fe->0
                    ].0
                },
                Err(msg) => {
                    &&& (fm is None || first_cover(paragraph_indexes@, fm->0) is None
                        || first_cover(paragraph_indexes@, fm->0 + nq.len()) is None)
                    &&& msg@ == "Query not found"@
                },
            }
        }),
{
    let normalized_query = normalize_text(query);
    let n = normalized_text.unicode_len();
    match find_first(normalized_text, normalized_query.as_str()) {
        Some(start_index) => {
            let m = normalized_query.as_str().unicode_len();
            proof {
                lemma_first_match_correct(normalized_text@, norm(query@));
                assert(start_index + m <= n);
            }
            let end_index = start_index + m;
            match find_paragraph_range(
                start_index,
                end_index,
                paragraph_indexes,
                paragraphs,
                cfis,
            ) {
                Some(t) => Ok(
                    SearchResult {
                        start_index,
                        end_index,
                        start_paragraph: t.0,
                        end_paragraph: t.1,
                        start_cfi: t.2,
                        end_cfi: t.3,
                        start_offset_in_paragraph: t.4,
                        end_offset_in_paragraph: t.5,
                    },
                ),
                None => Err("Query not found"),
            }
        },
        None => Err("Query not found"),
    }
}

} // verus!
