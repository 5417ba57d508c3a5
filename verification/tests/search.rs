use cfi_search::index::build_index;
use cfi_search::index::ParagraphRecord;
use cfi_search::locate::find_first;
use cfi_search::locate::find_paragraph_range;
use cfi_search::locate::search_query;
use cfi_search::normalize::is_whitespace;
use cfi_search::normalize::normalize_text;

fn record(text: &str, location: &str) -> ParagraphRecord {
    ParagraphRecord {
        raw_text: Some(text.to_string()),
        location: Some(location.to_string()),
    }
}

#[test]
fn normalize_strips_whitespace() {
    assert_eq!(normalize_text("Hello "), "Hello");
    assert_eq!(normalize_text(" a\tb\nc "), "abc");
    assert_eq!(normalize_text(""), "");
    assert_eq!(normalize_text(" \t\r\n"), "");
}

#[test]
fn normalize_handles_unicode_whitespace() {
    assert_eq!(normalize_text("a\u{00A0}b"), "ab");
    assert_eq!(normalize_text("x\u{2003}y\u{3000}z"), "xyz");
    assert!(is_whitespace('\u{2028}'));
    assert!(!is_whitespace('a'));
}

#[test]
fn normalize_is_idempotent() {
    for s in [
        "Hello world",
        "  spaced\tout  ",
        "",
        "nochange",
        "mixed\u{00A0}unicode \u{2009}spaces",
    ] {
        let once = normalize_text(s);
        let twice = normalize_text(&once);
        assert_eq!(twice, once);
    }
}

#[test]
fn index_entries_partition_the_buffer() {
    let records = vec![
        record("Hello ", "/a/b"),
        record("world", "/a/c"),
        record("", "/a/d"),
        record(" and more ", "/a/e"),
    ];
    let idx = build_index(&records);
    assert_eq!(idx.buffer, "Helloworldandmore");
    assert_eq!(idx.entries.len(), 4);
    assert_eq!(idx.entries[0].0, 0);
    for i in 1..idx.entries.len() {
        assert_eq!(idx.entries[i].0, idx.entries[i - 1].1);
    }
    let last = idx.entries[idx.entries.len() - 1];
    assert_eq!(last.1, idx.buffer.chars().count());
    assert_eq!(idx.entries, vec![(0, 5), (5, 10), (10, 10), (10, 17)]);
}

#[test]
fn index_skips_incomplete_records() {
    let records = vec![
        record("kept", "/a"),
        ParagraphRecord {
            raw_text: None,
            location: Some("/b".to_string()),
        },
        ParagraphRecord {
            raw_text: Some("no location".to_string()),
            location: None,
        },
        record("also kept", "/c"),
    ];
    let idx = build_index(&records);
    assert_eq!(idx.raw_texts, vec!["kept".to_string(), "also kept".to_string()]);
    assert_eq!(idx.locations, vec!["/a".to_string(), "/c".to_string()]);
    assert_eq!(idx.entries, vec![(0, 4), (4, 12)]);
    assert_eq!(idx.buffer, "keptalsokept");
}

#[test]
fn find_first_returns_leftmost_occurrence() {
    assert_eq!(find_first("abcabc", "bc"), Some(1));
    assert_eq!(find_first("abcabc", "abc"), Some(0));
    assert_eq!(find_first("abcabc", "cab"), Some(2));
    assert_eq!(find_first("abcabc", "zz"), None);
    assert_eq!(find_first("abc", ""), Some(0));
    assert_eq!(find_first("", ""), Some(0));
    assert_eq!(find_first("", "a"), None);
}

#[test]
fn query_spanning_two_paragraphs_is_located() {
    let records = vec![record("Hello ", "/a/b"), record("world", "/a/c")];
    let idx = build_index(&records);
    assert_eq!(idx.buffer, "Helloworld");
    let result = search_query(
        "lowor",
        &idx.buffer,
        &idx.entries,
        &idx.raw_texts,
        &idx.locations,
    )
    .expect("query spans both paragraphs");
    assert_eq!(result.start_index, 3);
    assert_eq!(result.end_index, 8);
    assert_eq!(result.start_paragraph, "Hello ");
    assert_eq!(result.end_paragraph, "world");
    assert_eq!(result.start_cfi, "/a/b");
    assert_eq!(result.end_cfi, "/a/c");
    assert_eq!(result.start_offset_in_paragraph, 3);
    assert_eq!(result.end_offset_in_paragraph, 3);
}

#[test]
fn whitespace_in_query_is_ignored() {
    let records = vec![record("Hello ", "/a/b"), record("world", "/a/c")];
    let idx = build_index(&records);
    let result = search_query(
        "lo wor",
        &idx.buffer,
        &idx.entries,
        &idx.raw_texts,
        &idx.locations,
    )
    .expect("whitespace differences do not matter");
    assert_eq!(result.start_index, 3);
    assert_eq!(result.end_index, 8);
}

#[test]
fn empty_query_matches_at_start_of_first_paragraph() {
    let records = vec![record("Hello ", "/a/b"), record("world", "/a/c")];
    let idx = build_index(&records);
    let result = search_query(
        " \t ",
        &idx.buffer,
        &idx.entries,
        &idx.raw_texts,
        &idx.locations,
    )
    .expect("an empty normalized query is found at the start");
    assert_eq!(result.start_index, 0);
    assert_eq!(result.end_index, 0);
    assert_eq!(result.start_paragraph, "Hello ");
    assert_eq!(result.end_paragraph, "Hello ");
    assert_eq!(result.start_cfi, "/a/b");
    assert_eq!(result.end_cfi, "/a/b");
    assert_eq!(result.start_offset_in_paragraph, 0);
    assert_eq!(result.end_offset_in_paragraph, 0);
}

#[test]
fn offsets_count_characters_not_bytes() {
    let records = vec![record("héé ", "/a/b"), record("wörld", "/a/c")];
    let idx = build_index(&records);
    assert_eq!(idx.buffer, "hééwörld");
    assert_eq!(idx.entries, vec![(0, 3), (3, 8)]);
    let result = search_query(
        "éwö",
        &idx.buffer,
        &idx.entries,
        &idx.raw_texts,
        &idx.locations,
    )
    .expect("query spans the boundary");
    assert_eq!(result.start_index, 2);
    assert_eq!(result.end_index, 5);
    assert_eq!(result.start_offset_in_paragraph, 2);
    assert_eq!(result.end_offset_in_paragraph, 2);
}

#[test]
fn missing_query_is_reported_not_found() {
    let records = vec![record("Hello ", "/a/b"), record("world", "/a/c")];
    let idx = build_index(&records);
    let err = search_query(
        "absent",
        &idx.buffer,
        &idx.entries,
        &idx.raw_texts,
        &idx.locations,
    )
    .unwrap_err();
    assert_eq!(err, "Query not found");
}

#[test]
fn empty_document_reports_not_found() {
    let records: Vec<ParagraphRecord> = Vec::new();
    let idx = build_index(&records);
    assert_eq!(idx.buffer, "");
    assert!(idx.entries.is_empty());
    let err = search_query(
        "anything",
        &idx.buffer,
        &idx.entries,
        &idx.raw_texts,
        &idx.locations,
    )
    .unwrap_err();
    assert_eq!(err, "Query not found");
    // Even the empty query has no paragraph to land in.
    let err = search_query("", &idx.buffer, &idx.entries, &idx.raw_texts, &idx.locations)
        .unwrap_err();
    assert_eq!(err, "Query not found");
}

#[test]
fn boundary_offset_belongs_to_the_earlier_paragraph() {
    let entries = vec![(0usize, 5usize), (5, 10)];
    let paragraphs = vec!["Hello".to_string(), "world".to_string()];
    let cfis = vec!["/a/b".to_string(), "/a/c".to_string()];
    let (start_p, end_p, start_c, end_c, start_off, end_off) =
        find_paragraph_range(5, 10, &entries, &paragraphs, &cfis).expect("both offsets covered");
    assert_eq!(start_p, "Hello");
    assert_eq!(start_c, "/a/b");
    assert_eq!(start_off, 5);
    assert_eq!(end_p, "world");
    assert_eq!(end_c, "/a/c");
    assert_eq!(end_off, 5);
}

#[test]
fn uncovered_offset_yields_none() {
    let entries = vec![(0usize, 5usize), (5, 10)];
    let paragraphs = vec!["Hello".to_string(), "world".to_string()];
    let cfis = vec!["/a/b".to_string(), "/a/c".to_string()];
    assert!(find_paragraph_range(3, 11, &entries, &paragraphs, &cfis).is_none());
    assert!(find_paragraph_range(11, 12, &entries, &paragraphs, &cfis).is_none());
}
