use cfi_search::cfi::format_epub_cfi;
use cfi_search::index::build_index;
use cfi_search::index::ParagraphRecord;
use cfi_search::locate::search_query;

#[test]
fn diverging_paths_share_their_common_prefix() {
    let descriptor = format_epub_cfi("/6/42/4/132/4/1", "/6/42/4/134/5", 261, 135);
    assert_eq!(descriptor, "epubcfi(/6/42/4,/132/4/1:261,/134/1:135)");
}

#[test]
fn identical_paths_reduce_to_bare_offsets() {
    let descriptor = format_epub_cfi("/a/b/1", "/a/b/1", 5, 7);
    assert_eq!(descriptor, "epubcfi(/a/b,/1:5,/1:7)");
}

#[test]
fn trailing_offset_annotations_are_discarded() {
    let descriptor = format_epub_cfi("/a/b/3:17", "/a/c/9:4", 1, 2);
    assert_eq!(descriptor, "epubcfi(/a,/b/1:1,/c/1:2)");
}

#[test]
fn paths_without_any_shared_prefix_keep_their_full_paths() {
    let descriptor = format_epub_cfi("/x/1/2", "/y/3/4", 0, 9);
    assert_eq!(descriptor, "epubcfi(,/x/1/1:0,/y/3/1:9)");
}

#[test]
fn paths_without_separators_sanitize_to_empty() {
    let descriptor = format_epub_cfi("ab", "ab", 1, 2);
    assert_eq!(descriptor, "epubcfi(,/1:1,/1:2)");
}

#[test]
fn multi_digit_offsets_render_in_decimal() {
    let descriptor = format_epub_cfi("/a/b/1", "/a/b/1", 0, 120034);
    assert_eq!(descriptor, "epubcfi(/a/b,/1:0,/1:120034)");
}

#[test]
fn located_match_round_trips_into_a_descriptor() {
    let records = vec![
        ParagraphRecord {
            raw_text: Some("Hello ".to_string()),
            location: Some("/a/b".to_string()),
        },
        ParagraphRecord {
            raw_text: Some("world".to_string()),
            location: Some("/a/c".to_string()),
        },
    ];
    let idx = build_index(&records);
    let result = search_query(
        "lowor",
        &idx.buffer,
        &idx.entries,
        &idx.raw_texts,
        &idx.locations,
    )
    .expect("query present");
    let descriptor = format_epub_cfi(
        &result.start_cfi,
        &result.end_cfi,
        result.start_offset_in_paragraph,
        result.end_offset_in_paragraph,
    );
    assert_eq!(descriptor, "epubcfi(/a,/1:3,/1:3)");
}
