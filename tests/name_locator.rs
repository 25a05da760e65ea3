use document_symbols::highlight::{highlights_for_range, Chunk, Highlight, Snapshot};
use document_symbols::locator::highlights_from_buffer;
use document_symbols::outline::{apply_syntax_highlights, ByteRange, OutlineItem};
use document_symbols::position::{point_to_offset, Point};
use document_symbols::search::{bytes_equal, find_bytes, split_words};

const KEYWORD: u32 = 1;
const TYPE: u32 = 2;
const PUNCT: u32 = 3;

/// `impl<T> Trait<T> for Type {}` with its keywords, types and brackets styled.
fn impl_snapshot() -> Snapshot {
    let text = "impl<T> Trait<T> for Type {}";
    let chunks = vec![
        Chunk { len: 4, style: Some(KEYWORD) }, // impl
        Chunk { len: 1, style: Some(PUNCT) },   // <
        Chunk { len: 1, style: Some(TYPE) },    // T
        Chunk { len: 1, style: Some(PUNCT) },   // >
        Chunk { len: 1, style: None },          // space
        Chunk { len: 5, style: Some(TYPE) },    // Trait
        Chunk { len: 1, style: Some(PUNCT) },   // <
        Chunk { len: 1, style: Some(TYPE) },    // T
        Chunk { len: 1, style: Some(PUNCT) },   // >
        Chunk { len: 1, style: None },          // space
        Chunk { len: 3, style: Some(KEYWORD) }, // for
        Chunk { len: 1, style: None },          // space
        Chunk { len: 4, style: Some(TYPE) },    // Type
        Chunk { len: 3, style: None },          // " {}"
    ];
    Snapshot { text: text.as_bytes().to_vec(), chunks }
}

#[test]
fn name_not_verbatim_is_highlighted_word_by_word() {
    let snapshot = impl_snapshot();
    let name = b"impl Trait for Type".to_vec();
    let highlights = highlights_from_buffer(&name, 0, &snapshot, 0, 28, 0).expect("word highlights");
    assert_eq!(
        highlights,
        vec![
            Highlight { start: 0, end: 4, style: KEYWORD },
            Highlight { start: 5, end: 10, style: TYPE },
            Highlight { start: 11, end: 14, style: KEYWORD },
            Highlight { start: 15, end: 19, style: TYPE },
        ]
    );
}

#[test]
fn empty_name_has_no_highlights() {
    let snapshot = impl_snapshot();
    assert!(highlights_from_buffer(&Vec::new(), 0, &snapshot, 0, 28, 0).is_none());
}

#[test]
fn verbatim_name_is_highlighted_as_one_span_list() {
    let snapshot = impl_snapshot();
    let name = b"Trait<T>".to_vec();
    let highlights = highlights_from_buffer(&name, 2, &snapshot, 0, 28, 8).expect("verbatim highlights");
    assert_eq!(
        highlights,
        vec![
            Highlight { start: 2, end: 7, style: TYPE },
            Highlight { start: 7, end: 8, style: PUNCT },
            Highlight { start: 8, end: 9, style: TYPE },
            Highlight { start: 9, end: 10, style: PUNCT },
        ]
    );
}

#[test]
fn missing_words_are_skipped() {
    let snapshot = impl_snapshot();
    let name = b"impl Missing Type".to_vec();
    let highlights = highlights_from_buffer(&name, 0, &snapshot, 0, 28, 0).expect("partial highlights");
    assert_eq!(
        highlights,
        vec![Highlight { start: 0, end: 4, style: KEYWORD }, Highlight { start: 13, end: 17, style: TYPE }]
    );
    let none = b"nothing here".to_vec();
    assert!(highlights_from_buffer(&none, 0, &snapshot, 0, 28, 0).is_none());
}

#[test]
fn range_outside_snapshot_has_no_highlights() {
    let snapshot = impl_snapshot();
    assert!(highlights_from_buffer(&b"impl".to_vec(), 0, &snapshot, 0, 99, 0).is_none());
    assert!(highlights_from_buffer(&b"impl".to_vec(), 0, &snapshot, 10, 5, 0).is_none());
}

#[test]
fn projection_clips_chunks_to_range() {
    let snapshot = impl_snapshot();
    // from the middle of `Trait` into the middle of `for`
    let highlights = highlights_for_range(100, 10, 19, &snapshot).expect("styled");
    assert_eq!(
        highlights,
        vec![
            Highlight { start: 100, end: 103, style: TYPE },
            Highlight { start: 103, end: 104, style: PUNCT },
            Highlight { start: 104, end: 105, style: TYPE },
            Highlight { start: 105, end: 106, style: PUNCT },
            Highlight { start: 107, end: 109, style: KEYWORD },
        ]
    );
    assert!(highlights_for_range(0, 25, 28, &snapshot).is_none());
    assert!(highlights_for_range(0, 4, 4, &snapshot).is_none());
}

#[test]
fn apply_keeps_items_whose_name_is_not_found() {
    let snapshot = impl_snapshot();
    let make = |text: &str| OutlineItem {
        depth: 0,
        range: ByteRange { start: 0, end: 28 },
        source_range_for_text: ByteRange { start: 0, end: 4 },
        text: text.as_bytes().to_vec(),
        highlight_ranges: vec![Highlight { start: 0, end: 1, style: 9 }],
        body_range: None,
        annotation_range: None,
    };
    let mut items = vec![make("impl"), make("absent")];
    apply_syntax_highlights(&mut items, &snapshot);
    assert_eq!(items[0].highlight_ranges, vec![Highlight { start: 0, end: 4, style: KEYWORD }]);
    assert_eq!(items[1].highlight_ranges, vec![Highlight { start: 0, end: 1, style: 9 }]);
}

#[test]
fn positions_map_to_byte_offsets() {
    let text = "ab\nc\u{e9}d\n\u{1F600}x".as_bytes().to_vec();
    assert_eq!(point_to_offset(&text, Point { line: 0, character: 1 }), 1);
    assert_eq!(point_to_offset(&text, Point { line: 0, character: 9 }), 2);
    // `é` is two bytes and one UTF-16 unit
    assert_eq!(point_to_offset(&text, Point { line: 1, character: 2 }), 6);
    assert_eq!(point_to_offset(&text, Point { line: 1, character: 3 }), 7);
    // the emoji is four bytes and two UTF-16 units; its middle clips to its start
    assert_eq!(point_to_offset(&text, Point { line: 2, character: 1 }), 8);
    assert_eq!(point_to_offset(&text, Point { line: 2, character: 2 }), 12);
    // a line past the end clips to the end of the text
    assert_eq!(point_to_offset(&text, Point { line: 7, character: 0 }), text.len());
}

#[test]
fn words_are_split_on_ascii_whitespace() {
    assert_eq!(split_words(&b"  impl\tTrait  for\nType ".to_vec()), vec![(2, 6), (7, 12), (14, 17), (18, 22)]);
    assert!(split_words(&b"   ".to_vec()).is_empty());
    // no-break space, em space and ideographic space separate words too
    let name = "a\u{a0}b\u{2003}c\u{3000}d\u{e9}".as_bytes().to_vec();
    assert_eq!(split_words(&name), vec![(0, 1), (3, 4), (7, 8), (11, 14)]);
}

#[test]
fn search_finds_first_match_in_window() {
    let hay = b"abcabcab".to_vec();
    let needle = b"xcab".to_vec();
    assert_eq!(find_bytes(&hay, 0, 8, &needle, 1, 4), Some(2));
    assert_eq!(find_bytes(&hay, 3, 8, &needle, 1, 4), Some(5));
    assert_eq!(find_bytes(&hay, 3, 7, &needle, 1, 4), None);
    assert!(bytes_equal(&hay, &b"abcabcab".to_vec()));
    assert!(!bytes_equal(&hay, &b"abcabcaa".to_vec()));
}

#[test]
fn snapshot_chunks_must_cover_text() {
    assert!(Snapshot::new(b"abc".to_vec(), vec![Chunk { len: 1, style: None }, Chunk { len: 2, style: Some(1) }])
        .is_some());
    assert!(Snapshot::new(b"abc".to_vec(), vec![Chunk { len: 2, style: None }]).is_none());
    assert!(Snapshot::new(b"abc".to_vec(), vec![Chunk { len: 4, style: None }]).is_none());
}
