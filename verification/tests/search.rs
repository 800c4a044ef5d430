use mdview::document::{Block, BlockKind, Document, InlineSpan};
use mdview::layout::SemanticPosition;
use mdview::search::{find_matches, literal_match_ranges};

fn doc(text: &str) -> Document {
    Document::new(vec![Block::new(BlockKind::Paragraph, vec![InlineSpan::plain(text)])])
}

fn starts(document: &Document, query: &str) -> Vec<SemanticPosition> {
    find_matches(document, query).iter().map(|found| found.start).collect()
}

#[test]
fn lowercase_queries_ignore_case() {
    let document = doc("alpha Alpha ALPHA");
    assert_eq!(
        starts(&document, "alpha"),
        vec![
            SemanticPosition { block: 0, grapheme: 0 },
            SemanticPosition { block: 0, grapheme: 6 },
            SemanticPosition { block: 0, grapheme: 12 },
        ]
    );
}

#[test]
fn queries_with_uppercase_match_exactly() {
    let document = doc("alpha Alpha ALPHA");
    assert_eq!(starts(&document, "Alpha"), vec![SemanticPosition { block: 0, grapheme: 6 }]);
    assert!(starts(&document, "aLPHA").is_empty());
}

#[test]
fn a_match_highlights_each_of_its_graphemes() {
    let document = doc("one two");
    let found = find_matches(&document, "two");
    assert_eq!(found.len(), 1);
    assert_eq!(
        found[0].positions,
        (4..7).map(|grapheme| SemanticPosition { block: 0, grapheme }).collect::<Vec<_>>()
    );
}

#[test]
fn byte_ranges_of_literal_matches() {
    assert_eq!(literal_match_ranges("Hello hello", "hello"), vec![0..5, 6..11]);
    assert_eq!(literal_match_ranges("Hello hello", "Hello"), vec![0..5]);
    assert_eq!(literal_match_ranges("aaaa", "aa"), vec![0..4]);
    assert_eq!(literal_match_ranges("héllo", "llo"), vec![3..6]);
    assert_eq!(literal_match_ranges("text", ""), Vec::<std::ops::Range<usize>>::new());
}

#[test]
fn match_ranges_are_increasing_and_merged_where_they_touch() {
    assert_eq!(literal_match_ranges("aaaa", "aa"), vec![0..4]);
    assert_eq!(literal_match_ranges("ab ab", "ab"), vec![0..2, 3..5]);
    assert_eq!(literal_match_ranges("abab", "ab"), vec![0..4]);
}
