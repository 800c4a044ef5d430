use mdview::document::{Block, BlockKind, Document, HeadingLevel, InlineSpan};
use mdview::layout::SemanticPosition;
use mdview::links::{
    fragment_targets, github_heading_slug, link_target_at_position, looks_like_relative_path,
    unique_heading_slug, SlugCount,
};

fn chars(text: &str) -> Vec<char> {
    text.chars().collect()
}

fn text(chars: &[char]) -> String {
    chars.iter().collect()
}

#[test]
fn heading_slugs_follow_github() {
    assert_eq!(text(&github_heading_slug(&chars("Hello, World!"))), "hello-world");
    assert_eq!(text(&github_heading_slug(&chars("Über Cool"))), "über-cool");
    assert_eq!(text(&github_heading_slug(&chars("a_b-c (d)"))), "a_b-c-d");
    assert_eq!(text(&github_heading_slug(&chars("Tabs\tand  spaces"))), "tabs-and--spaces");
}

#[test]
fn repeated_headings_get_numbered_slugs() {
    let mut counts: Vec<SlugCount> = Vec::new();
    assert_eq!(text(&unique_heading_slug(&chars("intro"), &mut counts)), "intro");
    assert_eq!(text(&unique_heading_slug(&chars("intro"), &mut counts)), "intro-1");
    assert_eq!(text(&unique_heading_slug(&chars("intro"), &mut counts)), "intro-2");
    assert_eq!(text(&unique_heading_slug(&chars("intro-1"), &mut counts)), "intro-1-1");
    assert_eq!(text(&unique_heading_slug(&chars("other"), &mut counts)), "other");
}

#[test]
fn relative_paths_are_told_apart_from_schemes_and_fragments() {
    assert!(looks_like_relative_path(&chars("./a.md")));
    assert!(looks_like_relative_path(&chars("../a.md")));
    assert!(looks_like_relative_path(&chars("/abs/a.md")));
    assert!(looks_like_relative_path(&chars("docs/a.md")));
    assert!(!looks_like_relative_path(&chars("#top")));
    assert!(!looks_like_relative_path(&chars("https://example.com")));
    assert!(!looks_like_relative_path(&chars("mailto:a@b.c")));
}

fn heading(level: HeadingLevel, text: &str) -> Block {
    Block::new(BlockKind::Heading(level), vec![InlineSpan::plain(text)])
}

fn linked(text: &str, target: &str) -> InlineSpan {
    let mut span = InlineSpan::plain(text);
    span.link_target = Some(target.to_owned());
    span
}

#[test]
fn fragment_targets_cover_headings_and_footnotes() {
    let document = Document::new(vec![
        heading(HeadingLevel::H1, "Intro"),
        heading(HeadingLevel::H2, "Intro"),
        Block::new(BlockKind::Paragraph, vec![InlineSpan::plain("see "), linked("1", "#fn-Note")]),
        Block::new(BlockKind::Paragraph, vec![linked("↩", "#fnref-note")]),
    ]);
    let targets = fragment_targets(&document);
    let found: Vec<(String, SemanticPosition)> =
        targets.iter().map(|target| (text(&target.key), target.position)).collect();
    assert_eq!(
        found,
        vec![
            ("intro".to_owned(), SemanticPosition { block: 0, grapheme: 0 }),
            ("intro-1".to_owned(), SemanticPosition { block: 1, grapheme: 0 }),
            ("fnref-note".to_owned(), SemanticPosition { block: 2, grapheme: 4 }),
            ("fn-note".to_owned(), SemanticPosition { block: 3, grapheme: 0 }),
        ]
    );
}

#[test]
fn the_link_under_a_position_is_found_by_grapheme() {
    let document = Document::new(vec![Block::new(
        BlockKind::Paragraph,
        vec![InlineSpan::plain("go "), linked("here", "https://example.com"), InlineSpan::plain("!")],
    )]);
    let at = |grapheme| link_target_at_position(&document, SemanticPosition { block: 0, grapheme });
    assert_eq!(at(0), None);
    assert_eq!(at(3), Some("https://example.com".to_owned()));
    assert_eq!(at(6), Some("https://example.com".to_owned()));
    assert_eq!(at(7), None);
    assert_eq!(link_target_at_position(&document, SemanticPosition { block: 5, grapheme: 0 }), None);
}
