use mdview::document::{Block, BlockKind, Document, InlineSpan};
use mdview::layout::{layout, SemanticPosition};

fn doc(paragraphs: &[&str]) -> Document {
    Document::new(
        paragraphs
            .iter()
            .map(|text| Block::new(BlockKind::Paragraph, vec![InlineSpan::plain(text)]))
            .collect(),
    )
}

fn texts(document: &Document, width: u16) -> Vec<String> {
    layout(document, width).rows().iter().map(|row| row.text()).collect()
}

#[test]
fn paragraphs_wrap_between_words() {
    assert_eq!(texts(&doc(&["alpha beta gamma"]), 11), vec!["alpha beta", "gamma"]);
    assert_eq!(texts(&doc(&["alpha beta gamma"]), 16), vec!["alpha beta gamma"]);
    assert_eq!(texts(&doc(&["alpha beta gamma"]), 5), vec!["alpha", "beta", "gamma"]);
}

#[test]
fn a_word_wider_than_the_pane_is_broken_between_graphemes() {
    assert_eq!(texts(&doc(&["abcdefgh"]), 3), vec!["abc", "def", "gh"]);
    assert_eq!(texts(&doc(&["界界"]), 3), vec!["界", "界"]);
}

#[test]
fn white_space_runs_show_as_one_space() {
    assert_eq!(texts(&doc(&["a   b"]), 10), vec!["a b"]);
}

#[test]
fn a_zero_width_pane_is_one_column_wide() {
    assert_eq!(texts(&doc(&["ab"]), 0), vec!["a", "b"]);
}

#[test]
fn each_block_starts_its_own_rows() {
    let rendered = layout(&doc(&["one", "two"]), 40);
    let rows = rendered.rows();
    assert_eq!(rows.len(), 2);
    assert_eq!(rows[0].block(), 0);
    assert_eq!(rows[1].block(), 1);
    assert_eq!(rows[1].text(), "two");
}

#[test]
fn cells_keep_their_semantic_positions() {
    let rendered = layout(&doc(&["alpha beta gamma"]), 11);
    let second = &rendered.rows()[1];
    let positions: Vec<SemanticPosition> = second.cells().iter().map(|cell| cell.position()).collect();
    assert_eq!(
        positions,
        (11..16).map(|grapheme| SemanticPosition { block: 0, grapheme }).collect::<Vec<_>>()
    );
    assert_eq!(rendered.first_position(), Some(SemanticPosition { block: 0, grapheme: 0 }));
    assert_eq!(rendered.last_position(), Some(SemanticPosition { block: 0, grapheme: 15 }));
    assert_eq!(rendered.row_for_position(SemanticPosition { block: 0, grapheme: 6 }), Some(0));
    assert_eq!(rendered.row_for_position(SemanticPosition { block: 0, grapheme: 13 }), Some(1));
    assert_eq!(rendered.row_for_position(SemanticPosition { block: 1, grapheme: 0 }), None);
    let location = rendered.cell_for_position(SemanticPosition { block: 0, grapheme: 13 }).unwrap();
    assert_eq!((location.row, location.column, location.width), (1, 2, 1));
}

#[test]
fn display_widths_count_terminal_columns() {
    let rendered = layout(&doc(&["alpha beta", "界a"]), 40);
    assert_eq!(rendered.rows()[0].display_width(), 10);
    assert_eq!(rendered.rows()[1].display_width(), 3);
    assert_eq!(rendered.rows()[1].cells()[0].width(), 2);
    assert!(rendered.rows()[0].cells()[0].is_navigable());
    assert!(!rendered.rows()[0].cells()[5].is_navigable());
    assert_eq!(rendered.rows()[0].cells()[5].symbol(), " ");
}

#[test]
fn nearest_position_prefers_the_cell_at_or_before_the_column() {
    let rendered = layout(&doc(&["ab cd"]), 40);
    assert_eq!(rendered.nearest_position(0, 3), Some(SemanticPosition { block: 0, grapheme: 3 }));
    assert_eq!(rendered.nearest_position(0, 2), Some(SemanticPosition { block: 0, grapheme: 1 }));
    assert_eq!(rendered.nearest_position(0, 99), Some(SemanticPosition { block: 0, grapheme: 4 }));
}

#[test]
fn every_visible_grapheme_keeps_exactly_one_cell_at_every_width() {
    let text = "  alpha  beta gamma 界界 delta-epsilon  ";
    let document = doc(&[text, "second  block"]);
    let mut expected = Vec::new();
    for (block, source) in [text, "second  block"].iter().enumerate() {
        for (grapheme, character) in source.chars().enumerate() {
            if !character.is_whitespace() {
                expected.push(SemanticPosition { block, grapheme });
            }
        }
    }
    for width in 0..30u16 {
        let rendered = layout(&document, width);
        let found: Vec<SemanticPosition> = rendered
            .rows()
            .iter()
            .flat_map(|row| row.cells().iter().filter(|cell| cell.is_navigable()).map(|cell| cell.position()))
            .collect();
        assert_eq!(found, expected, "width {width}");
    }
}

#[test]
fn rows_fit_the_pane_unless_one_grapheme_is_wider() {
    let document = doc(&["alpha beta gamma 界界 delta-epsilon zeta", "x y z"]);
    for width in 1..30u16 {
        let rendered = layout(&document, width);
        for row in rendered.rows() {
            assert!(!row.cells().is_empty(), "width {width}");
            assert!(row.cells().len() == 1 || row.display_width() <= usize::from(width), "width {width}: {}", row.text());
        }
    }
}
