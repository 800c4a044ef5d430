use mdview::copy::{ordered_endpoints, selected_text, SelectionMode};
use mdview::document::{Block, BlockKind, Document, InlineSpan};
use mdview::layout::{layout, SemanticPosition};

fn doc(paragraphs: &[&str]) -> Document {
    Document::new(
        paragraphs
            .iter()
            .map(|text| Block::new(BlockKind::Paragraph, vec![InlineSpan::plain(text)]))
            .collect(),
    )
}

fn pos(block: usize, grapheme: usize) -> SemanticPosition {
    SemanticPosition { block, grapheme }
}

#[test]
fn characterwise_copies_between_the_ends_in_either_order() {
    let document = doc(&["alpha beta", "gamma"]);
    let rendered = layout(&document, 40);
    assert_eq!(selected_text(&document, &rendered, SelectionMode::Characterwise, pos(0, 6), pos(0, 9)), "beta");
    assert_eq!(selected_text(&document, &rendered, SelectionMode::Characterwise, pos(0, 9), pos(0, 6)), "beta");
    assert_eq!(
        selected_text(&document, &rendered, SelectionMode::Characterwise, pos(0, 6), pos(1, 1)),
        "beta\nga"
    );
}

#[test]
fn rowwise_copies_whole_rows() {
    let document = doc(&["alpha beta", "gamma"]);
    let rendered = layout(&document, 40);
    assert_eq!(selected_text(&document, &rendered, SelectionMode::Row, pos(1, 2), pos(0, 3)), "alpha beta\ngamma");
    assert_eq!(selected_text(&document, &rendered, SelectionMode::Row, pos(0, 3), pos(0, 3)), "alpha beta");
}

#[test]
fn endpoints_are_put_in_document_order() {
    assert_eq!(ordered_endpoints(pos(1, 0), pos(0, 5)), (pos(0, 5), pos(1, 0)));
    assert_eq!(ordered_endpoints(pos(0, 2), pos(0, 5)), (pos(0, 2), pos(0, 5)));
}
