use mdview::document::{AlertKind, Block, BlockKind, Document, HeadingLevel, InlineSpan};
use mdview::layout::SemanticPosition;
use mdview::present::{cell_presentation, cell_style_at, marked_presentation, CellStyle, TermColor};

fn plain_style() -> CellStyle {
    CellStyle {
        heading_level: None,
        emphasis: false,
        strong: false,
        strikethrough: false,
        inline_code: false,
        link: false,
        thematic_break: false,
        table_header: false,
        highlight: None,
    }
}

#[test]
fn headings_keep_their_level_without_colour() {
    let h1 = CellStyle { heading_level: Some(HeadingLevel::H1), ..plain_style() };
    let colour = cell_presentation(h1, None, true);
    assert!(colour.bold && colour.underlined);
    assert_eq!(colour.fg, Some(TermColor::LightCyan));
    let mono = cell_presentation(h1, None, false);
    assert!(mono.bold && mono.underlined);
    assert_eq!(mono.fg, None);
    let h6 = cell_presentation(CellStyle { heading_level: Some(HeadingLevel::H6), ..plain_style() }, None, true);
    assert!(h6.dim && h6.italic && !h6.bold);
    assert_eq!(h6.fg, Some(TermColor::Cyan));
}

#[test]
fn inline_roles_and_alerts_have_their_own_look() {
    let code = cell_presentation(CellStyle { inline_code: true, ..plain_style() }, None, false);
    assert!(code.dim && code.underlined);
    let struck = cell_presentation(CellStyle { strikethrough: true, ..plain_style() }, None, false);
    assert!(struck.crossed_out);
    let link = cell_presentation(CellStyle { link: true, ..plain_style() }, Some(AlertKind::Warning), true);
    assert!(link.underlined);
    assert_eq!(link.fg, Some(TermColor::LightBlue));
    let warning = cell_presentation(plain_style(), Some(AlertKind::Warning), true);
    assert_eq!(warning.fg, Some(TermColor::Yellow));
}

#[test]
fn the_cursor_and_matches_stand_out_in_monochrome() {
    let base = cell_presentation(plain_style(), None, false);
    let cursor = marked_presentation(base, false, false, true, false);
    assert!(cursor.reversed && cursor.bold);
    let matched = marked_presentation(base, true, false, false, false);
    assert!(matched.underlined && matched.bold && !matched.reversed);
    let selected = marked_presentation(base, false, true, false, true);
    assert!(selected.reversed);
    assert_eq!(selected.bg, Some(TermColor::DarkGray));
}

#[test]
fn a_cell_takes_the_role_of_its_span() {
    let mut strong = InlineSpan::plain("bold");
    strong.style.strong = true;
    let document = Document::new(vec![
        Block::new(BlockKind::Paragraph, vec![InlineSpan::plain("a "), strong, InlineSpan::plain(" z")]),
        Block::new(BlockKind::Heading(HeadingLevel::H2), vec![InlineSpan::plain("Title")]),
    ]);
    let at = |block, grapheme| cell_style_at(&document, SemanticPosition { block, grapheme }, None);
    assert!(!at(0, 0).strong);
    assert!(at(0, 2).strong && at(0, 5).strong);
    assert!(!at(0, 7).strong);
    assert_eq!(at(1, 0).heading_level, Some(HeadingLevel::H2));
    assert_eq!(at(0, 0).heading_level, None);
}
