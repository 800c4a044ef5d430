use mdview::clipboard::{ClipboardMethod, ClipboardResult};
use mdview::browser::BrowserResult;
use mdview::copy::SelectionMode;
use mdview::document::{Block, BlockKind, Document, HeadingLevel, InlineSpan};
use mdview::layout::SemanticPosition;
use mdview::session::{Command, Effect, KeyCode, KeyInput, PaneFocus, ReadingSession};
use mdview::source::{SourceError, SourceErrorKind};

fn paragraph(text: &str) -> Block {
    Block::new(BlockKind::Paragraph, vec![InlineSpan::plain(text)])
}

fn heading(level: HeadingLevel, text: &str) -> Block {
    Block::new(BlockKind::Heading(level), vec![InlineSpan::plain(text)])
}

fn link(text: &str, target: &str) -> InlineSpan {
    let mut span = InlineSpan::plain(text);
    span.link_target = Some(target.to_owned());
    span
}

fn sample() -> Document {
    Document::new(vec![
        heading(HeadingLevel::H1, "Title"),
        paragraph("alpha beta"),
        heading(HeadingLevel::H2, "Sub"),
        paragraph("gamma"),
    ])
}

fn pos(block: usize, grapheme: usize) -> SemanticPosition {
    SemanticPosition { block, grapheme }
}

fn press(session: &mut ReadingSession, keys: &str) {
    for c in keys.chars() {
        session.key(KeyInput::plain(KeyCode::Char(c)), 100, 30);
    }
}

fn plain(session: &mut ReadingSession, code: KeyCode) {
    session.key(KeyInput::plain(code), 100, 30);
}

#[test]
fn session_starts_at_the_first_position_with_the_outline_on_the_first_heading() {
    let session = ReadingSession::new(sample());
    assert_eq!(session.cursor(), Some(pos(0, 0)));
    assert_eq!(session.outline_selection(), Some(pos(0, 0)));
    assert_eq!(session.current_section(), Some(pos(0, 0)));
    assert_eq!(session.focus(), PaneFocus::Document);
    assert_eq!(session.viewport(), 0);
    assert!(!session.has_quit());
}

#[test]
fn q_and_the_quit_command_end_the_session() {
    let mut session = ReadingSession::new(sample());
    press(&mut session, "q");
    assert!(session.has_quit());
    let mut other = ReadingSession::new(sample());
    other.command(Command::Quit);
    assert!(other.has_quit());
    let mut third = ReadingSession::new(sample());
    third.key(KeyInput::control('c'), 100, 30);
    assert!(third.has_quit());
}

#[test]
fn motions_move_the_cursor_and_follow_the_section() {
    let mut session = ReadingSession::new(sample());
    press(&mut session, "j");
    assert_eq!(session.cursor(), Some(pos(1, 0)));
    press(&mut session, "l");
    assert_eq!(session.cursor(), Some(pos(1, 1)));
    press(&mut session, "w");
    assert_eq!(session.cursor(), Some(pos(1, 6)));
    press(&mut session, "$");
    assert_eq!(session.cursor(), Some(pos(1, 9)));
    press(&mut session, "0");
    assert_eq!(session.cursor(), Some(pos(1, 0)));
    press(&mut session, "G");
    assert_eq!(session.cursor(), Some(pos(3, 4)));
    assert_eq!(session.current_section(), Some(pos(2, 0)));
    press(&mut session, "gg");
    assert_eq!(session.cursor(), Some(pos(0, 0)));
}

#[test]
fn counts_repeat_motions() {
    let mut session = ReadingSession::new(sample());
    press(&mut session, "3j");
    assert_eq!(session.cursor(), Some(pos(3, 0)));
    press(&mut session, "2k");
    assert_eq!(session.cursor(), Some(pos(1, 0)));
    press(&mut session, "3l");
    assert_eq!(session.cursor(), Some(pos(1, 3)));
}

#[test]
fn characterwise_selection_is_copied_as_rendered_text() {
    let mut session = ReadingSession::new(sample());
    press(&mut session, "jv4l");
    assert_eq!(session.selection_mode(), Some(SelectionMode::Characterwise));
    assert_eq!(session.selection_anchor(), Some(pos(1, 0)));
    assert!(session.selection_contains(pos(1, 2), 100));
    assert!(!session.selection_contains(pos(1, 5), 100));
    press(&mut session, "y");
    assert_eq!(session.selection_mode(), None);
    assert_eq!(session.drain_effects(), vec![Effect::WriteClipboard("alpha".to_owned())]);
    assert_eq!(session.drain_effects(), Vec::<Effect>::new());
}

#[test]
fn escape_cancels_a_selection() {
    let mut session = ReadingSession::new(sample());
    press(&mut session, "V");
    assert_eq!(session.selection_mode(), Some(SelectionMode::Row));
    plain(&mut session, KeyCode::Esc);
    assert_eq!(session.selection_mode(), None);
    assert!(!session.is_selected(pos(0, 0), 100));
}

#[test]
fn search_moves_to_the_next_match_and_wraps() {
    let mut session = ReadingSession::new(sample());
    press(&mut session, "/beta");
    assert_eq!(session.status_text(), Some("/beta".to_owned()));
    plain(&mut session, KeyCode::Enter);
    assert_eq!(session.cursor(), Some(pos(1, 6)));
    assert!(session.is_search_match(pos(1, 6)));
    assert!(session.is_search_match(pos(1, 9)));
    assert!(!session.is_search_match(pos(1, 0)));
    press(&mut session, "n");
    assert_eq!(session.cursor(), Some(pos(1, 6)));
}

#[test]
fn a_search_without_matches_reports_it() {
    let mut session = ReadingSession::new(sample());
    press(&mut session, "/zzz");
    plain(&mut session, KeyCode::Enter);
    assert_eq!(session.status_text(), Some("Pattern not found: zzz".to_owned()));
    assert_eq!(session.cursor(), Some(pos(0, 0)));
}

#[test]
fn escape_abandons_the_search_prompt() {
    let mut session = ReadingSession::new(sample());
    press(&mut session, "/be");
    plain(&mut session, KeyCode::Backspace);
    assert_eq!(session.status_text(), Some("/b".to_owned()));
    plain(&mut session, KeyCode::Esc);
    assert_eq!(session.status_text(), None);
    assert_eq!(session.cursor(), Some(pos(0, 0)));
}

#[test]
fn fragment_links_jump_and_the_jump_history_returns() {
    let document = Document::new(vec![
        Block::new(BlockKind::Paragraph, vec![link("see", "#sub-part")]),
        paragraph("filler"),
        heading(HeadingLevel::H2, "Sub Part"),
    ]);
    let mut session = ReadingSession::new(document);
    assert_eq!(session.status_text(), Some("#sub-part".to_owned()));
    press(&mut session, "gx");
    assert_eq!(session.cursor(), Some(pos(2, 0)));
    session.key(KeyInput::control('o'), 100, 30);
    assert_eq!(session.cursor(), Some(pos(0, 0)));
    session.key(KeyInput::control('i'), 100, 30);
    assert_eq!(session.cursor(), Some(pos(2, 0)));
}

#[test]
fn web_links_ask_for_the_browser_and_other_links_are_reported() {
    let document = Document::new(vec![
        Block::new(BlockKind::Paragraph, vec![link("web", "https://example.com")]),
        Block::new(BlockKind::Paragraph, vec![link("doc", "./other.md")]),
        Block::new(BlockKind::Paragraph, vec![link("mail", "mailto:a@b.c")]),
        Block::new(BlockKind::Paragraph, vec![link("gone", "#missing")]),
    ]);
    let mut session = ReadingSession::new(document);
    press(&mut session, "gx");
    assert_eq!(session.drain_effects(), vec![Effect::OpenBrowser("https://example.com".to_owned())]);
    session.report_browser_result(BrowserResult::Failed("no launcher".to_owned()));
    assert_eq!(session.status_text(), Some("Browser failed: no launcher".to_owned()));
    press(&mut session, "jgx");
    assert_eq!(session.status_text(), Some("Relative links cannot be opened".to_owned()));
    press(&mut session, "jgx");
    assert_eq!(session.status_text(), Some("Unsupported link scheme: mailto:a@b.c".to_owned()));
    press(&mut session, "jgx");
    assert_eq!(session.status_text(), Some("Target not found: #missing".to_owned()));
}

#[test]
fn reload_needs_a_source() {
    let mut session = ReadingSession::new(sample());
    press(&mut session, "r");
    assert_eq!(
        session.status_text(),
        Some("Reload unavailable: standard-input Documents cannot be reloaded".to_owned())
    );
    let mut backed = ReadingSession::with_source(sample(), "notes.md".to_owned());
    press(&mut backed, "r");
    assert_eq!(backed.drain_effects(), vec![Effect::ReloadDocument("notes.md".to_owned())]);
}

#[test]
fn reload_keeps_the_reading_position_of_an_unchanged_document() {
    let mut session = ReadingSession::with_source(sample(), "notes.md".to_owned());
    press(&mut session, "3jl");
    assert_eq!(session.cursor(), Some(pos(3, 1)));
    session.report_reload_result(Ok(sample()), 100, 30);
    assert_eq!(session.cursor(), Some(pos(3, 1)));
    assert_eq!(session.status_text(), Some("Reloaded".to_owned()));
}

#[test]
fn reload_failures_are_reported() {
    let mut session = ReadingSession::with_source(sample(), "notes.md".to_owned());
    let error = SourceError { path: "notes.md".to_owned(), kind: SourceErrorKind::Read("gone".to_owned()) };
    session.report_reload_result(Err(error), 100, 30);
    assert_eq!(session.status_text(), Some("Reload failed: cannot read \"notes.md\": gone".to_owned()));
}

#[test]
fn clipboard_outcomes_are_reported() {
    let mut session = ReadingSession::new(sample());
    session.report_clipboard_result(ClipboardResult::Copied(ClipboardMethod::Osc52));
    assert_eq!(session.status_text(), Some("Copied".to_owned()));
    session.report_clipboard_result(ClipboardResult::Failed(String::new()));
    assert_eq!(session.status_text(), Some("Copy failed".to_owned()));
    session.report_clipboard_result(ClipboardResult::Failed("no tty".to_owned()));
    assert_eq!(session.status_text(), Some("Copy failed: no tty".to_owned()));
}

#[test]
fn the_outline_takes_focus_and_jumps_to_a_heading() {
    let mut session = ReadingSession::new(sample());
    session.key(KeyInput::control('w'), 100, 30);
    press(&mut session, "h");
    assert_eq!(session.focus(), PaneFocus::Outline);
    press(&mut session, "j");
    assert_eq!(session.outline_selection(), Some(pos(2, 0)));
    assert_eq!(session.status_text(), Some("Sub".to_owned()));
    plain(&mut session, KeyCode::Enter);
    assert_eq!(session.focus(), PaneFocus::Document);
    assert_eq!(session.cursor(), Some(pos(2, 0)));
}

#[test]
fn collapsing_a_branch_hides_its_children() {
    let mut session = ReadingSession::new(sample());
    assert_eq!(session.visible_outline_indices(), vec![0, 1]);
    session.key(KeyInput::control('w'), 100, 30);
    press(&mut session, "h");
    press(&mut session, "h");
    assert_eq!(session.outline_branch_state(0), mdview::session::OutlineBranchState::Collapsed);
    assert_eq!(session.visible_outline_indices(), vec![0]);
    press(&mut session, "l");
    assert_eq!(session.visible_outline_indices(), vec![0, 1]);
}

#[test]
fn the_outline_pane_takes_a_third_of_a_wide_screen() {
    let session = ReadingSession::new(sample());
    let wide = session.pane_layout(100);
    assert_eq!((wide.outline_width, wide.document_x, wide.document_width), (33, 34, 66));
    let narrow = session.pane_layout(40);
    assert_eq!((narrow.outline_width, narrow.document_x, narrow.document_width), (0, 0, 40));
    let huge = session.pane_layout(200);
    assert_eq!((huge.outline_width, huge.document_x, huge.document_width), (40, 41, 159));
    assert!(session.outline_is_visible(49));
    assert!(!session.outline_is_visible(48));
}

#[test]
fn toggling_the_outline_hides_it_and_returns_focus_to_the_document() {
    let mut session = ReadingSession::new(sample());
    session.key(KeyInput::control('w'), 100, 30);
    press(&mut session, "h");
    press(&mut session, "o");
    assert!(!session.outline_is_visible(100));
    assert_eq!(session.focus(), PaneFocus::Document);
}

#[test]
fn help_opens_and_closes() {
    let mut session = ReadingSession::new(sample());
    press(&mut session, "?");
    assert!(session.help_open());
    press(&mut session, "j");
    assert_eq!(session.cursor(), Some(pos(0, 0)));
    press(&mut session, "?");
    assert!(!session.help_open());
    press(&mut session, "?");
    plain(&mut session, KeyCode::Esc);
    assert!(!session.help_open());
}

#[test]
fn the_status_line_leaves_one_row_less_for_content() {
    let mut session = ReadingSession::new(sample());
    assert_eq!(session.content_height(30), 30);
    press(&mut session, "/");
    assert_eq!(session.content_height(30), 29);
    assert_eq!(session.content_height(0), 0);
}

#[test]
fn the_viewport_follows_the_cursor() {
    let blocks: Vec<Block> = (0..40).map(|i| paragraph(&format!("line {i}"))).collect();
    let mut session = ReadingSession::new(Document::new(blocks));
    session.key(KeyInput::plain(KeyCode::Char('G')), 80, 10);
    assert_eq!(session.cursor(), Some(pos(39, 6)));
    assert_eq!(session.viewport(), 30);
    session.key(KeyInput::control('y'), 80, 10);
    assert_eq!(session.viewport(), 29);
    session.key(KeyInput::control('e'), 80, 10);
    session.key(KeyInput::control('e'), 80, 10);
    assert_eq!(session.viewport(), 30);
    session.key(KeyInput::control('u'), 80, 10);
    assert_eq!(session.cursor(), Some(pos(34, 6)));
}

#[test]
fn highlighting_is_requested_for_code_blocks_near_the_viewport() {
    let mut code = Block::new(BlockKind::Code, vec![InlineSpan::plain("fn main() {}")]);
    code.language = Some("rust".to_owned());
    let plain_code = Block::new(BlockKind::Code, vec![InlineSpan::plain("text")]);
    let session = ReadingSession::new(Document::new(vec![paragraph("intro"), code, plain_code]));
    assert_eq!(session.highlight_requests(80, 10), vec![1]);
}

#[test]
fn collapsing_keeps_the_selection_on_a_shown_entry() {
    let mut session = ReadingSession::new(sample());
    session.key(KeyInput::control('w'), 100, 30);
    press(&mut session, "h");
    press(&mut session, "j");
    assert_eq!(session.outline_selection(), Some(pos(2, 0)));
    press(&mut session, "k");
    press(&mut session, "h");
    assert_eq!(session.visible_outline_indices(), vec![0]);
    assert_eq!(session.outline_selection(), Some(pos(0, 0)));
}

#[test]
fn the_outline_follows_the_current_section() {
    let mut session = ReadingSession::new(sample());
    press(&mut session, "G");
    assert_eq!(session.current_section(), Some(pos(2, 0)));
    press(&mut session, "gg");
    assert_eq!(session.current_section(), Some(pos(0, 0)));
}
