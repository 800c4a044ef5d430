use mdview::document::{Block, BlockKind, Document, HeadingLevel, InlineSpan, ListItem, ListMarker};
use mdview::layout::SemanticPosition;
use mdview::browser::BrowserResult;
use mdview::clipboard::{ClipboardMethod, ClipboardResult};
use mdview::copy::SelectionMode;
use mdview::session::{Effect, KeyCode, KeyInput, PaneFocus, ReadingSession};

/// A reader over plain paragraphs at a fixed terminal size.
struct Reader {
    session: ReadingSession,
    width: u16,
    height: u16,
}

/// A block written as Markdown would write it: `#`s before a heading.
fn block(line: &str) -> Block {
    let level = line.chars().take_while(|c| *c == '#').count();
    let levels = [
        HeadingLevel::H1,
        HeadingLevel::H2,
        HeadingLevel::H3,
        HeadingLevel::H4,
        HeadingLevel::H5,
        HeadingLevel::H6,
    ];
    if level > 0 && level <= 6 {
        Block::new(BlockKind::Heading(levels[level - 1]), vec![InlineSpan::plain(line[level..].trim_start())])
    } else {
        Block::new(BlockKind::Paragraph, vec![InlineSpan::plain(line)])
    }
}

fn text(text: &str) -> InlineSpan {
    InlineSpan::plain(text)
}

fn link(text: &str, target: &str) -> InlineSpan {
    let mut span = InlineSpan::plain(text);
    span.link_target = Some(target.to_owned());
    span
}

fn list_item(depth: usize, marker: ListMarker, line: &str) -> Block {
    let mut item = Block::new(BlockKind::Paragraph, vec![InlineSpan::plain(line)]);
    item.list_item = Some(ListItem { depth, marker, continuation: false });
    item
}

impl Reader {
    fn over_blocks(blocks: Vec<Block>, width: u16, height: u16) -> Reader {
        let mut session = ReadingSession::new(Document::new(blocks));
        session.resize(width, height);
        Reader { session, width, height }
    }

    /// A reader whose first block is a paragraph of the given spans,
    /// followed by the blocks that `lines` write.
    fn with_links(spans: Vec<InlineSpan>, lines: &[&str], width: u16, height: u16) -> Reader {
        let mut blocks = vec![Block::new(BlockKind::Paragraph, spans)];
        blocks.extend(lines.iter().map(|line| block(line)));
        let mut session = ReadingSession::new(Document::new(blocks));
        session.resize(width, height);
        Reader { session, width, height }
    }

    fn over(lines: &[&str], width: u16, height: u16) -> Reader {
        let blocks = lines.iter().map(|line| block(line)).collect();
        let mut session = ReadingSession::new(Document::new(blocks));
        session.resize(width, height);
        Reader { session, width, height }
    }

    fn control(&mut self, c: char) {
        self.session.key(KeyInput::control(c), self.width, self.height);
    }

    fn tab(&mut self) {
        self.session.key(KeyInput::plain(KeyCode::Tab), self.width, self.height);
    }

    fn keys(&mut self, keys: &str) {
        for c in keys.chars() {
            self.session.key(KeyInput::plain(KeyCode::Char(c)), self.width, self.height);
        }
    }

    fn enter(&mut self) {
        self.session.key(KeyInput::plain(KeyCode::Enter), self.width, self.height);
    }

    fn escape(&mut self) {
        self.session.key(KeyInput::plain(KeyCode::Esc), self.width, self.height);
    }

    /// Hands the requested effects out and reports each clipboard write
    /// with the given outcome, as the terminal loop does.
    fn take_effects(&mut self, clipboard: ClipboardResult) -> Vec<Effect> {
        let effects = self.session.drain_effects();
        for effect in &effects {
            if let Effect::WriteClipboard(_) = effect {
                self.session.report_clipboard_result(clipboard.clone());
            }
        }
        effects
    }

    fn resize(&mut self, width: u16, height: u16) {
        self.width = width;
        self.height = height;
        self.session.resize(width, height);
    }

    fn cursor(&self) -> Option<SemanticPosition> {
        self.session.cursor()
    }
}

fn at(block: usize, grapheme: usize) -> Option<SemanticPosition> {
    Some(SemanticPosition { block, grapheme })
}

#[test]
fn search_uses_unicode_smart_case_and_repeated_navigation_wraps() {
    let mut reader = Reader::over(&["CAFÉ", "café", "Café"], 24, 4);

    reader.keys("/café");
    reader.enter();
    assert_eq!(reader.cursor(), at(1, 0));

    reader.keys("n");
    assert_eq!(reader.cursor(), at(2, 0));
    reader.keys("n");
    assert_eq!(reader.cursor(), at(0, 0));
    reader.keys("N");
    assert_eq!(reader.cursor(), at(2, 0));

    reader.keys("/CAFÉ");
    reader.enter();
    assert_eq!(reader.cursor(), at(0, 0), "uppercase in the query makes matching case-sensitive");
}

#[test]
fn repeated_matches_within_one_block_are_independently_navigable() {
    let mut reader = Reader::over(&["target x target x target"], 32, 3);

    reader.keys("/target");
    reader.enter();
    assert_eq!(reader.cursor().map(|position| position.grapheme), Some(9));

    reader.keys("n");
    assert_eq!(reader.cursor().map(|position| position.grapheme), Some(18));
    reader.keys("n");
    assert_eq!(reader.cursor().map(|position| position.grapheme), Some(0));
    reader.keys("N");
    assert_eq!(reader.cursor().map(|position| position.grapheme), Some(18));
}

#[test]
fn search_matches_across_a_soft_wrap_and_after_resize() {
    let mut reader = Reader::over(&["alpha beta gamma delta", "filler", "alpha beta gamma delta"], 9, 3);
    reader.keys("G");

    reader.keys("/beta gamma");
    reader.enter();
    assert_eq!(reader.cursor(), at(0, 6));

    reader.resize(18, 4);
    assert_eq!(reader.cursor(), at(0, 6));
    assert!(reader.session.is_search_match(SemanticPosition { block: 0, grapheme: 6 }));

    reader.keys("n");
    assert_eq!(reader.cursor(), at(2, 6));
}

#[test]
fn lowercase_queries_use_full_unicode_case_folding() {
    let mut reader = Reader::over(&["STRASSE", "Straße"], 24, 3);

    reader.keys("/strasse");
    reader.enter();

    assert_eq!(reader.cursor(), at(1, 0));
}

#[test]
fn l_moves_over_a_combining_sequence_as_one_position() {
    let mut reader = Reader::over(&["a e\u{301} 界 👨\u{200d}👩\u{200d}👧\u{200d}👦 z"], 24, 4);

    reader.keys("l");
    assert_eq!(reader.cursor(), at(0, 2), "combining sequence is one Reading Cursor position");
}

#[test]
fn counted_j_and_k_follow_wrapped_rows() {
    let mut reader = Reader::over(&["one two three four five six"], 9, 3);

    reader.keys("2j");
    assert_eq!(reader.cursor(), at(0, 14), "two rows down lands on the first grapheme of 'four'");

    reader.keys("k");
    assert_eq!(reader.cursor(), at(0, 8));
}

#[test]
fn counted_row_targets_skip_decorative_spacing() {
    let mut reader = Reader::over(&["first", "second", "third"], 40, 5);

    reader.keys("2gg");
    assert_eq!(reader.cursor(), at(1, 0), "counted document-row motion skips block spacing");

    reader.keys("gg2$");
    assert_eq!(reader.cursor(), at(1, 5), "counted row-end motion skips block spacing");

    reader.keys("gg2G");
    assert_eq!(reader.cursor(), at(1, 0), "counted G motion skips block spacing");
}

#[test]
fn horizontal_motion_crosses_soft_wrap_boundaries() {
    let mut reader = Reader::over(&["one two three"], 7, 2);

    reader.keys("6l");
    assert_eq!(reader.cursor(), at(0, 8), "the next grapheme remains reachable after a soft wrap");
    reader.keys("h");
    assert_eq!(reader.cursor(), at(0, 6));
}

#[test]
fn resize_keeps_the_semantic_cursor() {
    let mut reader = Reader::over(&["zero one two three four five six seven eight nine ten"], 60, 3);
    reader.keys("25l");
    let position = reader.cursor();

    reader.resize(9, 3);

    assert_eq!(reader.cursor(), position);
}

#[test]
fn l_skips_word_separators_and_resize_keeps_the_cursor() {
    let mut reader = Reader::over(&["one two three"], 20, 2);
    reader.keys("3l");
    let first_letter_of_two = reader.cursor();

    reader.resize(7, 2);

    assert_eq!(first_letter_of_two, at(0, 4), "horizontal motion skips the rendered separator");
    assert_eq!(reader.cursor(), first_letter_of_two);
}

#[test]
fn word_line_document_and_paragraph_motions_use_semantic_content() {
    let mut reader = Reader::over(&["alpha beta gamma", "second paragraph", "last"], 40, 4);

    reader.keys("2w");
    assert_eq!(reader.cursor().expect("cursor").grapheme, 11);
    reader.keys("b");
    assert_eq!(reader.cursor().expect("cursor").grapheme, 6);
    reader.keys("w");
    assert_eq!(reader.cursor().expect("cursor").grapheme, 11);

    reader.keys("$");
    assert_eq!(reader.cursor().expect("cursor").grapheme, 15);
    reader.keys("0");
    assert_eq!(reader.cursor().expect("cursor").grapheme, 0);

    reader.keys("}");
    assert_eq!(reader.cursor(), at(1, 0));
    reader.keys("{");
    assert_eq!(reader.cursor(), at(0, 0));
    reader.keys("}");
    reader.keys("G");
    assert_eq!(reader.cursor(), at(2, 3));
    reader.keys("{");
    assert_eq!(reader.cursor(), at(1, 0), "paragraph-backward stops at the immediately preceding paragraph");
    reader.keys("gg");
    assert_eq!(reader.cursor(), at(0, 0));
}

#[test]
fn word_motion_stops_at_the_first_grapheme_of_the_next_paragraph() {
    let mut reader = Reader::over(&["alpha", "beta"], 40, 3);

    reader.keys("w");

    assert_eq!(reader.cursor(), at(1, 0));
}

#[test]
fn w_at_trailing_whitespace_stays_on_the_last_word() {
    let mut reader = Reader::over(&["word \u{2003}"], 20, 2);

    reader.keys("w");

    assert_eq!(reader.cursor(), at(0, 3));
}

#[test]
fn large_counts_clamp_at_document_ends() {
    let text = "word ".repeat(200);
    let mut reader = Reader::over(&[text.trim_end()], 10, 3);

    reader.keys("999j");
    let end = reader.cursor();
    reader.keys("999k");

    assert_ne!(reader.cursor(), end);
    assert_eq!(reader.cursor(), at(0, 0));
}

#[test]
fn characterwise_and_row_selection_start_from_the_reading_cursor() {
    let mut reader = Reader::over(&["alpha beta"], 20, 2);
    reader.keys("2l");
    let anchor = reader.cursor().expect("cursor");

    reader.keys("v");
    assert_eq!(reader.session.selection_mode(), Some(SelectionMode::Characterwise));
    assert_eq!(reader.session.selection_anchor(), Some(anchor));
    assert_eq!(reader.cursor(), Some(anchor));

    reader.escape();
    assert_eq!(reader.session.selection_mode(), None);
    assert_eq!(reader.cursor(), Some(anchor));

    reader.keys("V");
    assert_eq!(reader.session.selection_mode(), Some(SelectionMode::Row));
    assert_eq!(reader.session.selection_anchor(), Some(anchor));
}

#[test]
fn supported_motions_extend_an_active_selection() {
    let mut reader = Reader::over(&["one two three"], 20, 2);
    reader.keys("v2w");

    assert_eq!(reader.session.selection_mode(), Some(SelectionMode::Characterwise));
    assert_eq!(reader.session.selection_anchor(), at(0, 0));
    assert_eq!(reader.cursor(), at(0, 8));
    assert!(
        reader.session.selection_contains(SemanticPosition { block: 0, grapheme: 4 }, 20),
        "positions between the anchor and cursor remain selected"
    );
}

#[test]
fn yank_sends_the_rendered_text_and_reports_the_copy() {
    let mut reader = Reader::over(&["alpha beta gamma"], 24, 2);
    reader.keys("v4l");
    reader.keys("y");

    assert_eq!(reader.session.selection_mode(), None);
    assert_eq!(
        reader.take_effects(ClipboardResult::Copied(ClipboardMethod::Native)),
        vec![Effect::WriteClipboard("alpha".to_owned())]
    );
    assert!(reader.session.status_text().is_some_and(|status| status.contains("Copied")));
}

#[test]
fn clipboard_failure_reaches_the_status_line() {
    let mut reader = Reader::over(&["copy me"], 20, 2);
    reader.keys("Vy");

    assert_eq!(
        reader.take_effects(ClipboardResult::Failed("clipboard unavailable".into())),
        vec![Effect::WriteClipboard("copy me".to_owned())]
    );
    let status = reader.session.status_text().expect("failure feedback is visible");
    assert!(status.contains("clipboard unavailable") || status.contains("Copy failed"));
    assert_eq!(reader.session.selection_mode(), None);
}

#[test]
fn characterwise_selection_copies_unicode_grapheme_clusters() {
    let mut reader = Reader::over(&["a e\u{301} 界 z"], 20, 2);
    reader.keys("vly");
    assert_eq!(
        reader.take_effects(ClipboardResult::Copied(ClipboardMethod::Native)),
        vec![Effect::WriteClipboard("a e\u{301}".to_owned())]
    );
}

#[test]
fn outline_starts_on_the_first_heading_without_claiming_pre_heading_content() {
    let reader = Reader::over(&["Introduction.", "# Parent", "Parent body.", "### Deep child", "Child body.", "## Sibling"], 60, 10);

    assert_eq!(reader.session.current_section(), None);
    assert_eq!(reader.session.outline_selection(), at(1, 0));
    assert_eq!(reader.cursor(), at(0, 0));
}

#[test]
fn outline_focus_moves_the_selection_and_not_the_cursor() {
    let mut reader = Reader::over(&["# Parent", "Parent body.", "### Deep child", "Child body.", "## Sibling"], 60, 8);
    let cursor = reader.cursor();

    reader.control('w');
    reader.keys("h");
    assert_eq!(reader.session.focus(), PaneFocus::Outline);

    reader.keys("j");
    assert_eq!(reader.cursor(), cursor);
    assert_eq!(reader.session.current_section(), at(0, 0));
    assert_eq!(reader.session.outline_selection(), at(2, 0));

    reader.tab();
    assert_eq!(reader.session.focus(), PaneFocus::Outline);

    reader.control('w');
    reader.keys("l");
    assert_eq!(reader.session.focus(), PaneFocus::Document);

    reader.control('w');
    reader.keys("h");
    reader.escape();
    assert_eq!(reader.session.focus(), PaneFocus::Document);
}

#[test]
fn paragraph_motion_changes_the_section_and_not_the_outline_selection() {
    let mut reader =
        Reader::over(&["Introduction.", "# Parent", "Parent body.", "### Deep child", "Child body.", "## Sibling"], 60, 10);

    reader.keys("3}");

    assert_eq!(reader.session.current_section(), at(3, 0));
    assert_eq!(reader.session.outline_selection(), at(1, 0));
}

#[test]
fn activating_outline_selection_records_reversible_jump_history() {
    let mut reader = Reader::over(&["# Parent", "abcdefgh", "## Child", "Child body.", "### Grandchild"], 60, 8);
    reader.keys("}3l");
    let prior_location = at(1, 3);
    let child = at(2, 0);
    assert_eq!(reader.cursor(), prior_location);

    reader.control('w');
    reader.keys("h");
    reader.keys("j");
    reader.enter();

    assert_eq!(reader.session.focus(), PaneFocus::Document);
    assert_eq!(reader.cursor(), child);
    assert_eq!(reader.session.current_section(), child);
    assert_eq!(reader.session.outline_selection(), child);

    reader.control('o');
    assert_eq!(reader.cursor(), prior_location);
    reader.control('i');
    assert_eq!(reader.cursor(), child);

    reader.control('o');
    reader.tab();
    assert_eq!(reader.cursor(), child, "Tab carries the terminal encoding of Ctrl-i instead of changing pane focus");
}

#[test]
fn gx_jumps_to_in_document_heading_fragment_and_records_history() {
    let mut reader = Reader::with_links(
        vec![text("Jump to "), link("section", "#target-section"), text(".")],
        &["# Intro", "filler", "# Target Section", "body"],
        48,
        8,
    );
    let prior = at(0, 8);
    let target = at(3, 0);
    reader.keys("2w");
    assert_eq!(reader.cursor(), prior);

    reader.keys("gx");

    assert_eq!(reader.cursor(), target);
    assert_eq!(reader.session.current_section(), target);
    reader.control('o');
    assert_eq!(reader.cursor(), prior);
    reader.control('i');
    assert_eq!(reader.cursor(), target);
}

#[test]
fn duplicate_heading_fragments_are_disambiguated_compatibly() {
    let mut reader = Reader::with_links(
        vec![link("first", "#hello"), text(" "), link("second", "#hello-1")],
        &["# Hello", "# Hello"],
        48,
        6,
    );

    reader.keys("gx");
    assert_eq!(reader.cursor(), at(1, 0));

    reader.keys("gg");
    reader.keys("7l");
    reader.keys("gx");
    assert_eq!(reader.cursor(), at(2, 0));
}

#[test]
fn gx_on_http_link_requests_browser_effect_without_moving_cursor() {
    let mut reader =
        Reader::with_links(vec![text("Open "), link("site", "https://example.com/docs"), text(".")], &[], 40, 3);
    reader.keys("w");
    let prior = reader.cursor();

    reader.keys("gx");

    assert_eq!(reader.cursor(), prior);
    assert_eq!(
        reader.session.drain_effects(),
        vec![Effect::OpenBrowser("https://example.com/docs".to_owned())]
    );
}

#[test]
fn relative_and_other_schemes_ask_for_nothing() {
    let mut reader = Reader::with_links(
        vec![
            link("rel", "./other.md"),
            text(" "),
            link("mail", "mailto:a@b.c"),
            text(" "),
            link("js", "javascript:alert(1)"),
        ],
        &[],
        64,
        3,
    );

    for start in [0usize, 4, 9] {
        reader.keys("gg");
        if start > 0 {
            reader.keys(&"l".repeat(start));
        }
        let prior = reader.cursor();
        reader.keys("gx");
        assert_eq!(reader.cursor(), prior, "cursor moved for start {start}");
        assert!(reader.session.drain_effects().is_empty(), "effects requested for start {start}");
        assert_eq!(reader.session.focus(), PaneFocus::Document);
    }
}

#[test]
fn missing_fragments_and_browser_failures_reach_the_status_line() {
    let mut reader = Reader::with_links(vec![link("gone", "#no-such-heading")], &["# Present"], 40, 4);
    reader.keys("gx");
    assert_eq!(reader.cursor(), at(0, 0));
    let status = reader.session.status_text().expect("missing fragment status").to_lowercase();
    assert!(status.contains("not found") || status.contains("missing") || status.contains("no such"), "{status}");
    assert!(reader.session.drain_effects().is_empty());

    let mut reader = Reader::with_links(vec![link("site", "https://example.com")], &[], 40, 3);
    reader.keys("gx");
    assert_eq!(reader.session.drain_effects(), vec![Effect::OpenBrowser("https://example.com".to_owned())]);
    reader.session.report_browser_result(BrowserResult::Failed("launcher unavailable".to_owned()));
    let status = reader.session.status_text().expect("browser failure status").to_lowercase();
    assert!(status.contains("fail") || status.contains("unavailable") || status.contains("browser"), "{status}");
    assert_eq!(reader.cursor(), at(0, 0));
}

fn yanked(reader: &mut Reader) -> String {
    match reader.take_effects(ClipboardResult::Copied(ClipboardMethod::Native)).pop() {
        Some(Effect::WriteClipboard(text)) => text,
        other => panic!("expected clipboard effect, got {other:?}"),
    }
}

#[test]
fn yank_preserves_list_and_task_markers() {
    let mut reader = Reader::over_blocks(
        vec![
            list_item(1, ListMarker::Unordered, "item one"),
            list_item(1, ListMarker::Task { checked: true, number: None }, "done"),
        ],
        24,
        4,
    );

    reader.keys("Vy");
    assert_eq!(yanked(&mut reader), "• item one");

    reader.keys("jVy");
    assert_eq!(yanked(&mut reader), "☑ done");
}

#[test]
fn yank_preserves_nested_list_indentation() {
    let mut reader = Reader::over_blocks(
        vec![list_item(1, ListMarker::Unordered, "outer"), list_item(2, ListMarker::Unordered, "inner")],
        24,
        3,
    );
    reader.keys("jVy");
    assert_eq!(yanked(&mut reader), "  • inner");
}


#[test]
fn resize_keeps_the_selection_and_the_search() {
    let mut reader = Reader::over(&["one two three four", "five six"], 40, 8);
    reader.keys("/six");
    reader.enter();
    reader.keys("gg");
    reader.keys("v2w");
    let anchor = reader.session.selection_anchor();
    let cursor = reader.cursor();

    reader.resize(9, 8);

    assert_eq!(reader.session.selection_mode(), Some(SelectionMode::Characterwise));
    assert_eq!(reader.session.selection_anchor(), anchor);
    assert_eq!(reader.cursor(), cursor);
    assert!(reader.session.selection_contains(SemanticPosition { block: 0, grapheme: 4 }, 9));
    assert!(reader.session.is_search_match(SemanticPosition { block: 1, grapheme: 5 }));
}

#[test]
fn outline_toggle_changes_pane_visibility_without_moving_the_reading_cursor() {
    let mut reader = Reader::over(&["# Heading", "abcdefgh"], 60, 4);
    reader.keys("}3l");
    let cursor = reader.cursor();

    reader.keys("o");

    assert!(!reader.session.outline_is_visible(60));
    assert_eq!(reader.cursor(), cursor);

    reader.keys("o");

    assert!(reader.session.outline_is_visible(60));
    assert_eq!(reader.cursor(), cursor);
}

#[test]
fn outline_hides_on_a_narrow_screen_and_returns_when_wide() {
    let mut reader = Reader::over(&["# Heading", "abcdefghijklmnop"], 24, 4);
    reader.keys("}5l");
    let cursor = reader.cursor();

    assert!(!reader.session.outline_is_visible(24));

    reader.resize(60, 4);

    assert!(reader.session.outline_is_visible(60));
    assert_eq!(reader.cursor(), cursor);
}

#[test]
fn escape_restores_the_viewport_from_before_the_search_prompt() {
    let paragraphs: Vec<String> = (0..20).map(|index| format!("paragraph {index}")).collect();
    let lines: Vec<&str> = paragraphs.iter().map(String::as_str).collect();
    let mut reader = Reader::over(&lines, 20, 4);
    reader.keys("G");
    let viewport = reader.session.viewport();

    reader.keys("/unfinished");
    assert_ne!(reader.session.viewport(), viewport);
    reader.escape();

    assert_eq!(reader.session.viewport(), viewport);

    reader.keys("/missing");
    reader.enter();
    assert!(reader.session.status_text().is_some_and(|status| status.contains("Pattern not found: m")));
    reader.keys("/replacement");
    reader.escape();
    assert!(reader.session.status_text().is_some_and(|status| status.contains("Pattern not found: m")));
}

#[test]
fn ctrl_e_and_ctrl_y_scroll_without_moving_the_cursor() {
    let mut reader = Reader::over(&["one two three four five six seven eight nine ten eleven twelve"], 8, 4);

    reader.control('d');
    let after_half_page = reader.cursor().expect("cursor moved");
    assert_ne!(Some(after_half_page), at(0, 0));

    reader.control('f');
    assert_ne!(reader.cursor().expect("cursor moved"), after_half_page);

    let cursor = reader.cursor();
    let viewport = reader.session.viewport();
    reader.control('e');
    assert_eq!(reader.cursor(), cursor);
    assert_eq!(reader.session.viewport(), viewport + 1);
    reader.control('y');
    assert_eq!(reader.cursor(), cursor);
    assert_eq!(reader.session.viewport(), viewport);
}

#[test]
fn the_reading_cursor_cell_is_reversed_and_bold() {
    let reader = Reader::over(&["# Title", "body"], 40, 5);
    let look = reader.session.cell_look(SemanticPosition { block: 0, grapheme: 0 }, true, 40, None, false);
    assert!(look.reversed && look.bold && look.underlined);
    let other = reader.session.cell_look(SemanticPosition { block: 1, grapheme: 0 }, true, 40, None, false);
    assert!(!other.reversed && !other.bold);
}
