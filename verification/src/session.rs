//! The Reading Session: the reader's state and how each key changes it.
//! Side effects (clipboard, browser, reload) are requested as `Effect`s and
//! their outcomes are reported back.
use crate::browser::{is_web_url, web_url, BrowserResult};
use crate::clipboard::ClipboardResult;
use crate::copy::{ordered, ordered_endpoints, selected_text, selection_text, SelectionMode};
use crate::document::{warning_message, Document, DocumentWarning};
use crate::layout::{
    effective_width, first_navigable, first_navigable_index, first_position_of, first_row_at,
    last_navigable, last_navigable_index, last_position_of, layout, layout_rows, location_of,
    navigable, pos_lt, position_lt, CellLocation, CellView, RenderedDocument, SemanticPosition,
};
use crate::navigation::{
    horizontal_spec, horizontal_target, paragraph_spec, paragraph_target, vertical_spec,
    vertical_target, word_spec, word_target, Motion,
};
use crate::links::{
    fragment_targets, fragment_targets_spec, link_target_at_position, looks_like_relative_path,
    lookup_target, relative_path, target_of, FragmentTarget,
};
use crate::navigation::{sat_add, sat_mul, sat_sub};
use crate::document::{BlockKind, HeadingLevel};
use crate::outline::{
    anchor_of, heading_paths, heading_paths_spec, logical_positions, logical_positions_spec,
    outline_entries, outline_of, positions_in_section, restore_spec, section_positions, EntryView,
    OutlineEntry, PathPart, RelativeAnchor,
};
use crate::source::{source_error_text, SourceError};
use crate::highlight::HighlightStyle;
use crate::present::{
    cell_presentation, cell_presentation_spec, cell_style_at, cell_style_spec, marked_presentation,
    marked_presentation_spec, CellPresentation,
};
use crate::search::{find_matches, search_matches, MatchView, SearchMatch};
use crate::text::{chars_of, lowercase_text, push_all, string_of, to_lowercase};
use vstd::prelude::*;

verus! {

/// Commands that do not come from a key.
#[derive(Clone, Copy, Debug, PartialEq, Eq, Structural)]
pub enum Command {
    Quit,
}

/// Which pane receives keys.
#[derive(Clone, Copy, Debug, PartialEq, Eq, Structural)]
pub enum PaneFocus {
    Document,
    Outline,
}

/// Explicit side-effect requests observed by adapters and tests.
#[derive(Clone, Debug, PartialEq, Eq)]
pub enum Effect {
    WriteClipboard(String),
    OpenBrowser(String),
    ReloadDocument(String),
}

/// An `Effect` as values.
pub enum EffectView {
    WriteClipboard(Seq<char>),
    OpenBrowser(Seq<char>),
    ReloadDocument(Seq<char>),
}

impl DeepView for Effect {
    type V = EffectView;

    open spec fn deep_view(&self) -> EffectView {
        match self {
            Effect::WriteClipboard(s) => EffectView::WriteClipboard(s@),
            Effect::OpenBrowser(s) => EffectView::OpenBrowser(s@),
            Effect::ReloadDocument(s) => EffectView::ReloadDocument(s@),
        }
    }
}

/// The keys the reader tells apart.
#[derive(Clone, Copy, Debug, PartialEq, Eq, Structural)]
pub enum KeyCode {
    Char(char),
    Esc,
    Tab,
    Enter,
    Backspace,
    Other,
}

/// A key press: the key and whether Control or Alt was held.
#[derive(Clone, Copy, Debug, PartialEq, Eq, Structural)]
pub struct KeyInput {
    pub code: KeyCode,
    pub control: bool,
    pub alt: bool,
}

impl KeyInput {
    /// A key without modifiers.
    pub fn plain(code: KeyCode) -> (r: KeyInput)
        ensures
            r == (KeyInput { code, control: false, alt: false }),
    {
        KeyInput { code, control: false, alt: false }
    }

    /// A character typed with Control held.
    pub fn control(character: char) -> (r: KeyInput)
        ensures
            r == (KeyInput { code: KeyCode::Char(character), control: true, alt: false }),
    {
        KeyInput { code: KeyCode::Char(character), control: true, alt: false }
    }
}

/// An active visual Selection.
#[derive(Clone, Copy, Debug, PartialEq, Eq, Structural)]
pub struct Selection {
    pub mode: SelectionMode,
    pub anchor: SemanticPosition,
}

/// How an Outline entry shows its children.
#[derive(Clone, Copy, Debug, PartialEq, Eq, Structural)]
pub enum OutlineBranchState {
    Leaf,
    Collapsed,
    Expanded,
}

/// The split of the screen between the Outline and the Document.
#[derive(Clone, Copy, Debug, PartialEq, Eq, Structural)]
pub struct PaneLayout {
    pub outline_width: u16,
    pub document_x: u16,
    pub document_width: u16,
}

/// Narrowest Outline pane.
pub const MIN_OUTLINE_WIDTH: u16 = 16;
/// Widest Outline pane.
pub const MAX_OUTLINE_WIDTH: u16 = 40;
/// Narrowest Document pane next to the Outline.
pub const MIN_DOCUMENT_PANE_WIDTH: u16 = 32;
/// The column between the panes.
pub const PANE_DIVIDER_WIDTH: u16 = 1;

// ---------------------------------------------------------------------------
// Jump history
// ---------------------------------------------------------------------------

/// Which way to walk the jump history.
#[derive(Clone, Copy, Debug, PartialEq, Eq, Structural)]
pub enum JumpDirection {
    Backward,
    Forward,
}

/// Locations left by jumps, to go back and forth between.
#[derive(Debug)]
pub struct JumpHistory {
    pub back: Vec<SemanticPosition>,
    pub forward: Vec<SemanticPosition>,
}

/// The history as two stacks, newest last.
pub struct HistoryView {
    pub back: Seq<SemanticPosition>,
    pub forward: Seq<SemanticPosition>,
}

/// Recording a jump remembers where it left from and forgets the way forward.
pub open spec fn record_spec(h: HistoryView, prior: SemanticPosition) -> HistoryView {
    HistoryView { back: h.back.push(prior), forward: Seq::empty() }
}

/// Walking the history: the newest location of one stack, while the
/// current location goes onto the other.
pub open spec fn traverse_spec(h: HistoryView, current: SemanticPosition, direction: JumpDirection) -> (HistoryView, Option<SemanticPosition>) {
    match direction {
        JumpDirection::Backward => if h.back.len() == 0 {
            (h, None)
        } else {
            (HistoryView { back: h.back.drop_last(), forward: h.forward.push(current) }, Some(h.back.last()))
        },
        JumpDirection::Forward => if h.forward.len() == 0 {
            (h, None)
        } else {
            (HistoryView { back: h.back.push(current), forward: h.forward.drop_last() }, Some(h.forward.last()))
        },
    }
}

impl JumpHistory {
    pub open spec fn view(&self) -> HistoryView {
        HistoryView { back: self.back@, forward: self.forward@ }
    }

    /// An empty history.
    pub fn new() -> (r: JumpHistory)
        ensures
            r.back@ == Seq::<SemanticPosition>::empty(),
            r.forward@ == Seq::<SemanticPosition>::empty(),
    {
        JumpHistory { back: Vec::new(), forward: Vec::new() }
    }

    /// Remembers the location a jump leaves from.
    pub fn record(&mut self, prior_location: SemanticPosition)
        ensures
            final(self).view() == record_spec(old(self).view(), prior_location),
    {
        self.back.push(prior_location);
        self.forward.clear();
    }

    /// Moves one step back or forward, if there is one.
    pub fn traverse(&mut self, current_location: SemanticPosition, direction: JumpDirection) -> (r: Option<SemanticPosition>)
        ensures
            (final(self).view(), r) == traverse_spec(old(self).view(), current_location, direction),
    {
        match direction {
            JumpDirection::Backward => match self.back.pop() {
                Some(target) => {
                    self.forward.push(current_location);
                    Some(target)
                },
                None => None,
            },
            JumpDirection::Forward => match self.forward.pop() {
                Some(target) => {
                    self.back.push(current_location);
                    Some(target)
                },
                None => None,
            },
        }
    }
}

/// Going back after a jump returns to where the jump left from, and going
/// forward again returns to where the jump went.
pub proof fn lemma_jump_back_and_forth(h: HistoryView, prior: SemanticPosition, landed: SemanticPosition)
    ensures
        ({
            let h1 = record_spec(h, prior);
            let (h2, back) = traverse_spec(h1, landed, JumpDirection::Backward);
            let (h3, forward) = traverse_spec(h2, prior, JumpDirection::Forward);
            &&& back == Some(prior)
            &&& forward == Some(landed)
            &&& h3.back == h1.back
            &&& h3.forward.len() == 0
        }),
{
    let h1 = record_spec(h, prior);
    let (h2, _) = traverse_spec(h1, landed, JumpDirection::Backward);
    assert(h2.back.push(prior) =~= h1.back);
    assert(h2.forward.drop_last() =~= Seq::<SemanticPosition>::empty());
}

/// A walk back and then forward (or forward and then back) undoes itself.
pub proof fn lemma_traverse_undone(h: HistoryView, current: SemanticPosition, direction: JumpDirection)
    ensures
        ({
            let (h1, target) = traverse_spec(h, current, direction);
            let other = match direction { JumpDirection::Backward => JumpDirection::Forward, JumpDirection::Forward => JumpDirection::Backward };
            target is Some ==> ({
                let (h2, back) = traverse_spec(h1, target->0, other);
                &&& back == Some(current)
                &&& h2.back == h.back
                &&& h2.forward == h.forward
            })
        }),
{
    match direction {
        JumpDirection::Backward => if h.back.len() > 0 {
            assert(h.back.drop_last().push(h.back.last()) =~= h.back);
            assert(h.forward.push(current).drop_last() =~= h.forward);
        },
        JumpDirection::Forward => if h.forward.len() > 0 {
            assert(h.forward.drop_last().push(h.forward.last()) =~= h.forward);
            assert(h.back.push(current).drop_last() =~= h.back);
        },
    }
}

// ---------------------------------------------------------------------------
// Session state
// ---------------------------------------------------------------------------

/// The search query being typed, and what to go back to if it is abandoned.
#[derive(Debug)]
pub struct SearchPrompt {
    pub query: Vec<char>,
    pub prior_focus: PaneFocus,
    pub prior_viewport: usize,
    pub prior_outline_viewport: usize,
    pub prior_message: Option<String>,
}

pub struct PromptView {
    pub query: Seq<char>,
    pub prior_focus: PaneFocus,
    pub prior_viewport: usize,
    pub prior_outline_viewport: usize,
    pub prior_message: Option<Seq<char>>,
}

/// The text of an optional string.
pub open spec fn opt_str(o: Option<String>) -> Option<Seq<char>> {
    match o {
        Some(s) => Some(s@),
        None => None,
    }
}

impl SearchPrompt {
    pub open spec fn view(&self) -> PromptView {
        PromptView {
            query: self.query@,
            prior_focus: self.prior_focus,
            prior_viewport: self.prior_viewport,
            prior_outline_viewport: self.prior_outline_viewport,
            prior_message: opt_str(self.prior_message),
        }
    }
}

/// The reading state of one open Document.
#[derive(Debug)]
pub struct ReadingSession {
    source: Option<String>,
    document: Document,
    cursor: Option<SemanticPosition>,
    outline: Vec<OutlineEntry>,
    outline_enabled: bool,
    outline_selection: Option<usize>,
    outline_viewport: usize,
    focus: PaneFocus,
    jump_history: JumpHistory,
    fragment_targets: Vec<FragmentTarget>,
    viewport: usize,
    preferred_column: Option<usize>,
    pending_count: Option<usize>,
    pending_g: bool,
    pending_control_w: bool,
    search_prompt: Option<SearchPrompt>,
    search_matches: Vec<SearchMatch>,
    search_query: Option<String>,
    search_message: Option<String>,
    selection: Option<Selection>,
    status_message: Option<String>,
    effects: Vec<Effect>,
    help_open: bool,
    quit: bool,
}

/// The Reading Session as values.
#[verifier::ext_equal]
pub struct SessionView {
    pub source: Option<Seq<char>>,
    pub document: Document,
    pub cursor: Option<SemanticPosition>,
    pub outline: Seq<EntryView>,
    pub outline_enabled: bool,
    pub outline_selection: Option<usize>,
    pub outline_viewport: usize,
    pub focus: PaneFocus,
    pub back: Seq<SemanticPosition>,
    pub forward: Seq<SemanticPosition>,
    pub targets: Seq<(Seq<char>, SemanticPosition)>,
    pub viewport: usize,
    pub preferred_column: Option<usize>,
    pub pending_count: Option<usize>,
    pub pending_g: bool,
    pub pending_control_w: bool,
    pub prompt: Option<PromptView>,
    pub matches: Seq<MatchView>,
    pub search_query: Option<Seq<char>>,
    pub search_message: Option<Seq<char>>,
    pub selection: Option<Selection>,
    pub status: Option<Seq<char>>,
    pub effects: Seq<EffectView>,
    pub help_open: bool,
    pub quit: bool,
}

pub open spec fn prompt_view(p: Option<SearchPrompt>) -> Option<PromptView> {
    match p {
        Some(p) => Some(p.view()),
        None => None,
    }
}

/// How the cell at a position is drawn at a pane width.
pub open spec fn cell_look_spec(
    v: SessionView,
    position: SemanticPosition,
    navigable: bool,
    width: u16,
    highlight: Option<HighlightStyle>,
    color_enabled: bool,
) -> CellPresentation {
    let blocks = v.document.blocks@;
    let alert = if position.block < blocks.len() { blocks[position.block as int].alert } else { None };
    marked_presentation_spec(
        cell_presentation_spec(cell_style_spec(blocks, position, highlight), alert, color_enabled),
        in_matches(v.matches, position),
        navigable && selection_contains_spec(v, position, width),
        navigable && v.cursor == Some(position),
        color_enabled,
    )
}

/// The state a fresh session starts in.
pub open spec fn initial_view(document: Document, source: Option<Seq<char>>) -> SessionView {
    let outline = outline_of(document.blocks@);
    SessionView {
        source,
        document,
        cursor: first_position_of(layout_rows(document.blocks@, 100)),
        outline,
        outline_enabled: true,
        outline_selection: if outline.len() > 0 { Some(0usize) } else { None },
        outline_viewport: 0,
        focus: PaneFocus::Document,
        back: Seq::empty(),
        forward: Seq::empty(),
        targets: fragment_targets_spec(document.blocks@),
        viewport: 0,
        preferred_column: None,
        pending_count: None,
        pending_g: false,
        pending_control_w: false,
        prompt: None,
        matches: Seq::empty(),
        search_query: None,
        search_message: None,
        selection: None,
        status: None,
        effects: Seq::empty(),
        help_open: false,
        quit: false,
    }
}

/// Pending count and prefixes forgotten.
pub open spec fn cleared(v: SessionView) -> SessionView {
    SessionView { pending_count: None, pending_g: false, pending_control_w: false, ..v }
}

/// The link under the Reading Cursor.
pub open spec fn link_under_cursor(v: SessionView) -> Option<Seq<char>> {
    match v.cursor {
        Some(c) => crate::links::link_at(v.document.blocks@, c),
        None => None,
    }
}

/// The first warning about the Document, as status text.
pub open spec fn warning_text(d: Document) -> Option<Seq<char>> {
    if d.warnings@.len() > 0 { Some(warning_message(d.warnings@[0])) } else { None }
}

/// The status line: the search prompt, a message, the Outline selection's
/// label, the link under the cursor, or a Document warning, in that order.
pub open spec fn status_text_spec(v: SessionView) -> Option<Seq<char>> {
    match v.prompt {
        Some(p) => Some("/"@ + p.query),
        None => match v.status {
            Some(m) => Some(m),
            None => match v.search_message {
                Some(m) => Some(m),
                None => if v.focus == PaneFocus::Outline {
                    match v.outline_selection {
                        Some(i) => if i < v.outline.len() { Some(v.outline[i as int].label) } else { None },
                        None => None,
                    }
                } else {
                    match link_under_cursor(v) {
                        Some(t) => Some(t),
                        None => warning_text(v.document),
                    }
                },
            },
        },
    }
}

/// Rows left for content under the status line.
pub open spec fn content_height_spec(v: SessionView, screen_height: u16) -> u16 {
    if status_text_spec(v) is Some {
        if screen_height >= 1 { (screen_height - 1) as u16 } else { 0 }
    } else {
        screen_height
    }
}

/// The Outline is shown when there is one, it is enabled, and the screen
/// leaves the Document pane its minimum width.
pub open spec fn outline_visible_spec(v: SessionView, width: u16) -> bool {
    v.outline.len() > 0 && v.outline_enabled && width >= MIN_OUTLINE_WIDTH + PANE_DIVIDER_WIDTH + MIN_DOCUMENT_PANE_WIDTH
}

/// The pane split: a third of the screen for the Outline, within its bounds.
pub open spec fn pane_spec(v: SessionView, width: u16) -> PaneLayout {
    if !outline_visible_spec(v, width) {
        PaneLayout { outline_width: 0, document_x: 0, document_width: width }
    } else {
        let third = width / 3;
        let ow: int = if third < MIN_OUTLINE_WIDTH { MIN_OUTLINE_WIDTH as int } else if third > MAX_OUTLINE_WIDTH { MAX_OUTLINE_WIDTH as int } else { third as int };
        let dx: int = if ow + PANE_DIVIDER_WIDTH < width { ow + PANE_DIVIDER_WIDTH } else { width as int };
        let dw: int = if width - dx >= 1 { width - dx } else { 1 };
        PaneLayout { outline_width: ow as u16, document_x: dx as u16, document_width: dw as u16 }
    }
}

/// The rendered rows of the Document pane.
pub open spec fn rows_spec(v: SessionView, width: u16) -> Seq<Seq<crate::layout::CellView>> {
    layout_rows(v.document.blocks@, effective_width(pane_spec(v, width).document_width))
}

/// The first shown row after the viewport is kept within the rows and
/// moved just enough to show the cursor's row.
pub open spec fn viewport_showing(viewport: usize, row: Option<int>, height: u16, rows_len: int) -> usize {
    let h: int = if height >= 1 { height as int } else { 1 };
    let maximum = sat_sub(rows_len, h);
    let vp: int = if viewport < maximum { viewport as int } else { maximum };
    let r: int = match row {
        Some(row) => if row < vp { row } else if row >= vp + h { row + 1 - h } else { vp },
        None => vp,
    };
    r as usize
}

/// The session with its viewport showing the cursor.
pub open spec fn cursor_visible(v: SessionView, rows: Seq<Seq<crate::layout::CellView>>, height: u16) -> SessionView {
    let row = match v.cursor {
        Some(c) => first_row_at(rows, c),
        None => None,
    };
    SessionView { viewport: viewport_showing(v.viewport, row, height, rows.len() as int), ..v }
}

/// `prefix` followed by `rest`.
fn joined(prefix: &str, rest: &Vec<char>) -> (r: String)
    ensures
        r@ == prefix@ + rest@,
{
    let mut out = chars_of(prefix);
    push_all(&mut out, rest);
    string_of(&out)
}

impl ReadingSession {
    pub closed spec fn view(&self) -> SessionView {
        SessionView {
            source: opt_str(self.source),
            document: self.document,
            cursor: self.cursor,
            outline: self.outline.deep_view(),
            outline_enabled: self.outline_enabled,
            outline_selection: self.outline_selection,
            outline_viewport: self.outline_viewport,
            focus: self.focus,
            back: self.jump_history.back@,
            forward: self.jump_history.forward@,
            targets: self.fragment_targets.deep_view(),
            viewport: self.viewport,
            preferred_column: self.preferred_column,
            pending_count: self.pending_count,
            pending_g: self.pending_g,
            pending_control_w: self.pending_control_w,
            prompt: prompt_view(self.search_prompt),
            matches: self.search_matches.deep_view(),
            search_query: opt_str(self.search_query),
            search_message: opt_str(self.search_message),
            selection: self.selection,
            status: opt_str(self.status_message),
            effects: self.effects.deep_view(),
            help_open: self.help_open,
            quit: self.quit,
        }
    }

    /// A session on a Document read from standard input.
    pub fn new(document: Document) -> (r: ReadingSession)
        ensures
            r.view() == initial_view(document, None),
    {
        Self::open(document, None)
    }

    /// A session on a Document read from `source`, which Reload reads again.
    pub fn with_source(document: Document, source: String) -> (r: ReadingSession)
        ensures
            r.view() == initial_view(document, Some(source@)),
    {
        Self::open(document, Some(source))
    }

    fn open(document: Document, source: Option<String>) -> (r: ReadingSession)
        ensures
            r.view() == initial_view(document, opt_str(source)),
    {
        let _ = document.blocks.len();
        let cursor = layout(&document, 100).first_position();
        let outline = outline_entries(&document);
        let outline_selection = if outline.len() > 0 { Some(0usize) } else { None };
        let fragment_targets = fragment_targets(&document);
        let r = ReadingSession {
            source,
            document,
            cursor,
            outline,
            outline_enabled: true,
            outline_selection,
            outline_viewport: 0,
            focus: PaneFocus::Document,
            jump_history: JumpHistory::new(),
            fragment_targets,
            viewport: 0,
            preferred_column: None,
            pending_count: None,
            pending_g: false,
            pending_control_w: false,
            search_prompt: None,
            search_matches: Vec::new(),
            search_query: None,
            search_message: None,
            selection: None,
            status_message: None,
            effects: Vec::new(),
            help_open: false,
            quit: false,
        };
        assert(r.view().matches =~= Seq::<MatchView>::empty());
        assert(r.view().effects =~= Seq::<EffectView>::empty());
        r
    }

    /// Carries out a command.
    pub fn command(&mut self, command: Command)
        ensures
            final(self).view() == (match command {
                Command::Quit => SessionView { quit: true, ..old(self).view() },
            }),
    {
        match command {
            Command::Quit => self.quit = true,
        }
    }

    fn clear_pending(&mut self)
        ensures
            final(self).view() == cleared(old(self).view()),
    {
        self.pending_count = None;
        self.pending_g = false;
        self.pending_control_w = false;
    }

    /// Whether the key reference is shown.
    pub fn help_open(&self) -> (r: bool)
        ensures
            r == self.view().help_open,
    {
        self.help_open
    }

    pub fn has_quit(&self) -> (r: bool)
        ensures
            r == self.view().quit,
    {
        self.quit
    }

    pub fn document(&self) -> (r: &Document)
        ensures
            *r == self.view().document,
    {
        &self.document
    }

    pub fn cursor(&self) -> (r: Option<SemanticPosition>)
        ensures
            r == self.view().cursor,
    {
        self.cursor
    }

    pub fn focus(&self) -> (r: PaneFocus)
        ensures
            r == self.view().focus,
    {
        self.focus
    }

    pub fn viewport(&self) -> (r: usize)
        ensures
            r == self.view().viewport,
    {
        self.viewport
    }

    pub fn outline_viewport(&self) -> (r: usize)
        ensures
            r == self.view().outline_viewport,
    {
        self.outline_viewport
    }

    pub fn selection_mode(&self) -> (r: Option<SelectionMode>)
        ensures
            r == (match self.view().selection {
                Some(s) => Some(s.mode),
                None => None,
            }),
    {
        match self.selection {
            Some(s) => Some(s.mode),
            None => None,
        }
    }

    pub fn selection_anchor(&self) -> (r: Option<SemanticPosition>)
        ensures
            r == (match self.view().selection {
                Some(s) => Some(s.anchor),
                None => None,
            }),
    {
        match self.selection {
            Some(s) => Some(s.anchor),
            None => None,
        }
    }

    /// The Outline entries.
    pub fn outline(&self) -> (r: &Vec<OutlineEntry>)
        ensures
            r.deep_view() == self.view().outline,
    {
        &self.outline
    }

    /// The first warning about the Document, as status text.
    pub fn status_warning(&self) -> (r: Option<&'static str>)
        ensures
            match r {
                Some(t) => warning_text(self.view().document) == Some(t@),
                None => warning_text(self.view().document) is None,
            },
    {
        if self.document.warnings.len() > 0 {
            Some(self.document.warnings[0].message())
        } else {
            None
        }
    }

    /// The text of the status line, if it shows one.
    pub fn status_text(&self) -> (r: Option<String>)
        ensures
            opt_str(r) == status_text_spec(self.view()),
    {
        match &self.search_prompt {
            Some(prompt) => Some(joined("/", &prompt.query)),
            None => match &self.status_message {
                Some(m) => Some(m.clone()),
                None => match &self.search_message {
                    Some(m) => Some(m.clone()),
                    None => if self.focus == PaneFocus::Outline {
                        match self.outline_selection {
                            Some(i) => if i < self.outline.len() {
                                assert(self.outline.deep_view()[i as int] == self.outline@[i as int].deep_view());
                                Some(string_of(&self.outline[i].label))
                            } else {
                                None
                            },
                            None => None,
                        }
                    } else {
                        let link = match self.cursor {
                            Some(c) => crate::links::link_target_at_position(&self.document, c),
                            None => None,
                        };
                        match link {
                            Some(t) => Some(t),
                            None => match self.status_warning() {
                                Some(w) => Some(string_of(&chars_of(w))),
                                None => None,
                            },
                        }
                    },
                },
            },
        }
    }

    /// Rows left for content under the status line.
    pub fn content_height(&self, screen_height: u16) -> (r: u16)
        ensures
            r == content_height_spec(self.view(), screen_height),
    {
        if self.status_text().is_some() {
            screen_height.saturating_sub(1)
        } else {
            screen_height
        }
    }

    /// Whether the Outline pane is shown at a screen width.
    pub fn outline_is_visible(&self, screen_width: u16) -> (r: bool)
        ensures
            r == outline_visible_spec(self.view(), screen_width),
    {
        self.outline.len() > 0 && self.outline_enabled
            && screen_width >= MIN_OUTLINE_WIDTH + PANE_DIVIDER_WIDTH + MIN_DOCUMENT_PANE_WIDTH
    }

    /// The split of a screen width between the panes.
    pub fn pane_layout(&self, screen_width: u16) -> (r: PaneLayout)
        ensures
            r == pane_spec(self.view(), screen_width),
    {
        if !self.outline_is_visible(screen_width) {
            return PaneLayout { outline_width: 0, document_x: 0, document_width: screen_width };
        }
        let third = screen_width / 3;
        let outline_width = if third < MIN_OUTLINE_WIDTH {
            MIN_OUTLINE_WIDTH
        } else if third > MAX_OUTLINE_WIDTH {
            MAX_OUTLINE_WIDTH
        } else {
            third
        };
        let after = outline_width + PANE_DIVIDER_WIDTH;
        let document_x = if after < screen_width { after } else { screen_width };
        let rest = screen_width - document_x;
        PaneLayout { outline_width, document_x, document_width: if rest >= 1 { rest } else { 1 } }
    }

    /// The Document pane's rendering at a screen width.
    pub fn rendered(&self, screen_width: u16) -> (r: RenderedDocument)
        ensures
            r.view_rows() == rows_spec(self.view(), screen_width),
    {
        let width = self.pane_layout(screen_width).document_width;
        let _ = self.document.blocks.len();
        layout(&self.document, width)
    }

    fn ensure_cursor_visible(&mut self, rendered: &RenderedDocument, height: u16)
        ensures
            final(self).view() == cursor_visible(old(self).view(), rendered.view_rows(), height),
    {
        let h: usize = if height >= 1 { height as usize } else { 1 };
        let n = rendered.rows.len();
        assert(rendered.view_rows().len() == n);
        let maximum = if n >= h { n - h } else { 0 };
        if self.viewport > maximum {
            self.viewport = maximum;
        }
        let row = match self.cursor {
            Some(c) => rendered.row_for_position(c),
            None => None,
        };
        match row {
            Some(row) => {
                proof {
                    crate::layout::lemma_first_row_bound(rendered.view_rows(), self.cursor->0);
                }
                if row < self.viewport {
                    self.viewport = row;
                } else if row >= self.viewport + h {
                    self.viewport = row + 1 - h;
                }
            },
            None => {},
        }
    }
}

// ---------------------------------------------------------------------------
// Outline context
// ---------------------------------------------------------------------------

/// Index of the last Outline entry that starts at or before a block.
pub open spec fn last_entry_at_or_before(outline: Seq<EntryView>, block: usize) -> Option<int>
    decreases outline.len(),
{
    if outline.len() == 0 {
        None
    } else if outline.last().position.block <= block {
        Some(outline.len() - 1)
    } else {
        last_entry_at_or_before(outline.drop_last(), block)
    }
}

/// The last heading block at or before a block.
pub open spec fn heading_at_or_before(blocks: Seq<crate::document::Block>, block: int) -> Option<int>
    decreases block + 1,
{
    if block < 0 {
        None
    } else if block < blocks.len() && blocks[block].kind is Heading {
        Some(block)
    } else {
        heading_at_or_before(blocks, block - 1)
    }
}

proof fn lemma_heading_past_the_end(blocks: Seq<crate::document::Block>, block: int)
    ensures
        block >= blocks.len() ==> heading_at_or_before(blocks, block) == heading_at_or_before(blocks, blocks.len() - 1),
    decreases block + 1,
{
    if block >= blocks.len() && block > 0 && block - 1 >= blocks.len() {
        lemma_heading_past_the_end(blocks, block - 1);
    }
}

/// The heading of the section the Reading Cursor is in.
pub open spec fn current_section_spec(v: SessionView) -> Option<SemanticPosition> {
    match v.cursor {
        Some(c) => match last_entry_at_or_before(v.outline, c.block) {
            Some(i) => Some(v.outline[i].position),
            None => None,
        },
        None => None,
    }
}

/// Index of the first Outline entry at a position.
pub open spec fn entry_index(outline: Seq<EntryView>, p: SemanticPosition) -> Option<int>
    decreases outline.len(),
{
    if outline.len() == 0 {
        None
    } else {
        match entry_index(outline.drop_last(), p) {
            Some(i) => Some(i),
            None => if outline.last().position == p { Some(outline.len() - 1) } else { None },
        }
    }
}

/// The Outline index of the current section.
pub open spec fn section_index_spec(v: SessionView) -> Option<int> {
    match current_section_spec(v) {
        Some(p) => entry_index(v.outline, p),
        None => None,
    }
}

/// The nearest entry before index `j` that is shallower than `depth`.
pub open spec fn parent_before(outline: Seq<EntryView>, j: int, depth: nat) -> Option<int>
    decreases j,
{
    if j <= 0 {
        None
    } else if outline[j - 1].level.spec_depth() < depth {
        Some(j - 1)
    } else {
        parent_before(outline, j - 1, depth)
    }
}

/// Entry `i` is entry `index` or one of its ancestors.
pub open spec fn on_path(outline: Seq<EntryView>, index: int, i: int) -> bool
    decreases index,
{
    if index < 0 {
        false
    } else {
        i == index || match parent_before(outline, index, outline[index].level.spec_depth()) {
            Some(p) => if 0 <= p < index { on_path(outline, p, i) } else { false },
            None => false,
        }
    }
}

/// Which entries lie on the path from the root to the current section.
pub open spec fn section_path_spec(v: SessionView) -> Seq<bool> {
    Seq::new(v.outline.len(), |i: int| match section_index_spec(v) {
        Some(s) => on_path(v.outline, s, i),
        None => false,
    })
}

/// The depths of collapsed entries still open above the next entry.
pub open spec fn pop_deeper_depths(stack: Seq<usize>, depth: nat) -> Seq<usize>
    decreases stack.len(),
{
    if stack.len() > 0 && stack.last() >= depth {
        pop_deeper_depths(stack.drop_last(), depth)
    } else {
        stack
    }
}

/// Walking the first `n` entries: the collapsed ancestors and the visible entries.
pub open spec fn visible_fold(outline: Seq<EntryView>, path: Seq<bool>, n: int) -> (Seq<usize>, Seq<usize>)
    decreases n,
{
    if n <= 0 {
        (Seq::empty(), Seq::empty())
    } else {
        let (stack, visible) = visible_fold(outline, path, n - 1);
        let e = outline[n - 1];
        let d = e.level.spec_depth();
        let s1 = pop_deeper_depths(stack, d);
        let vis = if s1.len() == 0 || path[n - 1] { visible.push((n - 1) as usize) } else { visible };
        let s2 = if e.collapsed { s1.push(d as usize) } else { s1 };
        (s2, vis)
    }
}

/// The Outline entries shown: those under no collapsed entry, and the path
/// to the current section.
pub open spec fn visible_outline_spec(v: SessionView) -> Seq<usize> {
    visible_fold(v.outline, section_path_spec(v), v.outline.len() as int).1
}

/// The last visible entry before an index.
pub open spec fn last_below(visible: Seq<usize>, s: usize) -> Option<usize>
    decreases visible.len(),
{
    if visible.len() == 0 {
        None
    } else if visible.last() < s {
        Some(visible.last())
    } else {
        last_below(visible.drop_last(), s)
    }
}

/// Where an index first occurs.
pub open spec fn index_in(visible: Seq<usize>, t: usize) -> Option<int>
    decreases visible.len(),
{
    if visible.len() == 0 {
        None
    } else {
        match index_in(visible.drop_last(), t) {
            Some(i) => Some(i),
            None => if visible.last() == t { Some(visible.len() - 1) } else { None },
        }
    }
}

/// A hidden Outline selection moves to the nearest shown entry above it,
/// or to the first shown entry.
pub open spec fn kept_selection(selection: Option<usize>, visible: Seq<usize>) -> Option<usize> {
    match selection {
        Some(s) => if visible.contains(s) {
            Some(s)
        } else {
            match last_below(visible, s) {
                Some(x) => Some(x),
                None => if visible.len() > 0 { Some(visible[0]) } else { None },
            }
        },
        None => None,
    }
}

/// The entry the Outline viewport follows: the selection with Outline
/// focus, the current section with Document focus.
pub open spec fn outline_target(v: SessionView, selection: Option<usize>) -> Option<usize> {
    match v.focus {
        PaneFocus::Outline => selection,
        PaneFocus::Document => match section_index_spec(v) {
            Some(i) => Some(i as usize),
            None => None,
        },
    }
}

/// The Outline viewport that shows the target's row, or the top.
pub open spec fn outline_viewport_for(viewport: usize, visible: Seq<usize>, target: Option<usize>, height: u16) -> usize {
    match target {
        None => 0,
        Some(t) => match index_in(visible, t) {
            None => 0,
            Some(ti) => viewport_showing(viewport, Some(ti), height, visible.len() as int),
        },
    }
}

/// The Outline after a change: a hidden selection moves to a shown entry,
/// and the Outline viewport follows the selection or the current section.
pub open spec fn outline_context(v: SessionView, height: u16) -> SessionView {
    let visible = visible_outline_spec(v);
    let sel = kept_selection(v.outline_selection, visible);
    SessionView {
        outline_selection: sel,
        outline_viewport: outline_viewport_for(v.outline_viewport, visible, outline_target(v, sel), height),
        ..v
    }
}

/// Entry `i` has children: the next entry is deeper.
pub open spec fn is_branch(outline: Seq<EntryView>, i: int) -> bool {
    0 <= i && i + 1 < outline.len() && outline[i + 1].level.spec_depth() > outline[i].level.spec_depth()
}

proof fn lemma_last_entry_bound(outline: Seq<EntryView>, block: usize)
    ensures
        last_entry_at_or_before(outline, block) matches Some(i) ==> 0 <= i < outline.len(),
    decreases outline.len(),
{
    if outline.len() > 0 {
        lemma_last_entry_bound(outline.drop_last(), block);
    }
}

proof fn lemma_entry_index_prefix(outline: Seq<EntryView>, k: int, p: SemanticPosition)
    requires
        0 <= k <= outline.len(),
        entry_index(outline.take(k), p) is Some,
    ensures
        entry_index(outline, p) == entry_index(outline.take(k), p),
    decreases outline.len(),
{
    if k == outline.len() {
        assert(outline.take(k) =~= outline);
    } else {
        assert(outline.drop_last().take(k) =~= outline.take(k));
        lemma_entry_index_prefix(outline.drop_last(), k, p);
    }
}

proof fn lemma_entry_index_bound(outline: Seq<EntryView>, p: SemanticPosition)
    ensures
        entry_index(outline, p) matches Some(i) ==> 0 <= i < outline.len(),
    decreases outline.len(),
{
    if outline.len() > 0 {
        lemma_entry_index_bound(outline.drop_last(), p);
    }
}

proof fn lemma_parent_bound(outline: Seq<EntryView>, j: int, depth: nat)
    ensures
        parent_before(outline, j, depth) matches Some(p) ==> 0 <= p < j,
    decreases j,
{
    if j > 0 {
        lemma_parent_bound(outline, j - 1, depth);
    }
}

proof fn lemma_index_in_prefix(s: Seq<usize>, k: int, t: usize)
    requires
        0 <= k <= s.len(),
        index_in(s.take(k), t) is Some,
    ensures
        index_in(s, t) == index_in(s.take(k), t),
    decreases s.len(),
{
    if k == s.len() {
        assert(s.take(k) =~= s);
    } else {
        assert(s.drop_last().take(k) =~= s.take(k));
        lemma_index_in_prefix(s.drop_last(), k, t);
    }
}

proof fn lemma_index_in_bound(s: Seq<usize>, t: usize)
    ensures
        index_in(s, t) matches Some(i) ==> 0 <= i < s.len() && s[i] == t,
        index_in(s, t) is None ==> !s.contains(t),
    decreases s.len(),
{
    if s.len() > 0 {
        lemma_index_in_bound(s.drop_last(), t);
        if index_in(s, t) is None {
            assert forall|k: int| 0 <= k < s.len() implies s[k] != t by {
                if k < s.len() - 1 {
                    assert(s.drop_last()[k] == s[k]);
                }
            }
        }
    }
}

/// Index of the last entry that starts at or before a block.
fn last_entry_before(outline: &Vec<OutlineEntry>, block: usize) -> (r: Option<usize>)
    ensures
        match last_entry_at_or_before(outline.deep_view(), block) {
            Some(i) => r == Some(i as usize) && 0 <= i < outline@.len(),
            None => r is None,
        },
{
    let ghost o = outline.deep_view();
    let mut i = outline.len();
    assert(o.take(i as int) =~= o);
    while i > 0
        invariant
            i <= outline@.len(),
            o == outline.deep_view(),
            last_entry_at_or_before(o, block) == last_entry_at_or_before(o.take(i as int), block),
        decreases i,
    {
        assert(o.take(i as int).drop_last() =~= o.take(i as int - 1));
        assert(o[i as int - 1] == outline@[i as int - 1].deep_view());
        if outline[i - 1].position.block <= block {
            return Some(i - 1);
        }
        i = i - 1;
    }
    None
}

/// Index of the first entry at a position.
fn entry_index_exec(outline: &Vec<OutlineEntry>, p: SemanticPosition) -> (r: Option<usize>)
    ensures
        match entry_index(outline.deep_view(), p) {
            Some(i) => r == Some(i as usize) && 0 <= i < outline@.len(),
            None => r is None,
        },
{
    let ghost o = outline.deep_view();
    let mut i: usize = 0;
    while i < outline.len()
        invariant
            i <= outline@.len(),
            o == outline.deep_view(),
            entry_index(o.take(i as int), p) is None,
        decreases outline.len() - i,
    {
        assert(o.take(i as int + 1).drop_last() =~= o.take(i as int));
        assert(o[i as int] == outline@[i as int].deep_view());
        if outline[i].position == p {
            proof { lemma_entry_index_prefix(o, i as int + 1, p); }
            return Some(i);
        }
        i = i + 1;
    }
    assert(o.take(outline@.len() as int) =~= o);
    None
}

/// Where an index first occurs in a list.
fn index_in_exec(visible: &Vec<usize>, t: usize) -> (r: Option<usize>)
    ensures
        match index_in(visible@, t) {
            Some(i) => r == Some(i as usize),
            None => r is None,
        },
{
    let mut i: usize = 0;
    while i < visible.len()
        invariant
            i <= visible@.len(),
            index_in(visible@.take(i as int), t) is None,
        decreases visible.len() - i,
    {
        assert(visible@.take(i as int + 1).drop_last() =~= visible@.take(i as int));
        if visible[i] == t {
            proof { lemma_index_in_prefix(visible@, i as int + 1, t); }
            return Some(i);
        }
        i = i + 1;
    }
    assert(visible@.take(visible@.len() as int) =~= visible@);
    None
}

fn last_below_exec(visible: &Vec<usize>, s: usize) -> (r: Option<usize>)
    ensures
        r == last_below(visible@, s),
{
    let mut i = visible.len();
    assert(visible@.take(i as int) =~= visible@);
    while i > 0
        invariant
            i <= visible@.len(),
            last_below(visible@, s) == last_below(visible@.take(i as int), s),
        decreases i,
    {
        assert(visible@.take(i as int).drop_last() =~= visible@.take(i as int - 1));
        if visible[i - 1] < s {
            return Some(visible[i - 1]);
        }
        i = i - 1;
    }
    None
}

fn parent_index(outline: &Vec<OutlineEntry>, index: usize) -> (r: Option<usize>)
    requires
        index < outline@.len(),
    ensures
        match parent_before(outline.deep_view(), index as int, outline.deep_view()[index as int].level.spec_depth()) {
            Some(p) => r == Some(p as usize),
            None => r is None,
        },
{
    let ghost o = outline.deep_view();
    assert(o[index as int] == outline@[index as int].deep_view());
    let depth = outline[index].level.depth();
    let mut j = index;
    while j > 0
        invariant
            j <= index < outline@.len(),
            o == outline.deep_view(),
            depth == o[index as int].level.spec_depth(),
            parent_before(o, index as int, depth as nat) == parent_before(o, j as int, depth as nat),
        decreases j,
    {
        assert(o[j as int - 1] == outline@[j as int - 1].deep_view());
        if outline[j - 1].level.depth() < depth {
            return Some(j - 1);
        }
        j = j - 1;
    }
    None
}

fn pop_deeper(stack: &mut Vec<usize>, depth: usize)
    ensures
        final(stack)@ == pop_deeper_depths(old(stack)@, depth as nat),
{
    while stack.len() > 0 && stack[stack.len() - 1] >= depth
        invariant
            pop_deeper_depths(old(stack)@, depth as nat) == pop_deeper_depths(stack@, depth as nat),
        decreases stack.len(),
    {
        stack.pop();
    }
}

impl ReadingSession {
    /// The heading of the section the Reading Cursor is in.
    /// The heading of the section the Reading Cursor is in: the last
    /// heading block at or before the cursor's block.
    pub fn current_section(&self) -> (r: Option<SemanticPosition>)
        ensures
            r == (match self.view().cursor {
                Some(c) => match heading_at_or_before(self.view().document.blocks@, c.block as int) {
                    Some(b) => Some(SemanticPosition { block: b as usize, grapheme: 0 }),
                    None => None,
                },
                None => None,
            }),
    {
        let c = match self.cursor {
            Some(c) => c,
            None => {
                return None;
            },
        };
        let blocks = &self.document.blocks;
        assert(self.view().document.blocks@ == blocks@);
        let mut b: usize = if c.block < blocks.len() { c.block + 1 } else { blocks.len() };
        proof {
            lemma_heading_past_the_end(blocks@, c.block as int);
        }
        while b > 0
            invariant
                b <= blocks@.len(),
                b <= c.block + 1,
                self.view().cursor == Some(c),
                self.view().document.blocks@ == blocks@,
                heading_at_or_before(blocks@, c.block as int) == heading_at_or_before(blocks@, b - 1),
            decreases b,
        {
            b = b - 1;
            if matches!(blocks[b].kind, BlockKind::Heading(_)) {
                assert(blocks@[b as int].kind is Heading);
                assert(heading_at_or_before(blocks@, b as int) == Some(b as int));
                return Some(SemanticPosition { block: b, grapheme: 0 });
            }
        }
        None
    }

    fn section_position(&self) -> (r: Option<SemanticPosition>)
        ensures
            r == current_section_spec(self.view()),
    {
        match self.cursor {
            Some(c) => match last_entry_before(&self.outline, c.block) {
                Some(i) => {
                    let _ = self.outline.len();
                    assert(self.outline.deep_view()[i as int] == self.outline@[i as int].deep_view());
                    Some(self.outline[i].position)
                },
                None => None,
            },
            None => None,
        }
    }

    fn section_index(&self) -> (r: Option<usize>)
        ensures
            match section_index_spec(self.view()) {
                Some(i) => r == Some(i as usize) && 0 <= i < self.view().outline.len(),
                None => r is None,
            },
    {
        match self.section_position() {
            Some(p) => entry_index_exec(&self.outline, p),
            None => None,
        }
    }

    /// The position of the Outline's selected entry.
    pub fn outline_selection(&self) -> (r: Option<SemanticPosition>)
        ensures
            r == (match self.view().outline_selection {
                Some(i) => if i < self.view().outline.len() { Some(self.view().outline[i as int].position) } else { None },
                None => None,
            }),
    {
        match self.outline_selection {
            Some(i) => if i < self.outline.len() {
                assert(self.outline.deep_view()[i as int] == self.outline@[i as int].deep_view());
                Some(self.outline[i].position)
            } else {
                None
            },
            None => None,
        }
    }

    /// Which entries lie on the path to the current section.
    pub fn current_section_path(&self) -> (r: Vec<bool>)
        ensures
            r@ == section_path_spec(self.view()),
    {
        let ghost o = self.outline.deep_view();
        let n = self.outline.len();
        let mut path: Vec<bool> = Vec::new();
        while path.len() < n
            invariant
                path@.len() <= n,
                forall|i: int| 0 <= i < path@.len() ==> !path@[i],
            decreases n - path.len(),
        {
            path.push(false);
        }
        let start = match self.section_index() {
            Some(s) => s,
            None => {
                assert(path@ =~= section_path_spec(self.view()));
                return path;
            },
        };
        let mut index = start;
        assert(o.len() == n);
        loop
            invariant
                o == self.outline.deep_view(),
                path@.len() == n,
                n == o.len(),
                index < n,
                section_index_spec(self.view()) == Some(start as int),
                forall|i: int| 0 <= i < n ==> on_path(o, start as int, i) == (path@[i] || on_path(o, index as int, i)),
            ensures
                forall|i: int| 0 <= i < n ==> on_path(o, start as int, i) == path@[i],
            decreases index,
        {
            path.set(index, true);
            let parent = parent_index(&self.outline, index);
            proof { lemma_parent_bound(o, index as int, o[index as int].level.spec_depth()); }
            match parent {
                Some(p) => {
                    assert forall|i: int| 0 <= i < n implies on_path(o, start as int, i) == (path@[i] || on_path(o, p as int, i)) by {
                        assert(on_path(o, index as int, i) == (i == index || on_path(o, p as int, i)));
                    }
                    index = p;
                },
                None => {
                    assert forall|i: int| 0 <= i < n implies on_path(o, start as int, i) == path@[i] by {
                        assert(on_path(o, index as int, i) == (i == index));
                    }
                    break;
                },
            }
        }
        assert(path@ =~= section_path_spec(self.view()));
        path
    }

    /// The indices of the Outline entries that are shown.
    pub fn visible_outline_indices(&self) -> (r: Vec<usize>)
        ensures
            r@ == visible_outline_spec(self.view()),
    {
        let path = self.current_section_path();
        let ghost o = self.outline.deep_view();
        let mut stack: Vec<usize> = Vec::new();
        let mut visible: Vec<usize> = Vec::new();
        let mut i: usize = 0;
        while i < self.outline.len()
            invariant
                i <= self.outline@.len(),
                o == self.outline.deep_view(),
                path@ == section_path_spec(self.view()),
                path@.len() == o.len(),
                (stack@, visible@) == visible_fold(o, path@, i as int),
            decreases self.outline.len() - i,
        {
            assert(o[i as int] == self.outline@[i as int].deep_view());
            let depth = self.outline[i].level.depth();
            pop_deeper(&mut stack, depth);
            if stack.len() == 0 || path[i] {
                visible.push(i);
            }
            if self.outline[i].collapsed {
                stack.push(depth);
            }
            i = i + 1;
        }
        visible
    }

    /// Whether entry `index` has children.
    pub fn outline_is_branch(&self, index: usize) -> (r: bool)
        ensures
            r == is_branch(self.view().outline, index as int),
    {
        if index < self.outline.len() && self.outline.len() - index > 1 {
            assert(self.outline.deep_view()[index as int] == self.outline@[index as int].deep_view());
            assert(self.outline.deep_view()[index as int + 1] == self.outline@[index as int + 1].deep_view());
            self.outline[index + 1].level.depth() > self.outline[index].level.depth()
        } else {
            false
        }
    }

    /// How entry `index` shows its children.
    pub fn outline_branch_state(&self, index: usize) -> (r: OutlineBranchState)
        ensures
            r == (if !is_branch(self.view().outline, index as int) {
                OutlineBranchState::Leaf
            } else if self.view().outline[index as int].collapsed {
                OutlineBranchState::Collapsed
            } else {
                OutlineBranchState::Expanded
            }),
    {
        if !self.outline_is_branch(index) {
            OutlineBranchState::Leaf
        } else if self.outline[index].collapsed {
            assert(self.outline.deep_view()[index as int] == self.outline@[index as int].deep_view());
            OutlineBranchState::Collapsed
        } else {
            assert(self.outline.deep_view()[index as int] == self.outline@[index as int].deep_view());
            OutlineBranchState::Expanded
        }
    }

    fn ensure_outline_context_visible(&mut self, height: u16)
        ensures
            final(self).view() == outline_context(old(self).view(), height),
    {
        let visible = self.visible_outline_indices();
        let selection = kept_selection_exec(self.outline_selection, &visible);
        let target = match self.focus {
            PaneFocus::Outline => selection,
            PaneFocus::Document => self.section_index(),
        };
        let viewport = outline_viewport_exec(self.outline_viewport, &visible, target, height);
        self.outline_selection = selection;
        self.outline_viewport = viewport;
    }
}

fn kept_selection_exec(selection: Option<usize>, visible: &Vec<usize>) -> (r: Option<usize>)
    ensures
        r == kept_selection(selection, visible@),
{
    match selection {
        Some(s) => {
            proof { lemma_index_in_bound(visible@, s); }
            match index_in_exec(visible, s) {
                Some(_) => Some(s),
                None => match last_below_exec(visible, s) {
                    Some(x) => Some(x),
                    None => if visible.len() > 0 { Some(visible[0]) } else { None },
                },
            }
        },
        None => None,
    }
}

fn outline_viewport_exec(viewport: usize, visible: &Vec<usize>, target: Option<usize>, height: u16) -> (r: usize)
    ensures
        r == outline_viewport_for(viewport, visible@, target, height),
{
    let t = match target {
        Some(t) => t,
        None => {
            return 0;
        },
    };
    let ti = match index_in_exec(visible, t) {
        Some(ti) => ti,
        None => {
            return 0;
        },
    };
    proof { lemma_index_in_bound(visible@, t); }
    let h: usize = if height >= 1 { height as usize } else { 1 };
    let maximum = if visible.len() >= h { visible.len() - h } else { 0 };
    let vp = if viewport < maximum { viewport } else { maximum };
    if ti < vp {
        ti
    } else if ti >= vp + h {
        ti + 1 - h
    } else {
        vp
    }
}

// ---------------------------------------------------------------------------
// Cursor motions
// ---------------------------------------------------------------------------

/// The content height after the cursor moved: a row less when a status
/// line appeared, a row more when it went away.
pub open spec fn height_after(v: SessionView, height: u16, had_status: bool) -> u16 {
    let shown = status_text_spec(v) is Some;
    if !had_status && shown {
        if height >= 1 { (height - 1) as u16 } else { 0 }
    } else if had_status && !shown {
        if height < u16::MAX { (height + 1) as u16 } else { height }
    } else {
        height
    }
}

/// After the cursor moved: the viewport shows it and the Outline follows.
pub open spec fn settle(v: SessionView, rows: Seq<Seq<CellView>>, height: u16) -> SessionView {
    outline_context(cursor_visible(v, rows, height), height)
}

/// Putting the cursor on a position.
pub open spec fn move_cursor_spec(v: SessionView, target: SemanticPosition, width: u16, height: u16) -> SessionView {
    let had = status_text_spec(v) is Some;
    let v1 = SessionView { cursor: Some(target), preferred_column: None, ..v };
    settle(v1, rows_spec(v1, width), height_after(v1, height, had))
}

/// The row `count - 1` rows below, within the rendering.
pub open spec fn row_clamp(row: usize, count: usize, rows_len: int) -> int {
    let r = sat_add(row as int, sat_sub(count as int, 1));
    let last = sat_sub(rows_len, 1);
    if r < last { r } else { last }
}

pub open spec fn first_navigable_position(row: Seq<CellView>) -> Option<SemanticPosition> {
    match first_navigable(row) {
        Some(j) => Some(row[j].position),
        None => None,
    }
}

pub open spec fn last_navigable_position(row: Seq<CellView>) -> Option<SemanticPosition> {
    match last_navigable(row) {
        Some(j) => Some(row[j].position),
        None => None,
    }
}

/// Where a motion takes the cursor from its location, and the column that
/// vertical motions keep.
pub open spec fn motion_target(
    v: SessionView,
    rows: Seq<Seq<CellView>>,
    loc: CellLocation,
    motion: Motion,
    count: usize,
) -> (Option<SemanticPosition>, Option<usize>) {
    match motion {
        Motion::Left => (horizontal_spec(rows, loc.position, false, count as int), None),
        Motion::Right => (horizontal_spec(rows, loc.position, true, count as int), None),
        Motion::Up | Motion::Down => {
            let column = match v.preferred_column {
                Some(c) => c,
                None => loc.column,
            };
            (Some(vertical_spec(rows, loc.row as int, loc.position, column as int, motion == Motion::Down, count as nat)), Some(column))
        },
        Motion::WordForward => (word_spec(v.document.blocks@, loc.position, true, count as nat), None),
        Motion::WordBackward => (word_spec(v.document.blocks@, loc.position, false, count as nat), None),
        Motion::RowStart | Motion::FirstNonBlank => (first_navigable_position(rows[row_clamp(loc.row, count, rows.len() as int)]), None),
        Motion::RowEnd => (last_navigable_position(rows[row_clamp(loc.row, count, rows.len() as int)]), None),
        Motion::ParagraphBackward => (paragraph_spec(rows, loc.position, false, count as int), None),
        Motion::ParagraphForward => (paragraph_spec(rows, loc.position, true, count as int), None),
    }
}

/// A cursor motion repeated `count` times. A cursor that is not shown goes
/// to the first position; a motion that finds no target leaves it.
pub open spec fn motion_spec(v: SessionView, width: u16, height: u16, motion: Motion, count: usize) -> SessionView {
    let had = status_text_spec(v) is Some;
    let rows = rows_spec(v, width);
    match v.cursor {
        None => v,
        Some(cursor) => match location_of(rows, cursor) {
            None => {
                let v1 = SessionView { cursor: first_position_of(rows), ..v };
                settle(v1, rows, height_after(v1, height, had))
            },
            Some(loc) => {
                let (target, column) = motion_target(v, rows, loc, motion, count);
                let v1 = SessionView {
                    cursor: if target is Some { target } else { v.cursor },
                    preferred_column: column,
                    ..v
                };
                settle(v1, rows, height_after(v1, height, had))
            },
        },
    }
}

/// The first cell of a row, if the cursor can rest on it.
pub open spec fn row_first_cell(rows: Seq<Seq<CellView>>, index: int) -> Option<SemanticPosition> {
    if 0 <= index < rows.len() && rows[index].len() > 0 && navigable(rows[index][0]) {
        Some(rows[index][0].position)
    } else {
        None
    }
}

/// `gg` and `G`: a counted row, else the first or last position.
pub open spec fn document_row_target(rows: Seq<Seq<CellView>>, count: Option<usize>, end: bool) -> Option<SemanticPosition> {
    match count {
        Some(c) if c > 0 && (end || c > 1) => match row_first_cell(rows, c - 1) {
            Some(p) => Some(p),
            None => last_position_of(rows),
        },
        _ => if end { last_position_of(rows) } else { first_position_of(rows) },
    }
}

pub open spec fn document_row_spec(v: SessionView, width: u16, height: u16, count: Option<usize>, end: bool) -> SessionView {
    let had = status_text_spec(v) is Some;
    let rows = rows_spec(v, width);
    let v1 = SessionView { cursor: document_row_target(rows, count, end), preferred_column: None, ..v };
    settle(v1, rows, height_after(v1, height, had))
}

/// Scrolling the viewport by rows, within the rendering.
pub open spec fn scroll_spec(v: SessionView, rows_len: int, height: u16, down: bool, amount: usize) -> SessionView {
    let h: int = if height >= 1 { height as int } else { 1 };
    let maximum = sat_sub(rows_len, h);
    let moved = if down { sat_add(v.viewport as int, amount as int) } else { sat_sub(v.viewport as int, amount as int) };
    SessionView { viewport: (if moved < maximum { moved } else { maximum }) as usize, ..v }
}

/// Walking the jump history moves the cursor to the location found.
pub open spec fn traverse_session(v: SessionView, direction: JumpDirection, width: u16, height: u16) -> SessionView {
    match v.cursor {
        None => v,
        Some(c) => {
            let (h, target) = traverse_spec(HistoryView { back: v.back, forward: v.forward }, c, direction);
            match target {
                None => v,
                Some(t) => move_cursor_spec(SessionView { back: h.back, forward: h.forward, ..v }, t, width, height),
            }
        },
    }
}

/// A count given before a key, at least one.
pub open spec fn count_or_one(pending: Option<usize>) -> usize {
    match pending {
        Some(c) => if c >= 1 { c } else { 1 },
        None => 1,
    }
}

/// Control keys: half pages and pages, scrolling, and the jump history.
pub open spec fn control_spec(v: SessionView, character: char, width: u16, height: u16) -> SessionView {
    if v.focus == PaneFocus::Outline {
        cleared(v)
    } else {
        let count = count_or_one(v.pending_count);
        let v1 = SessionView { pending_count: None, pending_g: false, ..v };
        let page: int = if height >= 1 { height as int } else { 1 };
        let half = sat_mul(count as int, if page / 2 >= 1 { page / 2 } else { 1 }) as usize;
        let full = sat_mul(count as int, page) as usize;
        let distance: usize = if count <= isize::MAX { count } else { isize::MAX as usize };
        if character == 'u' {
            motion_spec(v1, width, height, Motion::Up, half)
        } else if character == 'd' {
            motion_spec(v1, width, height, Motion::Down, half)
        } else if character == 'b' {
            motion_spec(v1, width, height, Motion::Up, full)
        } else if character == 'f' {
            motion_spec(v1, width, height, Motion::Down, full)
        } else if character == 'e' {
            scroll_spec(v1, rows_spec(v1, width).len() as int, height, true, distance)
        } else if character == 'y' {
            scroll_spec(v1, rows_spec(v1, width).len() as int, height, false, distance)
        } else if character == 'o' {
            traverse_session(v1, JumpDirection::Backward, width, height)
        } else if character == 'i' {
            traverse_session(v1, JumpDirection::Forward, width, height)
        } else {
            v1
        }
    }
}

fn row_first_cell_exec(rendered: &RenderedDocument, index: usize) -> (r: Option<SemanticPosition>)
    ensures
        r == row_first_cell(rendered.view_rows(), index as int),
{
    if index < rendered.rows.len() && rendered.rows[index].cells.len() > 0 {
        let cell = &rendered.rows[index].cells[0];
        assert(rendered.view_rows()[index as int] == rendered.rows@[index as int].cells.deep_view());
        assert(rendered.view_rows()[index as int][0] == cell.deep_view());
        if cell.is_navigable() {
            Some(cell.position)
        } else {
            None
        }
    } else {
        None
    }
}

impl ReadingSession {
    fn height_after_cursor_change(&self, height: u16, had_status: bool) -> (r: u16)
        ensures
            r == height_after(self.view(), height, had_status),
    {
        let shown = self.status_text().is_some();
        if !had_status && shown {
            height.saturating_sub(1)
        } else if had_status && !shown {
            height.saturating_add(1)
        } else {
            height
        }
    }

    /// The cursor was moved: keep it in view and let the Outline follow.
    fn settle(&mut self, rendered: &RenderedDocument, height: u16)
        ensures
            final(self).view() == settle(old(self).view(), rendered.view_rows(), height),
    {
        self.ensure_cursor_visible(rendered, height);
        self.ensure_outline_context_visible(height);
    }

    fn move_cursor_to(&mut self, target: SemanticPosition, width: u16, height: u16)
        ensures
            final(self).view() == move_cursor_spec(old(self).view(), target, width, height),
    {
        let had_status = self.status_text().is_some();
        self.cursor = Some(target);
        self.preferred_column = None;
        let height = self.height_after_cursor_change(height, had_status);
        let rendered = self.rendered(width);
        self.settle(&rendered, height);
    }

    fn motion_target(&self, rendered: &RenderedDocument, location: CellLocation, motion: Motion, count: usize) -> (r: (Option<SemanticPosition>, Option<usize>))
        requires
            location.row < rendered.view_rows().len(),
        ensures
            r == motion_target(self.view(), rendered.view_rows(), location, motion, count),
    {
        match motion {
            Motion::Left => (horizontal_target(rendered, location, false, count), None),
            Motion::Right => (horizontal_target(rendered, location, true, count), None),
            Motion::Up | Motion::Down => {
                let column = match self.preferred_column {
                    Some(c) => c,
                    None => location.column,
                };
                (vertical_target(rendered, location, column, motion == Motion::Down, count), Some(column))
            },
            Motion::WordForward => (word_target(&self.document, location.position, true, count), None),
            Motion::WordBackward => (word_target(&self.document, location.position, false, count), None),
            Motion::RowStart | Motion::FirstNonBlank | Motion::RowEnd => {
                let n = rendered.rows.len();
                let below = location.row.saturating_add(count.saturating_sub(1));
                let last = if n >= 1 { n - 1 } else { 0 };
                let row = if below < last { below } else { last };
                let cells = &rendered.rows[row].cells;
                assert(rendered.view_rows()[row as int] == cells.deep_view());
                let found = if motion == Motion::RowEnd { last_navigable_index(cells) } else { first_navigable_index(cells) };
                match found {
                    Some(j) => {
                        assert(cells.deep_view()[j as int] == cells@[j as int].deep_view());
                        (Some(cells[j].position), None)
                    },
                    None => (None, None),
                }
            },
            Motion::ParagraphBackward => (paragraph_target(rendered, location.position, false, count), None),
            Motion::ParagraphForward => (paragraph_target(rendered, location.position, true, count), None),
        }
    }

    fn motion(&mut self, width: u16, height: u16, motion: Motion, count: usize)
        ensures
            final(self).view() == motion_spec(old(self).view(), width, height, motion, count),
    {
        let had_status = self.status_text().is_some();
        let rendered = self.rendered(width);
        let cursor = match self.cursor {
            Some(c) => c,
            None => {
                return;
            },
        };
        let location = match rendered.cell_for_position(cursor) {
            Some(l) => l,
            None => {
                self.cursor = rendered.first_position();
                let h = self.height_after_cursor_change(height, had_status);
                self.settle(&rendered, h);
                return;
            },
        };
        proof { crate::layout::lemma_first_row_bound(rendered.view_rows(), cursor); }
        let (target, column) = self.motion_target(&rendered, location, motion, count);
        if target.is_some() {
            self.cursor = target;
        }
        self.preferred_column = column;
        let h = self.height_after_cursor_change(height, had_status);
        self.settle(&rendered, h);
    }

    fn document_row(&mut self, width: u16, height: u16, count: Option<usize>, end: bool)
        ensures
            final(self).view() == document_row_spec(old(self).view(), width, height, count, end),
    {
        let had_status = self.status_text().is_some();
        let rendered = self.rendered(width);
        self.preferred_column = None;
        self.cursor = match count {
            Some(c) if c > 0 && (end || c > 1) => match row_first_cell_exec(&rendered, c - 1) {
                Some(p) => Some(p),
                None => rendered.last_position(),
            },
            _ => if end { rendered.last_position() } else { rendered.first_position() },
        };
        let h = self.height_after_cursor_change(height, had_status);
        self.settle(&rendered, h);
    }

    fn scroll(&mut self, rendered: &RenderedDocument, height: u16, down: bool, amount: usize)
        ensures
            final(self).view() == scroll_spec(old(self).view(), rendered.view_rows().len() as int, height, down, amount),
    {
        let h: usize = if height >= 1 { height as usize } else { 1 };
        let n = rendered.rows.len();
        let maximum = if n >= h { n - h } else { 0 };
        let moved = if down { self.viewport.saturating_add(amount) } else { self.viewport.saturating_sub(amount) };
        self.viewport = if moved < maximum { moved } else { maximum };
    }

    fn traverse_jump_history(&mut self, direction: JumpDirection, width: u16, height: u16)
        ensures
            final(self).view() == traverse_session(old(self).view(), direction, width, height),
    {
        let cursor = match self.cursor {
            Some(c) => c,
            None => {
                return;
            },
        };
        match self.jump_history.traverse(cursor, direction) {
            Some(target) => self.move_cursor_to(target, width, height),
            None => {},
        }
    }

    fn control(&mut self, character: char, width: u16, height: u16)
        ensures
            final(self).view() == control_spec(old(self).view(), character, width, height),
    {
        if self.focus == PaneFocus::Outline {
            self.clear_pending();
            return;
        }
        let count = match self.pending_count {
            Some(c) => if c >= 1 { c } else { 1 },
            None => 1,
        };
        self.pending_count = None;
        self.pending_g = false;
        let page: usize = if height >= 1 { height as usize } else { 1 };
        let half_step: usize = if page / 2 >= 1 { page / 2 } else { 1 };
        let half = crate::navigation::saturating_mul(count, half_step);
        let full = crate::navigation::saturating_mul(count, page);
        let distance: usize = if count <= isize::MAX as usize { count } else { isize::MAX as usize };
        if character == 'u' {
            self.motion(width, height, Motion::Up, half);
        } else if character == 'd' {
            self.motion(width, height, Motion::Down, half);
        } else if character == 'b' {
            self.motion(width, height, Motion::Up, full);
        } else if character == 'f' {
            self.motion(width, height, Motion::Down, full);
        } else if character == 'e' {
            let rendered = self.rendered(width);
            self.scroll(&rendered, height, true, distance);
        } else if character == 'y' {
            let rendered = self.rendered(width);
            self.scroll(&rendered, height, false, distance);
        } else if character == 'o' {
            self.traverse_jump_history(JumpDirection::Backward, width, height);
        } else if character == 'i' {
            self.traverse_jump_history(JumpDirection::Forward, width, height);
        }
    }
}

// ---------------------------------------------------------------------------
// Search
// ---------------------------------------------------------------------------

/// The first match after a position.
pub open spec fn first_match_after(ms: Seq<MatchView>, c: SemanticPosition) -> Option<SemanticPosition>
    decreases ms.len(),
{
    if ms.len() == 0 {
        None
    } else {
        match first_match_after(ms.drop_last(), c) {
            Some(p) => Some(p),
            None => if pos_lt(c, ms.last().start) { Some(ms.last().start) } else { None },
        }
    }
}

/// The last match before a position.
pub open spec fn last_match_before(ms: Seq<MatchView>, c: SemanticPosition) -> Option<SemanticPosition>
    decreases ms.len(),
{
    if ms.len() == 0 {
        None
    } else if pos_lt(ms.last().start, c) {
        Some(ms.last().start)
    } else {
        last_match_before(ms.drop_last(), c)
    }
}

/// `n` goes to the next match after the cursor and `N` to the previous
/// one, wrapping around the Document.
pub open spec fn search_target(ms: Seq<MatchView>, c: SemanticPosition, forward: bool) -> Option<SemanticPosition> {
    if forward {
        match first_match_after(ms, c) {
            Some(p) => Some(p),
            None => if ms.len() > 0 { Some(ms[0].start) } else { None },
        }
    } else {
        match last_match_before(ms, c) {
            Some(p) => Some(p),
            None => if ms.len() > 0 { Some(ms.last().start) } else { None },
        }
    }
}

pub open spec fn navigate_search_spec(v: SessionView, forward: bool, width: u16, height: u16) -> SessionView {
    match v.cursor {
        None => v,
        Some(c) => match search_target(v.matches, c, forward) {
            None => v,
            Some(t) => move_cursor_spec(v, t, width, height),
        },
    }
}

/// Enter in the search prompt: an empty query restores what was before;
/// otherwise the matches are found and the cursor goes to the next one.
pub open spec fn confirm_search_spec(v: SessionView, width: u16, screen_height: u16) -> SessionView
    recommends
        v.prompt is Some,
{
    let p = v.prompt->0;
    let v0 = SessionView { prompt: None, ..v };
    if p.query.len() == 0 {
        SessionView {
            focus: p.prior_focus,
            viewport: p.prior_viewport,
            outline_viewport: p.prior_outline_viewport,
            search_message: p.prior_message,
            ..v0
        }
    } else {
        let matches = search_matches(v.document.blocks@, p.query);
        let v1 = SessionView { focus: PaneFocus::Document, matches, search_query: Some(p.query), ..v0 };
        if matches.len() == 0 {
            let v2 = SessionView { search_message: Some("Pattern not found: "@ + p.query), ..v1 };
            cursor_visible(v2, rows_spec(v2, width), content_height_spec(v2, screen_height))
        } else {
            let v2 = SessionView { search_message: None, ..v1 };
            navigate_search_spec(v2, true, width, content_height_spec(v2, screen_height))
        }
    }
}

/// A key while the search prompt is open.
pub open spec fn search_prompt_key_spec(v: SessionView, key: KeyInput, width: u16, screen_height: u16) -> SessionView
    recommends
        v.prompt is Some,
{
    let p = v.prompt->0;
    if key.code == KeyCode::Enter {
        confirm_search_spec(v, width, screen_height)
    } else {
        let v1 = match key.code {
            KeyCode::Esc => SessionView {
                prompt: None,
                focus: if p.prior_focus == PaneFocus::Outline && !outline_visible_spec(v, width) { PaneFocus::Document } else { p.prior_focus },
                viewport: p.prior_viewport,
                outline_viewport: p.prior_outline_viewport,
                search_message: p.prior_message,
                ..v
            },
            KeyCode::Backspace => SessionView {
                prompt: Some(PromptView { query: if p.query.len() > 0 { p.query.drop_last() } else { p.query }, ..p }),
                ..v
            },
            KeyCode::Char(c) => if !key.control && !key.alt {
                SessionView { prompt: Some(PromptView { query: p.query.push(c), ..p }), ..v }
            } else {
                v
            },
            _ => v,
        };
        let v2 = cursor_visible(v1, rows_spec(v1, width), content_height_spec(v1, screen_height));
        outline_context(v2, content_height_spec(v2, screen_height))
    }
}

/// Whether a position is part of a match.
pub open spec fn in_matches(ms: Seq<MatchView>, p: SemanticPosition) -> bool
    decreases ms.len(),
{
    ms.len() > 0 && (in_matches(ms.drop_last(), p) || ms.last().positions.contains(p))
}

/// Whether a block's generated label is part of a match.
pub open spec fn leading_in_matches(ms: Seq<MatchView>, block: usize) -> bool
    decreases ms.len(),
{
    ms.len() > 0 && (leading_in_matches(ms.drop_last(), block) || ms.last().leading_blocks.contains(block))
}

// ---------------------------------------------------------------------------
// Outline selection, links and Selections
// ---------------------------------------------------------------------------

/// `j` and `k` in the Outline: move the selection over the shown entries.
pub open spec fn move_outline_selection_spec(v: SessionView, count: usize, forward: bool, height: u16) -> SessionView {
    match v.outline_selection {
        None => v,
        Some(sel) => {
            let visible = visible_outline_spec(v);
            match index_in(visible, sel) {
                None => v,
                Some(row) => {
                    let target = if forward {
                        let t = sat_add(row, count as int);
                        let last = sat_sub(visible.len() as int, 1);
                        if t < last { t } else { last }
                    } else {
                        sat_sub(row, count as int)
                    };
                    let v1 = SessionView {
                        outline_selection: if 0 <= target < visible.len() { Some(visible[target]) } else { None },
                        ..v
                    };
                    outline_context(v1, height)
                },
            }
        },
    }
}

/// `h` and `l` in the Outline: collapse or expand the selected branch.
pub open spec fn set_branch_spec(v: SessionView, collapsed: bool, height: u16) -> SessionView {
    match v.outline_selection {
        None => v,
        Some(sel) => {
            let v1 = if is_branch(v.outline, sel as int) {
                SessionView { outline: v.outline.update(sel as int, EntryView { collapsed, ..v.outline[sel as int] }), ..v }
            } else {
                v
            };
            outline_context(v1, height)
        },
    }
}

/// A jump leaves the cursor's location in the history.
pub open spec fn record_cursor(v: SessionView) -> SessionView {
    match v.cursor {
        Some(c) => SessionView { back: v.back.push(c), forward: Seq::empty(), ..v },
        None => v,
    }
}

/// Enter in the Outline: jump to the selected heading.
pub open spec fn activate_outline_spec(v: SessionView, width: u16, screen_height: u16) -> SessionView {
    match v.outline_selection {
        Some(i) => if i < v.outline.len() {
            let v1 = SessionView { focus: PaneFocus::Document, ..record_cursor(v) };
            move_cursor_spec(v1, v.outline[i as int].position, width, content_height_spec(v1, screen_height))
        } else {
            v
        },
        None => v,
    }
}

/// Following a link: a fragment jumps within the Document, a web address
/// is handed to the browser, anything else is reported.
pub open spec fn activate_link_spec(v: SessionView, target: Seq<char>, width: u16, height: u16) -> SessionView {
    let v0 = SessionView { status: None, ..v };
    if target.len() > 0 && target[0] == '#' {
        let fragment = target.skip(1);
        match target_of(v.targets, lowercase_text(fragment)) {
            None => SessionView { status: Some("Target not found: #"@ + fragment), ..v0 },
            Some(destination) => move_cursor_spec(record_cursor(v0), destination, width, height),
        }
    } else if web_url(target) {
        SessionView { effects: v0.effects.push(EffectView::OpenBrowser(target)), ..v0 }
    } else {
        SessionView {
            status: Some(if relative_path(target) {
                "Relative links cannot be opened"@
            } else {
                "Unsupported link scheme: "@ + target
            }),
            ..v0
        }
    }
}

/// `gx`: follow the link under the cursor.
pub open spec fn activate_under_cursor_spec(v: SessionView, width: u16, height: u16) -> SessionView {
    match link_under_cursor(v) {
        None => v,
        Some(t) => activate_link_spec(v, t, width, height),
    }
}

/// `o`: show or hide the Outline.
pub open spec fn toggle_outline_spec(v: SessionView, width: u16, screen_height: u16) -> SessionView {
    let v1 = SessionView { outline_enabled: !v.outline_enabled, ..v };
    let v2 = if !outline_visible_spec(v1, width) { SessionView { focus: PaneFocus::Document, ..v1 } } else { v1 };
    settle(v2, rows_spec(v2, width), content_height_spec(v2, screen_height))
}

/// Toggling the Outline changes which panes are shown and nothing the
/// reader placed: the Reading Cursor, the Selection, the search and the
/// jump history stay; toggling twice gives the Outline back its setting.
pub proof fn lemma_toggle_outline_keeps_the_cursor(v: SessionView, width: u16, screen_height: u16)
    ensures
        toggle_outline_spec(v, width, screen_height).cursor == v.cursor,
        toggle_outline_spec(v, width, screen_height).selection == v.selection,
        toggle_outline_spec(v, width, screen_height).matches == v.matches,
        toggle_outline_spec(v, width, screen_height).back == v.back,
        toggle_outline_spec(v, width, screen_height).forward == v.forward,
        toggle_outline_spec(v, width, screen_height).document == v.document,
        toggle_outline_spec(v, width, screen_height).outline_enabled != v.outline_enabled,
        toggle_outline_spec(toggle_outline_spec(v, width, screen_height), width, screen_height).outline_enabled
            == v.outline_enabled,
{
}

/// `r`: ask for the source to be read again, if there is one.
pub open spec fn request_reload_spec(v: SessionView) -> SessionView {
    cleared(match v.source {
        Some(path) => SessionView { effects: v.effects.push(EffectView::ReloadDocument(path)), status: None, ..v },
        None => SessionView { status: Some("Reload unavailable: standard-input Documents cannot be reloaded"@), ..v },
    })
}

/// `v` and `V`: start a Selection at the cursor.
pub open spec fn begin_selection_spec(v: SessionView, mode: SelectionMode) -> SessionView {
    match v.cursor {
        None => v,
        Some(c) => cleared(SessionView { selection: Some(Selection { mode, anchor: c }), status: None, ..v }),
    }
}

/// `y`: end the Selection and ask for its text to be copied.
pub open spec fn yank_spec(v: SessionView, width: u16) -> SessionView {
    match v.selection {
        None => v,
        Some(sel) => match v.cursor {
            None => SessionView { selection: None, ..v },
            Some(c) => cleared(SessionView {
                selection: None,
                effects: v.effects.push(EffectView::WriteClipboard(
                    selection_text(v.document, rows_spec(v, width), sel.mode, sel.anchor, c),
                )),
                ..v
            }),
        },
    }
}

/// Whether a position is inside the Selection: between its ends in
/// Document order, or on a row between theirs.
pub open spec fn selection_contains_spec(v: SessionView, position: SemanticPosition, width: u16) -> bool {
    match v.selection {
        None => false,
        Some(sel) => match v.cursor {
            None => false,
            Some(c) => match sel.mode {
                SelectionMode::Characterwise => crate::layout::pos_le(ordered(sel.anchor, c).0, position)
                    && crate::layout::pos_le(position, ordered(sel.anchor, c).1),
                SelectionMode::Row => {
                    let rows = rows_spec(v, width);
                    match first_row_at(rows, sel.anchor) {
                        None => false,
                        Some(a) => match first_row_at(rows, c) {
                            None => false,
                            Some(b) => match first_row_at(rows, position) {
                                None => false,
                                Some(p) => (if a < b { a } else { b }) <= p <= (if a < b { b } else { a }),
                            },
                        },
                    }
                },
            },
        },
    }
}

/// The status after a copy was attempted.
pub open spec fn clipboard_status(result: ClipboardResult) -> Seq<char> {
    match result {
        ClipboardResult::Copied(_) => "Copied"@,
        ClipboardResult::Failed(m) => if m@.len() == 0 { "Copy failed"@ } else { "Copy failed: "@ + m@ },
    }
}

/// The status after the browser was asked to open a link.
pub open spec fn browser_status(result: BrowserResult) -> Option<Seq<char>> {
    match result {
        BrowserResult::Opened => None,
        BrowserResult::Failed(m) => Some(if m@.len() == 0 { "Browser failed"@ } else { "Browser failed: "@ + m@ }),
    }
}

/// The block of a rendered row: that of its first cell.
pub open spec fn row_block(row: Seq<CellView>) -> usize {
    if row.len() > 0 { row[0].position.block } else { 0 }
}

/// A code block with a language, which syntax highlighting can style.
pub open spec fn highlightable(d: Document, b: usize) -> bool {
    b < d.blocks@.len() && d.blocks@[b as int].kind == crate::document::BlockKind::Code && d.blocks@[b as int].language is Some
}

/// The highlightable blocks of rows `from..to`, each once, in order of first appearance.
pub open spec fn highlight_blocks(d: Document, rows: Seq<Seq<CellView>>, from: int, to: int) -> Seq<usize>
    decreases to - from,
{
    if to <= from {
        Seq::empty()
    } else {
        let earlier = highlight_blocks(d, rows, from, to - 1);
        let b = row_block(rows[to - 1]);
        if highlightable(d, b) && !earlier.contains(b) { earlier.push(b) } else { earlier }
    }
}

/// The code blocks to highlight: those on rows within one screen of the viewport.
pub open spec fn highlight_requests_spec(v: SessionView, width: u16, screen_height: u16) -> Seq<usize> {
    let rows = rows_spec(v, width);
    let h = content_height_spec(v, screen_height);
    let margin: int = if h >= 1 { h as int } else { 1 };
    let first = sat_sub(v.viewport as int, margin);
    let last0 = sat_add(v.viewport as int, sat_mul(margin, 2));
    let last = if last0 < rows.len() { last0 } else { rows.len() as int };
    highlight_blocks(v.document, rows, if first < last { first } else { last }, last)
}

fn contains_index(v: &Vec<usize>, x: usize) -> (r: bool)
    ensures
        r == v@.contains(x),
{
    let mut i: usize = 0;
    while i < v.len()
        invariant
            i <= v@.len(),
            forall|j: int| 0 <= j < i ==> v@[j] != x,
        decreases v.len() - i,
    {
        if v[i] == x {
            assert(v@[i as int] == x);
            return true;
        }
        i = i + 1;
    }
    false
}

fn positions_contain(v: &Vec<SemanticPosition>, p: SemanticPosition) -> (r: bool)
    ensures
        r == v@.contains(p),
{
    let mut i: usize = 0;
    while i < v.len()
        invariant
            i <= v@.len(),
            forall|j: int| 0 <= j < i ==> v@[j] != p,
        decreases v.len() - i,
    {
        if v[i] == p {
            assert(v@[i as int] == p);
            return true;
        }
        i = i + 1;
    }
    false
}

impl ReadingSession {
    fn navigate_search(&mut self, forward: bool, width: u16, height: u16)
        ensures
            final(self).view() == navigate_search_spec(old(self).view(), forward, width, height),
    {
        let ghost ms = self.search_matches.deep_view();
        let cursor = match self.cursor {
            Some(c) => c,
            None => {
                return;
            },
        };
        let n = self.search_matches.len();
        let mut target: Option<SemanticPosition> = None;
        if forward {
            let mut i: usize = 0;
            while i < n && target.is_none()
                invariant
                    i <= n,
                    n == self.search_matches@.len(),
                    ms == self.search_matches.deep_view(),
                    target is None ==> first_match_after(ms.take(i as int), cursor) is None,
                    target is Some ==> first_match_after(ms, cursor) == target,
                decreases n - i + (if target is None { 1int } else { 0int }),
            {
                assert(ms.take(i as int + 1).drop_last() =~= ms.take(i as int));
                assert(ms[i as int] == self.search_matches@[i as int].deep_view());
                if position_lt(cursor, self.search_matches[i].start) {
                    proof { lemma_first_match_prefix(ms, i as int + 1, cursor); }
                    target = Some(self.search_matches[i].start);
                } else {
                    i = i + 1;
                }
            }
            if target.is_none() {
                assert(ms.take(n as int) =~= ms);
                if n > 0 {
                    assert(ms[0] == self.search_matches@[0].deep_view());
                    target = Some(self.search_matches[0].start);
                }
            }
        } else {
            let mut i = n;
            assert(ms.take(i as int) =~= ms);
            while i > 0 && target.is_none()
                invariant
                    i <= n,
                    n == self.search_matches@.len(),
                    ms == self.search_matches.deep_view(),
                    target is None ==> last_match_before(ms, cursor) == last_match_before(ms.take(i as int), cursor),
                    target is Some ==> last_match_before(ms, cursor) == target,
                decreases i + (if target is None { 1int } else { 0int }),
            {
                assert(ms.take(i as int).drop_last() =~= ms.take(i as int - 1));
                assert(ms[i as int - 1] == self.search_matches@[i as int - 1].deep_view());
                if position_lt(self.search_matches[i - 1].start, cursor) {
                    target = Some(self.search_matches[i - 1].start);
                } else {
                    i = i - 1;
                }
            }
            if target.is_none() && n > 0 {
                assert(ms[n as int - 1] == self.search_matches@[n as int - 1].deep_view());
                target = Some(self.search_matches[n - 1].start);
            }
        }
        match target {
            Some(t) => self.move_cursor_to(t, width, height),
            None => {},
        }
    }

    fn confirm_search(&mut self, width: u16, screen_height: u16)
        requires
            old(self).view().prompt is Some,
        ensures
            final(self).view() == confirm_search_spec(old(self).view(), width, screen_height),
    {
        let prompt = match self.search_prompt.take() {
            Some(p) => p,
            None => {
                return;
            },
        };
        if prompt.query.len() == 0 {
            self.focus = prompt.prior_focus;
            self.viewport = prompt.prior_viewport;
            self.outline_viewport = prompt.prior_outline_viewport;
            self.search_message = prompt.prior_message;
            return;
        }
        self.focus = PaneFocus::Document;
        let query = string_of(&prompt.query);
        self.search_matches = find_matches(&self.document, query.as_str());
        self.search_query = Some(query);
        if self.search_matches.len() == 0 {
            self.search_message = Some(joined("Pattern not found: ", &prompt.query));
            let rendered = self.rendered(width);
            let h = self.content_height(screen_height);
            self.ensure_cursor_visible(&rendered, h);
            return;
        }
        self.search_message = None;
        let h = self.content_height(screen_height);
        self.navigate_search(true, width, h);
    }

    fn search_prompt_key(&mut self, key: KeyInput, width: u16, screen_height: u16)
        requires
            old(self).view().prompt is Some,
        ensures
            final(self).view() == search_prompt_key_spec(old(self).view(), key, width, screen_height),
    {
        if key.code == KeyCode::Enter {
            self.confirm_search(width, screen_height);
            return;
        }
        match key.code {
            KeyCode::Esc => {
                let visible = self.outline_is_visible(width);
                match self.search_prompt.take() {
                    Some(prompt) => {
                        self.focus = if prompt.prior_focus == PaneFocus::Outline && !visible {
                            PaneFocus::Document
                        } else {
                            prompt.prior_focus
                        };
                        self.viewport = prompt.prior_viewport;
                        self.outline_viewport = prompt.prior_outline_viewport;
                        self.search_message = prompt.prior_message;
                    },
                    None => {},
                }
            },
            KeyCode::Backspace => match self.search_prompt.take() {
                Some(mut prompt) => {
                    prompt.query.pop();
                    self.search_prompt = Some(prompt);
                },
                None => {},
            },
            KeyCode::Char(c) => if !key.control && !key.alt {
                match self.search_prompt.take() {
                    Some(mut prompt) => {
                        prompt.query.push(c);
                        self.search_prompt = Some(prompt);
                    },
                    None => {},
                }
            },
            _ => {},
        }
        let rendered = self.rendered(width);
        let h = self.content_height(screen_height);
        self.ensure_cursor_visible(&rendered, h);
        let h = self.content_height(screen_height);
        self.ensure_outline_context_visible(h);
    }

    /// Whether a position is part of a search match.
    pub fn is_search_match(&self, position: SemanticPosition) -> (r: bool)
        ensures
            r == in_matches(self.view().matches, position),
    {
        let ghost ms = self.search_matches.deep_view();
        let mut i: usize = 0;
        let mut found = false;
        while i < self.search_matches.len()
            invariant
                i <= self.search_matches@.len(),
                ms == self.search_matches.deep_view(),
                found == in_matches(ms.take(i as int), position),
            decreases self.search_matches.len() - i,
        {
            assert(ms.take(i as int + 1).drop_last() =~= ms.take(i as int));
            assert(ms[i as int] == self.search_matches@[i as int].deep_view());
            if positions_contain(&self.search_matches[i].positions, position) {
                found = true;
            }
            i = i + 1;
        }
        assert(ms.take(self.search_matches@.len() as int) =~= ms);
        found
    }

    /// The query to highlight in a block's generated label, if it matched there.
    pub fn search_leading_query(&self, block: usize) -> (r: Option<&str>)
        ensures
            match r {
                Some(q) => leading_in_matches(self.view().matches, block) && self.view().search_query == Some(q@),
                None => !leading_in_matches(self.view().matches, block) || self.view().search_query is None,
            },
    {
        let ghost ms = self.search_matches.deep_view();
        let mut i: usize = 0;
        let mut found = false;
        while i < self.search_matches.len()
            invariant
                i <= self.search_matches@.len(),
                ms == self.search_matches.deep_view(),
                found == leading_in_matches(ms.take(i as int), block),
            decreases self.search_matches.len() - i,
        {
            assert(ms.take(i as int + 1).drop_last() =~= ms.take(i as int));
            assert(ms[i as int] == self.search_matches@[i as int].deep_view());
            if contains_index(&self.search_matches[i].leading_blocks, block) {
                found = true;
            }
            i = i + 1;
        }
        assert(ms.take(self.search_matches@.len() as int) =~= ms);
        if !found {
            return None;
        }
        match &self.search_query {
            Some(q) => Some(q.as_str()),
            None => None,
        }
    }

    fn move_outline_selection(&mut self, count: usize, forward: bool, height: u16)
        ensures
            final(self).view() == move_outline_selection_spec(old(self).view(), count, forward, height),
    {
        let selection = match self.outline_selection {
            Some(s) => s,
            None => {
                return;
            },
        };
        let visible = self.visible_outline_indices();
        let ghost v = self.view();
        let row = match index_in_exec(&visible, selection) {
            Some(r) => r,
            None => {
                return;
            },
        };
        proof { lemma_index_in_bound(visible@, selection); }
        let n = visible.len();
        let target = if forward {
            let t = row.saturating_add(count);
            let last = if n >= 1 { n - 1 } else { 0 };
            if t < last { t } else { last }
        } else {
            row.saturating_sub(count)
        };
        self.outline_selection = if target < n { Some(visible[target]) } else { None };
        assert(section_path_spec(self.view()) =~= section_path_spec(v));
        assert(visible_outline_spec(self.view()) == visible_outline_spec(v));
        self.ensure_outline_context_visible(height);
    }

    fn set_outline_branch_collapsed(&mut self, collapsed: bool, height: u16)
        ensures
            final(self).view() == set_branch_spec(old(self).view(), collapsed, height),
    {
        let selection = match self.outline_selection {
            Some(s) => s,
            None => {
                return;
            },
        };
        if self.outline_is_branch(selection) {
            let ghost o = self.outline.deep_view();
            assert(o[selection as int] == self.outline@[selection as int].deep_view());
            let entry = OutlineEntry {
                position: self.outline[selection].position,
                level: self.outline[selection].level,
                label: self.outline[selection].label.clone(),
                collapsed,
            };
            self.outline.set(selection, entry);
            assert(self.outline.deep_view() =~= o.update(selection as int, EntryView { collapsed, ..o[selection as int] }));
        }
        self.ensure_outline_context_visible(height);
    }

    fn activate_outline_selection(&mut self, width: u16, screen_height: u16)
        ensures
            final(self).view() == activate_outline_spec(old(self).view(), width, screen_height),
    {
        let target = match self.outline_selection() {
            Some(t) => t,
            None => {
                return;
            },
        };
        match self.cursor {
            Some(c) => self.jump_history.record(c),
            None => {},
        }
        self.focus = PaneFocus::Document;
        let height = self.content_height(screen_height);
        self.move_cursor_to(target, width, height);
    }

    fn activate_link_target(&mut self, target: &String, width: u16, height: u16)
        ensures
            final(self).view() == activate_link_spec(old(self).view(), target@, width, height),
    {
        self.status_message = None;
        let t = chars_of(target.as_str());
        if t.len() > 0 && t[0] == '#' {
            let fragment = crate::links::suffix_from(&t, 1);
            let key = to_lowercase(&fragment);
            match lookup_target(&self.fragment_targets, &key) {
                None => {
                    self.status_message = Some(joined("Target not found: #", &fragment));
                },
                Some(destination) => {
                    match self.cursor {
                        Some(c) => self.jump_history.record(c),
                        None => {},
                    }
                    self.move_cursor_to(destination, width, height);
                },
            }
            return;
        }
        if is_web_url(target.as_str()) {
            let ghost e = self.effects.deep_view();
            self.effects.push(Effect::OpenBrowser(target.clone()));
            assert(self.effects.deep_view() =~= e.push(EffectView::OpenBrowser(target@)));
            return;
        }
        self.status_message = Some(if looks_like_relative_path(&t) {
            string_of(&chars_of("Relative links cannot be opened"))
        } else {
            joined("Unsupported link scheme: ", &t)
        });
    }

    fn activate_under_cursor(&mut self, width: u16, height: u16)
        ensures
            final(self).view() == activate_under_cursor_spec(old(self).view(), width, height),
    {
        let cursor = match self.cursor {
            Some(c) => c,
            None => {
                return;
            },
        };
        match link_target_at_position(&self.document, cursor) {
            Some(target) => self.activate_link_target(&target, width, height),
            None => {},
        }
    }

    fn toggle_outline(&mut self, width: u16, screen_height: u16)
        ensures
            final(self).view() == toggle_outline_spec(old(self).view(), width, screen_height),
    {
        self.outline_enabled = !self.outline_enabled;
        if !self.outline_is_visible(width) {
            self.focus = PaneFocus::Document;
        }
        let height = self.content_height(screen_height);
        let rendered = self.rendered(width);
        self.settle(&rendered, height);
    }

    fn request_reload(&mut self)
        ensures
            final(self).view() == request_reload_spec(old(self).view()),
    {
        match &self.source {
            Some(path) => {
                let ghost e = self.effects.deep_view();
                self.effects.push(Effect::ReloadDocument(path.clone()));
                assert(self.effects.deep_view() =~= e.push(EffectView::ReloadDocument(path@)));
                self.status_message = None;
            },
            None => {
                self.status_message = Some(string_of(&chars_of("Reload unavailable: standard-input Documents cannot be reloaded")));
            },
        }
        self.clear_pending();
    }

    fn begin_selection(&mut self, mode: SelectionMode)
        ensures
            final(self).view() == begin_selection_spec(old(self).view(), mode),
    {
        let anchor = match self.cursor {
            Some(c) => c,
            None => {
                return;
            },
        };
        self.selection = Some(Selection { mode, anchor });
        self.status_message = None;
        self.clear_pending();
    }

    fn yank_selection(&mut self, width: u16)
        ensures
            final(self).view() == yank_spec(old(self).view(), width),
    {
        let selection = match self.selection.take() {
            Some(s) => s,
            None => {
                return;
            },
        };
        let cursor = match self.cursor {
            Some(c) => c,
            None => {
                return;
            },
        };
        let rendered = self.rendered(width);
        let text = selected_text(&self.document, &rendered, selection.mode, selection.anchor, cursor);
        let ghost e = self.effects.deep_view();
        let ghost t = text@;
        self.effects.push(Effect::WriteClipboard(text));
        assert(self.effects.deep_view() =~= e.push(EffectView::WriteClipboard(t)));
        self.clear_pending();
    }

    /// Whether a position is inside the Selection.
    pub fn selection_contains(&self, position: SemanticPosition, width: u16) -> (r: bool)
        ensures
            r == selection_contains_spec(self.view(), position, width),
    {
        let selection = match self.selection {
            Some(s) => s,
            None => {
                return false;
            },
        };
        let cursor = match self.cursor {
            Some(c) => c,
            None => {
                return false;
            },
        };
        match selection.mode {
            SelectionMode::Characterwise => {
                let ends = ordered_endpoints(selection.anchor, cursor);
                let after_start = crate::layout::position_le(ends.0, position);
                let before_end = crate::layout::position_le(position, ends.1);
                after_start && before_end
            },
            SelectionMode::Row => {
                let rendered = self.rendered(width);
                let _ = rendered.rows.len();
                assert(rendered.view_rows().len() == rendered.rows@.len());
                proof {
                    crate::layout::lemma_first_row_bound(rendered.view_rows(), selection.anchor);
                    crate::layout::lemma_first_row_bound(rendered.view_rows(), cursor);
                    crate::layout::lemma_first_row_bound(rendered.view_rows(), position);
                }
                let a = match rendered.row_for_position(selection.anchor) {
                    Some(a) => a,
                    None => {
                        return false;
                    },
                };
                let b = match rendered.row_for_position(cursor) {
                    Some(b) => b,
                    None => {
                        return false;
                    },
                };
                let p = match rendered.row_for_position(position) {
                    Some(p) => p,
                    None => {
                        return false;
                    },
                };
                let low = if a < b { a } else { b };
                let high = if a < b { b } else { a };
                low <= p && p <= high
            },
        }
    }

    /// Whether a position is shown selected.
    pub fn is_selected(&self, position: SemanticPosition, width: u16) -> (r: bool)
        ensures
            r == selection_contains_spec(self.view(), position, width),
    {
        self.selection_contains(position, width)
    }

    /// How the cell at a position is drawn at a pane width: its semantic
    /// role (with the code highlight given for it) in its block's alert,
    /// then a search match, and, for a cell the cursor can rest on, the
    /// Selection and the Reading Cursor.
    pub fn cell_look(
        &self,
        position: SemanticPosition,
        navigable: bool,
        width: u16,
        highlight: Option<HighlightStyle>,
        color_enabled: bool,
    ) -> (r: CellPresentation)
        ensures
            r == cell_look_spec(self.view(), position, navigable, width, highlight, color_enabled),
    {
        let style = cell_style_at(&self.document, position, highlight);
        let alert = if position.block < self.document.blocks.len() {
            self.document.blocks[position.block].alert
        } else {
            None
        };
        let base = cell_presentation(style, alert, color_enabled);
        let search_match = self.is_search_match(position);
        let selected = navigable && self.selection_contains(position, width);
        let at_cursor = navigable && match self.cursor {
            Some(c) => c.block == position.block && c.grapheme == position.grapheme,
            None => false,
        };
        marked_presentation(base, search_match, selected, at_cursor, color_enabled)
    }

    /// Records how a copy went.
    pub fn report_clipboard_result(&mut self, result: ClipboardResult)
        ensures
            final(self).view() == (SessionView { status: Some(clipboard_status(result)), ..old(self).view() }),
    {
        self.status_message = Some(match &result {
            ClipboardResult::Copied(_) => string_of(&chars_of("Copied")),
            ClipboardResult::Failed(message) => {
                let m = chars_of(message.as_str());
                if m.len() == 0 {
                    string_of(&chars_of("Copy failed"))
                } else {
                    joined("Copy failed: ", &m)
                }
            },
        });
    }

    /// Records how opening a link in the browser went.
    pub fn report_browser_result(&mut self, result: BrowserResult)
        ensures
            final(self).view() == (SessionView { status: browser_status(result), ..old(self).view() }),
    {
        self.status_message = match &result {
            BrowserResult::Opened => None,
            BrowserResult::Failed(message) => {
                let m = chars_of(message.as_str());
                Some(if m.len() == 0 {
                    string_of(&chars_of("Browser failed"))
                } else {
                    joined("Browser failed: ", &m)
                })
            },
        };
    }

    /// Hands over the side effects requested so far.
    pub fn drain_effects(&mut self) -> (r: Vec<Effect>)
        ensures
            r.deep_view() == old(self).view().effects,
            final(self).view() == (SessionView { effects: Seq::empty(), ..old(self).view() }),
    {
        let mut out: Vec<Effect> = Vec::new();
        std::mem::swap(&mut out, &mut self.effects);
        assert(self.effects.deep_view() =~= Seq::<EffectView>::empty());
        out
    }

    /// The code blocks to highlight around the viewport.
    pub fn highlight_requests(&self, width: u16, screen_height: u16) -> (r: Vec<usize>)
        ensures
            r@ == highlight_requests_spec(self.view(), width, screen_height),
    {
        let h = self.content_height(screen_height);
        let rendered = self.rendered(width);
        let margin: usize = if h >= 1 { h as usize } else { 1 };
        let first = self.viewport.saturating_sub(margin);
        let last0 = self.viewport.saturating_add(crate::navigation::saturating_mul(margin, 2));
        let n = rendered.rows.len();
        let last = if last0 < n { last0 } else { n };
        let from = if first < last { first } else { last };
        let ghost rows = rendered.view_rows();
        let mut out: Vec<usize> = Vec::new();
        let mut i = from;
        while i < last
            invariant
                from <= i <= last <= rendered.rows@.len(),
                rows == rendered.view_rows(),
                out@ == highlight_blocks(self.document, rows, from as int, i as int),
            decreases last - i,
        {
            let b = rendered.rows[i].block();
            assert(rows[i as int] == rendered.rows@[i as int].cells.deep_view());
            let keep = b < self.document.blocks.len() && self.document.blocks[b].kind == crate::document::BlockKind::Code
                && self.document.blocks[b].language.is_some();
            if keep && !contains_index(&out, b) {
                out.push(b);
            }
            i = i + 1;
        }
        out
    }
}

proof fn lemma_first_match_prefix(ms: Seq<MatchView>, k: int, c: SemanticPosition)
    requires
        0 <= k <= ms.len(),
        first_match_after(ms.take(k), c) is Some,
    ensures
        first_match_after(ms, c) == first_match_after(ms.take(k), c),
    decreases ms.len(),
{
    if k == ms.len() {
        assert(ms.take(k) =~= ms);
    } else {
        assert(ms.drop_last().take(k) =~= ms.take(k));
        lemma_first_match_prefix(ms.drop_last(), k, c);
    }
}

// ---------------------------------------------------------------------------
// Keys
// ---------------------------------------------------------------------------

/// `/`: open the search prompt, remembering what to restore.
pub open spec fn open_prompt_spec(v: SessionView, width: u16, screen_height: u16) -> SessionView {
    let v1 = cleared(SessionView {
        prompt: Some(PromptView {
            query: Seq::empty(),
            prior_focus: v.focus,
            prior_viewport: v.viewport,
            prior_outline_viewport: v.outline_viewport,
            prior_message: v.search_message,
        }),
        search_message: None,
        ..v
    });
    cursor_visible(v1, rows_spec(v1, width), content_height_spec(v1, screen_height))
}

/// Typing a character or Backspace into the search prompt edits only its
/// query: the prompt stays open and remembers the screen it was opened
/// over, and the cursor, the Selection, the matches and the search
/// message are untouched.
pub proof fn lemma_prompt_edits_keep_the_screen(v: SessionView, key: KeyInput, width: u16, screen_height: u16)
    requires
        v.prompt is Some,
        key.code == KeyCode::Backspace || (key.code is Char && !key.control && !key.alt),
    ensures
        search_prompt_key_spec(v, key, width, screen_height).prompt is Some,
        search_prompt_key_spec(v, key, width, screen_height).prompt->0.prior_focus == v.prompt->0.prior_focus,
        search_prompt_key_spec(v, key, width, screen_height).prompt->0.prior_viewport == v.prompt->0.prior_viewport,
        search_prompt_key_spec(v, key, width, screen_height).prompt->0.prior_outline_viewport
            == v.prompt->0.prior_outline_viewport,
        search_prompt_key_spec(v, key, width, screen_height).prompt->0.prior_message == v.prompt->0.prior_message,
        search_prompt_key_spec(v, key, width, screen_height).cursor == v.cursor,
        search_prompt_key_spec(v, key, width, screen_height).selection == v.selection,
        search_prompt_key_spec(v, key, width, screen_height).matches == v.matches,
        search_prompt_key_spec(v, key, width, screen_height).search_message == v.search_message,
{
}

/// `Esc` in the search prompt closes it and gives back what it was opened
/// over: the search message, the focus (the Document if the Outline no
/// longer fits), and the viewport, moved only as far as the cursor's row
/// needs to be shown; the cursor, the Selection and the matches stay.
pub proof fn lemma_prompt_escape_gives_back_the_screen(v: SessionView, width: u16, screen_height: u16)
    requires
        v.prompt is Some,
    ensures
        ({
            let p = v.prompt->0;
            let w = search_prompt_key_spec(v, KeyInput { code: KeyCode::Esc, control: false, alt: false }, width, screen_height);
            let closed = SessionView {
                prompt: None,
                focus: if p.prior_focus == PaneFocus::Outline && !outline_visible_spec(v, width) { PaneFocus::Document } else { p.prior_focus },
                viewport: p.prior_viewport,
                outline_viewport: p.prior_outline_viewport,
                search_message: p.prior_message,
                ..v
            };
            let rows = rows_spec(closed, width);
            &&& w.prompt is None
            &&& w.search_message == p.prior_message
            &&& w.focus == closed.focus
            &&& (p.prior_focus == PaneFocus::Outline ==> outline_visible_spec(v, width) ==> w.focus == PaneFocus::Outline)
            &&& p.prior_focus == PaneFocus::Document ==> w.focus == PaneFocus::Document
            &&& w.viewport == viewport_showing(
                p.prior_viewport,
                match v.cursor {
                    Some(c) => first_row_at(rows, c),
                    None => None,
                },
                content_height_spec(closed, screen_height),
                rows.len() as int,
            )
            &&& w.cursor == v.cursor
            &&& w.selection == v.selection
            &&& w.matches == v.matches
        }),
{
}

/// A key that edits the search prompt's query: a character or Backspace.
pub open spec fn is_prompt_edit(key: KeyInput) -> bool {
    key.code == KeyCode::Backspace || (key.code is Char && !key.control && !key.alt)
}

/// The session after a sequence of keys typed into the search prompt.
pub open spec fn after_prompt_keys(v: SessionView, keys: Seq<KeyInput>, width: u16, screen_height: u16) -> SessionView
    decreases keys.len(),
{
    if keys.len() == 0 {
        v
    } else {
        search_prompt_key_spec(after_prompt_keys(v, keys.drop_last(), width, screen_height), keys.last(), width, screen_height)
    }
}

/// Editing the query keeps everything the prompt will give back, and the
/// cursor, the Outline and its selection.
proof fn lemma_prompt_edits_keep_all(o: SessionView, keys: Seq<KeyInput>, width: u16, screen_height: u16)
    requires
        o.prompt is Some,
        forall|i: int| 0 <= i < keys.len() ==> is_prompt_edit(#[trigger] keys[i]),
        kept_selection(o.outline_selection, visible_outline_spec(o)) == o.outline_selection,
    ensures
        ({
            let e = after_prompt_keys(o, keys, width, screen_height);
            &&& e.prompt is Some
            &&& e.prompt->0.prior_focus == o.prompt->0.prior_focus
            &&& e.prompt->0.prior_viewport == o.prompt->0.prior_viewport
            &&& e.prompt->0.prior_outline_viewport == o.prompt->0.prior_outline_viewport
            &&& e.prompt->0.prior_message == o.prompt->0.prior_message
            &&& e.cursor == o.cursor
            &&& e.document == o.document
            &&& e.outline == o.outline
            &&& e.outline_enabled == o.outline_enabled
            &&& e.outline_selection == o.outline_selection
            &&& e.status == o.status
            &&& e.search_message == o.search_message
            &&& e.selection == o.selection
            &&& e.matches == o.matches
        }),
    decreases keys.len(),
{
    if keys.len() > 0 {
        let d = keys.drop_last();
        assert forall|i: int| 0 <= i < d.len() implies is_prompt_edit(#[trigger] d[i]) by {
            assert(d[i] == keys[i]);
        }
        lemma_prompt_edits_keep_all(o, d, width, screen_height);
        let e = after_prompt_keys(o, d, width, screen_height);
        let key = keys.last();
        assert(is_prompt_edit(keys[keys.len() - 1]));
        lemma_prompt_edits_keep_the_screen(e, key, width, screen_height);
        let w = search_prompt_key_spec(e, key, width, screen_height);
        assert(section_path_spec(w) =~= section_path_spec(o));
        assert(visible_outline_spec(w) == visible_outline_spec(o));
    }
}

/// Opening the search prompt, typing any characters or Backspaces, and
/// leaving it with `Esc` gives the reader back the screen they had: the
/// same viewport, focus and search message, with the cursor, the
/// Selection and the matches untouched. This holds of a settled session,
/// whose viewports already show the cursor and the Outline's current
/// entry, with its focus on a shown pane.
pub proof fn lemma_prompt_round_trip_restores_the_screen(
    v: SessionView,
    keys: Seq<KeyInput>,
    width: u16,
    screen_height: u16,
)
    requires
        v.prompt is None,
        v.focus == PaneFocus::Outline ==> outline_visible_spec(v, width),
        settle(v, rows_spec(v, width), content_height_spec(v, screen_height)) == v,
        forall|i: int| 0 <= i < keys.len() ==> is_prompt_edit(#[trigger] keys[i]),
    ensures
        ({
            let e = after_prompt_keys(open_prompt_spec(v, width, screen_height), keys, width, screen_height);
            let x = search_prompt_key_spec(e, KeyInput { code: KeyCode::Esc, control: false, alt: false }, width, screen_height);
            &&& x.prompt is None
            &&& x.viewport == v.viewport
            &&& x.focus == v.focus
            &&& x.search_message == v.search_message
            &&& x.cursor == v.cursor
            &&& x.selection == v.selection
            &&& x.matches == v.matches
        }),
{
    let o = open_prompt_spec(v, width, screen_height);
    let h = content_height_spec(v, screen_height);
    let c = cursor_visible(v, rows_spec(v, width), h);
    assert(c.viewport == v.viewport);
    assert(visible_outline_spec(c) == visible_outline_spec(v));
    assert(section_path_spec(o) =~= section_path_spec(v));
    assert(visible_outline_spec(o) == visible_outline_spec(v));
    lemma_prompt_edits_keep_all(o, keys, width, screen_height);
    let e = after_prompt_keys(o, keys, width, screen_height);
    lemma_prompt_escape_gives_back_the_screen(e, width, screen_height);
    let p = e.prompt->0;
    let closed = SessionView {
        prompt: None,
        focus: if p.prior_focus == PaneFocus::Outline && !outline_visible_spec(e, width) { PaneFocus::Document } else { p.prior_focus },
        viewport: p.prior_viewport,
        outline_viewport: p.prior_outline_viewport,
        search_message: p.prior_message,
        ..e
    };
    assert(rows_spec(closed, width) == rows_spec(v, width));
    assert(status_text_spec(closed) == status_text_spec(v));
    assert(content_height_spec(closed, screen_height) == h);
}

/// Opening the search prompt and leaving it with `Esc` gives the reader
/// back the screen they had: the same viewports, focus and search message,
/// with the cursor, the Selection and the matches untouched. This holds of
/// a settled session, whose viewports already show the cursor and the
/// Outline's current entry, with its focus on a shown pane.
pub proof fn lemma_prompt_escape_restores_the_screen(v: SessionView, width: u16, screen_height: u16)
    requires
        v.prompt is None,
        v.focus == PaneFocus::Outline ==> outline_visible_spec(v, width),
        settle(v, rows_spec(v, width), content_height_spec(v, screen_height)) == v,
    ensures
        search_prompt_key_spec(open_prompt_spec(v, width, screen_height), KeyInput { code: KeyCode::Esc, control: false, alt: false }, width, screen_height).prompt is None,
        search_prompt_key_spec(open_prompt_spec(v, width, screen_height), KeyInput { code: KeyCode::Esc, control: false, alt: false }, width, screen_height).viewport == v.viewport,
        search_prompt_key_spec(open_prompt_spec(v, width, screen_height), KeyInput { code: KeyCode::Esc, control: false, alt: false }, width, screen_height).outline_viewport == v.outline_viewport,
        search_prompt_key_spec(open_prompt_spec(v, width, screen_height), KeyInput { code: KeyCode::Esc, control: false, alt: false }, width, screen_height).outline_selection == v.outline_selection,
        search_prompt_key_spec(open_prompt_spec(v, width, screen_height), KeyInput { code: KeyCode::Esc, control: false, alt: false }, width, screen_height).focus == v.focus,
        search_prompt_key_spec(open_prompt_spec(v, width, screen_height), KeyInput { code: KeyCode::Esc, control: false, alt: false }, width, screen_height).search_message == v.search_message,
        search_prompt_key_spec(open_prompt_spec(v, width, screen_height), KeyInput { code: KeyCode::Esc, control: false, alt: false }, width, screen_height).cursor == v.cursor,
        search_prompt_key_spec(open_prompt_spec(v, width, screen_height), KeyInput { code: KeyCode::Esc, control: false, alt: false }, width, screen_height).selection == v.selection,
        search_prompt_key_spec(open_prompt_spec(v, width, screen_height), KeyInput { code: KeyCode::Esc, control: false, alt: false }, width, screen_height).matches == v.matches,
{
    let esc = KeyInput { code: KeyCode::Esc, control: false, alt: false };
    let o = open_prompt_spec(v, width, screen_height);
    let p = o.prompt->0;
    let back = SessionView {
        prompt: None,
        focus: if p.prior_focus == PaneFocus::Outline && !outline_visible_spec(o, width) { PaneFocus::Document } else { p.prior_focus },
        viewport: p.prior_viewport,
        outline_viewport: p.prior_outline_viewport,
        search_message: p.prior_message,
        ..o
    };
    assert(back == cleared(v));
    assert(rows_spec(back, width) == rows_spec(v, width));
    assert(status_text_spec(back) == status_text_spec(v));
    assert(content_height_spec(back, screen_height) == content_height_spec(v, screen_height));
    let h = content_height_spec(v, screen_height);
    let c = cursor_visible(v, rows_spec(v, width), h);
    assert(c.viewport == v.viewport);
    let c2 = cursor_visible(back, rows_spec(back, width), h);
    assert(c2 == cleared(v));
    assert(status_text_spec(c2) == status_text_spec(v));
    assert(visible_outline_spec(c2) == visible_outline_spec(v));
    assert(outline_target(c2, v.outline_selection) == outline_target(c, v.outline_selection));
    assert(search_prompt_key_spec(o, esc, width, screen_height) == outline_context(c2, h));
}

pub open spec fn is_digit(c: char) -> bool {
    '0' <= c && c <= '9'
}

/// A digit typed after a count extends it.
pub open spec fn extended_count(pending: Option<usize>, c: char) -> usize {
    let before: int = match pending {
        Some(n) => n as int,
        None => 0,
    };
    sat_add(sat_mul(before, 10), (c as int) - ('0' as int)) as usize
}

/// A plain character key with the Document focused.
pub open spec fn document_key_spec(v: SessionView, c: char, width: u16, height: u16, supplied: Option<usize>, count: usize) -> SessionView {
    if c == 'q' {
        SessionView { quit: true, ..v }
    } else if c == 'v' {
        begin_selection_spec(v, SelectionMode::Characterwise)
    } else if c == 'V' {
        begin_selection_spec(v, SelectionMode::Row)
    } else if c == 'y' && v.selection is Some {
        yank_spec(v, width)
    } else if c == 'h' {
        motion_spec(v, width, height, Motion::Left, count)
    } else if c == 'j' {
        motion_spec(v, width, height, Motion::Down, count)
    } else if c == 'k' {
        motion_spec(v, width, height, Motion::Up, count)
    } else if c == 'l' {
        motion_spec(v, width, height, Motion::Right, count)
    } else if c == 'w' {
        motion_spec(v, width, height, Motion::WordForward, count)
    } else if c == 'b' {
        motion_spec(v, width, height, Motion::WordBackward, count)
    } else if c == '^' {
        motion_spec(v, width, height, Motion::FirstNonBlank, count)
    } else if c == '$' {
        motion_spec(v, width, height, Motion::RowEnd, count)
    } else if c == 'G' {
        document_row_spec(v, width, height, supplied, true)
    } else if c == '{' {
        motion_spec(v, width, height, Motion::ParagraphBackward, count)
    } else if c == '}' {
        motion_spec(v, width, height, Motion::ParagraphForward, count)
    } else if c == 'n' {
        navigate_search_spec(v, true, width, height)
    } else if c == 'N' {
        navigate_search_spec(v, false, width, height)
    } else {
        cleared(v)
    }
}

/// A plain character key with the Outline focused.
pub open spec fn outline_key_spec(v: SessionView, c: char, height: u16, count: usize) -> SessionView {
    if c == 'q' {
        SessionView { quit: true, ..v }
    } else if c == 'j' {
        move_outline_selection_spec(v, count, true, height)
    } else if c == 'k' {
        move_outline_selection_spec(v, count, false, height)
    } else if c == 'h' {
        set_branch_spec(v, true, height)
    } else if c == 'l' {
        set_branch_spec(v, false, height)
    } else {
        cleared(v)
    }
}

/// A plain character key: the prompt, counts, `g` prefixes, then commands.
pub open spec fn char_key_spec(v: SessionView, c: char, width: u16, screen_height: u16, height: u16) -> SessionView {
    if c == '/' {
        open_prompt_spec(v, width, screen_height)
    } else if is_digit(c) {
        if v.focus == PaneFocus::Document && c == '0' && v.pending_count is None {
            motion_spec(v, width, height, Motion::RowStart, 1)
        } else if c != '0' || v.pending_count is Some {
            SessionView { pending_count: Some(extended_count(v.pending_count, c)), ..v }
        } else {
            v
        }
    } else if v.focus == PaneFocus::Document && v.pending_g && c == 'g' {
        document_row_spec(SessionView { pending_g: false, pending_count: None, ..v }, width, height, v.pending_count, false)
    } else if v.focus == PaneFocus::Document && v.pending_g && c == 'x' {
        activate_under_cursor_spec(SessionView { pending_g: false, pending_count: None, ..v }, width, height)
    } else {
        let v0 = if v.focus == PaneFocus::Document && v.pending_g { SessionView { pending_g: false, ..v } } else { v };
        if v0.focus == PaneFocus::Document && c == 'g' {
            SessionView { pending_g: true, ..v0 }
        } else {
            command_key_spec(v0, c, width, screen_height, height)
        }
    }
}

/// A command key, with the pending count taken.
pub open spec fn command_key_spec(v0: SessionView, c: char, width: u16, screen_height: u16, height: u16) -> SessionView {
    let supplied = v0.pending_count;
    let count = count_or_one(supplied);
    let v1 = SessionView { pending_count: None, ..v0 };
    if c == 'o' {
        toggle_outline_spec(v1, width, screen_height)
    } else if c == 'r' {
        request_reload_spec(v1)
    } else if v1.focus == PaneFocus::Outline {
        outline_key_spec(v1, c, height, count)
    } else {
        document_key_spec(v1, c, width, height, supplied, count)
    }
}

/// A key while the key reference is shown: `?` or Esc close it, `q`
/// quits, other keys are ignored.
pub open spec fn help_key_spec(v: SessionView, key: KeyInput) -> SessionView {
    if key.code == KeyCode::Esc || (key.code == KeyCode::Char('?') && !key.control) {
        cleared(SessionView { help_open: false, ..v })
    } else if key.code == KeyCode::Char('q') && !key.control {
        SessionView { quit: true, ..v }
    } else {
        v
    }
}

/// How the Reading Session answers a key at a screen size.
pub open spec fn key_spec(v: SessionView, key: KeyInput, width: u16, screen_height: u16) -> SessionView {
    if v.prompt is Some {
        search_prompt_key_spec(v, key, width, screen_height)
    } else if key.code == KeyCode::Char('c') && key.control {
        SessionView { quit: true, ..v }
    } else if v.help_open {
        help_key_spec(v, key)
    } else if key.code == KeyCode::Char('?') && !key.control {
        cleared(SessionView { help_open: true, ..v })
    } else {
        let height = content_height_spec(v, screen_height);
        if key.code == KeyCode::Esc {
            if v.selection is Some {
                cleared(SessionView { selection: None, ..v })
            } else {
                let v1 = SessionView { focus: PaneFocus::Document, ..v };
                cleared(outline_context(v1, content_height_spec(v1, screen_height)))
            }
        } else if key.code == KeyCode::Tab {
            cleared(if v.focus == PaneFocus::Document { traverse_session(v, JumpDirection::Forward, width, height) } else { v })
        } else if key.code == KeyCode::Enter {
            cleared(if v.focus == PaneFocus::Outline { activate_outline_spec(v, width, screen_height) } else { v })
        } else if v.pending_control_w {
            let v1 = SessionView { pending_control_w: false, ..v };
            let v2 = if key.code == KeyCode::Char('h') && outline_visible_spec(v1, width) {
                SessionView { focus: PaneFocus::Outline, ..v1 }
            } else if key.code == KeyCode::Char('l') {
                SessionView { focus: PaneFocus::Document, ..v1 }
            } else {
                v1
            };
            cleared(outline_context(v2, content_height_spec(v2, screen_height)))
        } else {
            match key.code {
                KeyCode::Char(c) => if key.control {
                    if c == 'w' {
                        SessionView { pending_control_w: true, pending_count: None, pending_g: false, ..v }
                    } else {
                        control_spec(v, c, width, height)
                    }
                } else {
                    char_key_spec(v, c, width, screen_height, height)
                },
                _ => cleared(v),
            }
        }
    }
}

/// `Esc` ends a Selection and does nothing else: the Reading Cursor stays
/// where the Selection ended, and the Document, the viewport, the search
/// and the jump history are as they were.
pub proof fn lemma_escape_cancels_the_selection(v: SessionView, width: u16, screen_height: u16)
    requires
        v.prompt is None,
        !v.help_open,
        v.selection is Some,
    ensures
        key_spec(v, KeyInput { code: KeyCode::Esc, control: false, alt: false }, width, screen_height).selection is None,
        key_spec(v, KeyInput { code: KeyCode::Esc, control: false, alt: false }, width, screen_height) == (SessionView {
            selection: None,
            pending_count: None,
            pending_g: false,
            pending_control_w: false,
            ..v
        }),
{
}

/// Fitting the session to a new screen size.
/// After a resize the focus leaves an Outline that no longer fits.
pub open spec fn resize_focus(v: SessionView, width: u16) -> SessionView {
    if !outline_visible_spec(v, width) { SessionView { focus: PaneFocus::Document, ..v } } else { v }
}

pub open spec fn resize_spec(v: SessionView, width: u16, screen_height: u16) -> SessionView {
    let v1 = resize_focus(v, width);
    let h = content_height_spec(v1, screen_height);
    let v2 = outline_context(v1, h);
    cursor_visible(v2, rows_spec(v2, width), h)
}

/// A resize moves nothing the reader placed: the Reading Cursor, the
/// Selection, the search with its matches, the jump history, the Document
/// and the requested effects stay as they were. Only the viewports, the
/// Outline selection and, when the Outline no longer fits, the focus change.
pub proof fn lemma_resize_keeps_reading_state(v: SessionView, width: u16, screen_height: u16)
    ensures
        resize_spec(v, width, screen_height).cursor == v.cursor,
        resize_spec(v, width, screen_height).selection == v.selection,
        resize_spec(v, width, screen_height).prompt == v.prompt,
        resize_spec(v, width, screen_height).matches == v.matches,
        resize_spec(v, width, screen_height).search_query == v.search_query,
        resize_spec(v, width, screen_height).back == v.back,
        resize_spec(v, width, screen_height).forward == v.forward,
        resize_spec(v, width, screen_height).document == v.document,
        resize_spec(v, width, screen_height).source == v.source,
        resize_spec(v, width, screen_height).outline == v.outline,
        resize_spec(v, width, screen_height).effects == v.effects,
        resize_spec(v, width, screen_height).status == v.status,
        resize_spec(v, width, screen_height).quit == v.quit,
        resize_spec(v, width, screen_height).focus == PaneFocus::Outline ==> v.focus == PaneFocus::Outline,
{
}

/// After a resize the Reading Cursor's row is on screen: the viewport
/// starts at or before it and shows the content height's rows (at least
/// one), and it never starts past the last screenful.
pub proof fn lemma_resize_shows_the_cursor(v: SessionView, width: u16, screen_height: u16)
    requires
        rows_spec(v, width).len() <= usize::MAX,
    ensures
        ({
            let w = resize_spec(v, width, screen_height);
            let rows = rows_spec(v, width);
            let height = content_height_spec(resize_focus(v, width), screen_height);
            let h: int = if height >= 1 { height as int } else { 1 };
            &&& w.viewport <= sat_sub(rows.len() as int, h)
            &&& (v.cursor matches Some(c) ==> (first_row_at(rows, c) matches Some(r) ==> w.viewport <= r < w.viewport + h))
        }),
{
    let v1 = resize_focus(v, width);
    let height = content_height_spec(v1, screen_height);
    let v2 = outline_context(v1, height);
    let rows = rows_spec(v, width);
    assert(rows_spec(v2, width) == rows);
    match v.cursor {
        Some(c) => {
            crate::layout::lemma_first_row_bound(rows, c);
            lemma_viewport_showing(v2.viewport, first_row_at(rows, c), height, rows.len() as int);
        },
        None => {
            lemma_viewport_showing(v2.viewport, None, height, rows.len() as int);
        },
    }
}

/// When the Outline selection names an entry exactly when there is one,
/// a resize leaves the content height as the status line decided it
/// before the Outline followed, so the Reading Cursor's row is on screen
/// in the content height of the resized session.
pub proof fn lemma_resize_shows_the_cursor_in_the_new_height(v: SessionView, width: u16, screen_height: u16)
    requires
        rows_spec(v, width).len() <= usize::MAX,
        selection_names_an_entry(v),
        v.outline.len() <= usize::MAX,
    ensures
        ({
            let w = resize_spec(v, width, screen_height);
            let rows = rows_spec(v, width);
            let height = content_height_spec(w, screen_height);
            let h: int = if height >= 1 { height as int } else { 1 };
            &&& height == content_height_spec(resize_focus(v, width), screen_height)
            &&& w.viewport <= sat_sub(rows.len() as int, h)
            &&& (v.cursor matches Some(c) ==> (first_row_at(rows, c) matches Some(r) ==> w.viewport <= r < w.viewport + h))
        }),
{
    lemma_resize_shows_the_cursor(v, width, screen_height);
    let v1 = resize_focus(v, width);
    let height = content_height_spec(v1, screen_height);
    lemma_outline_context_names_an_entry(v1, height);
    let v2 = outline_context(v1, height);
    let w = resize_spec(v, width, screen_height);
    assert(status_text_spec(v2) is Some == status_text_spec(v1) is Some);
    assert(status_text_spec(w) == status_text_spec(v2));
}

/// A session that has quit stays quit: no key, resize, Reload outcome or
/// other report brings it back.
pub proof fn lemma_quit_is_final(v: SessionView, key: KeyInput, width: u16, screen_height: u16, document: Document)
    requires
        v.quit,
    ensures
        key_spec(v, key, width, screen_height).quit,
        resize_spec(v, width, screen_height).quit,
        reloaded_view(v, document, width, screen_height).quit,
{
    lemma_keys_are_read_only(v, key, width, screen_height);
    lemma_resize_keeps_reading_state(v, width, screen_height);
}

impl ReadingSession {
    fn open_prompt(&mut self, width: u16, screen_height: u16)
        ensures
            final(self).view() == open_prompt_spec(old(self).view(), width, screen_height),
    {
        let prior_message = self.search_message.take();
        self.search_prompt = Some(SearchPrompt {
            query: Vec::new(),
            prior_focus: self.focus,
            prior_viewport: self.viewport,
            prior_outline_viewport: self.outline_viewport,
            prior_message,
        });
        self.clear_pending();
        let rendered = self.rendered(width);
        let h = self.content_height(screen_height);
        self.ensure_cursor_visible(&rendered, h);
    }

    fn document_key(&mut self, c: char, width: u16, height: u16, supplied: Option<usize>, count: usize)
        ensures
            final(self).view() == document_key_spec(old(self).view(), c, width, height, supplied, count),
    {
        if c == 'q' {
            self.command(Command::Quit);
        } else if c == 'v' {
            self.begin_selection(SelectionMode::Characterwise);
        } else if c == 'V' {
            self.begin_selection(SelectionMode::Row);
        } else if c == 'y' && self.selection.is_some() {
            self.yank_selection(width);
        } else if c == 'h' {
            self.motion(width, height, Motion::Left, count);
        } else if c == 'j' {
            self.motion(width, height, Motion::Down, count);
        } else if c == 'k' {
            self.motion(width, height, Motion::Up, count);
        } else if c == 'l' {
            self.motion(width, height, Motion::Right, count);
        } else if c == 'w' {
            self.motion(width, height, Motion::WordForward, count);
        } else if c == 'b' {
            self.motion(width, height, Motion::WordBackward, count);
        } else if c == '^' {
            self.motion(width, height, Motion::FirstNonBlank, count);
        } else if c == '$' {
            self.motion(width, height, Motion::RowEnd, count);
        } else if c == 'G' {
            self.document_row(width, height, supplied, true);
        } else if c == '{' {
            self.motion(width, height, Motion::ParagraphBackward, count);
        } else if c == '}' {
            self.motion(width, height, Motion::ParagraphForward, count);
        } else if c == 'n' {
            self.navigate_search(true, width, height);
        } else if c == 'N' {
            self.navigate_search(false, width, height);
        } else {
            self.clear_pending();
        }
    }

    fn outline_key(&mut self, c: char, height: u16, count: usize)
        ensures
            final(self).view() == outline_key_spec(old(self).view(), c, height, count),
    {
        if c == 'q' {
            self.command(Command::Quit);
        } else if c == 'j' {
            self.move_outline_selection(count, true, height);
        } else if c == 'k' {
            self.move_outline_selection(count, false, height);
        } else if c == 'h' {
            self.set_outline_branch_collapsed(true, height);
        } else if c == 'l' {
            self.set_outline_branch_collapsed(false, height);
        } else {
            self.clear_pending();
        }
    }

    #[verifier::spinoff_prover]
    fn char_key(&mut self, c: char, width: u16, screen_height: u16, height: u16)
        ensures
            final(self).view() == char_key_spec(old(self).view(), c, width, screen_height, height),
    {
        if c == '/' {
            self.open_prompt(width, screen_height);
            return;
        }
        if '0' <= c && c <= '9' {
            if self.focus == PaneFocus::Document && c == '0' && self.pending_count.is_none() {
                self.motion(width, height, Motion::RowStart, 1);
            } else if c != '0' || self.pending_count.is_some() {
                let before: usize = match self.pending_count {
                    Some(n) => n,
                    None => 0,
                };
                let digit = (c as u32 - '0' as u32) as usize;
                self.pending_count = Some(crate::navigation::saturating_mul(before, 10).saturating_add(digit));
            }
            return;
        }
        if self.focus == PaneFocus::Document && self.pending_g {
            self.pending_g = false;
            if c == 'g' {
                let count = self.pending_count.take();
                self.document_row(width, height, count, false);
                return;
            }
            if c == 'x' {
                self.pending_count = None;
                self.activate_under_cursor(width, height);
                return;
            }
        }
        if self.focus == PaneFocus::Document && c == 'g' {
            self.pending_g = true;
            return;
        }
        let supplied = self.pending_count.take();
        let count = match supplied {
            Some(n) => if n >= 1 { n } else { 1 },
            None => 1,
        };
        if c == 'o' {
            self.toggle_outline(width, screen_height);
        } else if c == 'r' {
            self.request_reload();
        } else if self.focus == PaneFocus::Outline {
            self.outline_key(c, height, count);
        } else {
            self.document_key(c, width, height, supplied, count);
        }
    }

    /// Answers a key press at a screen size.
    #[verifier::spinoff_prover]
    pub fn key(&mut self, key: KeyInput, width: u16, screen_height: u16)
        ensures
            final(self).view() == key_spec(old(self).view(), key, width, screen_height),
    {
        if self.search_prompt.is_some() {
            self.search_prompt_key(key, width, screen_height);
            return;
        }
        if key.code == KeyCode::Char('c') && key.control {
            self.quit = true;
            return;
        }
        if self.help_open {
            if key.code == KeyCode::Esc || (key.code == KeyCode::Char('?') && !key.control) {
                self.help_open = false;
                self.clear_pending();
            } else if key.code == KeyCode::Char('q') && !key.control {
                self.quit = true;
            }
            return;
        }
        if key.code == KeyCode::Char('?') && !key.control {
            self.help_open = true;
            self.clear_pending();
            return;
        }
        let height = self.content_height(screen_height);
        if key.code == KeyCode::Esc {
            if self.selection.take().is_some() {
                self.clear_pending();
                return;
            }
            self.focus = PaneFocus::Document;
            let h = self.content_height(screen_height);
            self.ensure_outline_context_visible(h);
            self.clear_pending();
            return;
        }
        if key.code == KeyCode::Tab {
            if self.focus == PaneFocus::Document {
                self.traverse_jump_history(JumpDirection::Forward, width, height);
            }
            self.clear_pending();
            return;
        }
        if key.code == KeyCode::Enter {
            if self.focus == PaneFocus::Outline {
                self.activate_outline_selection(width, screen_height);
            }
            self.clear_pending();
            return;
        }
        if self.pending_control_w {
            self.pending_control_w = false;
            if key.code == KeyCode::Char('h') && self.outline_is_visible(width) {
                self.focus = PaneFocus::Outline;
            } else if key.code == KeyCode::Char('l') {
                self.focus = PaneFocus::Document;
            }
            let h = self.content_height(screen_height);
            self.ensure_outline_context_visible(h);
            self.clear_pending();
            return;
        }
        match key.code {
            KeyCode::Char(c) => if key.control {
                if c == 'w' {
                    self.pending_control_w = true;
                    self.pending_count = None;
                    self.pending_g = false;
                } else {
                    self.control(c, width, height);
                }
            } else {
                self.char_key(c, width, screen_height, height);
            },
            _ => self.clear_pending(),
        }
    }

    /// Fits the session to a new screen size.
    pub fn resize(&mut self, width: u16, screen_height: u16)
        ensures
            final(self).view() == resize_spec(old(self).view(), width, screen_height),
    {
        if !self.outline_is_visible(width) {
            self.focus = PaneFocus::Document;
        }
        let h = self.content_height(screen_height);
        self.ensure_outline_context_visible(h);
        let rendered = self.rendered(width);
        self.ensure_cursor_visible(&rendered, h);
    }
}

// ---------------------------------------------------------------------------
// Reload
// ---------------------------------------------------------------------------

pub type HeadingPath = Seq<(HeadingLevel, Seq<char>)>;

/// What a Reload keeps of the reading position: the current section's
/// heading path (and how many equal paths come before it), and the
/// cursor's rank within that section and within the whole Document.
pub struct ReloadView {
    pub heading_path: Option<HeadingPath>,
    pub occurrence: int,
    pub section_anchor: RelativeAnchor,
    pub document_anchor: RelativeAnchor,
}

/// How many of the first `n` paths equal `path`.
pub open spec fn count_equal(paths: Seq<HeadingPath>, path: HeadingPath, n: int) -> int
    decreases n,
{
    if n <= 0 {
        0
    } else {
        count_equal(paths, path, n - 1) + if paths[n - 1] == path { 1int } else { 0int }
    }
}

/// Index of the `k`-th path (from zero) among the first `n` that equals `path`.
pub open spec fn nth_equal(paths: Seq<HeadingPath>, path: HeadingPath, k: int, n: int) -> Option<int>
    decreases n,
{
    if n <= 0 {
        None
    } else {
        match nth_equal(paths, path, k, n - 1) {
            Some(i) => Some(i),
            None => if paths[n - 1] == path && count_equal(paths, path, n - 1) == k { Some(n - 1) } else { None },
        }
    }
}

pub open spec fn capture_spec(v: SessionView) -> ReloadView {
    let positions = logical_positions_spec(v.document.blocks@);
    let paths = heading_paths_spec(v.outline);
    match section_index_spec(v) {
        Some(i) => ReloadView {
            heading_path: Some(paths[i]),
            occurrence: count_equal(paths, paths[i], i),
            section_anchor: anchor_of(section_positions(positions, v.outline, i), v.cursor),
            document_anchor: anchor_of(positions, v.cursor),
        },
        None => ReloadView {
            heading_path: None,
            occurrence: 0,
            section_anchor: anchor_of(Seq::empty(), v.cursor),
            document_anchor: anchor_of(positions, v.cursor),
        },
    }
}

/// Where the reading position lands in the reloaded Document: at the same
/// rank in the same section if it is still there, else at the same rank
/// in the Document, else at the start.
pub open spec fn position_in_spec(c: ReloadView, document: Document, outline: Seq<EntryView>) -> Option<SemanticPosition> {
    let positions = logical_positions_spec(document.blocks@);
    let paths = heading_paths_spec(outline);
    let from_section = match c.heading_path {
        Some(path) => match nth_equal(paths, path, c.occurrence, paths.len() as int) {
            Some(s) => restore_spec(c.section_anchor, section_positions(positions, outline, s)),
            None => None,
        },
        None => None,
    };
    match from_section {
        Some(p) => Some(p),
        None => match restore_spec(c.document_anchor, positions) {
            Some(p) => Some(p),
            None => first_position_of(layout_rows(document.blocks@, 100)),
        },
    }
}

/// The status after a successful Reload.
pub open spec fn reloaded_status(d: Document) -> Seq<char> {
    match warning_text(d) {
        None => "Reloaded"@,
        Some(w) => "Reloaded: "@ + w,
    }
}

/// The session on a reloaded Document: the reading position carried over,
/// searches, Selection and history forgotten.
pub open spec fn reloaded_view(v: SessionView, document: Document, width: u16, screen_height: u16) -> SessionView {
    let c = capture_spec(v);
    let outline = outline_of(document.blocks@);
    let cursor = position_in_spec(c, document, outline);
    let selection: Option<usize> = match cursor {
        Some(p) => match last_entry_at_or_before(outline, p.block) {
            Some(i) => Some(i as usize),
            None => None,
        },
        None => None,
    };
    let v1 = SessionView {
        document,
        outline,
        cursor,
        outline_selection: if selection is None && outline.len() > 0 { Some(0usize) } else { selection },
        outline_viewport: 0,
        targets: fragment_targets_spec(document.blocks@),
        viewport: 0,
        preferred_column: None,
        back: Seq::empty(),
        forward: Seq::empty(),
        prompt: None,
        matches: Seq::empty(),
        search_query: None,
        search_message: None,
        selection: None,
        status: Some(reloaded_status(document)),
        ..v
    };
    resize_spec(v1, width, screen_height)
}

/// A reading position kept across a Reload.
pub struct ReloadContext {
    pub heading_path: Option<Vec<PathPart>>,
    pub heading_path_occurrence: usize,
    pub section_anchor: RelativeAnchor,
    pub document_anchor: RelativeAnchor,
}

impl ReloadContext {
    pub open spec fn view(&self) -> ReloadView {
        ReloadView {
            heading_path: match self.heading_path {
                Some(p) => Some(p.deep_view()),
                None => None,
            },
            occurrence: self.heading_path_occurrence as int,
            section_anchor: self.section_anchor,
            document_anchor: self.document_anchor,
        }
    }

    /// Remembers the reading position of a session.
    pub fn capture(session: &ReadingSession) -> (r: ReloadContext)
        ensures
            r.view() == capture_spec(session.view()),
    {
        let positions = logical_positions(&session.document);
        let paths = heading_paths(&session.outline);
        let ghost pv = paths.deep_view();
        match session.section_index() {
            Some(i) => {
                let _ = session.outline.len();
                proof { crate::outline::lemma_heading_paths_len(session.outline.deep_view()); }
                let _ = paths.len();
                assert(pv[i as int] == paths@[i as int].deep_view());
                let path = copy_heading_path(&paths[i]);
                let mut occurrence: usize = 0;
                let mut j: usize = 0;
                while j < i
                    invariant
                        j <= i < paths@.len(),
                        pv == paths.deep_view(),
                        path.deep_view() == pv[i as int],
                        occurrence as int == count_equal(pv, pv[i as int], j as int),
                        occurrence <= j,
                    decreases i - j,
                {
                    assert(pv[j as int] == paths@[j as int].deep_view());
                    if paths_equal(&paths[j], &path) {
                        occurrence = occurrence + 1;
                    }
                    j = j + 1;
                }
                let section = positions_in_section(&positions, &session.outline, i);
                ReloadContext {
                    heading_path: Some(path),
                    heading_path_occurrence: occurrence,
                    section_anchor: RelativeAnchor::capture(&section, session.cursor),
                    document_anchor: RelativeAnchor::capture(&positions, session.cursor),
                }
            },
            None => {
                let empty: Vec<SemanticPosition> = Vec::new();
                ReloadContext {
                    heading_path: None,
                    heading_path_occurrence: 0,
                    section_anchor: RelativeAnchor::capture(&empty, session.cursor),
                    document_anchor: RelativeAnchor::capture(&positions, session.cursor),
                }
            },
        }
    }

    /// Where the remembered reading position lands in a new Document.
    pub fn position_in(&self, document: &Document, outline: &Vec<OutlineEntry>) -> (r: Option<SemanticPosition>)
        ensures
            r == position_in_spec(self.view(), *document, outline.deep_view()),
    {
        let positions = logical_positions(document);
        let from_section = match &self.heading_path {
            Some(path) => {
                let paths = heading_paths(outline);
                let ghost pv = paths.deep_view();
                let _ = paths.len();
                let k = self.heading_path_occurrence;
                let mut count: usize = 0;
                let mut found: Option<usize> = None;
                let mut j: usize = 0;
                while j < paths.len() && found.is_none()
                    invariant
                        j <= paths@.len(),
                        pv == paths.deep_view(),
                        pv.len() == paths@.len(),
                        found is None ==> nth_equal(pv, path.deep_view(), k as int, j as int) is None,
                        found is None ==> count as int == count_equal(pv, path.deep_view(), j as int),
                        found is None ==> count <= j,
                        found matches Some(f) ==> nth_equal(pv, path.deep_view(), k as int, pv.len() as int) == Some(f as int) && f < pv.len(),
                    decreases paths.len() - j + (if found is None { 1int } else { 0int }),
                {
                    assert(pv[j as int] == paths@[j as int].deep_view());
                    if paths_equal(&paths[j], path) {
                        if count == k {
                            proof { lemma_nth_equal_prefix(pv, path.deep_view(), k as int, j as int + 1); }
                            found = Some(j);
                        } else {
                            count = count + 1;
                            j = j + 1;
                        }
                    } else {
                        j = j + 1;
                    }
                }
                match found {
                    Some(s) => {
                        proof { crate::outline::lemma_heading_paths_len(outline.deep_view()); }
                        let section = positions_in_section(&positions, outline, s);
                        self.section_anchor.restore(&section)
                    },
                    None => None,
                }
            },
            None => None,
        };
        match from_section {
            Some(p) => Some(p),
            None => match self.document_anchor.restore(&positions) {
                Some(p) => Some(p),
                None => {
                    let _ = document.blocks.len();
                    layout(document, 100).first_position()
                },
            },
        }
    }
}

proof fn lemma_nth_equal_prefix(paths: Seq<HeadingPath>, path: HeadingPath, k: int, n: int)
    requires
        0 <= n <= paths.len(),
        nth_equal(paths, path, k, n) is Some,
    ensures
        nth_equal(paths, path, k, paths.len() as int) == nth_equal(paths, path, k, n),
        nth_equal(paths, path, k, n)->0 < n,
    decreases paths.len() - n,
{
    lemma_nth_equal_bound(paths, path, k, n);
    if n < paths.len() {
        lemma_nth_equal_prefix(paths, path, k, n + 1);
    }
}

proof fn lemma_nth_equal_bound(paths: Seq<HeadingPath>, path: HeadingPath, k: int, n: int)
    ensures
        nth_equal(paths, path, k, n) matches Some(i) ==> 0 <= i < n,
    decreases n,
{
    if n > 0 {
        lemma_nth_equal_bound(paths, path, k, n - 1);
    }
}

fn copy_heading_path(path: &Vec<PathPart>) -> (r: Vec<PathPart>)
    ensures
        r.deep_view() == path.deep_view(),
{
    let mut out: Vec<PathPart> = Vec::new();
    let mut i: usize = 0;
    while i < path.len()
        invariant
            i <= path@.len(),
            out.deep_view() == path.deep_view().take(i as int),
        decreases path.len() - i,
    {
        let part = PathPart { level: path[i].level, label: path[i].label.clone() };
        let ghost o = out.deep_view();
        out.push(part);
        assert(out.deep_view() =~= o.push(part.deep_view()));
        assert(path.deep_view().take(i as int + 1) =~= path.deep_view().take(i as int).push(path@[i as int].deep_view()));
        i = i + 1;
    }
    assert(path.deep_view().take(path@.len() as int) =~= path.deep_view());
    out
}

fn paths_equal(a: &Vec<PathPart>, b: &Vec<PathPart>) -> (r: bool)
    ensures
        r == (a.deep_view() == b.deep_view()),
{
    if a.len() != b.len() {
        assert(a.deep_view().len() != b.deep_view().len());
        return false;
    }
    let mut i: usize = 0;
    while i < a.len()
        invariant
            i <= a@.len(),
            a@.len() == b@.len(),
            forall|j: int| 0 <= j < i ==> a.deep_view()[j] == b.deep_view()[j],
        decreases a.len() - i,
    {
        assert(a.deep_view()[i as int] == a@[i as int].deep_view());
        assert(b.deep_view()[i as int] == b@[i as int].deep_view());
        if a[i].level != b[i].level || !crate::text::chars_eq(&a[i].label, &b[i].label) {
            assert(a.deep_view()[i as int] != b.deep_view()[i as int]);
            return false;
        }
        i = i + 1;
    }
    assert(a.deep_view() =~= b.deep_view());
    true
}

impl ReadingSession {
    /// Takes in the outcome of a Reload: a new Document keeps the reading
    /// position; a failure is reported in the status line.
    pub fn report_reload_result(&mut self, result: Result<Document, SourceError>, width: u16, screen_height: u16)
        ensures
            match result {
                Ok(d) => final(self).view() == reloaded_view(old(self).view(), d, width, screen_height),
                Err(e) => final(self).view() == (SessionView {
                    status: Some("Reload failed: "@ + source_error_text(e)),
                    ..old(self).view()
                }),
            },
    {
        match result {
            Ok(document) => {
                let context = ReloadContext::capture(self);
                self.document = document;
                self.outline = outline_entries(&self.document);
                self.cursor = context.position_in(&self.document, &self.outline);
                let selection = match self.cursor {
                    Some(c) => last_entry_before(&self.outline, c.block),
                    None => None,
                };
                self.outline_selection = if selection.is_none() && self.outline.len() > 0 { Some(0) } else { selection };
                self.outline_viewport = 0;
                let _ = self.document.blocks.len();
                self.fragment_targets = fragment_targets(&self.document);
                self.viewport = 0;
                self.preferred_column = None;
                self.jump_history = JumpHistory::new();
                self.search_prompt = None;
                self.search_matches = Vec::new();
                self.search_query = None;
                self.search_message = None;
                self.selection = None;
                self.status_message = Some(match self.status_warning() {
                    None => string_of(&chars_of("Reloaded")),
                    Some(w) => joined("Reloaded: ", &chars_of(w)),
                });
                assert(self.search_matches.deep_view() =~= Seq::<MatchView>::empty());
                self.resize(width, screen_height);
            },
            Err(error) => {
                self.status_message = Some(joined("Reload failed: ", &chars_of(error.message().as_str())));
            },
        }
    }
}

// ---------------------------------------------------------------------------
// Laws
// ---------------------------------------------------------------------------

/// After the cursor moved, its row is on screen: the viewport starts at or
/// before it and shows `height` rows (at least one), and it never starts
/// past the last screenful.
pub proof fn lemma_settled_cursor_shown(v: SessionView, rows: Seq<Seq<CellView>>, height: u16)
    requires
        rows.len() <= usize::MAX,
    ensures
        settle(v, rows, height).cursor == v.cursor,
        settle(v, rows, height).viewport <= sat_sub(rows.len() as int, if height >= 1 { height as int } else { 1 }),
        match v.cursor {
            Some(c) => match first_row_at(rows, c) {
                Some(r) => settle(v, rows, height).viewport <= r < settle(v, rows, height).viewport + (if height >= 1 { height as int } else { 1 }),
                None => true,
            },
            None => true,
        },
{
    let u = cursor_visible(v, rows, height);
    let w = settle(v, rows, height);
    assert(w.viewport == u.viewport && w.cursor == u.cursor);
    match v.cursor {
        Some(c) => {
            crate::layout::lemma_first_row_bound(rows, c);
            lemma_viewport_showing(v.viewport, first_row_at(rows, c), height, rows.len() as int);
        },
        None => {
            lemma_viewport_showing(v.viewport, None, height, rows.len() as int);
        },
    }
}

proof fn lemma_viewport_showing(viewport: usize, row: Option<int>, height: u16, rows_len: int)
    requires
        0 <= rows_len <= usize::MAX,
        row matches Some(r) ==> 0 <= r < rows_len,
    ensures
        ({
            let shown = viewport_showing(viewport, row, height, rows_len);
            let h: int = if height >= 1 { height as int } else { 1 };
            &&& shown <= sat_sub(rows_len, h)
            &&& (row matches Some(r) ==> shown <= r < shown + h)
        }),
{
    let h: int = if height >= 1 { height as int } else { 1 };
    let maximum = sat_sub(rows_len, h);
    let vp: int = if viewport < maximum { viewport as int } else { maximum };
    let r: int = match row {
        Some(row) => if row < vp { row } else if row >= vp + h { row + 1 - h } else { vp },
        None => vp,
    };
    assert(0 <= r <= maximum);
    assert(viewport_showing(viewport, row, height, rows_len) == r as usize);
}

proof fn lemma_last_below_member(visible: Seq<usize>, s: usize)
    ensures
        last_below(visible, s) matches Some(x) ==> visible.contains(x),
    decreases visible.len(),
{
    if visible.len() > 0 {
        if visible.last() < s {
            assert(visible[visible.len() - 1] == visible.last());
        } else {
            lemma_last_below_member(visible.drop_last(), s);
            if last_below(visible.drop_last(), s) is Some {
                let x = last_below(visible.drop_last(), s)->0;
                let k = choose|k: int| 0 <= k < visible.drop_last().len() && visible.drop_last()[k] == x;
                assert(visible[k] == x);
            }
        }
    }
}

/// The Outline selection names an entry exactly when there is one.
pub open spec fn selection_names_an_entry(v: SessionView) -> bool {
    &&& (v.outline_selection is Some <==> v.outline.len() > 0)
    &&& (v.outline_selection matches Some(i) ==> i < v.outline.len())
}

/// A fresh session's Outline selection is on the first heading, and there
/// is none exactly when the Document has no heading.
pub proof fn lemma_fresh_outline_selection(document: Document, source: Option<Seq<char>>)
    requires
        document.blocks@.len() <= usize::MAX,
    ensures
        selection_names_an_entry(initial_view(document, source)),
        initial_view(document, source).outline_selection is None <==> !exists|b: int|
            0 <= b < document.blocks@.len() && (#[trigger] document.blocks@[b]).kind is Heading,
        initial_view(document, source).outline_selection matches Some(i) ==> {
            let p = initial_view(document, source).outline[i as int].position;
            &&& p.grapheme == 0
            &&& p.block < document.blocks@.len()
            &&& document.blocks@[p.block as int].kind is Heading
        },
{
    crate::outline::lemma_outline_is_the_headings(document.blocks@);
    let o = outline_of(document.blocks@);
    if o.len() > 0 {
        assert(o[0] == o[0]);
    }
}

proof fn lemma_visible_fold_shape(outline: Seq<EntryView>, path: Seq<bool>, n: int)
    requires
        0 <= n <= outline.len(),
        outline.len() <= usize::MAX,
    ensures
        n > 0 ==> visible_fold(outline, path, n).1.len() > 0,
        forall|k: int| 0 <= k < visible_fold(outline, path, n).1.len() ==> (#[trigger] visible_fold(outline, path, n).1[k]) < n,
    decreases n,
{
    if n > 0 {
        lemma_visible_fold_shape(outline, path, n - 1);
        if n == 1 {
            assert(visible_fold(outline, path, 0).0.len() == 0);
            assert(pop_deeper_depths(Seq::<usize>::empty(), outline[0].level.spec_depth()).len() == 0);
        }
        let prev = visible_fold(outline, path, n - 1).1;
        let cur = visible_fold(outline, path, n).1;
        assert forall|k: int| 0 <= k < cur.len() implies (#[trigger] cur[k]) < n by {
            if k < prev.len() {
                assert(cur[k] == prev[k]);
            }
        }
    }
}

/// After the Outline follows a change, its selection still names an entry
/// exactly when there is one.
pub proof fn lemma_outline_context_names_an_entry(v: SessionView, height: u16)
    requires
        selection_names_an_entry(v),
        v.outline.len() <= usize::MAX,
    ensures
        selection_names_an_entry(outline_context(v, height)),
{
    lemma_outline_selection_shown(v, height);
    lemma_visible_fold_shape(v.outline, section_path_spec(v), v.outline.len() as int);
    let w = outline_context(v, height);
    let visible = visible_outline_spec(v);
    if w.outline_selection is Some {
        let s = w.outline_selection->0;
        let k = choose|k: int| 0 <= k < visible.len() && visible[k] == s;
        assert(visible[k] < v.outline.len());
    }
}

/// After the Outline follows a change, a selection already shown stays
/// where it is, and the Outline viewport shows the entry it follows (the
/// selection with the Outline focused, else the current section) within
/// its height (at least one row), never starting past the last screenful;
/// with no such entry shown it starts at the top.
pub proof fn lemma_outline_window(v: SessionView, height: u16)
    requires
        visible_outline_spec(v).len() <= usize::MAX,
    ensures
        ({
            let w = outline_context(v, height);
            let visible = visible_outline_spec(v);
            let h: int = if height >= 1 { height as int } else { 1 };
            &&& (v.outline_selection is Some && visible.contains(v.outline_selection->0) ==> w.outline_selection
                == v.outline_selection)
            &&& (selection_names_an_entry(v) && v.outline.len() <= usize::MAX && v.outline_selection is Some
                ==> w.outline_selection is Some && visible.contains(w.outline_selection->0))
            &&& match outline_target(v, w.outline_selection) {
                Some(t) => match index_in(visible, t) {
                    Some(ti) => w.outline_viewport <= ti < w.outline_viewport + h && w.outline_viewport
                        <= sat_sub(visible.len() as int, h),
                    None => w.outline_viewport == 0,
                },
                None => w.outline_viewport == 0,
            }
        }),
{
    let visible = visible_outline_spec(v);
    let sel = kept_selection(v.outline_selection, visible);
    lemma_outline_selection_shown(v, height);
    if selection_names_an_entry(v) && v.outline.len() <= usize::MAX {
        lemma_visible_fold_shape(v.outline, section_path_spec(v), v.outline.len() as int);
    }
    match outline_target(v, sel) {
        Some(t) => {
            lemma_index_in_bound(visible, t);
            lemma_viewport_showing(v.outline_viewport, index_in(visible, t), height, visible.len() as int);
        },
        None => {},
    }
}

/// After the Outline follows a change, its selection is one of the shown
/// entries, and there is a selection whenever an entry is shown and there
/// was one before.
pub proof fn lemma_outline_selection_shown(v: SessionView, height: u16)
    ensures
        ({
            let w = outline_context(v, height);
            let visible = visible_outline_spec(w);
            &&& visible == visible_outline_spec(v)
            &&& (w.outline_selection matches Some(s) ==> visible.contains(s))
            &&& (v.outline_selection is Some && visible.len() > 0 ==> w.outline_selection is Some)
        }),
{
    let w = outline_context(v, height);
    assert(section_path_spec(w) =~= section_path_spec(v));
    let visible = visible_outline_spec(v);
    match v.outline_selection {
        Some(s) => {
            lemma_last_below_member(visible, s);
            if !visible.contains(s) && last_below(visible, s) is None && visible.len() > 0 {
                assert(visible.contains(visible[0]));
            }
        },
        None => {},
    }
}

proof fn lemma_first_match_member(ms: Seq<MatchView>, c: SemanticPosition)
    ensures
        first_match_after(ms, c) matches Some(t) ==> exists|i: int| 0 <= i < ms.len() && ms[i].start == t,
        last_match_before(ms, c) matches Some(t) ==> exists|i: int| 0 <= i < ms.len() && ms[i].start == t,
    decreases ms.len(),
{
    if ms.len() > 0 {
        lemma_first_match_member(ms.drop_last(), c);
        if first_match_after(ms.drop_last(), c) is Some {
            let t = first_match_after(ms.drop_last(), c)->0;
            let i = choose|i: int| 0 <= i < ms.drop_last().len() && ms.drop_last()[i].start == t;
            assert(ms[i].start == t);
        }
        if !pos_lt(ms.last().start, c) && last_match_before(ms.drop_last(), c) is Some {
            let t = last_match_before(ms.drop_last(), c)->0;
            let i = choose|i: int| 0 <= i < ms.drop_last().len() && ms.drop_last()[i].start == t;
            assert(ms[i].start == t);
        }
        assert(ms[ms.len() - 1] == ms.last());
    }
}

/// `n` and `N` always land on the start of a match when there is one, and
/// wrap around the Document rather than stop.
pub proof fn lemma_search_lands_on_match(ms: Seq<MatchView>, c: SemanticPosition, forward: bool)
    ensures
        search_target(ms, c, forward) is Some <==> ms.len() > 0,
        search_target(ms, c, forward) matches Some(t) ==> exists|i: int| 0 <= i < ms.len() && ms[i].start == t,
{
    lemma_first_match_member(ms, c);
    if ms.len() > 0 {
        assert(ms[0].start == ms[0].start);
        assert(ms[ms.len() - 1] == ms.last());
    } else {
        assert(first_match_after(ms, c) is None);
        assert(last_match_before(ms, c) is None);
    }
}

// ---------------------------------------------------------------------------
// Reloading an unchanged Document
// ---------------------------------------------------------------------------

/// Positions in strictly increasing Document order.
pub open spec fn increasing(s: Seq<SemanticPosition>) -> bool {
    forall|i: int, j: int| 0 <= i < j < s.len() ==> pos_lt(#[trigger] s[i], #[trigger] s[j])
}

proof fn lemma_filter_increasing(s: Seq<SemanticPosition>, pred: spec_fn(SemanticPosition) -> bool)
    requires
        increasing(s),
    ensures
        increasing(s.filter(pred)),
        forall|i: int| 0 <= i < s.filter(pred).len() ==> s.contains(#[trigger] s.filter(pred)[i]),
    decreases s.len(),
{
    reveal(Seq::filter);
    if s.len() > 0 {
        let d = s.drop_last();
        assert(increasing(d));
        lemma_filter_increasing(d, pred);
        let sub = d.filter(pred);
        assert forall|i: int| 0 <= i < sub.len() implies pos_lt(#[trigger] sub[i], s.last()) by {
            let k = choose|k: int| 0 <= k < d.len() && d[k] == sub[i];
            assert(s[k] == d[k]);
            assert(s[s.len() - 1] == s.last());
        }
        assert forall|i: int| 0 <= i < sub.len() implies s.contains(#[trigger] sub[i]) by {
            let k = choose|k: int| 0 <= k < d.len() && d[k] == sub[i];
            assert(s[k] == d[k]);
        }
        if pred(s.last()) {
            assert(s[s.len() - 1] == s.last());
        }
    }
}

proof fn lemma_filter_keeps(s: Seq<SemanticPosition>, pred: spec_fn(SemanticPosition) -> bool, c: SemanticPosition)
    requires
        s.contains(c),
        pred(c),
    ensures
        s.filter(pred).contains(c),
{
    let k = choose|k: int| 0 <= k < s.len() && s[k] == c;
    s.lemma_filter_contains(pred, k);
}

proof fn lemma_logical_increasing(blocks: Seq<crate::document::Block>)
    requires
        blocks.len() <= usize::MAX,
        forall|k: int| 0 <= k < blocks.len() ==> crate::text::grapheme_clusters(#[trigger] blocks[k].text@).len() <= usize::MAX,
    ensures
        increasing(logical_positions_spec(blocks)),
        forall|i: int| 0 <= i < logical_positions_spec(blocks).len() ==> (#[trigger] logical_positions_spec(blocks)[i]).block < blocks.len(),
    decreases blocks.len(),
{
    if blocks.len() > 0 {
        let d = blocks.drop_last();
        lemma_logical_increasing(d);
        let b = (blocks.len() - 1) as usize;
        let gs = crate::text::grapheme_clusters(blocks.last().text@);
        let raw = Seq::new(gs.len(), |i: int| SemanticPosition { block: b, grapheme: i as usize });
        let pred = |p: SemanticPosition| !crate::text::all_space(gs[p.grapheme as int]);
        let head = logical_positions_spec(d);
        assert(gs.len() <= usize::MAX) by { assert(blocks[blocks.len() - 1] == blocks.last()); }
        assert forall|k: int| 0 <= k < d.len() implies crate::text::grapheme_clusters(#[trigger] d[k].text@).len() <= usize::MAX by {
            assert(d[k] == blocks[k]);
        }
        assert(increasing(raw));
        lemma_filter_increasing(raw, pred);
        let tail = raw.filter(pred);
        assert(logical_positions_spec(blocks) == head + tail);
        assert forall|i: int| 0 <= i < tail.len() implies (#[trigger] tail[i]).block == b by {
            let k = choose|k: int| 0 <= k < raw.len() && raw[k] == tail[i];
        }
        let all = head + tail;
        assert forall|i: int, j: int| 0 <= i < j < all.len() implies pos_lt(#[trigger] all[i], #[trigger] all[j]) by {
            if j < head.len() {
                assert(all[i] == head[i] && all[j] == head[j]);
            } else if i >= head.len() {
                assert(all[i] == tail[i - head.len()] && all[j] == tail[j - head.len()]);
            } else {
                assert(all[i] == head[i] && all[j] == tail[j - head.len()]);
            }
        }
        assert forall|i: int| 0 <= i < all.len() implies (#[trigger] all[i]).block < blocks.len() by {
            if i < head.len() {
                assert(all[i] == head[i]);
            } else {
                assert(all[i] == tail[i - head.len()]);
            }
        }
    }
}

proof fn lemma_count_all_le(s: Seq<SemanticPosition>, c: SemanticPosition)
    requires
        forall|i: int| 0 <= i < s.len() ==> crate::layout::pos_le(#[trigger] s[i], c),
    ensures
        crate::outline::count_le(s, c) == s.len(),
    decreases s.len(),
{
    if s.len() > 0 {
        assert(s[s.len() - 1] == s.last());
        assert forall|i: int| 0 <= i < s.drop_last().len() implies crate::layout::pos_le(#[trigger] s.drop_last()[i], c) by {
            assert(s.drop_last()[i] == s[i]);
        }
        lemma_count_all_le(s.drop_last(), c);
    }
}

/// In increasing positions, the `k`-th one has `k + 1` positions at or before it.
proof fn lemma_rank(s: Seq<SemanticPosition>, k: int)
    requires
        increasing(s),
        0 <= k < s.len(),
    ensures
        crate::outline::count_le(s, s[k]) == k + 1,
    decreases s.len(),
{
    let d = s.drop_last();
    assert(increasing(d));
    if k == s.len() - 1 {
        assert forall|i: int| 0 <= i < d.len() implies crate::layout::pos_le(#[trigger] d[i], s[k]) by {
            assert(d[i] == s[i]);
        }
        lemma_count_all_le(d, s[k]);
        assert(s.last() == s[k]);
    } else {
        assert(d[k] == s[k]);
        lemma_rank(d, k);
        assert(pos_lt(s[k], s[s.len() - 1]));
        assert(s[s.len() - 1] == s.last());
    }
}

/// Restoring a position by its rank among the same increasing positions
/// gives the position back.
proof fn lemma_restore_same(s: Seq<SemanticPosition>, k: int)
    requires
        increasing(s),
        0 <= k < s.len(),
        s.len() * s.len() <= usize::MAX,
    ensures
        restore_spec(anchor_of(s, Some(s[k])), s) == Some(s[k]),
{
    lemma_rank(s, k);
    let len: int = s.len() as int;
    assert(len <= usize::MAX) by (nonlinear_arith)
        requires
            len * len <= usize::MAX,
            len >= 1,
    ;
    let a = anchor_of(s, Some(s[k]));
    assert(a.ordinal == k);
    assert(a.extent == s.len());
    if s.len() > 1 {
        let d: int = s.len() - 1;
        assert(0 <= k <= d);
        let n: int = s.len() as int;
        assert(k * d + d / 2 < n * n) by (nonlinear_arith)
            requires
                0 <= k <= d,
                d == n - 1,
                n > 1,
        ;
        assert(n * n <= usize::MAX);
        assert(crate::navigation::sat_mul(k, d) == k * d);
        assert(crate::navigation::sat_add(k * d, d / 2) == k * d + d / 2);
        assert((k * d + d / 2) / d == k) by (nonlinear_arith)
            requires
                d > 0,
                0 <= k,
        ;
    }
}

/// Outline entries stand at grapheme zero of strictly increasing blocks.
pub open spec fn outline_increasing(o: Seq<EntryView>) -> bool {
    forall|i: int, j: int| 0 <= i < j < o.len() ==> (#[trigger] o[i]).position.block < (#[trigger] o[j]).position.block
}

proof fn lemma_outline_increasing(blocks: Seq<crate::document::Block>)
    requires
        blocks.len() <= usize::MAX,
    ensures
        outline_increasing(outline_of(blocks)),
        forall|i: int| 0 <= i < outline_of(blocks).len() ==> (#[trigger] outline_of(blocks)[i]).position.block < blocks.len(),
    decreases blocks.len(),
{
    if blocks.len() > 0 {
        let d = blocks.drop_last();
        lemma_outline_increasing(d);
        let head = outline_of(d);
        let all = outline_of(blocks);
        assert forall|i: int, j: int| 0 <= i < j < all.len() implies (#[trigger] all[i]).position.block < (#[trigger] all[j]).position.block by {
            if j < head.len() {
                assert(all[i] == head[i] && all[j] == head[j]);
            } else {
                assert(all[i] == head[i]);
            }
        }
        assert forall|i: int| 0 <= i < all.len() implies (#[trigger] all[i]).position.block < blocks.len() by {
            if i < head.len() {
                assert(all[i] == head[i]);
            }
        }
    }
}

proof fn lemma_entry_index_of(o: Seq<EntryView>, j: int)
    requires
        outline_increasing(o),
        0 <= j < o.len(),
    ensures
        entry_index(o, o[j].position) == Some(j),
    decreases o.len(),
{
    let d = o.drop_last();
    assert(outline_increasing(d));
    if j < o.len() - 1 {
        assert(d[j] == o[j]);
        lemma_entry_index_of(d, j);
    } else {
        lemma_entry_index_bound(d, o[j].position);
        if entry_index(d, o[j].position) is Some {
            let m = entry_index(d, o[j].position)->0;
            lemma_entry_index_found(d, o[j].position);
            assert(d[m] == o[m]);
            assert(o[m].position.block < o[j].position.block);
        }
    }
}

proof fn lemma_entry_index_found(o: Seq<EntryView>, p: SemanticPosition)
    ensures
        entry_index(o, p) matches Some(i) ==> 0 <= i < o.len() && o[i].position == p,
    decreases o.len(),
{
    if o.len() > 0 {
        lemma_entry_index_found(o.drop_last(), p);
        if entry_index(o.drop_last(), p) is Some {
            let i = entry_index(o.drop_last(), p)->0;
            assert(o.drop_last()[i] == o[i]);
        }
    }
}

proof fn lemma_last_entry_found(o: Seq<EntryView>, b: usize)
    ensures
        last_entry_at_or_before(o, b) matches Some(j) ==> 0 <= j < o.len() && o[j].position.block <= b
            && forall|m: int| j < m < o.len() ==> (#[trigger] o[m]).position.block > b,
        last_entry_at_or_before(o, b) is None ==> forall|m: int| 0 <= m < o.len() ==> (#[trigger] o[m]).position.block > b,
    decreases o.len(),
{
    if o.len() > 0 {
        let d = o.drop_last();
        lemma_last_entry_found(d, b);
        assert(o[o.len() - 1] == o.last());
        if o.last().position.block > b {
            assert forall|m: int| 0 <= m < o.len() - 1 implies (#[trigger] o[m]).position.block == d[m].position.block by {}
        }
    }
}

proof fn lemma_count_equal_step(paths: Seq<HeadingPath>, path: HeadingPath, a: int, b: int)
    requires
        0 <= a < b,
        paths[a] == path,
    ensures
        count_equal(paths, path, a) < count_equal(paths, path, b),
    decreases b - a,
{
    if b > a + 1 {
        lemma_count_equal_step(paths, path, a, b - 1);
    }
}

proof fn lemma_nth_before(paths: Seq<HeadingPath>, i: int, m: int)
    requires
        0 <= m <= i,
    ensures
        nth_equal(paths, paths[i], count_equal(paths, paths[i], i), m) is None,
    decreases m,
{
    if m > 0 {
        lemma_nth_before(paths, i, m - 1);
        if paths[m - 1] == paths[i] && m - 1 < i {
            lemma_count_equal_step(paths, paths[i], m - 1, i);
        }
    }
}

/// The path of entry `i` is found again by its occurrence among equal paths.
proof fn lemma_nth_equal_finds(paths: Seq<HeadingPath>, i: int, n: int)
    requires
        0 <= i < n,
    ensures
        nth_equal(paths, paths[i], count_equal(paths, paths[i], i), n) == Some(i),
    decreases n,
{
    if n == i + 1 {
        lemma_nth_before(paths, i, i);
    } else {
        lemma_nth_equal_finds(paths, i, n - 1);
    }
}

/// Reloading a Document that did not change keeps the Reading Cursor on
/// the visible grapheme it was on.
pub proof fn lemma_reload_unchanged_keeps_cursor(v: SessionView, width: u16, screen_height: u16)
    requires
        v.outline == outline_of(v.document.blocks@),
        v.cursor is Some,
        logical_positions_spec(v.document.blocks@).contains(v.cursor->0),
        v.document.blocks@.len() <= usize::MAX,
        forall|k: int| 0 <= k < v.document.blocks@.len() ==> crate::text::grapheme_clusters(#[trigger] v.document.blocks@[k].text@).len() <= usize::MAX,
        logical_positions_spec(v.document.blocks@).len() * logical_positions_spec(v.document.blocks@).len() <= usize::MAX,
    ensures
        reloaded_view(v, v.document, width, screen_height).cursor == v.cursor,
{
    let blocks = v.document.blocks@;
    let c = v.cursor->0;
    let positions = logical_positions_spec(blocks);
    lemma_logical_increasing(blocks);
    let k = choose|k: int| 0 <= k < positions.len() && positions[k] == c;
    lemma_restore_same(positions, k);
    let ctx = capture_spec(v);
    let outline = outline_of(blocks);
    let paths = heading_paths_spec(outline);
    match section_index_spec(v) {
        None => {
            assert(position_in_spec(ctx, v.document, outline) == Some(c));
        },
        Some(i) => {
            lemma_outline_increasing(blocks);
            lemma_last_entry_found(outline, c.block);
            let j = last_entry_at_or_before(outline, c.block)->0;
            lemma_entry_index_of(outline, j);
            assert(i == j);
            crate::outline::lemma_heading_paths_len(outline);
            lemma_nth_equal_finds(paths, i, paths.len() as int);
            let start = outline[i].position.block;
            let end: int = if i + 1 < outline.len() { outline[i + 1].position.block as int } else { usize::MAX as int };
            let pred = |p: SemanticPosition| start <= p.block && (p.block as int) < end;
            assert(pred(c));
            let section = section_positions(positions, outline, i);
            assert(section == positions.filter(pred));
            lemma_filter_increasing(positions, pred);
            lemma_filter_keeps(positions, pred, c);
            positions.lemma_filter_len(pred);
            let k2 = choose|k2: int| 0 <= k2 < section.len() && section[k2] == c;
            assert(section.len() * section.len() <= usize::MAX) by (nonlinear_arith)
                requires
                    section.len() <= positions.len(),
                    positions.len() * positions.len() <= usize::MAX,
            ;
            lemma_restore_same(section, k2);
            assert(ctx.heading_path == Some(paths[i]));
            assert(position_in_spec(ctx, v.document, outline) == Some(c));
        },
    }
}

// ---------------------------------------------------------------------------
// What keys never do
// ---------------------------------------------------------------------------

/// The side effects after a key: those before it, then at most one more,
/// and a browser is only ever asked to open an `http` or `https` address.
pub open spec fn effects_extended(before: Seq<EffectView>, after: Seq<EffectView>) -> bool {
    &&& before.len() <= after.len() <= before.len() + 1
    &&& after.take(before.len() as int) == before
    &&& forall|i: int| before.len() <= i < after.len() ==> (#[trigger] after[i] matches EffectView::OpenBrowser(u) ==> web_url(u))
}

proof fn lemma_effects_same(e: Seq<EffectView>)
    ensures
        effects_extended(e, e),
{
    assert(e.take(e.len() as int) =~= e);
}

proof fn lemma_effects_push(e: Seq<EffectView>, x: EffectView)
    requires
        x matches EffectView::OpenBrowser(u) ==> web_url(u),
    ensures
        effects_extended(e, e.push(x)),
{
    assert(e.push(x).take(e.len() as int) =~= e);
    assert(e.push(x)[e.len() as int] == x);
}

/// A step that leaves the Document, its source, Outline headings, link
/// targets and requested effects as they were, and keeps a quit.
pub open spec fn keeps(v: SessionView, w: SessionView) -> bool {
    &&& w.document == v.document
    &&& w.source == v.source
    &&& w.targets == v.targets
    &&& w.outline.len() == v.outline.len()
    &&& (v.quit ==> w.quit)
    &&& w.effects == v.effects
}

/// Like `keeps`, but at most one effect may be added, and never a browser
/// request for anything but a web address.
pub open spec fn keeps_adding(v: SessionView, w: SessionView) -> bool {
    &&& w.document == v.document
    &&& w.source == v.source
    &&& w.targets == v.targets
    &&& w.outline.len() == v.outline.len()
    &&& (v.quit ==> w.quit)
    &&& effects_extended(v.effects, w.effects)
}

proof fn lemma_keeps_adds(v: SessionView, w: SessionView)
    requires
        keeps(v, w),
    ensures
        keeps_adding(v, w),
{
    lemma_effects_same(v.effects);
}

proof fn lemma_settle_keeps(v: SessionView, rows: Seq<Seq<CellView>>, height: u16)
    ensures
        keeps(v, settle(v, rows, height)),
        keeps(v, cursor_visible(v, rows, height)),
        keeps(v, outline_context(v, height)),
{
}

proof fn lemma_move_keeps(v: SessionView, target: SemanticPosition, width: u16, height: u16)
    ensures
        keeps(v, move_cursor_spec(v, target, width, height)),
{
    let had = status_text_spec(v) is Some;
    let v1 = SessionView { cursor: Some(target), preferred_column: None, ..v };
    lemma_settle_keeps(v1, rows_spec(v1, width), height_after(v1, height, had));
}

#[verifier::spinoff_prover]
proof fn lemma_motion_keeps(v: SessionView, width: u16, height: u16, motion: Motion, count: usize)
    ensures
        keeps(v, motion_spec(v, width, height, motion, count)),
{
    let had = status_text_spec(v) is Some;
    let rows = rows_spec(v, width);
    match v.cursor {
        None => {},
        Some(cursor) => match location_of(rows, cursor) {
            None => {
                let v1 = SessionView { cursor: first_position_of(rows), ..v };
                lemma_settle_keeps(v1, rows, height_after(v1, height, had));
            },
            Some(loc) => {
                let (target, column) = motion_target(v, rows, loc, motion, count);
                let v1 = SessionView { cursor: if target is Some { target } else { v.cursor }, preferred_column: column, ..v };
                lemma_settle_keeps(v1, rows, height_after(v1, height, had));
            },
        },
    }
}

proof fn lemma_document_row_keeps(v: SessionView, width: u16, height: u16, count: Option<usize>, end: bool)
    ensures
        keeps(v, document_row_spec(v, width, height, count, end)),
{
    let had = status_text_spec(v) is Some;
    let rows = rows_spec(v, width);
    let v1 = SessionView { cursor: document_row_target(rows, count, end), preferred_column: None, ..v };
    lemma_settle_keeps(v1, rows, height_after(v1, height, had));
}

proof fn lemma_traverse_keeps(v: SessionView, direction: JumpDirection, width: u16, height: u16)
    ensures
        keeps(v, traverse_session(v, direction, width, height)),
{
    match v.cursor {
        None => {},
        Some(c) => {
            let (h, target) = traverse_spec(HistoryView { back: v.back, forward: v.forward }, c, direction);
            match target {
                None => {},
                Some(t) => lemma_move_keeps(SessionView { back: h.back, forward: h.forward, ..v }, t, width, height),
            }
        },
    }
}

#[verifier::rlimit(60)]
#[verifier::spinoff_prover]
proof fn lemma_control_keeps(v: SessionView, character: char, width: u16, height: u16)
    ensures
        keeps(v, control_spec(v, character, width, height)),
{
    if v.focus != PaneFocus::Outline {
        let count = count_or_one(v.pending_count);
        let v1 = SessionView { pending_count: None, pending_g: false, ..v };
        let page: int = if height >= 1 { height as int } else { 1 };
        let half = sat_mul(count as int, if page / 2 >= 1 { page / 2 } else { 1 }) as usize;
        let full = sat_mul(count as int, page) as usize;
        let r = control_spec(v, character, width, height);
        if character == 'u' {
            assert(r == motion_spec(v1, width, height, Motion::Up, half));
            lemma_motion_keeps(v1, width, height, Motion::Up, half);
        } else if character == 'd' {
            assert(r == motion_spec(v1, width, height, Motion::Down, half));
            lemma_motion_keeps(v1, width, height, Motion::Down, half);
        } else if character == 'b' {
            assert(r == motion_spec(v1, width, height, Motion::Up, full));
            lemma_motion_keeps(v1, width, height, Motion::Up, full);
        } else if character == 'f' {
            assert(r == motion_spec(v1, width, height, Motion::Down, full));
            lemma_motion_keeps(v1, width, height, Motion::Down, full);
        } else if character == 'o' {
            assert(r == traverse_session(v1, JumpDirection::Backward, width, height));
            lemma_traverse_keeps(v1, JumpDirection::Backward, width, height);
        } else if character == 'i' {
            assert(r == traverse_session(v1, JumpDirection::Forward, width, height));
            lemma_traverse_keeps(v1, JumpDirection::Forward, width, height);
        }
    }
}

proof fn lemma_navigate_keeps(v: SessionView, forward: bool, width: u16, height: u16)
    ensures
        keeps(v, navigate_search_spec(v, forward, width, height)),
{
    match v.cursor {
        None => {},
        Some(c) => match search_target(v.matches, c, forward) {
            None => {},
            Some(t) => lemma_move_keeps(v, t, width, height),
        },
    }
}

#[verifier::spinoff_prover]
proof fn lemma_prompt_keeps(v: SessionView, key: KeyInput, width: u16, screen_height: u16)
    requires
        v.prompt is Some,
    ensures
        keeps(v, search_prompt_key_spec(v, key, width, screen_height)),
{
    let p = v.prompt->0;
    if key.code == KeyCode::Enter {
        let v0 = SessionView { prompt: None, ..v };
        if p.query.len() > 0 {
            let matches = search_matches(v.document.blocks@, p.query);
            let v1 = SessionView { focus: PaneFocus::Document, matches, search_query: Some(p.query), ..v0 };
            let v2 = SessionView { search_message: None, ..v1 };
            lemma_navigate_keeps(v2, true, width, content_height_spec(v2, screen_height));
        }
    }
}

#[verifier::spinoff_prover]
proof fn lemma_outline_moves_keep(v: SessionView, count: usize, forward: bool, collapsed: bool, height: u16)
    ensures
        keeps(v, move_outline_selection_spec(v, count, forward, height)),
        keeps(v, set_branch_spec(v, collapsed, height)),
{
    match v.outline_selection {
        None => {},
        Some(sel) => {
            let visible = visible_outline_spec(v);
            match index_in(visible, sel) {
                None => {},
                Some(row) => {
                    let target = if forward {
                        let t = sat_add(row, count as int);
                        let last = sat_sub(visible.len() as int, 1);
                        if t < last { t } else { last }
                    } else {
                        sat_sub(row, count as int)
                    };
                    let v1 = SessionView {
                        outline_selection: if 0 <= target < visible.len() { Some(visible[target]) } else { None },
                        ..v
                    };
                    lemma_settle_keeps(v1, Seq::empty(), height);
                },
            }
            let v1 = if is_branch(v.outline, sel as int) {
                SessionView { outline: v.outline.update(sel as int, EntryView { collapsed, ..v.outline[sel as int] }), ..v }
            } else {
                v
            };
            lemma_settle_keeps(v1, Seq::empty(), height);
        },
    }
}

#[verifier::spinoff_prover]
proof fn lemma_activate_keeps(v: SessionView, width: u16, height: u16, screen_height: u16)
    ensures
        keeps(v, activate_outline_spec(v, width, screen_height)),
        keeps_adding(v, activate_under_cursor_spec(v, width, height)),
{
    match v.outline_selection {
        Some(i) => if i < v.outline.len() {
            let v1 = SessionView { focus: PaneFocus::Document, ..record_cursor(v) };
            lemma_move_keeps(v1, v.outline[i as int].position, width, content_height_spec(v1, screen_height));
        },
        None => {},
    }
    lemma_effects_same(v.effects);
    match link_under_cursor(v) {
        None => {},
        Some(t) => {
            let v0 = SessionView { status: None, ..v };
            if t.len() > 0 && t[0] == '#' {
                match target_of(v.targets, lowercase_text(t.skip(1))) {
                    None => {},
                    Some(destination) => lemma_move_keeps(record_cursor(v0), destination, width, height),
                }
            } else if web_url(t) {
                lemma_effects_push(v.effects, EffectView::OpenBrowser(t));
            }
        },
    }
}

#[verifier::rlimit(60)]
#[verifier::spinoff_prover]
proof fn lemma_command_key_keeps(v0: SessionView, c: char, width: u16, screen_height: u16, height: u16)
    ensures
        keeps_adding(v0, command_key_spec(v0, c, width, screen_height, height)),
{
    lemma_effects_same(v0.effects);
    let supplied = v0.pending_count;
    let count = count_or_one(supplied);
    let v1 = SessionView { pending_count: None, ..v0 };
    let r = command_key_spec(v0, c, width, screen_height, height);
    if c == 'o' {
        assert(r == toggle_outline_spec(v1, width, screen_height));
        let v2 = SessionView { outline_enabled: !v1.outline_enabled, ..v1 };
        let v3 = if !outline_visible_spec(v2, width) { SessionView { focus: PaneFocus::Document, ..v2 } } else { v2 };
        lemma_settle_keeps(v3, rows_spec(v3, width), content_height_spec(v3, screen_height));
    } else if c == 'r' {
        assert(r == request_reload_spec(v1));
        match v1.source {
            Some(path) => lemma_effects_push(v1.effects, EffectView::ReloadDocument(path)),
            None => {},
        }
    } else if v1.focus == PaneFocus::Outline {
        assert(r == outline_key_spec(v1, c, height, count));
        lemma_outline_moves_keep(v1, count, true, true, height);
        lemma_outline_moves_keep(v1, count, false, false, height);
    } else {
        assert(r == document_key_spec(v1, c, width, height, supplied, count));
        lemma_document_keys_keep(v1, c, width, height, supplied, count);
    }
}

#[verifier::rlimit(60)]
#[verifier::spinoff_prover]
proof fn lemma_char_key_keeps(v: SessionView, c: char, width: u16, screen_height: u16, height: u16)
    ensures
        keeps_adding(v, char_key_spec(v, c, width, screen_height, height)),
{
    lemma_effects_same(v.effects);
    let r = char_key_spec(v, c, width, screen_height, height);
    if c == '/' {
        assert(r == open_prompt_spec(v, width, screen_height));
    } else if is_digit(c) {
        lemma_motion_keeps(v, width, height, Motion::RowStart, 1);
    } else if v.focus == PaneFocus::Document && v.pending_g && c == 'g' {
        let v1 = SessionView { pending_g: false, pending_count: None, ..v };
        assert(r == document_row_spec(v1, width, height, v.pending_count, false));
        lemma_document_row_keeps(v1, width, height, v.pending_count, false);
    } else if v.focus == PaneFocus::Document && v.pending_g && c == 'x' {
        let v1 = SessionView { pending_g: false, pending_count: None, ..v };
        assert(r == activate_under_cursor_spec(v1, width, height));
        lemma_activate_keeps(v1, width, height, screen_height);
    } else {
        let v0 = if v.focus == PaneFocus::Document && v.pending_g { SessionView { pending_g: false, ..v } } else { v };
        if !(v0.focus == PaneFocus::Document && c == 'g') {
            assert(r == command_key_spec(v0, c, width, screen_height, height));
            lemma_command_key_keeps(v0, c, width, screen_height, height);
        }
    }
}

#[verifier::rlimit(60)]
#[verifier::spinoff_prover]
proof fn lemma_document_keys_keep(v: SessionView, c: char, width: u16, height: u16, supplied: Option<usize>, count: usize)
    ensures
        keeps_adding(v, document_key_spec(v, c, width, height, supplied, count)),
{
    lemma_effects_same(v.effects);
    let r = document_key_spec(v, c, width, height, supplied, count);
    if c == 'q' || c == 'v' || c == 'V' {
    } else if c == 'y' && v.selection is Some {
        assert(r == yank_spec(v, width));
        match v.cursor {
            Some(cur) => {
                let sel = v.selection->0;
                lemma_effects_push(v.effects, EffectView::WriteClipboard(
                    selection_text(v.document, rows_spec(v, width), sel.mode, sel.anchor, cur),
                ));
            },
            None => {},
        }
    } else if c == 'G' {
        assert(r == document_row_spec(v, width, height, supplied, true));
        lemma_document_row_keeps(v, width, height, supplied, true);
    } else if c == 'n' || c == 'N' {
        assert(r == navigate_search_spec(v, c == 'n', width, height));
        lemma_navigate_keeps(v, c == 'n', width, height);
    } else {
        let motion = if c == 'h' {
            Motion::Left
        } else if c == 'j' {
            Motion::Down
        } else if c == 'k' {
            Motion::Up
        } else if c == 'l' {
            Motion::Right
        } else if c == 'w' {
            Motion::WordForward
        } else if c == 'b' {
            Motion::WordBackward
        } else if c == '^' {
            Motion::FirstNonBlank
        } else if c == '$' {
            Motion::RowEnd
        } else if c == '{' {
            Motion::ParagraphBackward
        } else {
            Motion::ParagraphForward
        };
        lemma_motion_keeps(v, width, height, motion, count);
        if c == 'h' || c == 'j' || c == 'k' || c == 'l' || c == 'w' || c == 'b' || c == '^' || c == '$' || c == '{' || c == '}' {
            assert(r == motion_spec(v, width, height, motion, count));
        } else {
            assert(r == cleared(v));
        }
    }
}

/// Keys read the Document and never change it: the Document, its source,
/// its Outline headings and link targets stay as they were; a session that
/// has quit stays quit; and a key asks for at most one side effect, where
/// a browser is only ever asked to open an `http` or `https` address.
#[verifier::rlimit(60)]
#[verifier::spinoff_prover]
pub proof fn lemma_keys_are_read_only(v: SessionView, key: KeyInput, width: u16, screen_height: u16)
    ensures
        keeps_adding(v, key_spec(v, key, width, screen_height)),
{
    lemma_effects_same(v.effects);
    if v.prompt is Some {
        lemma_prompt_keeps(v, key, width, screen_height);
        lemma_keeps_adds(v, search_prompt_key_spec(v, key, width, screen_height));
    } else {
        let height = content_height_spec(v, screen_height);
        if key.code == KeyCode::Tab {
            lemma_traverse_keeps(v, JumpDirection::Forward, width, height);
        } else if key.code == KeyCode::Enter {
            lemma_activate_keeps(v, width, height, screen_height);
        } else if !v.pending_control_w {
            match key.code {
                KeyCode::Char(c) => {
                    lemma_control_keeps(v, c, width, height);
                    lemma_char_key_keeps(v, c, width, screen_height, height);
                },
                _ => {},
            }
        }
    }
}

} // verus!
