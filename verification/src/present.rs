//! How the Document's cells look on the terminal: the semantic role of
//! each cell, and the text attributes and colours that role is shown with.
//! Every distinction the roles make is kept in monochrome by attributes;
//! colour only adds to them.
use crate::document::{AlertKind, Block, BlockKind, Document, HeadingLevel, InlineSpan};
use crate::highlight::HighlightStyle;
use crate::layout::SemanticPosition;
use crate::text::{chars_of, concat_all, graphemes, grapheme_clusters};
use vstd::prelude::*;

verus! {

/// A terminal colour.
#[derive(Clone, Copy, Debug, PartialEq, Eq)]
pub enum TermColor {
    Black,
    Gray,
    DarkGray,
    Cyan,
    LightCyan,
    LightBlue,
    LightGreen,
    LightMagenta,
    LightRed,
    Yellow,
    Rgb(u8, u8, u8),
}

/// The semantic role of one cell.
#[derive(Clone, Copy, Debug, PartialEq, Eq)]
pub struct CellStyle {
    pub heading_level: Option<HeadingLevel>,
    pub emphasis: bool,
    pub strong: bool,
    pub strikethrough: bool,
    pub inline_code: bool,
    pub link: bool,
    pub thematic_break: bool,
    pub table_header: bool,
    pub highlight: Option<HighlightStyle>,
}

/// How one cell is drawn: text attributes and colours.
#[derive(Clone, Copy, Debug, PartialEq, Eq)]
pub struct CellPresentation {
    pub bold: bool,
    pub italic: bool,
    pub underlined: bool,
    pub dim: bool,
    pub crossed_out: bool,
    pub reversed: bool,
    pub fg: Option<TermColor>,
    pub bg: Option<TermColor>,
}

/// The colour of an alert's role.
pub open spec fn alert_color_spec(alert: AlertKind) -> TermColor {
    match alert {
        AlertKind::Note => TermColor::LightBlue,
        AlertKind::Tip => TermColor::LightGreen,
        AlertKind::Important => TermColor::LightMagenta,
        AlertKind::Warning => TermColor::Yellow,
        AlertKind::Caution => TermColor::LightRed,
    }
}

/// The colour of an alert's role.
pub fn alert_color(alert: AlertKind) -> (r: TermColor)
    ensures
        r == alert_color_spec(alert),
{
    match alert {
        AlertKind::Note => TermColor::LightBlue,
        AlertKind::Tip => TermColor::LightGreen,
        AlertKind::Important => TermColor::LightMagenta,
        AlertKind::Warning => TermColor::Yellow,
        AlertKind::Caution => TermColor::LightRed,
    }
}

/// How a cell with a semantic role is drawn, in an alert or not, with or
/// without colour. Headings: `#` bold and underlined, `##` bold, `###`
/// underlined, `####` italic, `#####` dim, `######` dim and italic.
/// Emphasis is italic, strong bold, strikethrough crossed out, inline code
/// dim and underlined, links underlined, thematic breaks dim and table
/// headers bold; a code highlight adds its own attributes. Colour goes to
/// the highlight's foreground, else headings, links and alerts.
pub open spec fn cell_presentation_spec(s: CellStyle, alert: Option<AlertKind>, color_enabled: bool) -> CellPresentation {
    let h = s.heading_level;
    let hl_bold = s.highlight matches Some(x) && x.bold;
    let hl_italic = s.highlight matches Some(x) && x.italic;
    let hl_underlined = s.highlight matches Some(x) && x.underlined;
    let fg = if !color_enabled {
        None
    } else if s.highlight matches Some(x) && x.foreground is Some {
        let (red, green, blue) = s.highlight->0.foreground->0;
        Some(TermColor::Rgb(red, green, blue))
    } else if h == Some(HeadingLevel::H1) || h == Some(HeadingLevel::H2) {
        Some(TermColor::LightCyan)
    } else if h is Some {
        Some(TermColor::Cyan)
    } else if s.link {
        Some(TermColor::LightBlue)
    } else {
        match alert {
            Some(a) => Some(alert_color_spec(a)),
            None => None,
        }
    };
    CellPresentation {
        bold: h == Some(HeadingLevel::H1) || h == Some(HeadingLevel::H2) || s.strong || s.table_header || hl_bold,
        italic: h == Some(HeadingLevel::H4) || h == Some(HeadingLevel::H6) || s.emphasis || hl_italic,
        underlined: h == Some(HeadingLevel::H1) || h == Some(HeadingLevel::H3) || s.inline_code || s.link
            || hl_underlined,
        dim: h == Some(HeadingLevel::H5) || h == Some(HeadingLevel::H6) || s.inline_code || s.thematic_break,
        crossed_out: s.strikethrough,
        reversed: false,
        fg,
        bg: None,
    }
}

/// How a cell with a semantic role is drawn.
pub fn cell_presentation(s: CellStyle, alert: Option<AlertKind>, color_enabled: bool) -> (r: CellPresentation)
    ensures
        r == cell_presentation_spec(s, alert, color_enabled),
{
    let h = s.heading_level;
    let h1 = matches!(h, Some(HeadingLevel::H1));
    let h2 = matches!(h, Some(HeadingLevel::H2));
    let h3 = matches!(h, Some(HeadingLevel::H3));
    let h4 = matches!(h, Some(HeadingLevel::H4));
    let h5 = matches!(h, Some(HeadingLevel::H5));
    let h6 = matches!(h, Some(HeadingLevel::H6));
    let (hl_bold, hl_italic, hl_underlined, hl_fg) = match s.highlight {
        Some(x) => (x.bold, x.italic, x.underlined, x.foreground),
        None => (false, false, false, None),
    };
    let fg = if !color_enabled {
        None
    } else if let Some((red, green, blue)) = hl_fg {
        Some(TermColor::Rgb(red, green, blue))
    } else if h1 || h2 {
        Some(TermColor::LightCyan)
    } else if h.is_some() {
        Some(TermColor::Cyan)
    } else if s.link {
        Some(TermColor::LightBlue)
    } else {
        match alert {
            Some(a) => Some(alert_color(a)),
            None => None,
        }
    };
    CellPresentation {
        bold: h1 || h2 || s.strong || s.table_header || hl_bold,
        italic: h4 || h6 || s.emphasis || hl_italic,
        underlined: h1 || h3 || s.inline_code || s.link || hl_underlined,
        dim: h5 || h6 || s.inline_code || s.thematic_break,
        crossed_out: s.strikethrough,
        reversed: false,
        fg,
        bg: None,
    }
}

/// A cell's look once the reader's marks are laid over its role: a search
/// match is underlined and bold (yellow in colour), the Selection is
/// reversed (on dark grey in colour), and the Reading Cursor is reversed
/// and bold (black on grey in colour).
pub open spec fn marked_presentation_spec(
    p: CellPresentation,
    search_match: bool,
    selected: bool,
    cursor: bool,
    color_enabled: bool,
) -> CellPresentation {
    let p1 = if search_match {
        CellPresentation {
            underlined: true,
            bold: true,
            fg: if color_enabled { Some(TermColor::Yellow) } else { p.fg },
            ..p
        }
    } else {
        p
    };
    let p2 = if selected {
        CellPresentation {
            reversed: true,
            bg: if color_enabled { Some(TermColor::DarkGray) } else { p1.bg },
            ..p1
        }
    } else {
        p1
    };
    if cursor {
        CellPresentation {
            reversed: true,
            bold: true,
            fg: if color_enabled { Some(TermColor::Black) } else { p2.fg },
            bg: if color_enabled { Some(TermColor::Gray) } else { p2.bg },
            ..p2
        }
    } else {
        p2
    }
}

/// A cell's look with the reader's marks laid over its role.
pub fn marked_presentation(
    p: CellPresentation,
    search_match: bool,
    selected: bool,
    cursor: bool,
    color_enabled: bool,
) -> (r: CellPresentation)
    ensures
        r == marked_presentation_spec(p, search_match, selected, cursor, color_enabled),
{
    let mut r = p;
    if search_match {
        r.underlined = true;
        r.bold = true;
        if color_enabled {
            r.fg = Some(TermColor::Yellow);
        }
    }
    if selected {
        r.reversed = true;
        if color_enabled {
            r.bg = Some(TermColor::DarkGray);
        }
    }
    if cursor {
        r.reversed = true;
        r.bold = true;
        if color_enabled {
            r.fg = Some(TermColor::Black);
            r.bg = Some(TermColor::Gray);
        }
    }
    r
}

/// How an Outline row is drawn: the current section's entry bold (cyan in
/// colour), the selected entry of a focused Outline reversed (yellow in
/// colour).
pub open spec fn outline_row_presentation_spec(current: bool, selected: bool, color_enabled: bool) -> CellPresentation {
    CellPresentation {
        bold: current,
        italic: false,
        underlined: false,
        dim: false,
        crossed_out: false,
        reversed: selected,
        fg: if !color_enabled {
            None
        } else if selected {
            Some(TermColor::Yellow)
        } else if current {
            Some(TermColor::Cyan)
        } else {
            None
        },
        bg: None,
    }
}

/// How an Outline row is drawn, given whether its entry is the current
/// section and whether it is the selection of a focused Outline.
pub fn outline_row_presentation(current: bool, selected: bool, color_enabled: bool) -> (r: CellPresentation)
    ensures
        r == outline_row_presentation_spec(current, selected, color_enabled),
{
    CellPresentation {
        bold: current,
        italic: false,
        underlined: false,
        dim: false,
        crossed_out: false,
        reversed: selected,
        fg: if !color_enabled {
            None
        } else if selected {
            Some(TermColor::Yellow)
        } else if current {
            Some(TermColor::Cyan)
        } else {
            None
        },
        bg: None,
    }
}

/// The span holding the character at `offset` of the spans' joined text.
pub open spec fn span_at(spans: Seq<InlineSpan>, offset: int) -> Option<InlineSpan>
    decreases spans.len(),
{
    if spans.len() == 0 || offset < 0 {
        None
    } else if offset < spans[0].text@.len() {
        Some(spans[0])
    } else {
        span_at(spans.drop_first(), offset - spans[0].text@.len())
    }
}

/// The semantic role of the cell at a position, with the code highlight
/// given for it: the block's heading level, thematic break and table
/// header row, and the inline roles of the span holding the first
/// character of the cell's grapheme.
pub open spec fn cell_style_spec(blocks: Seq<Block>, p: SemanticPosition, highlight: Option<HighlightStyle>) -> CellStyle {
    let b = blocks[p.block as int];
    let gs = grapheme_clusters(b.text@);
    let span = if p.block < blocks.len() && p.grapheme < gs.len() {
        span_at(b.spans@, concat_all(gs.take(p.grapheme as int)).len() as int)
    } else {
        None
    };
    let inside = p.block < blocks.len();
    CellStyle {
        heading_level: if inside && b.kind is Heading { Some(b.kind->0) } else { None },
        emphasis: span matches Some(s) && s.style.emphasis,
        strong: span matches Some(s) && s.style.strong,
        strikethrough: span matches Some(s) && s.style.strikethrough,
        inline_code: span matches Some(s) && s.style.inline_code,
        link: span matches Some(s) && (s.style.link || s.link_target is Some),
        thematic_break: inside && b.kind == BlockKind::ThematicBreak,
        table_header: inside && (b.table matches Some(t) && t.rows@.len() > 1 && t.rows@[1].cells@.len() > 0
            && p.grapheme < t.rows@[1].cells@[0].grapheme_offset),
        highlight,
    }
}

proof fn lemma_concat_prefix_len(gs: Seq<Seq<char>>, k: int)
    requires
        0 <= k <= gs.len(),
    ensures
        concat_all(gs.take(k)).len() <= concat_all(gs).len(),
    decreases gs.len(),
{
    if k < gs.len() {
        assert(gs.drop_last().take(k) =~= gs.take(k));
        lemma_concat_prefix_len(gs.drop_last(), k);
    } else {
        assert(gs.take(k) =~= gs);
    }
}

fn find_span(spans: &Vec<InlineSpan>, offset: usize) -> (r: Option<usize>)
    ensures
        match r {
            Some(i) => i < spans@.len() && span_at(spans@, offset as int) == Some(spans@[i as int]),
            None => span_at(spans@, offset as int) is None,
        },
{
    let mut i: usize = 0;
    let mut rest: usize = offset;
    assert(spans@.skip(0) =~= spans@);
    while i < spans.len()
        invariant
            i <= spans@.len(),
            span_at(spans@, offset as int) == span_at(spans@.skip(i as int), rest as int),
        decreases spans.len() - i,
    {
        let n = chars_of(spans[i].text.as_str()).len();
        assert(spans@.skip(i as int)[0] == spans@[i as int]);
        if rest < n {
            return Some(i);
        }
        assert(spans@.skip(i as int).drop_first() =~= spans@.skip(i as int + 1));
        rest = rest - n;
        i = i + 1;
    }
    None
}

/// The semantic role of the cell at a position, with the code highlight
/// given for it.
pub fn cell_style_at(document: &Document, position: SemanticPosition, highlight: Option<HighlightStyle>) -> (r: CellStyle)
    ensures
        r == cell_style_spec(document.blocks@, position, highlight),
{
    if position.block >= document.blocks.len() {
        return CellStyle {
            heading_level: None,
            emphasis: false,
            strong: false,
            strikethrough: false,
            inline_code: false,
            link: false,
            thematic_break: false,
            table_header: false,
            highlight,
        };
    }
    let block = &document.blocks[position.block];
    let gs = graphemes(block.text.as_str());
    let ghost g = gs.deep_view();
    let span = if position.grapheme < gs.len() {
        let total = chars_of(block.text.as_str()).len();
        let mut offset: usize = 0;
        let mut k: usize = 0;
        assert(g.take(0) =~= Seq::<Seq<char>>::empty());
        while k < position.grapheme
            invariant
                k <= position.grapheme < gs@.len(),
                g == gs.deep_view(),
                concat_all(g) == block.text@,
                total == block.text@.len(),
                offset == concat_all(g.take(k as int)).len(),
            decreases position.grapheme - k,
        {
            assert(g.take(k as int + 1).drop_last() =~= g.take(k as int));
            assert(gs[k as int]@ == g[k as int]);
            proof {
                lemma_concat_prefix_len(g, k as int + 1);
            }
            offset = offset + gs[k].len();
            k = k + 1;
        }
        find_span(&block.spans, offset)
    } else {
        None
    };
    let (emphasis, strong, strikethrough, inline_code, link) = match span {
        Some(i) => (block.spans[i].style.emphasis, block.spans[i].style.strong, block.spans[i].style.strikethrough,
            block.spans[i].style.inline_code, block.spans[i].style.link || block.spans[i].link_target.is_some()),
        None => (false, false, false, false, false),
    };
    let table_header = match &block.table {
        Some(t) => t.rows.len() > 1 && t.rows[1].cells.len() > 0 && position.grapheme
            < t.rows[1].cells[0].grapheme_offset,
        None => false,
    };
    CellStyle {
        heading_level: match block.kind {
            BlockKind::Heading(level) => Some(level),
            _ => None,
        },
        emphasis,
        strong,
        strikethrough,
        inline_code,
        link,
        thematic_break: matches!(block.kind, BlockKind::ThematicBreak),
        table_header,
        highlight,
    }
}

/// The Reading Cursor's cell is reversed and bold, with colour or without.
pub proof fn lemma_cursor_cell_stands_out(p: CellPresentation, search_match: bool, selected: bool, color_enabled: bool)
    ensures
        marked_presentation_spec(p, search_match, selected, true, color_enabled).reversed,
        marked_presentation_spec(p, search_match, selected, true, color_enabled).bold,
{
}

/// Colour never carries a distinction alone: with or without colour a
/// cell has the same text attributes, and without colour it has no colour.
pub proof fn lemma_monochrome_keeps_attributes(
    s: CellStyle,
    alert: Option<AlertKind>,
    search_match: bool,
    selected: bool,
    cursor: bool,
)
    ensures
        ({
            let colour = marked_presentation_spec(cell_presentation_spec(s, alert, true), search_match, selected, cursor, true);
            let mono = marked_presentation_spec(cell_presentation_spec(s, alert, false), search_match, selected, cursor, false);
            &&& colour.bold == mono.bold
            &&& colour.italic == mono.italic
            &&& colour.underlined == mono.underlined
            &&& colour.dim == mono.dim
            &&& colour.crossed_out == mono.crossed_out
            &&& colour.reversed == mono.reversed
            &&& mono.fg is None
            &&& mono.bg is None
        }),
{
}

} // verus!
