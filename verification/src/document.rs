//! The semantic Document: blocks of styled inline spans, tables, list items
//! and alerts, as the reader lays them out, searches and copies them.
use crate::text::{chars_of, push_all, string_of};
use vstd::prelude::*;

verus! {

/// Heading levels one to six.
#[derive(Clone, Copy, Debug, PartialEq, Eq, Structural)]
pub enum HeadingLevel {
    H1,
    H2,
    H3,
    H4,
    H5,
    H6,
}

impl HeadingLevel {
    pub open spec fn spec_depth(self) -> nat {
        match self {
            HeadingLevel::H1 => 1,
            HeadingLevel::H2 => 2,
            HeadingLevel::H3 => 3,
            HeadingLevel::H4 => 4,
            HeadingLevel::H5 => 5,
            HeadingLevel::H6 => 6,
        }
    }

    /// The nesting depth of the level: one for `H1`, six for `H6`.
    pub fn depth(self) -> (r: usize)
        ensures
            r == self.spec_depth(),
    {
        match self {
            HeadingLevel::H1 => 1,
            HeadingLevel::H2 => 2,
            HeadingLevel::H3 => 3,
            HeadingLevel::H4 => 4,
            HeadingLevel::H5 => 5,
            HeadingLevel::H6 => 6,
        }
    }
}

/// GitHub alert kinds.
#[derive(Clone, Copy, Debug, PartialEq, Eq, Structural)]
pub enum AlertKind {
    Note,
    Tip,
    Important,
    Warning,
    Caution,
}

pub open spec fn alert_label(kind: AlertKind) -> Seq<char> {
    match kind {
        AlertKind::Note => "NOTE"@,
        AlertKind::Tip => "TIP"@,
        AlertKind::Important => "IMPORTANT"@,
        AlertKind::Warning => "WARNING"@,
        AlertKind::Caution => "CAUTION"@,
    }
}

impl AlertKind {
    /// The text label that marks an alert's role without relying on color.
    pub fn rendered_label(self) -> (r: &'static str)
        ensures
            r@ == alert_label(self),
    {
        match self {
            AlertKind::Note => "NOTE",
            AlertKind::Tip => "TIP",
            AlertKind::Important => "IMPORTANT",
            AlertKind::Warning => "WARNING",
            AlertKind::Caution => "CAUTION",
        }
    }
}

/// How a list item is marked.
#[derive(Clone, Copy, Debug, PartialEq, Eq, Structural)]
pub enum ListMarker {
    Unordered,
    Ordered(u64),
    Task { checked: bool, number: Option<u64> },
}

/// The decimal digits of a number.
pub open spec fn decimal(n: nat) -> Seq<char>
    decreases n,
{
    if n < 10 {
        seq![digit_char(n)]
    } else {
        decimal(n / 10).push(digit_char(n % 10))
    }
}

pub open spec fn digit_char(d: nat) -> char {
    if d == 0 { '0' }
    else if d == 1 { '1' }
    else if d == 2 { '2' }
    else if d == 3 { '3' }
    else if d == 4 { '4' }
    else if d == 5 { '5' }
    else if d == 6 { '6' }
    else if d == 7 { '7' }
    else if d == 8 { '8' }
    else { '9' }
}

fn digit(d: u64) -> (r: char)
    requires
        d < 10,
    ensures
        r == digit_char(d as nat),
{
    if d == 0 { '0' }
    else if d == 1 { '1' }
    else if d == 2 { '2' }
    else if d == 3 { '3' }
    else if d == 4 { '4' }
    else if d == 5 { '5' }
    else if d == 6 { '6' }
    else if d == 7 { '7' }
    else if d == 8 { '8' }
    else { '9' }
}

/// The decimal digits of `n`.
pub fn decimal_chars(n: u64) -> (r: Vec<char>)
    ensures
        r@ == decimal(n as nat),
    decreases n,
{
    if n < 10 {
        let mut v = Vec::new();
        v.push(digit(n));
        v
    } else {
        let mut v = decimal_chars(n / 10);
        v.push(digit(n % 10));
        v
    }
}

/// The text of a list marker, with its trailing space.
pub open spec fn marker_text(marker: ListMarker) -> Seq<char> {
    match marker {
        ListMarker::Unordered => "• "@,
        ListMarker::Ordered(n) => decimal(n as nat) + ". "@,
        ListMarker::Task { checked, number } => {
            let prefix = match number {
                Some(n) => decimal(n as nat) + ". "@,
                None => Seq::empty(),
            };
            prefix + (if checked { "☑ "@ } else { "☐ "@ })
        },
    }
}

/// The marker text without its trailing space.
pub open spec fn marker_label(marker: ListMarker) -> Seq<char> {
    let t = marker_text(marker);
    t.take(t.len() - 1)
}

impl ListMarker {
    /// The rendered marker: a bullet, the item number, or a task box.
    pub fn rendered_text(&self) -> (r: Vec<char>)
        ensures
            r@ == marker_text(*self),
    {
        match *self {
            ListMarker::Unordered => chars_of("• "),
            ListMarker::Ordered(n) => {
                let mut v = decimal_chars(n);
                push_all(&mut v, &chars_of(". "));
                v
            },
            ListMarker::Task { checked, number } => {
                let mut v = match number {
                    Some(n) => {
                        let mut p = decimal_chars(n);
                        push_all(&mut p, &chars_of(". "));
                        p
                    },
                    None => Vec::new(),
                };
                let b = if checked { chars_of("☑ ") } else { chars_of("☐ ") };
                push_all(&mut v, &b);
                v
            },
        }
    }

    /// The rendered marker without its trailing space.
    pub fn rendered_label(&self) -> (r: Vec<char>)
        ensures
            r@ == marker_label(*self),
    {
        proof { reveal_strlit("• "); reveal_strlit(". "); reveal_strlit("☑ "); reveal_strlit("☐ "); }
        let mut v = self.rendered_text();
        v.pop();
        v
    }
}

/// List context of a block.
#[derive(Clone, Copy, Debug, PartialEq, Eq, Structural)]
pub struct ListItem {
    pub depth: usize,
    pub marker: ListMarker,
    pub continuation: bool,
}

/// Inline presentation roles of a span.
#[derive(Clone, Copy, Debug, Default, PartialEq, Eq, Structural)]
pub struct InlineStyle {
    pub emphasis: bool,
    pub strong: bool,
    pub strikethrough: bool,
    pub inline_code: bool,
    pub link: bool,
}

impl InlineStyle {
    pub fn is_emphasis(&self) -> (r: bool)
        ensures r == self.emphasis,
    {
        self.emphasis
    }

    pub fn is_strong(&self) -> (r: bool)
        ensures r == self.strong,
    {
        self.strong
    }

    pub fn is_strikethrough(&self) -> (r: bool)
        ensures r == self.strikethrough,
    {
        self.strikethrough
    }

    pub fn is_inline_code(&self) -> (r: bool)
        ensures r == self.inline_code,
    {
        self.inline_code
    }

    pub fn is_link(&self) -> (r: bool)
        ensures r == self.link,
    {
        self.link
    }
}

/// An inert image placeholder: its alt text and target, never fetched.
#[derive(Clone, Debug, PartialEq, Eq)]
pub struct Image {
    pub alt_text: String,
    pub target: String,
}

/// The placeholder text that stands for an image in the rendered Document.
pub open spec fn image_text(alt: Seq<char>, target: Seq<char>) -> Seq<char> {
    "[image: "@ + (if alt.len() == 0 { "(no alt text)"@ } else { alt }) + " → "@ + target + "]"@
}

impl Image {
    pub fn alt_text(&self) -> (r: &str)
        ensures r@ == self.alt_text@,
    {
        self.alt_text.as_str()
    }

    pub fn target(&self) -> (r: &str)
        ensures r@ == self.target@,
    {
        self.target.as_str()
    }

    /// `[image: ALT → TARGET]`, with a stand-in for an empty alt text.
    pub fn rendered_chars(&self) -> (r: Vec<char>)
        ensures
            r@ == image_text(self.alt_text@, self.target@),
    {
        let mut v = chars_of("[image: ");
        let alt = chars_of(self.alt_text.as_str());
        if alt.len() == 0 {
            push_all(&mut v, &chars_of("(no alt text)"));
        } else {
            push_all(&mut v, &alt);
        }
        push_all(&mut v, &chars_of(" → "));
        push_all(&mut v, &chars_of(self.target.as_str()));
        push_all(&mut v, &chars_of("]"));
        v
    }

    /// The placeholder as a string.
    pub fn rendered_text(&self) -> (r: String)
        ensures
            r@ == image_text(self.alt_text@, self.target@),
    {
        string_of(&self.rendered_chars())
    }
}

/// A run of inline text with one style, an optional link target, or an image.
#[derive(Clone, Debug, PartialEq, Eq)]
pub struct InlineSpan {
    pub text: String,
    pub style: InlineStyle,
    pub link_target: Option<String>,
    pub image: Option<Image>,
}

impl InlineSpan {
    /// A plain span of text.
    pub fn plain(text: &str) -> (r: InlineSpan)
        ensures
            r.text@ == text@,
            r.style == InlineStyle::default_spec(),
            r.link_target is None,
            r.image is None,
    {
        InlineSpan { text: string_of(&chars_of(text)), style: InlineStyle::default_spec_exec(), link_target: None, image: None }
    }

    pub fn text(&self) -> (r: &str)
        ensures r@ == self.text@,
    {
        self.text.as_str()
    }

    pub fn style(&self) -> (r: InlineStyle)
        ensures r == self.style,
    {
        self.style
    }

    pub fn link_target(&self) -> (r: Option<&str>)
        ensures
            r is Some <==> self.link_target is Some,
            r is Some ==> r->0@ == self.link_target->0@,
    {
        match &self.link_target {
            Some(t) => Some(t.as_str()),
            None => None,
        }
    }

    pub fn image(&self) -> (r: Option<&Image>)
        ensures
            r is Some <==> self.image is Some,
            r is Some ==> *r->0 == self.image->0,
    {
        match &self.image {
            Some(i) => Some(i),
            None => None,
        }
    }
}

impl InlineStyle {
    pub open spec fn default_spec() -> InlineStyle {
        InlineStyle { emphasis: false, strong: false, strikethrough: false, inline_code: false, link: false }
    }

    /// The style with no role.
    pub fn default_spec_exec() -> (r: InlineStyle)
        ensures r == InlineStyle::default_spec(),
    {
        InlineStyle { emphasis: false, strong: false, strikethrough: false, inline_code: false, link: false }
    }
}

/// Column alignment of a table.
#[derive(Clone, Copy, Debug, PartialEq, Eq, Structural)]
pub enum TableAlignment {
    Unspecified,
    Left,
    Center,
    Right,
}

/// One table cell: its spans and the Document position of its first grapheme.
#[derive(Clone, Debug, PartialEq, Eq)]
pub struct TableCell {
    pub spans: Vec<InlineSpan>,
    pub grapheme_offset: usize,
}

impl TableCell {
    pub fn spans(&self) -> (r: &[InlineSpan])
        ensures r@ == self.spans@,
    {
        self.spans.as_slice()
    }

    pub fn grapheme_offset(&self) -> (r: usize)
        ensures r == self.grapheme_offset,
    {
        self.grapheme_offset
    }
}

/// One table row.
#[derive(Clone, Debug, PartialEq, Eq)]
pub struct TableRow {
    pub cells: Vec<TableCell>,
}

impl TableRow {
    pub fn cells(&self) -> (r: &[TableCell])
        ensures r@ == self.cells@,
    {
        self.cells.as_slice()
    }
}

/// A GitHub table: the header row first, then the body rows.
#[derive(Clone, Debug, PartialEq, Eq)]
pub struct Table {
    pub alignments: Vec<TableAlignment>,
    pub rows: Vec<TableRow>,
}

impl Table {
    pub fn rows(&self) -> (r: &[TableRow])
        ensures r@ == self.rows@,
    {
        self.rows.as_slice()
    }
}

/// The semantic role of a block.
#[derive(Clone, Copy, Debug, PartialEq, Eq, Structural)]
pub enum BlockKind {
    Paragraph,
    Heading(HeadingLevel),
    Code,
    FrontMatter,
    Table,
    ThematicBreak,
    RawHtml,
    Empty,
}

/// One block of the Document.
#[derive(Clone, Debug, PartialEq, Eq)]
pub struct Block {
    pub kind: BlockKind,
    pub spans: Vec<InlineSpan>,
    pub text: String,
    pub table: Option<Table>,
    pub list_item: Option<ListItem>,
    pub alert: Option<AlertKind>,
    pub language: Option<String>,
    pub quote_depth: usize,
}

/// The concatenated text of a sequence of spans.
pub open spec fn spans_text(spans: Seq<InlineSpan>) -> Seq<char>
    decreases spans.len(),
{
    if spans.len() == 0 {
        Seq::empty()
    } else {
        spans_text(spans.drop_last()) + spans.last().text@
    }
}

impl Block {
    /// A block of the given kind whose text is the concatenation of its spans.
    pub fn new(kind: BlockKind, spans: Vec<InlineSpan>) -> (r: Block)
        ensures
            r.kind == kind,
            r.spans@ == spans@,
            r.text@ == spans_text(spans@),
            r.table is None,
            r.list_item is None,
            r.alert is None,
            r.language is None,
            r.quote_depth == 0,
    {
        let mut text: Vec<char> = Vec::new();
        let mut i: usize = 0;
        while i < spans.len()
            invariant
                i <= spans.len(),
                text@ == spans_text(spans@.take(i as int)),
            decreases spans.len() - i,
        {
            assert(spans@.take(i as int + 1).drop_last() == spans@.take(i as int));
            push_all(&mut text, &chars_of(spans[i].text.as_str()));
            i = i + 1;
        }
        assert(spans@.take(spans.len() as int) == spans@);
        Block {
            kind,
            spans,
            text: string_of(&text),
            table: None,
            list_item: None,
            alert: None,
            language: None,
            quote_depth: 0,
        }
    }

    pub fn kind(&self) -> (r: BlockKind)
        ensures r == self.kind,
    {
        self.kind
    }

    pub fn spans(&self) -> (r: &[InlineSpan])
        ensures r@ == self.spans@,
    {
        self.spans.as_slice()
    }

    pub fn text(&self) -> (r: &str)
        ensures r@ == self.text@,
    {
        self.text.as_str()
    }

    pub fn table(&self) -> (r: Option<&Table>)
        ensures
            r is Some <==> self.table is Some,
            r is Some ==> *r->0 == self.table->0,
    {
        match &self.table {
            Some(t) => Some(t),
            None => None,
        }
    }

    pub fn list_item(&self) -> (r: Option<ListItem>)
        ensures r == self.list_item,
    {
        self.list_item
    }

    pub fn alert_kind(&self) -> (r: Option<AlertKind>)
        ensures r == self.alert,
    {
        self.alert
    }

    pub fn quote_depth(&self) -> (r: usize)
        ensures r == self.quote_depth,
    {
        self.quote_depth
    }

    pub fn language(&self) -> (r: Option<&str>)
        ensures
            r is Some <==> self.language is Some,
            r is Some ==> r->0@ == self.language->0@,
    {
        match &self.language {
            Some(l) => Some(l.as_str()),
            None => None,
        }
    }
}

/// Conditions the reader reports about a Document without rejecting it.
#[derive(Clone, Copy, Debug, PartialEq, Eq, Structural)]
pub enum DocumentWarning {
    InvalidUtf8Replaced,
    LargeDocument,
}

pub open spec fn warning_message(w: DocumentWarning) -> Seq<char> {
    match w {
        DocumentWarning::InvalidUtf8Replaced => "invalid UTF-8 was replaced with U+FFFD"@,
        DocumentWarning::LargeDocument => "large Document: reading may be slow"@,
    }
}

impl DocumentWarning {
    /// The status text of the warning.
    pub fn message(self) -> (r: &'static str)
        ensures r@ == warning_message(self),
    {
        match self {
            DocumentWarning::InvalidUtf8Replaced => "invalid UTF-8 was replaced with U+FFFD",
            DocumentWarning::LargeDocument => "large Document: reading may be slow",
        }
    }
}

/// A parsed Markdown Document.
#[derive(Clone, Debug, PartialEq, Eq)]
pub struct Document {
    pub blocks: Vec<Block>,
    pub warnings: Vec<DocumentWarning>,
}

impl Document {
    /// A Document made of the given blocks, with no warning.
    pub fn new(blocks: Vec<Block>) -> (r: Document)
        ensures
            r.blocks@ == blocks@,
            r.warnings@ == Seq::<DocumentWarning>::empty(),
    {
        Document { blocks, warnings: Vec::new() }
    }

    pub fn blocks(&self) -> (r: &[Block])
        ensures r@ == self.blocks@,
    {
        self.blocks.as_slice()
    }

    pub fn warnings(&self) -> (r: &[DocumentWarning])
        ensures r@ == self.warnings@,
    {
        self.warnings.as_slice()
    }

    /// Records a warning after the ones already present.
    pub fn add_warning(&mut self, warning: DocumentWarning)
        ensures
            final(self).blocks@ == old(self).blocks@,
            final(self).warnings@ == old(self).warnings@.push(warning),
    {
        self.warnings.push(warning);
    }
}

} // verus!
