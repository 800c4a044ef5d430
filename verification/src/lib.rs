//! A terminal Markdown reader's verified core: the semantic document model,
//! layout, search, selection copy, the reading session's state machine, and
//! the adapters' decision logic.
pub mod text;
pub mod document;
pub mod layout;
pub mod clipboard;
pub mod browser;
pub mod search;
pub mod copy;
pub mod navigation;
pub mod outline;
pub mod links;
pub mod session;
pub mod source;
pub mod highlight;
pub mod present;
pub mod cli;

pub use browser::{BrowserLauncher, BrowserResult, FakeBrowser, SystemBrowser};
pub use clipboard::{
    encode_osc52, ClipboardAdapter, ClipboardMethod, ClipboardResult, ClipboardWriter, FakeClipboard,
};
pub use copy::SelectionMode;
pub use document::{
    AlertKind, Block, BlockKind, Document, DocumentWarning, HeadingLevel, Image, InlineSpan,
    InlineStyle, ListItem, ListMarker, Table, TableAlignment, TableCell, TableRow,
};
pub use highlight::{CodeHighlighter, HighlightStyle};
pub use layout::{layout, CellLocation, RenderedDocument, RenderedRow, SemanticPosition};
pub use session::{Command, Effect, PaneFocus, ReadingSession};
pub use source::SourceError;
