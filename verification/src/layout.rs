//! Terminal layout: each block's graphemes wrapped into rows of cells that
//! keep their semantic positions, and the queries that map between the two.
use crate::document::Document;
use crate::text::{
    all_space, all_whitespace, display_width, grapheme_clusters, graphemes, string_of,
    text_width,
};
use vstd::prelude::*;

verus! {

/// Width-independent location of a grapheme in the semantic Document.
#[derive(Clone, Copy, Debug, PartialEq, Eq, Hash, PartialOrd, Ord, Structural)]
pub struct SemanticPosition {
    pub block: usize,
    pub grapheme: usize,
}

/// Document order of positions.
pub open spec fn pos_lt(a: SemanticPosition, b: SemanticPosition) -> bool {
    a.block < b.block || (a.block == b.block && a.grapheme < b.grapheme)
}

pub open spec fn pos_le(a: SemanticPosition, b: SemanticPosition) -> bool {
    pos_lt(a, b) || a == b
}

/// `a <= b` in Document order.
pub fn position_le(a: SemanticPosition, b: SemanticPosition) -> (r: bool)
    ensures
        r == pos_le(a, b),
{
    a.block < b.block || (a.block == b.block && a.grapheme <= b.grapheme)
}

/// `a < b` in Document order.
pub fn position_lt(a: SemanticPosition, b: SemanticPosition) -> (r: bool)
    ensures
        r == pos_lt(a, b),
{
    a.block < b.block || (a.block == b.block && a.grapheme < b.grapheme)
}

/// The mathematical content of a rendered cell.
#[verifier::ext_equal]
pub struct CellView {
    pub symbol: Seq<char>,
    pub position: SemanticPosition,
    pub width: usize,
}

/// One grapheme placed into a terminal row, with its semantic position.
#[derive(Clone, Debug, PartialEq, Eq)]
pub struct RenderedCell {
    pub symbol: Vec<char>,
    pub position: SemanticPosition,
    pub width: usize,
}

impl DeepView for RenderedCell {
    type V = CellView;

    open spec fn deep_view(&self) -> CellView {
        CellView { symbol: self.symbol@, position: self.position, width: self.width }
    }
}

/// Navigable cells are those that show something other than white space.
pub open spec fn navigable(c: CellView) -> bool {
    !all_space(c.symbol)
}

impl RenderedCell {
    /// The grapheme shown by the cell.
    pub fn symbol(&self) -> (r: String)
        ensures r@ == self.symbol@,
    {
        string_of(&self.symbol)
    }

    pub fn position(&self) -> (r: SemanticPosition)
        ensures r == self.position,
    {
        self.position
    }

    /// Terminal columns taken by the cell.
    pub fn width(&self) -> (r: usize)
        ensures r == self.width,
    {
        self.width
    }

    /// Whether the Reading Cursor may rest on the cell.
    pub fn is_navigable(&self) -> (r: bool)
        ensures r == navigable(self.deep_view()),
    {
        !all_whitespace(&self.symbol)
    }
}

/// A rendered row whose cells retain their semantic cursor mappings.
#[derive(Clone, Debug, PartialEq, Eq)]
pub struct RenderedRow {
    pub cells: Vec<RenderedCell>,
}

/// The shown text of a sequence of cells.
pub open spec fn cells_text(cells: Seq<CellView>) -> Seq<char>
    decreases cells.len(),
{
    if cells.len() == 0 {
        Seq::empty()
    } else {
        cells_text(cells.drop_last()) + cells.last().symbol
    }
}

impl RenderedRow {
    pub fn cells(&self) -> (r: &[RenderedCell])
        ensures r@ == self.cells@,
    {
        self.cells.as_slice()
    }

    /// The row's text as the terminal shows it.
    pub fn text(&self) -> (r: String)
        ensures r@ == cells_text(self.cells.deep_view()),
    {
        let mut out: Vec<char> = Vec::new();
        let mut i: usize = 0;
        while i < self.cells.len()
            invariant
                i <= self.cells.len(),
                out@ == cells_text(self.cells.deep_view().take(i as int)),
            decreases self.cells.len() - i,
        {
            assert(self.cells.deep_view().take(i as int + 1).drop_last() =~= self.cells.deep_view().take(i as int));
            crate::text::push_all(&mut out, &self.cells[i].symbol);
            i = i + 1;
        }
        assert(self.cells.deep_view().take(self.cells.len() as int) =~= self.cells.deep_view());
        string_of(&out)
    }

    /// Total terminal columns of the row.
    pub fn display_width(&self) -> (r: usize)
        ensures r == sat(width_sum(self.cells.deep_view())),
    {
        cells_width(&self.cells)
    }
}

/// Terminal rows produced by the reader's layout.
#[derive(Clone, Debug, PartialEq, Eq)]
pub struct RenderedDocument {
    pub rows: Vec<RenderedRow>,
}

impl RenderedDocument {
    pub fn rows(&self) -> (r: &[RenderedRow])
        ensures r@ == self.rows@,
    {
        self.rows.as_slice()
    }
}

/// The rows of a rendering as sequences of cell contents.
pub open spec fn rows_view(rows: Seq<RenderedRow>) -> Seq<Seq<CellView>> {
    Seq::new(rows.len(), |i: int| rows[i].cells.deep_view())
}

// ---------------------------------------------------------------------------
// Word wrapping
// ---------------------------------------------------------------------------

/// Sum of cell widths.
pub open spec fn width_sum(cells: Seq<CellView>) -> int
    decreases cells.len(),
{
    if cells.len() == 0 {
        0
    } else {
        width_sum(cells.drop_last()) + cells.last().width
    }
}

/// A sum clipped to what a `usize` holds.
pub open spec fn sat(x: int) -> int {
    if x > usize::MAX { usize::MAX as int } else { x }
}

/// The state of the wrapping pass: finished rows, the open row, the open
/// word, and the first white space seen since the last word.
pub struct WrapState {
    pub rows: Seq<Seq<CellView>>,
    pub row: Seq<CellView>,
    pub word: Seq<CellView>,
    pub separator: Option<CellView>,
}

/// Places the cells of a word too wide for a row one by one, opening a new
/// row whenever the next cell would not fit.
pub open spec fn break_cells(
    rows: Seq<Seq<CellView>>,
    row: Seq<CellView>,
    cells: Seq<CellView>,
    width: int,
) -> (Seq<Seq<CellView>>, Seq<CellView>)
    decreases cells.len(),
{
    if cells.len() == 0 {
        (rows, row)
    } else {
        let (rows1, row1) = break_cells(rows, row, cells.drop_last(), width);
        let cell = cells.last();
        if row1.len() > 0 && sat(sat(width_sum(row1)) + cell.width) > width {
            (rows1.push(row1), seq![cell])
        } else {
            (rows1, row1.push(cell))
        }
    }
}

/// The separator shown between two words on one row: a single space that
/// keeps the position of the white space it stands for.
pub open spec fn space_cell(c: CellView) -> CellView {
    CellView { symbol: seq![' '], position: c.position, width: c.width }
}

/// Ends the open word: onto the open row if it fits, else onto a new row,
/// and a word wider than a row is broken between graphemes.
pub open spec fn flush_spec(s: WrapState, width: int) -> WrapState {
    if s.word.len() == 0 {
        s
    } else {
        let ww = sat(width_sum(s.word));
        let sep_w: int = if s.row.len() > 0 { 1 } else { 0 };
        let overflow = s.row.len() > 0 && sat(sat(sat(width_sum(s.row)) + sep_w) + ww) > width;
        let rows1 = if overflow { s.rows.push(s.row) } else { s.rows };
        let row1 = if overflow { Seq::<CellView>::empty() } else { s.row };
        if ww <= width {
            let row2 = if row1.len() > 0 {
                match s.separator {
                    Some(sep) => row1.push(space_cell(sep)) + s.word,
                    None => row1 + s.word,
                }
            } else {
                s.word
            };
            WrapState { rows: rows1, row: row2, word: Seq::empty(), separator: None }
        } else {
            let rows2 = if row1.len() > 0 { rows1.push(row1) } else { rows1 };
            let (rows3, row3) = break_cells(rows2, Seq::empty(), s.word, width);
            WrapState { rows: rows3, row: row3, word: Seq::empty(), separator: None }
        }
    }
}

/// One grapheme of a block enters the wrapping pass.
pub open spec fn wrap_step(s: WrapState, cell: CellView, width: int) -> WrapState {
    if all_space(cell.symbol) {
        let f = flush_spec(s, width);
        WrapState {
            separator: match f.separator {
                Some(x) => Some(x),
                None => Some(cell),
            },
            ..f
        }
    } else {
        WrapState { word: s.word.push(cell), ..s }
    }
}

pub open spec fn wrap_fold(cells: Seq<CellView>, width: int) -> WrapState
    decreases cells.len(),
{
    if cells.len() == 0 {
        WrapState { rows: Seq::empty(), row: Seq::empty(), word: Seq::empty(), separator: None }
    } else {
        wrap_step(wrap_fold(cells.drop_last(), width), cells.last(), width)
    }
}

/// The rows of one block: word-wrapped, white space runs shown as one space
/// between words and dropped at row ends.
pub open spec fn wrap_cells(cells: Seq<CellView>, width: int) -> Seq<Seq<CellView>> {
    let f = flush_spec(wrap_fold(cells, width), width);
    if f.row.len() > 0 { f.rows.push(f.row) } else { f.rows }
}

/// The cells of a block before wrapping: one per grapheme of its text.
pub open spec fn block_cells(block: usize, gs: Seq<Seq<char>>) -> Seq<CellView> {
    Seq::new(
        gs.len(),
        |i: int|
            CellView {
                symbol: gs[i],
                position: SemanticPosition { block, grapheme: i as usize },
                width: display_width(gs[i]),
            },
    )
}

/// The rendered rows of a whole Document at a pane width.
pub open spec fn layout_rows(blocks: Seq<crate::document::Block>, width: int) -> Seq<Seq<CellView>>
    decreases blocks.len(),
{
    if blocks.len() == 0 {
        Seq::empty()
    } else {
        layout_rows(blocks.drop_last(), width) + wrap_cells(
            block_cells((blocks.len() - 1) as usize, grapheme_clusters(blocks.last().text@)),
            width,
        )
    }
}

/// The pane width used for layout: at least one column.
pub open spec fn effective_width(width: u16) -> int {
    if width == 0 { 1 } else { width as int }
}

/// Lays the Document out into rows at most `width` columns wide, except
/// where a single grapheme is wider than the pane.
pub fn layout(document: &Document, width: u16) -> (r: RenderedDocument)
    requires
        document.blocks@.len() <= usize::MAX,
    ensures
        rows_view(r.rows@) == layout_rows(document.blocks@, effective_width(width)),
{
    let w: usize = if width == 0 { 1 } else { width as usize };
    let mut rows: Vec<RenderedRow> = Vec::new();
    let mut i: usize = 0;
    while i < document.blocks.len()
        invariant
            i <= document.blocks@.len(),
            w as int == effective_width(width),
            rows_view(rows@) == layout_rows(document.blocks@.take(i as int), w as int),
        decreases document.blocks.len() - i,
    {
        let gs = graphemes(document.blocks[i].text.as_str());
        proof {
            assert(document.blocks@.take(i as int + 1).drop_last() =~= document.blocks@.take(i as int));
        }
        wrap_block(&gs, i, w, &mut rows);
        i = i + 1;
    }
    assert(document.blocks@.take(document.blocks.len() as int) =~= document.blocks@);
    RenderedDocument { rows }
}

/// Appends the wrapped rows of one block.
fn wrap_block(gs: &Vec<Vec<char>>, block: usize, width: usize, rows: &mut Vec<RenderedRow>)
    ensures
        rows_view(final(rows)@) == rows_view(old(rows)@) + wrap_cells(block_cells(block, gs.deep_view()), width as int),
{
    let ghost cells = block_cells(block, gs.deep_view());
    let ghost base = rows_view(rows@);
    let mut new_rows: Vec<RenderedRow> = Vec::new();
    let mut row: Vec<RenderedCell> = Vec::new();
    let mut word: Vec<RenderedCell> = Vec::new();
    let mut separator: Option<RenderedCell> = None;
    let mut k: usize = 0;
    assert(cells.take(0) =~= Seq::<CellView>::empty());
    assert(rows_view(new_rows@) =~= Seq::<Seq<CellView>>::empty());
    assert(row.deep_view() =~= Seq::<CellView>::empty());
    assert(word.deep_view() =~= Seq::<CellView>::empty());
    while k < gs.len()
        invariant
            k <= gs@.len(),
            cells == block_cells(block, gs.deep_view()),
            wrap_fold(cells.take(k as int), width as int) == (WrapState {
                rows: rows_view(new_rows@),
                row: row.deep_view(),
                word: word.deep_view(),
                separator: separator.deep_view(),
            }),
        decreases gs.len() - k,
    {
        let symbol = gs[k].clone();
        let cw = text_width(&symbol);
        let cell = RenderedCell { symbol, position: SemanticPosition { block, grapheme: k }, width: cw };
        proof {
            assert(symbol@ == gs.deep_view()[k as int]);
            assert(cell.deep_view() == cells[k as int]);
            assert(cells.take(k as int + 1).drop_last() =~= cells.take(k as int));
        }
        if all_whitespace(&cell.symbol) {
            flush_word(&mut word, &mut separator, &mut row, width, &mut new_rows);
            if separator.is_none() {
                separator = Some(cell);
            }
        } else {
            let ghost before = word.deep_view();
            word.push(cell);
            assert(word.deep_view() =~= before.push(cell.deep_view()));
        }
        k = k + 1;
    }
    assert(cells.take(gs.len() as int) =~= cells);
    flush_word(&mut word, &mut separator, &mut row, width, &mut new_rows);
    if row.len() > 0 {
        proof { lemma_rows_view_push(new_rows@, RenderedRow { cells: row }); }
        new_rows.push(RenderedRow { cells: row });
    }
    let ghost nr = new_rows@;
    let ghost old_rows = rows@;
    rows.append(&mut new_rows);
    assert(rows@ =~= old_rows + nr);
    assert(rows_view(rows@) =~= rows_view(old_rows) + rows_view(nr));
    assert(rows_view(rows@) =~= base + wrap_cells(cells, width as int));
}

/// Total width of cells, saturating at the largest `usize`.
fn cells_width(cells: &Vec<RenderedCell>) -> (r: usize)
    ensures
        r == sat(width_sum(cells.deep_view())),
{
    let mut total: usize = 0;
    let mut i: usize = 0;
    while i < cells.len()
        invariant
            i <= cells.len(),
            total == sat(width_sum(cells.deep_view().take(i as int))),
        decreases cells.len() - i,
    {
        assert(cells.deep_view().take(i as int + 1).drop_last() =~= cells.deep_view().take(i as int));
        total = total.saturating_add(cells[i].width);
        i = i + 1;
    }
    assert(cells.deep_view().take(cells.len() as int) =~= cells.deep_view());
    total
}

impl RenderedCell {
    /// A copy of the cell.
    pub fn copy(&self) -> (r: RenderedCell)
        ensures
            r.deep_view() == self.deep_view(),
    {
        RenderedCell { symbol: self.symbol.clone(), position: self.position, width: self.width }
    }
}

/// Moves a whole vector out, leaving it empty.
fn take_cells(v: &mut Vec<RenderedCell>) -> (r: Vec<RenderedCell>)
    ensures
        r@ == old(v)@,
        final(v)@ == Seq::<RenderedCell>::empty(),
{
    let mut taken: Vec<RenderedCell> = Vec::new();
    std::mem::swap(&mut taken, v);
    taken
}

proof fn lemma_rows_view_push(rows: Seq<RenderedRow>, r: RenderedRow)
    ensures
        rows_view(rows.push(r)) == rows_view(rows).push(r.cells.deep_view()),
{
    assert(rows_view(rows.push(r)) =~= rows_view(rows).push(r.cells.deep_view()));
}

/// Places the cells of an over-wide word, as `break_cells` describes.
fn break_word(
    word: &Vec<RenderedCell>,
    row: &mut Vec<RenderedCell>,
    width: usize,
    rows: &mut Vec<RenderedRow>,
)
    ensures
        break_cells(rows_view(old(rows)@), old(row).deep_view(), word.deep_view(), width as int)
            == (rows_view(final(rows)@), final(row).deep_view()),
{
    let ghost rows0 = rows_view(rows@);
    let ghost row0 = row.deep_view();
    let mut i: usize = 0;
    while i < word.len()
        invariant
            i <= word.len(),
            break_cells(rows0, row0, word.deep_view().take(i as int), width as int)
                == (rows_view(rows@), row.deep_view()),
        decreases word.len() - i,
    {
        let cell = word[i].copy();
        proof {
            assert(word.deep_view().take(i as int + 1).drop_last() =~= word.deep_view().take(i as int));
            assert(word.deep_view().take(i as int + 1).last() == cell.deep_view());
        }
        if row.len() > 0 && cells_width(row).saturating_add(cell.width) > width {
            let full = take_cells(row);
            proof { lemma_rows_view_push(rows@, RenderedRow { cells: full }); }
            rows.push(RenderedRow { cells: full });
        }
        let ghost before = row.deep_view();
        row.push(cell);
        assert(row.deep_view() =~= before.push(cell.deep_view()));
        i = i + 1;
    }
    assert(word.deep_view().take(word.len() as int) =~= word.deep_view());
}

/// Moves the open word into the rows, as `flush_spec` describes.
fn flush_word(
    word: &mut Vec<RenderedCell>,
    separator: &mut Option<RenderedCell>,
    row: &mut Vec<RenderedCell>,
    width: usize,
    rows: &mut Vec<RenderedRow>,
)
    ensures
        flush_spec(
            WrapState {
                rows: rows_view(old(rows)@),
                row: old(row).deep_view(),
                word: old(word).deep_view(),
                separator: old(separator).deep_view(),
            },
            width as int,
        ) == (WrapState {
            rows: rows_view(final(rows)@),
            row: final(row).deep_view(),
            word: final(word).deep_view(),
            separator: final(separator).deep_view(),
        }),
{
    if word.len() == 0 {
        return;
    }
    let ghost s0 = WrapState {
        rows: rows_view(rows@),
        row: row.deep_view(),
        word: word.deep_view(),
        separator: separator.deep_view(),
    };
    let ww = cells_width(word);
    let sep_w: usize = if row.len() > 0 { 1 } else { 0 };
    let overflow = row.len() > 0 && cells_width(row).saturating_add(sep_w).saturating_add(ww) > width;
    let ghost ov = s0.row.len() > 0 && sat(sat(sat(width_sum(s0.row)) + sep_w) + sat(width_sum(s0.word))) > width;
    assert(overflow == ov);
    if overflow {
        let full = take_cells(row);
        proof { lemma_rows_view_push(rows@, RenderedRow { cells: full }); }
        rows.push(RenderedRow { cells: full });
        assert(row.deep_view() =~= Seq::<CellView>::empty());
    }
    let ghost rows1 = if ov { s0.rows.push(s0.row) } else { s0.rows };
    let ghost row1 = if ov { Seq::<CellView>::empty() } else { s0.row };
    assert(rows_view(rows@) == rows1);
    assert(row.deep_view() == row1);
    if ww <= width {
        if row.len() > 0 {
            match separator.take() {
                Some(sep) => {
                    let mut space: Vec<char> = Vec::new();
                    space.push(' ');
                    assert(space@ =~= seq![' ']);
                    let ghost before = row.deep_view();
                    let sc = RenderedCell { symbol: space, position: sep.position, width: sep.width };
                    assert(sc.deep_view() == space_cell(sep.deep_view()));
                    row.push(sc);
                    assert(row.deep_view() =~= before.push(sc.deep_view()));
                },
                None => {},
            }
        }
        let ghost before = row.deep_view();
        row.append(word);
        assert(row.deep_view() =~= before + s0.word);
        *separator = None;
        assert(word.deep_view() =~= Seq::<CellView>::empty());
        let ghost f = flush_spec(s0, width as int);
        assert(f.rows == rows_view(rows@));
        assert(f.row =~= row.deep_view());
    } else {
        if row.len() > 0 {
            let full = take_cells(row);
            proof { lemma_rows_view_push(rows@, RenderedRow { cells: full }); }
            rows.push(RenderedRow { cells: full });
            assert(row.deep_view() =~= Seq::<CellView>::empty());
        }
        let cells = take_cells(word);
        assert(cells.deep_view() =~= s0.word);
        let ghost rows2 = rows_view(rows@);
        assert(rows2 == (if row1.len() > 0 { rows1.push(row1) } else { rows1 }));
        assert(row.deep_view() =~= Seq::<CellView>::empty());
        break_word(&cells, row, width, rows);
        *separator = None;
        assert(word.deep_view() =~= Seq::<CellView>::empty());
        let ghost f = flush_spec(s0, width as int);
        let ghost br = break_cells(rows2, Seq::<CellView>::empty(), s0.word, width as int);
        assert(br.0 == rows_view(rows@));
        assert(br.1 == row.deep_view());
        assert(f.rows == br.0);
        assert(f.row == br.1);
    }
}


// ---------------------------------------------------------------------------
// Queries between positions and cells
// ---------------------------------------------------------------------------

/// Where a semantic position is shown: row, starting column and width.
#[derive(Clone, Copy, Debug, PartialEq, Eq, Structural)]
pub struct CellLocation {
    pub row: usize,
    pub column: usize,
    pub width: usize,
    pub position: SemanticPosition,
}

/// Index of the first cell of a row that shows the position, if any.
pub open spec fn first_cell_at(row: Seq<CellView>, p: SemanticPosition) -> Option<int>
    decreases row.len(),
{
    if row.len() == 0 {
        None
    } else {
        match first_cell_at(row.drop_last(), p) {
            Some(j) => Some(j),
            None => if row.last().position == p { Some(row.len() - 1) } else { None },
        }
    }
}

/// Index of the first row that shows the position, if any.
pub open spec fn first_row_at(rows: Seq<Seq<CellView>>, p: SemanticPosition) -> Option<int>
    decreases rows.len(),
{
    if rows.len() == 0 {
        None
    } else {
        match first_row_at(rows.drop_last(), p) {
            Some(i) => Some(i),
            None => if first_cell_at(rows.last(), p) is Some { Some(rows.len() - 1) } else { None },
        }
    }
}

/// The location of the first cell that shows the position.
pub open spec fn location_of(rows: Seq<Seq<CellView>>, p: SemanticPosition) -> Option<CellLocation> {
    match first_row_at(rows, p) {
        Some(i) => {
            let j = first_cell_at(rows[i], p)->0;
            Some(CellLocation {
                row: i as usize,
                column: sat(width_sum(rows[i].take(j))) as usize,
                width: rows[i][j].width,
                position: p,
            })
        },
        None => None,
    }
}

/// Index of the first navigable cell of a row.
pub open spec fn first_navigable(row: Seq<CellView>) -> Option<int>
    decreases row.len(),
{
    if row.len() == 0 {
        None
    } else {
        match first_navigable(row.drop_last()) {
            Some(j) => Some(j),
            None => if navigable(row.last()) { Some(row.len() - 1) } else { None },
        }
    }
}

/// Index of the last navigable cell of a row.
pub open spec fn last_navigable(row: Seq<CellView>) -> Option<int>
    decreases row.len(),
{
    if row.len() == 0 {
        None
    } else if navigable(row.last()) {
        Some(row.len() - 1)
    } else {
        last_navigable(row.drop_last())
    }
}

/// The first navigable position of the rendering, in row order.
pub open spec fn first_position_of(rows: Seq<Seq<CellView>>) -> Option<SemanticPosition>
    decreases rows.len(),
{
    if rows.len() == 0 {
        None
    } else {
        match first_position_of(rows.drop_last()) {
            Some(p) => Some(p),
            None => match first_navigable(rows.last()) {
                Some(j) => Some(rows.last()[j].position),
                None => None,
            },
        }
    }
}

/// The last navigable position of the rendering, in row order.
pub open spec fn last_position_of(rows: Seq<Seq<CellView>>) -> Option<SemanticPosition>
    decreases rows.len(),
{
    if rows.len() == 0 {
        None
    } else {
        match last_navigable(rows.last()) {
            Some(j) => Some(rows.last()[j].position),
            None => last_position_of(rows.drop_last()),
        }
    }
}

/// The navigable cell of a row nearest to a column: the last one starting at
/// or before it, else the first one of the row.
pub open spec fn nearest_in_row(row: Seq<CellView>, column: int) -> Option<SemanticPosition> {
    match last_navigable_from(row, column) {
        Some(j) => Some(row[j].position),
        None => match first_navigable(row) {
            Some(j) => Some(row[j].position),
            None => None,
        },
    }
}

/// Index of the last navigable cell that starts at or before `column`.
pub open spec fn last_navigable_from(row: Seq<CellView>, column: int) -> Option<int>
    decreases row.len(),
{
    if row.len() == 0 {
        None
    } else if navigable(row.last()) && sat(width_sum(row.drop_last())) <= column {
        Some(row.len() - 1)
    } else {
        last_navigable_from(row.drop_last(), column)
    }
}

impl RenderedDocument {
    pub open spec fn view_rows(&self) -> Seq<Seq<CellView>> {
        rows_view(self.rows@)
    }

    /// The row that shows a position.
    pub fn row_for_position(&self, p: SemanticPosition) -> (r: Option<usize>)
        ensures
            r == (match first_row_at(self.view_rows(), p) {
                Some(i) => Some(i as usize),
                None => None::<usize>,
            }),
    {
        match self.cell_for_position(p) {
            Some(location) => Some(location.row),
            None => None,
        }
    }

    /// Where a position is shown.
    pub fn cell_for_position(&self, p: SemanticPosition) -> (r: Option<CellLocation>)
        ensures
            r == location_of(self.view_rows(), p),
    {
        let ghost rows = self.view_rows();
        let mut i: usize = 0;
        while i < self.rows.len()
            invariant
                i <= self.rows.len(),
                rows == self.view_rows(),
                rows.len() == self.rows@.len(),
                first_row_at(rows.take(i as int), p) is None,
            decreases self.rows.len() - i,
        {
            assert(rows.take(i as int + 1).drop_last() =~= rows.take(i as int));
            let row = &self.rows[i].cells;
            assert(row.deep_view() == rows[i as int]);
            let mut j: usize = 0;
            let mut column: usize = 0;
            while j < row.len()
                invariant
                    j <= row.len(),
                    i < rows.len(),
                    rows == self.view_rows(),
                    rows.len() == self.rows@.len(),
                    first_row_at(rows.take(i as int), p) is None,
                    row.deep_view() == rows[i as int],
                    first_cell_at(rows[i as int].take(j as int), p) is None,
                    column == sat(width_sum(rows[i as int].take(j as int))),
                decreases row.len() - j,
            {
                assert(rows[i as int].take(j as int + 1).drop_last() =~= rows[i as int].take(j as int));
                if row[j].position == p {
                    assert(row.deep_view()[j as int] == row@[j as int].deep_view());
                    proof {
                        lemma_first_cell_prefix(rows[i as int], j as int, p);
                        lemma_first_row_prefix(rows, i as int, p);
                    }
                    return Some(CellLocation { row: i, column, width: row[j].width, position: p });
                }
                column = column.saturating_add(row[j].width);
                j = j + 1;
            }
            assert(rows[i as int].take(row.len() as int) =~= rows[i as int]);
            i = i + 1;
        }
        assert(rows.take(self.rows.len() as int) =~= rows);
        None
    }

    /// The first position the Reading Cursor can rest on.
    pub fn first_position(&self) -> (r: Option<SemanticPosition>)
        ensures
            r == first_position_of(self.view_rows()),
    {
        let ghost rows = self.view_rows();
        let mut i: usize = 0;
        while i < self.rows.len()
            invariant
                i <= self.rows.len(),
                rows == self.view_rows(),
                rows.len() == self.rows@.len(),
                first_position_of(rows.take(i as int)) is None,
            decreases self.rows.len() - i,
        {
            assert(rows.take(i as int + 1).drop_last() =~= rows.take(i as int));
            let row = &self.rows[i].cells;
            assert(row.deep_view() == rows[i as int]);
            match first_navigable_index(row) {
                Some(j) => {
                    proof { lemma_first_position_prefix(rows, i as int); }
                    assert(row.deep_view()[j as int] == row@[j as int].deep_view());
                    return Some(row[j].position);
                },
                None => {},
            }
            i = i + 1;
        }
        assert(rows.take(self.rows.len() as int) =~= rows);
        None
    }

    /// The last position the Reading Cursor can rest on.
    pub fn last_position(&self) -> (r: Option<SemanticPosition>)
        ensures
            r == last_position_of(self.view_rows()),
    {
        let ghost rows = self.view_rows();
        let mut i: usize = self.rows.len();
        assert(rows.take(i as int) =~= rows);
        while i > 0
            invariant
                i <= self.rows.len(),
                rows == self.view_rows(),
                rows.len() == self.rows@.len(),
                last_position_of(rows) == last_position_of(rows.take(i as int)),
            decreases i,
        {
            assert(rows.take(i as int).drop_last() =~= rows.take(i as int - 1));
            let row = &self.rows[i - 1].cells;
            assert(row.deep_view() == rows[i - 1]);
            assert(rows.take(i as int).last() == rows[i - 1]);
            match last_navigable_index(row) {
                Some(j) => {
                    assert(row.deep_view()[j as int] == row@[j as int].deep_view());
                    return Some(row[j].position);
                },
                None => {},
            }
            i = i - 1;
        }
        None
    }

    /// The navigable cell of a row nearest to a column.
    pub fn nearest_position(&self, row: usize, column: usize) -> (r: Option<SemanticPosition>)
        requires
            row < self.rows@.len(),
        ensures
            r == nearest_in_row(self.view_rows()[row as int], column as int),
    {
        let cells = &self.rows[row].cells;
        assert(cells.deep_view() == self.view_rows()[row as int]);
        match last_navigable_before(cells, column) {
            Some(j) => {
                assert(cells.deep_view()[j as int] == cells@[j as int].deep_view());
                Some(cells[j].position)
            },
            None => match first_navigable_index(cells) {
                Some(j) => {
                    assert(cells.deep_view()[j as int] == cells@[j as int].deep_view());
                    Some(cells[j].position)
                },
                None => None,
            },
        }
    }
}

/// A row found for a position is one of the rows.
pub proof fn lemma_first_row_bound(rows: Seq<Seq<CellView>>, p: SemanticPosition)
    ensures
        first_row_at(rows, p) matches Some(i) ==> 0 <= i < rows.len(),
    decreases rows.len(),
{
    if rows.len() > 0 {
        lemma_first_row_bound(rows.drop_last(), p);
    }
}

proof fn lemma_first_row_prefix(rows: Seq<Seq<CellView>>, i: int, p: SemanticPosition)
    requires
        0 <= i < rows.len(),
        first_row_at(rows.take(i), p) is None,
        first_cell_at(rows[i], p) is Some,
    ensures
        first_row_at(rows, p) == Some(i),
    decreases rows.len(),
{
    if i == rows.len() - 1 {
        assert(rows.drop_last() =~= rows.take(i));
    } else {
        assert(rows.drop_last().take(i) =~= rows.take(i));
        lemma_first_row_prefix(rows.drop_last(), i, p);
    }
}

proof fn lemma_first_cell_prefix(row: Seq<CellView>, j: int, p: SemanticPosition)
    requires
        0 <= j < row.len(),
        first_cell_at(row.take(j), p) is None,
        row[j].position == p,
    ensures
        first_cell_at(row, p) == Some(j),
    decreases row.len(),
{
    if j == row.len() - 1 {
        assert(row.drop_last() =~= row.take(j));
    } else {
        assert(row.drop_last().take(j) =~= row.take(j));
        lemma_first_cell_prefix(row.drop_last(), j, p);
    }
}

proof fn lemma_first_position_prefix(rows: Seq<Seq<CellView>>, i: int)
    requires
        0 <= i < rows.len(),
        first_position_of(rows.take(i)) is None,
        first_navigable(rows[i]) is Some,
    ensures
        first_position_of(rows) == Some(rows[i][first_navigable(rows[i])->0].position),
    decreases rows.len(),
{
    if i == rows.len() - 1 {
        assert(rows.drop_last() =~= rows.take(i));
    } else {
        assert(rows.drop_last().take(i) =~= rows.take(i));
        lemma_first_position_prefix(rows.drop_last(), i);
    }
}

proof fn lemma_first_navigable_prefix(row: Seq<CellView>, j: int)
    requires
        0 <= j < row.len(),
        first_navigable(row.take(j)) is None,
        navigable(row[j]),
    ensures
        first_navigable(row) == Some(j),
    decreases row.len(),
{
    if j == row.len() - 1 {
        assert(row.drop_last() =~= row.take(j));
    } else {
        assert(row.drop_last().take(j) =~= row.take(j));
        lemma_first_navigable_prefix(row.drop_last(), j);
    }
}

/// Index of the first navigable cell.
pub fn first_navigable_index(cells: &Vec<RenderedCell>) -> (r: Option<usize>)
    ensures
        match r {
            Some(j) => first_navigable(cells.deep_view()) == Some(j as int),
            None => first_navigable(cells.deep_view()) is None,
        },
        r is Some ==> r->0 < cells@.len(),
{
    let ghost row = cells.deep_view();
    let mut j: usize = 0;
    while j < cells.len()
        invariant
            j <= cells.len(),
            row == cells.deep_view(),
            first_navigable(row.take(j as int)) is None,
        decreases cells.len() - j,
    {
        assert(row.take(j as int + 1).drop_last() =~= row.take(j as int));
        if cells[j].is_navigable() {
            proof { lemma_first_navigable_prefix(row, j as int); }
            return Some(j);
        }
        j = j + 1;
    }
    assert(row.take(cells.len() as int) =~= row);
    None
}

/// Index of the last navigable cell.
pub fn last_navigable_index(cells: &Vec<RenderedCell>) -> (r: Option<usize>)
    ensures
        match r {
            Some(j) => last_navigable(cells.deep_view()) == Some(j as int),
            None => last_navigable(cells.deep_view()) is None,
        },
        r is Some ==> r->0 < cells@.len(),
{
    let ghost row = cells.deep_view();
    let mut j: usize = cells.len();
    assert(row.take(j as int) =~= row);
    while j > 0
        invariant
            j <= cells.len(),
            row == cells.deep_view(),
            last_navigable(row) == last_navigable(row.take(j as int)),
        decreases j,
    {
        assert(row.take(j as int).drop_last() =~= row.take(j as int - 1));
        if cells[j - 1].is_navigable() {
            return Some(j - 1);
        }
        j = j - 1;
    }
    None
}

/// Index of the last navigable cell that starts at or before `column`.
fn last_navigable_before(cells: &Vec<RenderedCell>, column: usize) -> (r: Option<usize>)
    ensures
        match r {
            Some(j) => last_navigable_from(cells.deep_view(), column as int) == Some(j as int),
            None => last_navigable_from(cells.deep_view(), column as int) is None,
        },
        r is Some ==> r->0 < cells@.len(),
{
    let ghost row = cells.deep_view();
    let mut j: usize = cells.len();
    assert(row.take(j as int) =~= row);
    while j > 0
        invariant
            j <= cells.len(),
            row == cells.deep_view(),
            last_navigable_from(row, column as int) == last_navigable_from(row.take(j as int), column as int),
        decreases j,
    {
        assert(row.take(j as int).drop_last() =~= row.take(j as int - 1));
        if cells[j - 1].is_navigable() {
            let start = cells_width_prefix(cells, j - 1);
            if start <= column {
                return Some(j - 1);
            }
        }
        j = j - 1;
    }
    None
}

/// Total width of the first `n` cells, saturating.
fn cells_width_prefix(cells: &Vec<RenderedCell>, n: usize) -> (r: usize)
    requires
        n <= cells@.len(),
    ensures
        r == sat(width_sum(cells.deep_view().take(n as int))),
{
    let mut total: usize = 0;
    let mut i: usize = 0;
    while i < n
        invariant
            i <= n,
            n <= cells@.len(),
            total == sat(width_sum(cells.deep_view().take(i as int))),
        decreases n - i,
    {
        assert(cells.deep_view().take(i as int + 1).drop_last() =~= cells.deep_view().take(i as int));
        total = total.saturating_add(cells[i].width);
        i = i + 1;
    }
    total
}

impl RenderedRow {
    /// The block the row belongs to: that of its first cell.
    pub fn block(&self) -> (r: usize)
        ensures
            self.cells@.len() > 0 ==> r == self.cells@[0].position.block,
            self.cells@.len() == 0 ==> r == 0,
    {
        if self.cells.len() > 0 { self.cells[0].position.block } else { 0 }
    }
}

} // verus!
