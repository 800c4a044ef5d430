//! Plain rendered text of a Selection, without decorative borders.
use crate::document::{
    alert_label, image_text, marker_label, Block, BlockKind, Document, InlineSpan,
};
use crate::layout::{first_row_at, pos_le, position_le, RenderedDocument, SemanticPosition, sat, rows_view, CellView};
use crate::text::{chars_of, graphemes, grapheme_clusters, is_single, push_all};
use vstd::prelude::*;

verus! {

/// Characterwise or rendered-row visual Selection over semantic content.
#[derive(Clone, Copy, Debug, PartialEq, Eq, Structural)]
pub enum SelectionMode {
    Characterwise,
    Row,
}

/// The Selection's endpoints in Document order.
pub open spec fn ordered(a: SemanticPosition, b: SemanticPosition) -> (SemanticPosition, SemanticPosition) {
    if pos_le(a, b) { (a, b) } else { (b, a) }
}

pub fn ordered_endpoints(anchor: SemanticPosition, cursor: SemanticPosition) -> (r: (SemanticPosition, SemanticPosition))
    ensures
        r == ordered(anchor, cursor),
{
    if position_le(anchor, cursor) { (anchor, cursor) } else { (cursor, anchor) }
}

/// A line break, unless the text is empty or already ends a line.
pub open spec fn with_newline(s: Seq<char>) -> Seq<char> {
    if s.len() > 0 && s.last() != '\n' { s.push('\n') } else { s }
}

fn push_newline(output: &mut Vec<char>)
    ensures
        final(output)@ == with_newline(old(output)@),
{
    if output.len() > 0 && output[output.len() - 1] != '\n' {
        output.push('\n');
    }
}

/// `n` copies of two spaces.
pub open spec fn indent(n: int) -> Seq<char>
    decreases n,
{
    if n <= 0 { Seq::empty() } else { indent(n - 1) + "  "@ }
}

/// The generated text that leads a block's copied content: the alert label,
/// the front matter label, and the indented list marker.
pub open spec fn leading_text(block: Block) -> Seq<char> {
    let a = match block.alert {
        Some(kind) => alert_label(kind).push(' '),
        None => Seq::empty(),
    };
    let f = if block.kind == BlockKind::FrontMatter { "metadata "@ } else { Seq::empty() };
    let l = match block.list_item {
        Some(item) => if block.kind != BlockKind::Empty && !item.continuation {
            indent(item.depth - 1) + marker_label(item.marker).push(' ')
        } else {
            Seq::empty()
        },
        None => Seq::empty(),
    };
    a + f + l
}

fn semantic_leading(block: &Block) -> (r: Vec<char>)
    ensures
        r@ == leading_text(*block),
{
    let mut leading: Vec<char> = Vec::new();
    match block.alert {
        Some(kind) => {
            push_all(&mut leading, &chars_of(kind.rendered_label()));
            leading.push(' ');
        },
        None => {},
    }
    if matches!(block.kind, BlockKind::FrontMatter) {
        push_all(&mut leading, &chars_of("metadata "));
    }
    match block.list_item {
        Some(item) => {
            if !matches!(block.kind, BlockKind::Empty) && !item.continuation {
                let n: usize = if item.depth > 0 { item.depth - 1 } else { 0 };
                let mut k: usize = 0;
                let ghost before = leading@;
                while k < n
                    invariant
                        k <= n,
                        leading@ == before + indent(k as int),
                    decreases n - k,
                {
                    push_all(&mut leading, &chars_of("  "));
                    k = k + 1;
                }
                push_all(&mut leading, &item.marker.rendered_label());
                leading.push(' ');
            }
        },
        None => {},
    }
    assert(leading@ =~= leading_text(*block));
    leading
}

// ---------------------------------------------------------------------------
// Looking up the shown text of one semantic position
// ---------------------------------------------------------------------------

/// Scanning spans from grapheme `g` for the grapheme `target`: the shown
/// text once found, and the next grapheme index.
pub open spec fn lookup_spans(spans: Seq<InlineSpan>, g: int, target: int) -> (Option<Seq<char>>, int)
    decreases spans.len(),
{
    if spans.len() == 0 {
        (None, g)
    } else {
        let (found, g1) = lookup_spans(spans.drop_last(), g, target);
        if found is Some {
            (found, g1)
        } else {
            lookup_span(spans.last(), g1, target)
        }
    }
}

/// Scanning one span: an image is shown as its placeholder at its first
/// grapheme; a line break shows nothing.
pub open spec fn lookup_span(span: InlineSpan, g: int, target: int) -> (Option<Seq<char>>, int) {
    let gs = grapheme_clusters(span.text@);
    match span.image {
        Some(image) => if g == target {
            (Some(image_text(image.alt_text@, image.target@)), g)
        } else {
            (None, sat(g + gs.len()))
        },
        None => if g <= target && target - g < gs.len() {
            let symbol = gs[target - g];
            (Some(if symbol == seq!['\n'] { Seq::empty() } else { symbol }), target)
        } else {
            (None, sat(g + gs.len()))
        },
    }
}


fn lookup_span_exec(span: &InlineSpan, g: usize, target: usize) -> (r: (Option<Vec<char>>, usize))
    ensures
        (match r.0 { Some(v) => Some(v@), None => None::<Seq<char>> }, r.1 as int) == lookup_span(*span, g as int, target as int),
{
    let gs = graphemes(span.text.as_str());
    match &span.image {
        Some(image) => {
            if g == target {
                (Some(image.rendered_chars()), g)
            } else {
                (None, g.saturating_add(gs.len()))
            }
        },
        None => {
            if g <= target && target - g < gs.len() {
                let symbol = &gs[target - g];
                assert(symbol@ == gs.deep_view()[target - g]);
                if is_single(symbol, '\n') {
                    (Some(Vec::new()), target)
                } else {
                    (Some(symbol.clone()), target)
                }
            } else {
                (None, g.saturating_add(gs.len()))
            }
        },
    }
}

fn lookup_spans_exec(spans: &[InlineSpan], g: usize, target: usize) -> (r: (Option<Vec<char>>, usize))
    ensures
        (match r.0 { Some(v) => Some(v@), None => None::<Seq<char>> }, r.1 as int) == lookup_spans(spans@, g as int, target as int),
{
    let mut next = g;
    let mut i: usize = 0;
    while i < spans.len()
        invariant
            i <= spans@.len(),
            lookup_spans(spans@.take(i as int), g as int, target as int) == (None::<Seq<char>>, next as int),
        decreases spans.len() - i,
    {
        assert(spans@.take(i as int + 1).drop_last() =~= spans@.take(i as int));
        let (found, g1) = lookup_span_exec(&spans[i], next, target);
        match found {
            Some(v) => {
                proof { lemma_lookup_found(spans@, i as int + 1, g as int, target as int); }
                return (Some(v), g1);
            },
            None => {},
        }
        next = g1;
        i = i + 1;
    }
    assert(spans@.take(spans@.len() as int) =~= spans@);
    (None, next)
}

proof fn lemma_lookup_found(spans: Seq<InlineSpan>, k: int, g: int, target: int)
    requires
        0 <= k <= spans.len(),
        lookup_spans(spans.take(k), g, target).0 is Some,
    ensures
        lookup_spans(spans, g, target) == lookup_spans(spans.take(k), g, target),
    decreases spans.len(),
{
    if k == spans.len() {
        assert(spans.take(k) =~= spans);
    } else {
        assert(spans.drop_last().take(k) =~= spans.take(k));
        lemma_lookup_found(spans.drop_last(), k, g, target);
    }
}

/// Scanning the cells of a table for a grapheme, in row order.
pub open spec fn lookup_cells(cells: Seq<crate::document::TableCell>, target: int) -> Option<Seq<char>>
    decreases cells.len(),
{
    if cells.len() == 0 {
        None
    } else {
        match lookup_cells(cells.drop_last(), target) {
            Some(t) => Some(t),
            None => lookup_spans(cells.last().spans@, cells.last().grapheme_offset as int, target).0,
        }
    }
}

/// All cells of a table in row order.
pub open spec fn table_cells(rows: Seq<crate::document::TableRow>) -> Seq<crate::document::TableCell>
    decreases rows.len(),
{
    if rows.len() == 0 { Seq::empty() } else { table_cells(rows.drop_last()) + rows.last().cells@ }
}

/// The shown text of the grapheme at a position: a list marker for an
/// empty item, an image's placeholder, nothing for a line break.
pub open spec fn shown_grapheme(doc: Document, p: SemanticPosition) -> Seq<char> {
    let block = doc.blocks@[p.block as int];
    if block.kind == BlockKind::Empty && block.list_item is Some {
        marker_label(block.list_item->0.marker)
    } else {
        match block.table {
            Some(table) => match lookup_cells(table_cells(table.rows@), p.grapheme as int) {
                Some(t) => t,
                None => Seq::empty(),
            },
            None => match lookup_spans(block.spans@, 0, p.grapheme as int).0 {
                Some(t) => t,
                None => Seq::empty(),
            },
        }
    }
}

proof fn lemma_lookup_cells_found(cells: Seq<crate::document::TableCell>, k: int, target: int)
    requires
        0 <= k <= cells.len(),
        lookup_cells(cells.take(k), target) is Some,
    ensures
        lookup_cells(cells, target) == lookup_cells(cells.take(k), target),
    decreases cells.len(),
{
    if k == cells.len() {
        assert(cells.take(k) =~= cells);
    } else {
        assert(cells.drop_last().take(k) =~= cells.take(k));
        lemma_lookup_cells_found(cells.drop_last(), k, target);
    }
}

proof fn lemma_table_cells_step(rows: Seq<crate::document::TableRow>, r: int)
    requires
        0 <= r < rows.len(),
    ensures
        table_cells(rows.take(r + 1)) == table_cells(rows.take(r)) + rows[r].cells@,
{
    assert(rows.take(r + 1).drop_last() =~= rows.take(r));
}

proof fn lemma_lookup_cells_append(a: Seq<crate::document::TableCell>, b: Seq<crate::document::TableCell>, target: int)
    requires
        lookup_cells(a, target) is None,
    ensures
        lookup_cells(a + b, target) == lookup_cells(b, target),
    decreases b.len(),
{
    if b.len() == 0 {
        assert(a + b =~= a);
    } else {
        assert((a + b).drop_last() =~= a + b.drop_last());
        lemma_lookup_cells_append(a, b.drop_last(), target);
    }
}

/// The shown text of the grapheme at a position.
fn source_grapheme(document: &Document, position: SemanticPosition) -> (r: Vec<char>)
    requires
        position.block < document.blocks@.len(),
    ensures
        r@ == shown_grapheme(*document, position),
{
    let block = &document.blocks[position.block];
    if matches!(block.kind, BlockKind::Empty) {
        match block.list_item {
            Some(item) => {
                return item.marker.rendered_label();
            },
            None => {},
        }
    }
    match &block.table {
        Some(table) => {
            let ghost all = table_cells(table.rows@);
            let mut ri: usize = 0;
            assert(table_cells(table.rows@.take(0)) =~= Seq::<crate::document::TableCell>::empty());
            while ri < table.rows.len()
                invariant
                    ri <= table.rows@.len(),
                    all == table_cells(table.rows@),
                    position.block < document.blocks@.len(),
                    *block == document.blocks@[position.block as int],
                    block.table == Some(*table),
                    !(block.kind == BlockKind::Empty && block.list_item is Some),
                    lookup_cells(table_cells(table.rows@.take(ri as int)), position.grapheme as int) is None,
                decreases table.rows.len() - ri,
            {
                let row = &table.rows[ri];
                let ghost before = table_cells(table.rows@.take(ri as int));
                proof { lemma_table_cells_step(table.rows@, ri as int); }
                let mut ci: usize = 0;
                while ci < row.cells.len()
                    invariant
                        ci <= row.cells@.len(),
                        ri < table.rows@.len(),
                    position.block < document.blocks@.len(),
                    *block == document.blocks@[position.block as int],
                    block.table == Some(*table),
                    !(block.kind == BlockKind::Empty && block.list_item is Some),
                        row == &table.rows@[ri as int],
                        all == table_cells(table.rows@),
                        table_cells(table.rows@.take(ri as int + 1)) == before + row.cells@,
                        lookup_cells(before, position.grapheme as int) is None,
                        lookup_cells(row.cells@.take(ci as int), position.grapheme as int) is None,
                    decreases row.cells.len() - ci,
                {
                    assert(row.cells@.take(ci as int + 1).drop_last() =~= row.cells@.take(ci as int));
                    let cell = &row.cells[ci];
                    let (found, _next) = lookup_spans_exec(cell.spans.as_slice(), cell.grapheme_offset, position.grapheme);
                    match found {
                        Some(t) => {
                            proof {
                                lemma_lookup_cells_found(row.cells@, ci as int + 1, position.grapheme as int);
                                lemma_lookup_cells_append(before, row.cells@, position.grapheme as int);
                                let x = table_cells(table.rows@.take(ri as int + 1));
                                lemma_table_prefix(table.rows@, ri as int + 1);
                                assert(all.take(x.len() as int) =~= x);
                                lemma_lookup_cells_found(all, x.len() as int, position.grapheme as int);
                            }
                            return t;
                        },
                        None => {},
                    }
                    ci = ci + 1;
                }
                assert(row.cells@.take(row.cells@.len() as int) =~= row.cells@);
                proof { lemma_lookup_cells_append(before, row.cells@, position.grapheme as int); }
                ri = ri + 1;
            }
            assert(table.rows@.take(table.rows@.len() as int) =~= table.rows@);
            Vec::new()
        },
        None => {
            let (found, _next) = lookup_spans_exec(block.spans.as_slice(), 0, position.grapheme);
            match found {
                Some(t) => t,
                None => Vec::new(),
            }
        },
    }
}

proof fn lemma_table_prefix(rows: Seq<crate::document::TableRow>, k: int)
    requires
        0 <= k <= rows.len(),
    ensures
        table_cells(rows) == table_cells(rows.take(k)) + table_cells(rows.skip(k)),
    decreases rows.len(),
{
    if k == rows.len() {
        assert(rows.take(k) =~= rows);
        assert(rows.skip(k) =~= Seq::<crate::document::TableRow>::empty());
        assert(table_cells(rows) + Seq::<crate::document::TableCell>::empty() =~= table_cells(rows));
    } else {
        lemma_table_prefix(rows.drop_last(), k);
        assert(rows.drop_last().take(k) =~= rows.take(k));
        assert(rows.skip(k).drop_last() =~= rows.drop_last().skip(k));
        assert(rows.skip(k).last() == rows.last());
    }
}


// ---------------------------------------------------------------------------
// Copy atoms: the Document's copyable graphemes in order
// ---------------------------------------------------------------------------

/// One copyable piece of rendered text and how it joins the previous one.
#[derive(Clone, Debug)]
pub struct CopyAtom {
    pub position: SemanticPosition,
    pub text: Vec<char>,
    pub leading: Vec<char>,
    pub hard_break_from_prior: bool,
    pub cell_separator: bool,
}

#[verifier::ext_equal]
pub struct AtomView {
    pub position: SemanticPosition,
    pub text: Seq<char>,
    pub leading: Seq<char>,
    pub hard_break_from_prior: bool,
    pub cell_separator: bool,
}

impl DeepView for CopyAtom {
    type V = AtomView;

    open spec fn deep_view(&self) -> AtomView {
        AtomView {
            position: self.position,
            text: self.text@,
            leading: self.leading@,
            hard_break_from_prior: self.hard_break_from_prior,
            cell_separator: self.cell_separator,
        }
    }
}

/// The state of the atom pass inside one table cell or one block.
#[verifier::ext_equal]
pub struct AtomState {
    pub atoms: Seq<AtomView>,
    pub grapheme: int,
    pub first: bool,
    pub hard_break: bool,
}

/// Atoms of one grapheme in a table cell of row `ri`, column `ci`.
pub open spec fn cell_symbol_step(s: AtomState, block: usize, symbol: Seq<char>, leading: Seq<char>, ri: int, ci: int) -> AtomState {
    if symbol == seq!['\n'] {
        AtomState { grapheme: sat(s.grapheme + 1), ..s }
    } else {
        let atom = AtomView {
            position: SemanticPosition { block, grapheme: s.grapheme as usize },
            text: symbol,
            leading: if ri == 0 && ci == 0 && s.first { leading } else { Seq::empty() },
            hard_break_from_prior: ri > 0 && ci == 0 && s.first,
            cell_separator: ci > 0 && s.first,
        };
        AtomState { atoms: s.atoms.push(atom), grapheme: sat(s.grapheme + 1), first: false, ..s }
    }
}

pub open spec fn cell_symbols(s: AtomState, block: usize, symbols: Seq<Seq<char>>, leading: Seq<char>, ri: int, ci: int) -> AtomState
    decreases symbols.len(),
{
    if symbols.len() == 0 {
        s
    } else {
        cell_symbol_step(cell_symbols(s, block, symbols.drop_last(), leading, ri, ci), block, symbols.last(), leading, ri, ci)
    }
}

/// Atoms of one span of a table cell.
pub open spec fn cell_span_step(s: AtomState, block: usize, span: InlineSpan, leading: Seq<char>, ri: int, ci: int) -> AtomState {
    let gs = grapheme_clusters(span.text@);
    match span.image {
        Some(image) => {
            let atom = AtomView {
                position: SemanticPosition { block, grapheme: s.grapheme as usize },
                text: image_text(image.alt_text@, image.target@),
                leading: if ri == 0 && ci == 0 && s.first { leading } else { Seq::empty() },
                hard_break_from_prior: ri > 0 && ci == 0 && s.first,
                cell_separator: ci > 0 && s.first,
            };
            AtomState { atoms: s.atoms.push(atom), grapheme: sat(s.grapheme + gs.len()), first: false, ..s }
        },
        None => cell_symbols(s, block, gs, leading, ri, ci),
    }
}

pub open spec fn cell_spans(s: AtomState, block: usize, spans: Seq<InlineSpan>, leading: Seq<char>, ri: int, ci: int) -> AtomState
    decreases spans.len(),
{
    if spans.len() == 0 {
        s
    } else {
        cell_span_step(cell_spans(s, block, spans.drop_last(), leading, ri, ci), block, spans.last(), leading, ri, ci)
    }
}

/// Atoms of one grapheme of a non-table block; line breaks mark the next atom.
pub open spec fn block_symbol_step(s: AtomState, block: usize, symbol: Seq<char>, leading: Seq<char>) -> AtomState {
    if symbol == seq!['\n'] {
        AtomState { grapheme: sat(s.grapheme + 1), hard_break: true, ..s }
    } else {
        let atom = AtomView {
            position: SemanticPosition { block, grapheme: s.grapheme as usize },
            text: symbol,
            leading: if s.first { leading } else { Seq::empty() },
            hard_break_from_prior: s.hard_break,
            cell_separator: false,
        };
        AtomState { atoms: s.atoms.push(atom), grapheme: sat(s.grapheme + 1), first: false, hard_break: false }
    }
}

pub open spec fn block_symbols(s: AtomState, block: usize, symbols: Seq<Seq<char>>, leading: Seq<char>) -> AtomState
    decreases symbols.len(),
{
    if symbols.len() == 0 {
        s
    } else {
        block_symbol_step(block_symbols(s, block, symbols.drop_last(), leading), block, symbols.last(), leading)
    }
}

pub open spec fn block_span_step(s: AtomState, block: usize, span: InlineSpan, leading: Seq<char>) -> AtomState {
    let gs = grapheme_clusters(span.text@);
    match span.image {
        Some(image) => {
            let atom = AtomView {
                position: SemanticPosition { block, grapheme: s.grapheme as usize },
                text: image_text(image.alt_text@, image.target@),
                leading: if s.first { leading } else { Seq::empty() },
                hard_break_from_prior: s.hard_break,
                cell_separator: false,
            };
            AtomState { atoms: s.atoms.push(atom), grapheme: sat(s.grapheme + gs.len()), first: false, hard_break: false }
        },
        None => block_symbols(s, block, gs, leading),
    }
}

pub open spec fn block_spans_atoms(s: AtomState, block: usize, spans: Seq<InlineSpan>, leading: Seq<char>) -> AtomState
    decreases spans.len(),
{
    if spans.len() == 0 {
        s
    } else {
        block_span_step(block_spans_atoms(s, block, spans.drop_last(), leading), block, spans.last(), leading)
    }
}

/// Atoms of the cells of one table row.
pub open spec fn row_atoms(atoms: Seq<AtomView>, block: usize, cells: Seq<crate::document::TableCell>, leading: Seq<char>, ri: int) -> Seq<AtomView>
    decreases cells.len(),
{
    if cells.len() == 0 {
        atoms
    } else {
        let prior = row_atoms(atoms, block, cells.drop_last(), leading, ri);
        let cell = cells.last();
        cell_spans(
            AtomState { atoms: prior, grapheme: cell.grapheme_offset as int, first: true, hard_break: false },
            block,
            cell.spans@,
            leading,
            ri,
            cells.len() - 1,
        ).atoms
    }
}

pub open spec fn table_atoms(atoms: Seq<AtomView>, block: usize, rows: Seq<crate::document::TableRow>, leading: Seq<char>) -> Seq<AtomView>
    decreases rows.len(),
{
    if rows.len() == 0 {
        atoms
    } else {
        row_atoms(table_atoms(atoms, block, rows.drop_last(), leading), block, rows.last().cells@, leading, rows.len() - 1)
    }
}

/// Atoms of one block appended to those before it.
pub open spec fn block_atoms(atoms: Seq<AtomView>, b: Block, index: usize) -> Seq<AtomView> {
    let leading = leading_text(b);
    match b.table {
        Some(table) => table_atoms(atoms, index, table.rows@, leading),
        None => if b.kind == BlockKind::Empty && b.list_item is Some && !b.list_item->0.continuation {
            atoms.push(AtomView {
                position: SemanticPosition { block: index, grapheme: 0 },
                text: marker_label(b.list_item->0.marker),
                leading: Seq::empty(),
                hard_break_from_prior: false,
                cell_separator: false,
            })
        } else {
            block_spans_atoms(AtomState { atoms, grapheme: 0, first: true, hard_break: false }, index, b.spans@, leading).atoms
        },
    }
}

/// All copy atoms of the Document, in Document order.
pub open spec fn document_atoms(blocks: Seq<Block>) -> Seq<AtomView>
    decreases blocks.len(),
{
    if blocks.len() == 0 {
        Seq::empty()
    } else {
        block_atoms(document_atoms(blocks.drop_last()), blocks.last(), (blocks.len() - 1) as usize)
    }
}

fn atom_push(atoms: &mut Vec<CopyAtom>, atom: CopyAtom)
    ensures
        final(atoms).deep_view() == old(atoms).deep_view().push(atom.deep_view()),
{
    let ghost a = atoms.deep_view();
    let ghost v = atom.deep_view();
    atoms.push(atom);
    assert(atoms.deep_view() =~= a.push(v));
}

/// Appends the atoms of one span of a table cell.
fn push_cell_span(
    atoms: &mut Vec<CopyAtom>,
    grapheme: &mut usize,
    first: &mut bool,
    block: usize,
    span: &InlineSpan,
    leading: &Vec<char>,
    ri: usize,
    ci: usize,
)
    ensures
        cell_span_step(
            AtomState { atoms: old(atoms).deep_view(), grapheme: *old(grapheme) as int, first: *old(first), hard_break: false },
            block, *span, leading@, ri as int, ci as int,
        ) == (AtomState { atoms: final(atoms).deep_view(), grapheme: *final(grapheme) as int, first: *final(first), hard_break: false }),
{
    let gs = graphemes(span.text.as_str());
    match &span.image {
        Some(image) => {
            let lead = if ri == 0 && ci == 0 && *first { leading.clone() } else { Vec::new() };
            atom_push(atoms, CopyAtom {
                position: SemanticPosition { block, grapheme: *grapheme },
                text: image.rendered_chars(),
                leading: lead,
                hard_break_from_prior: ri > 0 && ci == 0 && *first,
                cell_separator: ci > 0 && *first,
            });
            *grapheme = grapheme.saturating_add(gs.len());
            *first = false;
        },
        None => {
            let ghost s0 = AtomState { atoms: atoms.deep_view(), grapheme: *grapheme as int, first: *first, hard_break: false };
            let mut k: usize = 0;
            while k < gs.len()
                invariant
                    k <= gs@.len(),
                    cell_symbols(s0, block, gs.deep_view().take(k as int), leading@, ri as int, ci as int)
                        == (AtomState { atoms: atoms.deep_view(), grapheme: *grapheme as int, first: *first, hard_break: false }),
                decreases gs.len() - k,
            {
                assert(gs.deep_view().take(k as int + 1).drop_last() =~= gs.deep_view().take(k as int));
                let symbol = gs[k].clone();
                assert(symbol@ == gs.deep_view()[k as int]);
                if is_single(&symbol, '\n') {
                    *grapheme = grapheme.saturating_add(1);
                } else {
                    let lead = if ri == 0 && ci == 0 && *first { leading.clone() } else { Vec::new() };
                    atom_push(atoms, CopyAtom {
                        position: SemanticPosition { block, grapheme: *grapheme },
                        text: symbol,
                        leading: lead,
                        hard_break_from_prior: ri > 0 && ci == 0 && *first,
                        cell_separator: ci > 0 && *first,
                    });
                    *grapheme = grapheme.saturating_add(1);
                    *first = false;
                }
                k = k + 1;
            }
            assert(gs.deep_view().take(gs@.len() as int) =~= gs.deep_view());
        },
    }
}

/// Appends the atoms of one span of a non-table block.
fn push_block_span(
    atoms: &mut Vec<CopyAtom>,
    grapheme: &mut usize,
    first: &mut bool,
    hard_break: &mut bool,
    block: usize,
    span: &InlineSpan,
    leading: &Vec<char>,
)
    ensures
        block_span_step(
            AtomState { atoms: old(atoms).deep_view(), grapheme: *old(grapheme) as int, first: *old(first), hard_break: *old(hard_break) },
            block, *span, leading@,
        ) == (AtomState { atoms: final(atoms).deep_view(), grapheme: *final(grapheme) as int, first: *final(first), hard_break: *final(hard_break) }),
{
    let gs = graphemes(span.text.as_str());
    match &span.image {
        Some(image) => {
            let lead = if *first { leading.clone() } else { Vec::new() };
            atom_push(atoms, CopyAtom {
                position: SemanticPosition { block, grapheme: *grapheme },
                text: image.rendered_chars(),
                leading: lead,
                hard_break_from_prior: *hard_break,
                cell_separator: false,
            });
            *grapheme = grapheme.saturating_add(gs.len());
            *first = false;
            *hard_break = false;
        },
        None => {
            let ghost s0 = AtomState { atoms: atoms.deep_view(), grapheme: *grapheme as int, first: *first, hard_break: *hard_break };
            let mut k: usize = 0;
            while k < gs.len()
                invariant
                    k <= gs@.len(),
                    block_symbols(s0, block, gs.deep_view().take(k as int), leading@)
                        == (AtomState { atoms: atoms.deep_view(), grapheme: *grapheme as int, first: *first, hard_break: *hard_break }),
                decreases gs.len() - k,
            {
                assert(gs.deep_view().take(k as int + 1).drop_last() =~= gs.deep_view().take(k as int));
                let symbol = gs[k].clone();
                assert(symbol@ == gs.deep_view()[k as int]);
                if is_single(&symbol, '\n') {
                    *grapheme = grapheme.saturating_add(1);
                    *hard_break = true;
                } else {
                    let lead = if *first { leading.clone() } else { Vec::new() };
                    atom_push(atoms, CopyAtom {
                        position: SemanticPosition { block, grapheme: *grapheme },
                        text: symbol,
                        leading: lead,
                        hard_break_from_prior: *hard_break,
                        cell_separator: false,
                    });
                    *grapheme = grapheme.saturating_add(1);
                    *first = false;
                    *hard_break = false;
                }
                k = k + 1;
            }
            assert(gs.deep_view().take(gs@.len() as int) =~= gs.deep_view());
        },
    }
}

/// The Document's copyable graphemes in Document order, with the leading
/// labels and the joins that plain text needs.
fn copy_atoms(document: &Document) -> (r: Vec<CopyAtom>)
    ensures
        r.deep_view() == document_atoms(document.blocks@),
{
    let mut atoms: Vec<CopyAtom> = Vec::new();
    let mut b: usize = 0;
    assert(atoms.deep_view() =~= document_atoms(document.blocks@.take(0)));
    while b < document.blocks.len()
        invariant
            b <= document.blocks@.len(),
            atoms.deep_view() == document_atoms(document.blocks@.take(b as int)),
        decreases document.blocks.len() - b,
    {
        assert(document.blocks@.take(b as int + 1).drop_last() =~= document.blocks@.take(b as int));
        let block = &document.blocks[b];
        let leading = semantic_leading(block);
        let ghost before = atoms.deep_view();
        match &block.table {
            Some(table) => {
                let mut ri: usize = 0;
                assert(table.rows@.take(0) =~= Seq::<crate::document::TableRow>::empty());
                while ri < table.rows.len()
                    invariant
                        ri <= table.rows@.len(),
                        leading@ == leading_text(*block),
                        atoms.deep_view() == table_atoms(before, b, table.rows@.take(ri as int), leading@),
                    decreases table.rows.len() - ri,
                {
                    assert(table.rows@.take(ri as int + 1).drop_last() =~= table.rows@.take(ri as int));
                    let row = &table.rows[ri];
                    let ghost row_start = atoms.deep_view();
                    let mut ci: usize = 0;
                    assert(row.cells@.take(0) =~= Seq::<crate::document::TableCell>::empty());
                    while ci < row.cells.len()
                        invariant
                            ci <= row.cells@.len(),
                            atoms.deep_view() == row_atoms(row_start, b, row.cells@.take(ci as int), leading@, ri as int),
                        decreases row.cells.len() - ci,
                    {
                        assert(row.cells@.take(ci as int + 1).drop_last() =~= row.cells@.take(ci as int));
                        let cell = &row.cells[ci];
                        let mut grapheme = cell.grapheme_offset;
                        let mut first = true;
                        let ghost c0 = AtomState { atoms: atoms.deep_view(), grapheme: grapheme as int, first: true, hard_break: false };
                        let mut s: usize = 0;
                        while s < cell.spans.len()
                            invariant
                                s <= cell.spans@.len(),
                                cell_spans(c0, b, cell.spans@.take(s as int), leading@, ri as int, ci as int)
                                    == (AtomState { atoms: atoms.deep_view(), grapheme: grapheme as int, first, hard_break: false }),
                            decreases cell.spans.len() - s,
                        {
                            assert(cell.spans@.take(s as int + 1).drop_last() =~= cell.spans@.take(s as int));
                            push_cell_span(&mut atoms, &mut grapheme, &mut first, b, &cell.spans[s], &leading, ri, ci);
                            s = s + 1;
                        }
                        assert(cell.spans@.take(cell.spans@.len() as int) =~= cell.spans@);
                        ci = ci + 1;
                    }
                    assert(row.cells@.take(row.cells@.len() as int) =~= row.cells@);
                    ri = ri + 1;
                }
                assert(table.rows@.take(table.rows@.len() as int) =~= table.rows@);
            },
            None => {
                let mut handled = false;
                if matches!(block.kind, BlockKind::Empty) {
                    match block.list_item {
                        Some(item) => {
                            if !item.continuation {
                                atom_push(&mut atoms, CopyAtom {
                                    position: SemanticPosition { block: b, grapheme: 0 },
                                    text: item.marker.rendered_label(),
                                    leading: Vec::new(),
                                    hard_break_from_prior: false,
                                    cell_separator: false,
                                });
                                handled = true;
                            }
                        },
                        None => {},
                    }
                }
                if !handled {
                    let mut grapheme: usize = 0;
                    let mut first = true;
                    let mut hard_break = false;
                    let ghost c0 = AtomState { atoms: atoms.deep_view(), grapheme: 0, first: true, hard_break: false };
                    let mut s: usize = 0;
                    while s < block.spans.len()
                        invariant
                            s <= block.spans@.len(),
                            block_spans_atoms(c0, b, block.spans@.take(s as int), leading@)
                                == (AtomState { atoms: atoms.deep_view(), grapheme: grapheme as int, first, hard_break }),
                        decreases block.spans.len() - s,
                    {
                        assert(block.spans@.take(s as int + 1).drop_last() =~= block.spans@.take(s as int));
                        push_block_span(&mut atoms, &mut grapheme, &mut first, &mut hard_break, b, &block.spans[s], &leading);
                        s = s + 1;
                    }
                    assert(block.spans@.take(block.spans@.len() as int) =~= block.spans@);
                }
            },
        }
        b = b + 1;
    }
    assert(document.blocks@.take(document.blocks@.len() as int) =~= document.blocks@);
    atoms
}


// ---------------------------------------------------------------------------
// Copying a Selection
// ---------------------------------------------------------------------------

/// Index of the first grapheme that is not a line break, if any.
pub open spec fn first_non_break_index(gs: Seq<Seq<char>>) -> Option<int>
    decreases gs.len(),
{
    if gs.len() == 0 {
        None
    } else {
        match first_non_break_index(gs.drop_last()) {
            Some(i) => Some(i),
            None => if gs.last() != seq!['\n'] { Some(gs.len() - 1) } else { None },
        }
    }
}

proof fn lemma_non_break_prefix(gs: Seq<Seq<char>>, k: int)
    requires
        0 <= k <= gs.len(),
        first_non_break_index(gs.take(k)) is Some,
    ensures
        first_non_break_index(gs) == first_non_break_index(gs.take(k)),
    decreases gs.len(),
{
    if k == gs.len() {
        assert(gs.take(k) =~= gs);
    } else {
        assert(gs.drop_last().take(k) =~= gs.take(k));
        lemma_non_break_prefix(gs.drop_last(), k);
    }
}

fn first_content_grapheme(document: &Document, block: usize) -> (r: usize)
    ensures
        r as int == (if block < document.blocks@.len() {
            match first_non_break_index(grapheme_clusters(document.blocks@[block as int].text@)) {
                Some(i) => i,
                None => 0,
            }
        } else {
            0
        }),
{
    if block >= document.blocks.len() {
        return 0;
    }
    let gs = graphemes(document.blocks[block].text.as_str());
    let ghost v = gs.deep_view();
    let mut k: usize = 0;
    while k < gs.len()
        invariant
            k <= gs@.len(),
            v == gs.deep_view(),
            block < document.blocks@.len(),
            v == grapheme_clusters(document.blocks@[block as int].text@),
            first_non_break_index(v.take(k as int)) is None,
        decreases gs.len() - k,
    {
        assert(gs@[k as int]@ == v[k as int]);
        assert(v.take(k as int + 1).drop_last() =~= v.take(k as int));
        if !is_single(&gs[k], '\n') {
            proof { lemma_non_break_prefix(v, k as int + 1); }
            return k;
        }
        k = k + 1;
    }
    assert(v.take(gs@.len() as int) =~= v);
    0
}

/// Grapheme count of a sequence of spans, as table cells measure them.
pub open spec fn spans_extent(spans: Seq<InlineSpan>) -> int
    decreases spans.len(),
{
    if spans.len() == 0 {
        0
    } else {
        sat(spans_extent(spans.drop_last()) + grapheme_clusters(spans.last().text@).len())
    }
}

/// Index of the first cell of a row whose graphemes include `g`.
pub open spec fn cell_in_row(cells: Seq<crate::document::TableCell>, g: int) -> Option<int>
    decreases cells.len(),
{
    if cells.len() == 0 {
        None
    } else {
        match cell_in_row(cells.drop_last(), g) {
            Some(i) => Some(i),
            None => {
                let c = cells.last();
                if c.grapheme_offset <= g < sat(c.grapheme_offset + spans_extent(c.spans@)) {
                    Some(cells.len() - 1)
                } else {
                    None
                }
            },
        }
    }
}

/// Row and column of the first cell, in row order, whose graphemes include `g`.
pub open spec fn cell_of(rows: Seq<crate::document::TableRow>, g: int) -> Option<(int, int)>
    decreases rows.len(),
{
    if rows.len() == 0 {
        None
    } else {
        match cell_of(rows.drop_last(), g) {
            Some(x) => Some(x),
            None => match cell_in_row(rows.last().cells@, g) {
                Some(c) => Some((rows.len() - 1, c)),
                None => None,
            },
        }
    }
}

/// Two positions of a table block lie in different cells.
pub open spec fn cell_boundary(doc: Document, prior: SemanticPosition, p: SemanticPosition) -> bool {
    if p.block < doc.blocks@.len() {
        match doc.blocks@[p.block as int].table {
            Some(table) => cell_of(table.rows@, prior.grapheme as int) != cell_of(table.rows@, p.grapheme as int),
            None => false,
        }
    } else {
        false
    }
}

fn spans_extent_exec(spans: &[InlineSpan]) -> (r: usize)
    ensures
        r as int == spans_extent(spans@),
{
    let mut total: usize = 0;
    let mut i: usize = 0;
    while i < spans.len()
        invariant
            i <= spans@.len(),
            total as int == spans_extent(spans@.take(i as int)),
        decreases spans.len() - i,
    {
        assert(spans@.take(i as int + 1).drop_last() =~= spans@.take(i as int));
        let gs = graphemes(spans[i].text.as_str());
        total = total.saturating_add(gs.len());
        i = i + 1;
    }
    assert(spans@.take(spans@.len() as int) =~= spans@);
    total
}

proof fn lemma_cell_in_row_prefix(cells: Seq<crate::document::TableCell>, k: int, g: int)
    requires
        0 <= k <= cells.len(),
        cell_in_row(cells.take(k), g) is Some,
    ensures
        cell_in_row(cells, g) == cell_in_row(cells.take(k), g),
    decreases cells.len(),
{
    if k == cells.len() {
        assert(cells.take(k) =~= cells);
    } else {
        assert(cells.drop_last().take(k) =~= cells.take(k));
        lemma_cell_in_row_prefix(cells.drop_last(), k, g);
    }
}

proof fn lemma_cell_of_prefix(rows: Seq<crate::document::TableRow>, k: int, g: int)
    requires
        0 <= k <= rows.len(),
        cell_of(rows.take(k), g) is Some,
    ensures
        cell_of(rows, g) == cell_of(rows.take(k), g),
    decreases rows.len(),
{
    if k == rows.len() {
        assert(rows.take(k) =~= rows);
    } else {
        assert(rows.drop_last().take(k) =~= rows.take(k));
        lemma_cell_of_prefix(rows.drop_last(), k, g);
    }
}

fn cell_index(table: &crate::document::Table, g: usize) -> (r: Option<(usize, usize)>)
    ensures
        match r {
            Some(x) => cell_of(table.rows@, g as int) == Some((x.0 as int, x.1 as int)),
            None => cell_of(table.rows@, g as int) is None,
        },
{
    let mut ri: usize = 0;
    while ri < table.rows.len()
        invariant
            ri <= table.rows@.len(),
            cell_of(table.rows@.take(ri as int), g as int) is None,
        decreases table.rows.len() - ri,
    {
        assert(table.rows@.take(ri as int + 1).drop_last() =~= table.rows@.take(ri as int));
        let row = &table.rows[ri];
        let mut ci: usize = 0;
        while ci < row.cells.len()
            invariant
                ci <= row.cells@.len(),
                ri < table.rows@.len(),
                row == &table.rows@[ri as int],
                cell_of(table.rows@.take(ri as int), g as int) is None,
                cell_in_row(row.cells@.take(ci as int), g as int) is None,
            decreases row.cells.len() - ci,
        {
            assert(row.cells@.take(ci as int + 1).drop_last() =~= row.cells@.take(ci as int));
            let cell = &row.cells[ci];
            let extent = spans_extent_exec(cell.spans.as_slice());
            let end = cell.grapheme_offset.saturating_add(extent);
            if cell.grapheme_offset <= g && g < end {
                proof {
                    assert(row.cells@.take(ci as int + 1).drop_last() =~= row.cells@.take(ci as int));
                    lemma_cell_in_row_prefix(row.cells@, ci as int + 1, g as int);
                    assert(cell_in_row(row.cells@, g as int) == Some(ci as int));
                    assert(table.rows@.take(ri as int + 1).drop_last() =~= table.rows@.take(ri as int));
                    assert(table.rows@.take(ri as int + 1).last() == *row);
                    assert(cell_of(table.rows@.take(ri as int + 1), g as int) == Some((ri as int, ci as int)));
                    lemma_cell_of_prefix(table.rows@, ri as int + 1, g as int);
                }
                return Some((ri, ci));
            }
            ci = ci + 1;
        }
        assert(row.cells@.take(row.cells@.len() as int) =~= row.cells@);
        ri = ri + 1;
    }
    assert(table.rows@.take(table.rows@.len() as int) =~= table.rows@);
    None
}

fn table_cell_boundary(document: &Document, prior: SemanticPosition, position: SemanticPosition) -> (r: bool)
    ensures
        r == cell_boundary(*document, prior, position),
{
    if position.block >= document.blocks.len() {
        return false;
    }
    match &document.blocks[position.block].table {
        Some(table) => {
            let a = cell_index(table, prior.grapheme);
            let b = cell_index(table, position.grapheme);
            match (a, b) {
                (Some(x), Some(y)) => x.0 != y.0 || x.1 != y.1,
                (None, None) => false,
                _ => true,
            }
        },
        None => false,
    }
}

/// The shown text at a position, nothing for a position outside the Document.
pub open spec fn shown_at(doc: Document, p: SemanticPosition) -> Seq<char> {
    if p.block < doc.blocks@.len() { shown_grapheme(doc, p) } else { Seq::empty() }
}

fn shown_at_exec(document: &Document, p: SemanticPosition) -> (r: Vec<char>)
    ensures
        r@ == shown_at(*document, p),
{
    if p.block < document.blocks.len() { source_grapheme(document, p) } else { Vec::new() }
}

/// The leading text of a block, nothing for a block outside the Document.
pub open spec fn leading_at(doc: Document, b: int) -> Seq<char> {
    if 0 <= b < doc.blocks@.len() { leading_text(doc.blocks@[b]) } else { Seq::empty() }
}

/// The state of a characterwise copy.
#[verifier::ext_equal]
pub struct CharCopy {
    pub out: Seq<char>,
    pub prev: Option<SemanticPosition>,
    pub emitted: Seq<usize>,
}

/// One atom joins the copied text when it lies between the endpoints.
pub open spec fn char_step(doc: Document, s: CharCopy, a: AtomView, start: SemanticPosition, end: SemanticPosition) -> CharCopy {
    let p = a.position;
    if crate::layout::pos_lt(p, start) || crate::layout::pos_lt(end, p) {
        s
    } else {
        let out1 = match s.prev {
            Some(prior) => if prior.block != p.block || a.hard_break_from_prior { with_newline(s.out) } else { s.out },
            None => s.out,
        };
        let lead = a.leading.len() > 0 && !s.emitted.contains(p.block) && p.grapheme as int == (
            if p.block < doc.blocks@.len() {
                match first_non_break_index(grapheme_clusters(doc.blocks@[p.block as int].text@)) {
                    Some(i) => i,
                    None => 0,
                }
            } else {
                0
            });
        let out2 = if lead { out1 + a.leading } else { out1 };
        let emitted2 = if lead { s.emitted.push(p.block) } else { s.emitted };
        let out3 = if a.cell_separator && out2.len() > 0 && out2.last() != '\n' && out2.last() != '\t' && out2.last() != ' ' {
            out2.push(' ')
        } else {
            out2
        };
        CharCopy { out: out3 + a.text, prev: Some(p), emitted: emitted2 }
    }
}

pub open spec fn char_fold(doc: Document, atoms: Seq<AtomView>, start: SemanticPosition, end: SemanticPosition) -> CharCopy
    decreases atoms.len(),
{
    if atoms.len() == 0 {
        CharCopy { out: Seq::empty(), prev: None, emitted: Seq::empty() }
    } else {
        char_step(doc, char_fold(doc, atoms.drop_last(), start, end), atoms.last(), start, end)
    }
}

/// The copied text of a characterwise Selection.
pub open spec fn characterwise_text(doc: Document, anchor: SemanticPosition, cursor: SemanticPosition) -> Seq<char> {
    let (start, end) = ordered(anchor, cursor);
    char_fold(doc, document_atoms(doc.blocks@), start, end).out
}

fn copy_characterwise(document: &Document, anchor: SemanticPosition, cursor: SemanticPosition) -> (r: Vec<char>)
    ensures
        r@ == characterwise_text(*document, anchor, cursor),
{
    let (start, end) = ordered_endpoints(anchor, cursor);
    let atoms = copy_atoms(document);
    let ghost av = atoms.deep_view();
    let mut output: Vec<char> = Vec::new();
    let mut previous: Option<SemanticPosition> = None;
    let mut emitted: Vec<usize> = Vec::new();
    let mut i: usize = 0;
    assert(av.take(0) =~= Seq::<AtomView>::empty());
    while i < atoms.len()
        invariant
            i <= atoms@.len(),
            av == atoms.deep_view(),
            char_fold(*document, av.take(i as int), start, end) == (CharCopy { out: output@, prev: previous, emitted: emitted@ }),
        decreases atoms.len() - i,
    {
        assert(av.take(i as int + 1).drop_last() =~= av.take(i as int));
        let atom = &atoms[i];
        assert(av[i as int] == atom.deep_view());
        let p = atom.position;
        if crate::layout::position_lt(p, start) || crate::layout::position_lt(end, p) {
            i = i + 1;
            continue;
        }
        match previous {
            Some(prior) => {
                if prior.block != p.block || atom.hard_break_from_prior {
                    push_newline(&mut output);
                }
            },
            None => {},
        }
        if atom.leading.len() > 0 && !crate::search::contains_usize(&emitted, p.block)
            && p.grapheme == first_content_grapheme(document, p.block) {
            emitted.push(p.block);
            push_all(&mut output, &atom.leading);
        }
        if atom.cell_separator && output.len() > 0 {
            let last = output[output.len() - 1];
            if last != '\n' && last != '\t' && last != ' ' {
                output.push(' ');
            }
        }
        push_all(&mut output, &atom.text);
        previous = Some(p);
        i = i + 1;
    }
    assert(av.take(atoms@.len() as int) =~= av);
    output
}

/// Joins lines with line breaks.
pub open spec fn join_lines(lines: Seq<Seq<char>>) -> Seq<char>
    decreases lines.len(),
{
    if lines.len() == 0 {
        Seq::empty()
    } else if lines.len() == 1 {
        lines[0]
    } else {
        join_lines(lines.drop_last()) + seq!['\n'] + lines.last()
    }
}

/// The state of a row copy.
#[verifier::ext_equal]
pub struct RowCopy {
    pub lines: Seq<Seq<char>>,
    pub emitted: Seq<usize>,
}

/// One cell joins a copied row line.
pub open spec fn row_cell_step(doc: Document, line: Seq<char>, last: Option<SemanticPosition>, c: CellView) -> (Seq<char>, Option<SemanticPosition>) {
    let p = c.position;
    let spaced = match last {
        Some(prior) => if (prior.block != p.block || cell_boundary(doc, prior, p)) && line.len() > 0 && line.last() != ' ' {
            line.push(' ')
        } else {
            line
        },
        None => line,
    };
    (spaced + shown_at(doc, p), Some(p))
}

pub open spec fn row_cells_fold(doc: Document, line: Seq<char>, cells: Seq<CellView>) -> (Seq<char>, Option<SemanticPosition>)
    decreases cells.len(),
{
    if cells.len() == 0 {
        (line, None)
    } else {
        let (l, last) = row_cells_fold(doc, line, cells.drop_last());
        row_cell_step(doc, l, last, cells.last())
    }
}

/// One rendered row joins a row copy.
pub open spec fn row_step(doc: Document, s: RowCopy, cells: Seq<CellView>) -> RowCopy {
    if cells.len() == 0 {
        s
    } else {
        let b = cells[0].position.block;
        let leading = leading_at(doc, b as int);
        let lead = leading.len() > 0 && !s.emitted.contains(b);
        let line0 = if lead { leading } else { Seq::empty() };
        let emitted = if lead { s.emitted.push(b) } else { s.emitted };
        let line = row_cells_fold(doc, line0, cells).0;
        RowCopy { lines: if line.len() > 0 { s.lines.push(line) } else { s.lines }, emitted }
    }
}

pub open spec fn rows_fold(doc: Document, rows: Seq<Seq<CellView>>) -> RowCopy
    decreases rows.len(),
{
    if rows.len() == 0 {
        RowCopy { lines: Seq::empty(), emitted: Seq::empty() }
    } else {
        row_step(doc, rows_fold(doc, rows.drop_last()), rows.last())
    }
}

/// The copied text of a row Selection: every rendered row between the
/// anchor's and the cursor's, in plain text.
pub open spec fn rowwise_text(doc: Document, rows: Seq<Seq<CellView>>, anchor: SemanticPosition, cursor: SemanticPosition) -> Seq<char> {
    match (first_row_at(rows, anchor), first_row_at(rows, cursor)) {
        (Some(a), Some(c)) => {
            let start = if a <= c { a } else { c };
            let end = if a <= c { c } else { a };
            join_lines(rows_fold(doc, rows.subrange(start, end + 1)).lines)
        },
        _ => Seq::empty(),
    }
}

proof fn lemma_first_row_bound(rows: Seq<Seq<CellView>>, p: SemanticPosition)
    ensures
        first_row_at(rows, p) matches Some(i) ==> 0 <= i < rows.len(),
    decreases rows.len(),
{
    if rows.len() > 0 {
        lemma_first_row_bound(rows.drop_last(), p);
    }
}

fn copy_rows(document: &Document, rendered: &RenderedDocument, anchor: SemanticPosition, cursor: SemanticPosition) -> (r: Vec<char>)
    ensures
        r@ == rowwise_text(*document, rendered.view_rows(), anchor, cursor),
{
    let ghost rows = rendered.view_rows();
    proof {
        lemma_first_row_bound(rows, anchor);
        lemma_first_row_bound(rows, cursor);
    }
    let anchor_row = match rendered.row_for_position(anchor) {
        Some(r) => r,
        None => {
            return Vec::new();
        },
    };
    let cursor_row = match rendered.row_for_position(cursor) {
        Some(r) => r,
        None => {
            return Vec::new();
        },
    };
    let start_row = if anchor_row <= cursor_row { anchor_row } else { cursor_row };
    let end_row = if anchor_row <= cursor_row { cursor_row } else { anchor_row };
    let ghost range = rows.subrange(start_row as int, end_row as int + 1);
    let row_count = rendered.rows.len();
    let mut lines: Vec<Vec<char>> = Vec::new();
    let mut emitted: Vec<usize> = Vec::new();
    let mut row_index = start_row;
    assert(range.take(0) =~= Seq::<Seq<CellView>>::empty());
    assert(lines.deep_view() =~= Seq::<Seq<char>>::empty());
    while row_index <= end_row
        invariant
            start_row <= row_index <= end_row + 1,
            end_row < rows.len(),
            rows == rendered.view_rows(),
            rows.len() == rendered.rows@.len(),
            row_count == rendered.rows@.len(),
            range == rows.subrange(start_row as int, end_row as int + 1),
            rows_fold(*document, range.take(row_index - start_row)) == (RowCopy { lines: lines.deep_view(), emitted: emitted@ }),
        decreases end_row + 1 - row_index,
    {
        assert(range.take(row_index - start_row + 1).drop_last() =~= range.take(row_index - start_row));
        let cells = &rendered.rows[row_index].cells;
        assert(cells.deep_view() == rows[row_index as int]);
        assert(range.take(row_index - start_row + 1).last() == rows[row_index as int]);
        if cells.len() > 0 {
            let b = cells[0].position.block;
            assert(cells.deep_view()[0].position.block == b);
            let mut line: Vec<char> = Vec::new();
            if b < document.blocks.len() {
                let leading = semantic_leading(&document.blocks[b]);
                if leading.len() > 0 && !crate::search::contains_usize(&emitted, b) {
                    push_all(&mut line, &leading);
                    emitted.push(b);
                }
            }
            let ghost line0 = line@;
            let mut last: Option<SemanticPosition> = None;
            let mut k: usize = 0;
            assert(cells.deep_view().take(0) =~= Seq::<CellView>::empty());
            while k < cells.len()
                invariant
                    k <= cells@.len(),
                    row_cells_fold(*document, line0, cells.deep_view().take(k as int)) == (line@, last),
                decreases cells.len() - k,
            {
                assert(cells.deep_view().take(k as int + 1).drop_last() =~= cells.deep_view().take(k as int));
                let p = cells[k].position;
                assert(cells.deep_view()[k as int].position == p);
                match last {
                    Some(prior) => {
                        if (prior.block != p.block || table_cell_boundary(document, prior, p)) && line.len() > 0
                            && line[line.len() - 1] != ' ' {
                            line.push(' ');
                        }
                    },
                    None => {},
                }
                push_all(&mut line, &shown_at_exec(document, p));
                last = Some(p);
                k = k + 1;
            }
            assert(cells.deep_view().take(cells@.len() as int) =~= cells.deep_view());
            if line.len() > 0 {
                let ghost l = lines.deep_view();
                let ghost lv = line@;
                assert(line.deep_view() =~= line@);
                lines.push(line);
                assert(lines.deep_view() =~= l.push(lv));
            }
        }
        row_index = row_index + 1;
    }
    assert(range.take(end_row + 1 - start_row) =~= range);
    let mut out: Vec<char> = Vec::new();
    let mut j: usize = 0;
    assert(lines.deep_view().take(0) =~= Seq::<Seq<char>>::empty());
    while j < lines.len()
        invariant
            j <= lines@.len(),
            out@ == join_lines(lines.deep_view().take(j as int)),
        decreases lines.len() - j,
    {
        assert(lines.deep_view().take(j as int + 1).drop_last() =~= lines.deep_view().take(j as int));
        if j > 0 {
            out.push('\n');
        }
        push_all(&mut out, &lines[j]);
        assert(lines.deep_view().take(j as int + 1).last() == lines@[j as int]@);
        j = j + 1;
    }
    assert(lines.deep_view().take(lines@.len() as int) =~= lines.deep_view());
    out
}

/// The text a Selection copies.
pub open spec fn selection_text(doc: Document, rows: Seq<Seq<CellView>>, mode: SelectionMode, anchor: SemanticPosition, cursor: SemanticPosition) -> Seq<char> {
    match mode {
        SelectionMode::Characterwise => characterwise_text(doc, anchor, cursor),
        SelectionMode::Row => rowwise_text(doc, rows, anchor, cursor),
    }
}

/// Plain rendered text for a Selection range, without decorative borders.
pub fn selected_text(
    document: &Document,
    rendered: &RenderedDocument,
    mode: SelectionMode,
    anchor: SemanticPosition,
    cursor: SemanticPosition,
) -> (r: String)
    ensures
        r@ == selection_text(*document, rendered.view_rows(), mode, anchor, cursor),
{
    let chars = match mode {
        SelectionMode::Characterwise => copy_characterwise(document, anchor, cursor),
        SelectionMode::Row => copy_rows(document, rendered, anchor, cursor),
    };
    crate::text::string_of(&chars)
}

/// The text a Selection copies does not depend on which end is the anchor
/// and which the cursor.
pub proof fn lemma_selection_text_symmetric(
    doc: Document,
    rows: Seq<Seq<CellView>>,
    mode: SelectionMode,
    anchor: SemanticPosition,
    cursor: SemanticPosition,
)
    ensures
        selection_text(doc, rows, mode, anchor, cursor) == selection_text(doc, rows, mode, cursor, anchor),
{
    assert(ordered(anchor, cursor) == ordered(cursor, anchor));
}


// ---------------------------------------------------------------------------
// Line breaks survive a characterwise copy
// ---------------------------------------------------------------------------

/// A characterwise copy continued from a state over more atoms.
pub open spec fn char_fold_from(doc: Document, s: CharCopy, atoms: Seq<AtomView>, start: SemanticPosition, end: SemanticPosition) -> CharCopy
    decreases atoms.len(),
{
    if atoms.len() == 0 {
        s
    } else {
        char_step(doc, char_fold_from(doc, s, atoms.drop_last(), start, end), atoms.last(), start, end)
    }
}

pub open spec fn no_copy() -> CharCopy {
    CharCopy { out: Seq::empty(), prev: None, emitted: Seq::empty() }
}

pub open spec fn in_copy_range(p: SemanticPosition, start: SemanticPosition, end: SemanticPosition) -> bool {
    !(crate::layout::pos_lt(p, start) || crate::layout::pos_lt(end, p))
}

proof fn lemma_fold_is_from_nothing(doc: Document, atoms: Seq<AtomView>, start: SemanticPosition, end: SemanticPosition)
    ensures
        char_fold(doc, atoms, start, end) == char_fold_from(doc, no_copy(), atoms, start, end),
    decreases atoms.len(),
{
    if atoms.len() > 0 {
        lemma_fold_is_from_nothing(doc, atoms.drop_last(), start, end);
    }
}

proof fn lemma_fold_from_concat(doc: Document, s: CharCopy, x: Seq<AtomView>, y: Seq<AtomView>, start: SemanticPosition, end: SemanticPosition)
    ensures
        char_fold_from(doc, s, x + y, start, end) == char_fold_from(doc, char_fold_from(doc, s, x, start, end), y, start, end),
    decreases y.len(),
{
    if y.len() == 0 {
        assert(x + y =~= x);
    } else {
        assert((x + y).drop_last() =~= x + y.drop_last());
        lemma_fold_from_concat(doc, s, x, y.drop_last(), start, end);
    }
}

/// Atoms outside the range change nothing.
proof fn lemma_fold_from_skips(doc: Document, s: CharCopy, y: Seq<AtomView>, start: SemanticPosition, end: SemanticPosition)
    requires
        forall|t: int| 0 <= t < y.len() ==> !in_copy_range(#[trigger] y[t].position, start, end),
    ensures
        char_fold_from(doc, s, y, start, end) == s,
    decreases y.len(),
{
    if y.len() > 0 {
        assert(!in_copy_range(y[y.len() - 1].position, start, end));
        lemma_fold_from_skips(doc, s, y.drop_last(), start, end);
    }
}

/// Two ranges that take the same atoms give the same copy.
proof fn lemma_fold_from_same_range(
    doc: Document,
    s: CharCopy,
    y: Seq<AtomView>,
    st1: SemanticPosition,
    en1: SemanticPosition,
    st2: SemanticPosition,
    en2: SemanticPosition,
)
    requires
        forall|t: int| 0 <= t < y.len() ==> in_copy_range(#[trigger] y[t].position, st1, en1) == in_copy_range(y[t].position, st2, en2),
    ensures
        char_fold_from(doc, s, y, st1, en1) == char_fold_from(doc, s, y, st2, en2),
    decreases y.len(),
{
    if y.len() > 0 {
        assert(in_copy_range(y[y.len() - 1].position, st1, en1) == in_copy_range(y[y.len() - 1].position, st2, en2));
        lemma_fold_from_same_range(doc, s, y.drop_last(), st1, en1, st2, en2);
    }
}

/// A copy that already holds a finished line `p` runs on like a fresh
/// copy, behind that line.
proof fn lemma_fold_from_behind(
    doc: Document,
    t1: CharCopy,
    t2: CharCopy,
    p: Seq<char>,
    y: Seq<AtomView>,
    start: SemanticPosition,
    end: SemanticPosition,
)
    requires
        p.len() > 0,
        p.last() == '\n',
        t1.out == p + t2.out,
        t1.prev == t2.prev,
        t2.prev is Some,
        forall|t: int| 0 <= t < y.len() ==> (#[trigger] y[t]).leading.len() == 0 && !y[t].cell_separator,
    ensures
        char_fold_from(doc, t1, y, start, end).out == p + char_fold_from(doc, t2, y, start, end).out,
        char_fold_from(doc, t1, y, start, end).prev == char_fold_from(doc, t2, y, start, end).prev,
        char_fold_from(doc, t2, y, start, end).prev is Some,
    decreases y.len(),
{
    if y.len() > 0 {
        let a = y[y.len() - 1];
        assert(a.leading.len() == 0 && !a.cell_separator);
        assert forall|t: int| 0 <= t < y.drop_last().len() implies (#[trigger] y.drop_last()[t]).leading.len() == 0
            && !y.drop_last()[t].cell_separator by {
            assert(y.drop_last()[t] == y[t]);
        }
        lemma_fold_from_behind(doc, t1, t2, p, y.drop_last(), start, end);
        let u1 = char_fold_from(doc, t1, y.drop_last(), start, end);
        let u2 = char_fold_from(doc, t2, y.drop_last(), start, end);
        if u2.out.len() > 0 {
            assert((p + u2.out).last() == u2.out.last());
            assert((p + u2.out).push('\n') =~= p + u2.out.push('\n'));
        } else {
            assert(p + u2.out =~= p);
        }
        assert(with_newline(u1.out) == p + with_newline(u2.out));
        let v1 = char_step(doc, u1, a, start, end);
        let v2 = char_step(doc, u2, a, start, end);
        if in_copy_range(a.position, start, end) {
            let w2 = match u2.prev {
                Some(prior) => if prior.block != a.position.block || a.hard_break_from_prior { with_newline(u2.out) } else { u2.out },
                None => u2.out,
            };
            assert(v2.out == w2 + a.text);
            assert(v1.out =~= p + (w2 + a.text));
        }
    }
}

/// The atoms of a block of plain symbols after its first `m` graphemes.
pub open spec fn symbols_after(gs: Seq<Seq<char>>, leading: Seq<char>, m: int) -> AtomState {
    block_symbols(AtomState { atoms: Seq::empty(), grapheme: 0, first: true, hard_break: false }, 0, gs.take(m), leading)
}

proof fn lemma_symbols_step(gs: Seq<Seq<char>>, leading: Seq<char>, m: int)
    requires
        0 <= m < gs.len(),
    ensures
        symbols_after(gs, leading, m + 1) == block_symbol_step(symbols_after(gs, leading, m), 0, gs[m], leading),
{
    assert(gs.take(m + 1).drop_last() =~= gs.take(m));
    assert(gs.take(m + 1).last() == gs[m]);
}

/// After `m` graphemes the counter is `m`, and every atom so far sits in
/// block 0 on an earlier grapheme, whose text it holds, with no cell
/// separator; once an atom is out, later atoms lead with nothing.
proof fn lemma_symbols_shape(gs: Seq<Seq<char>>, leading: Seq<char>, m: int)
    requires
        0 <= m <= gs.len(),
        gs.len() < usize::MAX,
    ensures
        symbols_after(gs, leading, m).grapheme == m,
        symbols_after(gs, leading, m).first <==> symbols_after(gs, leading, m).atoms.len() == 0,
        forall|t: int| 0 <= t < symbols_after(gs, leading, m).atoms.len() ==> {
            let a = #[trigger] symbols_after(gs, leading, m).atoms[t];
            &&& a.position.block == 0
            &&& a.position.grapheme < m
            &&& a.text == gs[a.position.grapheme as int]
            &&& !a.cell_separator
            &&& (t > 0 ==> a.leading.len() == 0)
        },
        forall|t: int, u: int| 0 <= t < u < symbols_after(gs, leading, m).atoms.len() ==>
            (#[trigger] symbols_after(gs, leading, m).atoms[t]).position.grapheme
                < (#[trigger] symbols_after(gs, leading, m).atoms[u]).position.grapheme,
    decreases m,
{
    if m == 0 {
        assert(gs.take(0) =~= Seq::<Seq<char>>::empty());
    } else {
        lemma_symbols_shape(gs, leading, m - 1);
        lemma_symbols_step(gs, leading, m - 1);
        let f = symbols_after(gs, leading, m - 1);
        let g = symbols_after(gs, leading, m);
        if gs[m - 1] != seq!['\n'] {
            assert forall|t: int| 0 <= t < g.atoms.len() implies {
                let a = #[trigger] g.atoms[t];
                &&& a.position.block == 0
                &&& a.position.grapheme < m
                &&& a.text == gs[a.position.grapheme as int]
                &&& !a.cell_separator
                &&& (t > 0 ==> a.leading.len() == 0)
            } by {
                if t < f.atoms.len() {
                    assert(g.atoms[t] == f.atoms[t]);
                }
            }
            assert forall|t: int, u: int| 0 <= t < u < g.atoms.len() implies
                (#[trigger] g.atoms[t]).position.grapheme < (#[trigger] g.atoms[u]).position.grapheme by {
                assert(g.atoms[t] == f.atoms[t]);
                if u < f.atoms.len() {
                    assert(g.atoms[u] == f.atoms[u]);
                }
            }
        }
    }
}

/// A block of one plain span: its atoms are those of the span's symbols.
proof fn lemma_plain_block_atoms(doc: Document)
    requires
        doc.blocks@.len() == 1,
        doc.blocks@[0].table is None,
        doc.blocks@[0].kind != BlockKind::Empty,
        doc.blocks@[0].spans@.len() == 1,
        doc.blocks@[0].spans@[0].image is None,
    ensures
        document_atoms(doc.blocks@) == symbols_after(
            grapheme_clusters(doc.blocks@[0].spans@[0].text@),
            leading_text(doc.blocks@[0]),
            grapheme_clusters(doc.blocks@[0].spans@[0].text@).len() as int,
        ).atoms,
{
    let b = doc.blocks@[0];
    let sp = b.spans@[0];
    let gs = grapheme_clusters(sp.text@);
    let leading = leading_text(b);
    let init = AtomState { atoms: Seq::empty(), grapheme: 0, first: true, hard_break: false };
    assert(doc.blocks@.drop_last() =~= Seq::<Block>::empty());
    assert(doc.blocks@.last() == b);
    assert(document_atoms(doc.blocks@.drop_last()) == Seq::<AtomView>::empty());
    assert(b.spans@.drop_last() =~= Seq::<InlineSpan>::empty());
    assert(b.spans@.last() == sp);
    assert(block_spans_atoms(init, 0, b.spans@.drop_last(), leading) == init);
    assert(block_spans_atoms(init, 0, b.spans@, leading) == block_symbols(init, 0, gs, leading));
    assert(gs.take(gs.len() as int) =~= gs);
    assert(document_atoms(doc.blocks@) == block_atoms(Seq::empty(), b, 0));
}

/// Around a break at grapheme `k`: the atoms up to it end with grapheme
/// `k - 1`; the atoms after it start with grapheme `k + 1`, which follows
/// a hard break, and none of them leads or separates cells.
proof fn lemma_atoms_around_break(gs: Seq<Seq<char>>, leading: Seq<char>, k: int)
    requires
        gs.len() < usize::MAX,
        1 <= k,
        k + 1 < gs.len(),
        gs[k] == seq!['\n'],
        gs[k - 1] != seq!['\n'],
        gs[k + 1] != seq!['\n'],
    ensures
        ({
            let x = symbols_after(gs, leading, k).atoms;
            let all = symbols_after(gs, leading, gs.len() as int).atoms;
            let y = all.skip(x.len() as int);
            &&& x.len() > 0
            &&& x.last().position == (SemanticPosition { block: 0, grapheme: (k - 1) as usize })
            &&& x.last().text == gs[k - 1]
            &&& (forall|t: int| 0 <= t < x.len() ==> (#[trigger] x[t]).position.block == 0 && x[t].position.grapheme < k)
            &&& all == x + y
            &&& y.len() > 0
            &&& y[0].position == (SemanticPosition { block: 0, grapheme: (k + 1) as usize })
            &&& y[0].hard_break_from_prior
            &&& (forall|t: int| 0 <= t < y.len() ==> (#[trigger] y[t]).leading.len() == 0 && !y[t].cell_separator
                && y[t].position.block == 0 && y[t].position.grapheme > k)
        }),
{
    let n = gs.len() as int;
    lemma_symbols_shape(gs, leading, k - 1);
    lemma_symbols_step(gs, leading, k - 1);
    lemma_symbols_shape(gs, leading, k);
    lemma_symbols_step(gs, leading, k);
    lemma_symbols_shape(gs, leading, k + 1);
    lemma_symbols_step(gs, leading, k + 1);
    lemma_symbols_shape(gs, leading, k + 2);
    lemma_symbols_shape(gs, leading, n);
    lemma_symbols_prefix(gs, leading, k + 2, n);
    lemma_symbols_prefix(gs, leading, k, n);
    let x = symbols_after(gs, leading, k).atoms;
    let x2 = symbols_after(gs, leading, k + 2).atoms;
    let all = symbols_after(gs, leading, n).atoms;
    let y = all.skip(x.len() as int);
    assert(symbols_after(gs, leading, k + 1).atoms == x);
    assert(x2 == x.push(x2[x.len() as int]));
    assert(all.take(x2.len() as int) == x2);
    assert(all =~= x + y);
    assert(y[0] == all[x.len() as int]);
    assert(all[x.len() as int] == x2[x.len() as int]);
    assert forall|t: int| 0 <= t < y.len() implies (#[trigger] y[t]).leading.len() == 0 && !y[t].cell_separator
        && y[t].position.block == 0 && y[t].position.grapheme > k by {
        assert(y[t] == all[x.len() + t]);
        if t == 0 {
            assert(all[x.len() as int] == x2[x.len() as int]);
        } else {
            assert(all[x.len() + t].position.grapheme > all[x.len() as int].position.grapheme);
        }
    }
}

/// The break's first atom after a finished line starts a new line.
proof fn lemma_copy_across_break(doc: Document, sx: CharCopy, a: AtomView, st: SemanticPosition, en: SemanticPosition)
    requires
        sx.out.len() > 0,
        sx.out.last() != '\n',
        sx.prev matches Some(q) && q.block == a.position.block,
        a.hard_break_from_prior,
        a.leading.len() == 0,
        !a.cell_separator,
        in_copy_range(a.position, st, en),
    ensures
        char_fold_from(doc, sx, seq![a], st, en).out == sx.out.push('\n') + char_fold_from(doc, no_copy(), seq![a], st, en).out,
        char_fold_from(doc, sx, seq![a], st, en).prev == Some(a.position),
        char_fold_from(doc, no_copy(), seq![a], st, en).prev == Some(a.position),
{
    let one = seq![a];
    assert(one.len() == 1);
    assert(one.drop_last() =~= Seq::<AtomView>::empty());
    assert(one.last() == a);
    assert(char_fold_from(doc, sx, one.drop_last(), st, en) == sx);
    assert(char_fold_from(doc, no_copy(), one.drop_last(), st, en) == no_copy());
    assert(char_fold_from(doc, sx, seq![a], st, en) == char_step(doc, sx, a, st, en));
    assert(char_fold_from(doc, no_copy(), seq![a], st, en) == char_step(doc, no_copy(), a, st, en));
    assert(char_step(doc, no_copy(), a, st, en).out =~= a.text);
}

/// A line break inside a block survives a characterwise copy: when the
/// selected graphemes of a block of plain text straddle a `\n`, the copy
/// is the copy of what comes before the break, a line feed, and the copy
/// of what comes after it.
pub proof fn lemma_copy_keeps_line_breaks(doc: Document, rows: Seq<Seq<CellView>>, s: usize, k: usize, e: usize)
    requires
        doc.blocks@.len() == 1,
        doc.blocks@[0].table is None,
        doc.blocks@[0].kind != BlockKind::Empty,
        doc.blocks@[0].spans@.len() == 1,
        doc.blocks@[0].spans@[0].image is None,
        ({
            let gs = grapheme_clusters(doc.blocks@[0].spans@[0].text@);
            &&& gs.len() < usize::MAX
            &&& 1 <= k
            &&& s <= k - 1
            &&& k + 1 <= e < gs.len()
            &&& gs[k as int] == seq!['\n']
            &&& gs[k - 1].len() > 0
            &&& gs[k - 1].last() != '\n'
            &&& gs[k + 1] != seq!['\n']
        }),
    ensures
        selection_text(doc, rows, SelectionMode::Characterwise, SemanticPosition { block: 0, grapheme: s }, SemanticPosition { block: 0, grapheme: e })
            == selection_text(doc, rows, SelectionMode::Characterwise, SemanticPosition { block: 0, grapheme: s }, SemanticPosition { block: 0, grapheme: (k - 1) as usize })
            + seq!['\n']
            + selection_text(doc, rows, SelectionMode::Characterwise, SemanticPosition { block: 0, grapheme: (k + 1) as usize }, SemanticPosition { block: 0, grapheme: e }),
{
    let b = doc.blocks@[0];
    let gs = grapheme_clusters(b.spans@[0].text@);
    let leading = leading_text(b);
    let n = gs.len() as int;
    let st = SemanticPosition { block: 0, grapheme: s };
    let en = SemanticPosition { block: 0, grapheme: e };
    let left_end = SemanticPosition { block: 0, grapheme: (k - 1) as usize };
    let right_start = SemanticPosition { block: 0, grapheme: (k + 1) as usize };
    lemma_plain_block_atoms(doc);
    lemma_atoms_around_break(gs, leading, k as int);
    let x = symbols_after(gs, leading, k as int).atoms;
    let all = symbols_after(gs, leading, n).atoms;
    let y = all.skip(x.len() as int);
    assert(document_atoms(doc.blocks@) == x + y);

    lemma_fold_is_from_nothing(doc, x + y, st, en);
    lemma_fold_is_from_nothing(doc, x + y, st, left_end);
    lemma_fold_is_from_nothing(doc, x + y, right_start, en);
    lemma_fold_from_concat(doc, no_copy(), x, y, st, en);
    lemma_fold_from_concat(doc, no_copy(), x, y, st, left_end);
    lemma_fold_from_concat(doc, no_copy(), x, y, right_start, en);
    assert forall|t: int| 0 <= t < x.len() implies in_copy_range(#[trigger] x[t].position, st, en)
        == in_copy_range(x[t].position, st, left_end) by {
        assert(x[t].position.block == 0 && x[t].position.grapheme < k);
    }
    lemma_fold_from_same_range(doc, no_copy(), x, st, en, st, left_end);
    let sx = char_fold_from(doc, no_copy(), x, st, en);
    assert forall|t: int| 0 <= t < y.len() implies !in_copy_range(#[trigger] y[t].position, st, left_end) by {
        assert(y[t].position.block == 0 && y[t].position.grapheme > k);
    }
    lemma_fold_from_skips(doc, sx, y, st, left_end);
    assert forall|t: int| 0 <= t < x.len() implies !in_copy_range(#[trigger] x[t].position, right_start, en) by {
        assert(x[t].position.block == 0 && x[t].position.grapheme < k);
    }
    lemma_fold_from_skips(doc, no_copy(), x, right_start, en);
    assert forall|t: int| 0 <= t < y.len() implies in_copy_range(#[trigger] y[t].position, st, en)
        == in_copy_range(y[t].position, right_start, en) by {
        assert(y[t].position.block == 0 && y[t].position.grapheme > k);
    }
    lemma_fold_from_same_range(doc, no_copy(), y, right_start, en, st, en);

    // The first part ends with the text of grapheme k - 1.
    lemma_fold_from_concat(doc, no_copy(), x.drop_last(), seq![x.last()], st, en);
    assert(x.drop_last() + seq![x.last()] =~= x);
    assert(seq![x.last()].drop_last() =~= Seq::<AtomView>::empty());
    assert(in_copy_range(x.last().position, st, en));
    assert(sx == char_step(doc, char_fold_from(doc, no_copy(), x.drop_last(), st, en), x.last(), st, en));
    assert(sx.prev == Some(left_end));
    assert(sx.out.len() > 0 && sx.out.last() == gs[k - 1].last());

    // The break, then the rest behind it.
    let y0 = seq![y[0]];
    let rest = y.skip(1);
    assert(y0 + rest =~= y);
    lemma_fold_from_concat(doc, sx, y0, rest, st, en);
    lemma_fold_from_concat(doc, no_copy(), y0, rest, st, en);
    assert(y[0].leading.len() == 0 && !y[0].cell_separator);
    lemma_copy_across_break(doc, sx, y[0], st, en);
    let t1 = char_fold_from(doc, sx, y0, st, en);
    let t2 = char_fold_from(doc, no_copy(), y0, st, en);
    let p = sx.out.push('\n');
    assert forall|t: int| 0 <= t < rest.len() implies (#[trigger] rest[t]).leading.len() == 0 && !rest[t].cell_separator by {
        assert(rest[t] == y[t + 1]);
    }
    lemma_fold_from_behind(doc, t1, t2, p, rest, st, en);
    assert(p =~= sx.out + seq!['\n']);
}

/// Later graphemes only add atoms after the earlier ones.
proof fn lemma_symbols_prefix(gs: Seq<Seq<char>>, leading: Seq<char>, m0: int, m: int)
    requires
        0 <= m0 <= m <= gs.len(),
        gs.len() < usize::MAX,
    ensures
        symbols_after(gs, leading, m0).atoms.len() <= symbols_after(gs, leading, m).atoms.len(),
        symbols_after(gs, leading, m).atoms.take(symbols_after(gs, leading, m0).atoms.len() as int)
            == symbols_after(gs, leading, m0).atoms,
        forall|t: int|
            symbols_after(gs, leading, m0).atoms.len() <= t < symbols_after(gs, leading, m).atoms.len()
                ==> (#[trigger] symbols_after(gs, leading, m).atoms[t]).position.grapheme >= m0,
    decreases m - m0,
{
    if m0 == m {
        assert(symbols_after(gs, leading, m).atoms.take(symbols_after(gs, leading, m).atoms.len() as int)
            =~= symbols_after(gs, leading, m).atoms);
    } else {
        lemma_symbols_prefix(gs, leading, m0, m - 1);
        lemma_symbols_step(gs, leading, m - 1);
        lemma_symbols_shape(gs, leading, m - 1);
        let f = symbols_after(gs, leading, m - 1);
        let g = symbols_after(gs, leading, m);
        let l0 = symbols_after(gs, leading, m0).atoms.len() as int;
        assert(g.atoms.take(l0) =~= f.atoms.take(l0));
        assert forall|t: int| l0 <= t < g.atoms.len() implies (#[trigger] g.atoms[t]).position.grapheme >= m0 by {
            if t < f.atoms.len() {
                assert(g.atoms[t] == f.atoms[t]);
            }
        }
    }
}

} // verus!
