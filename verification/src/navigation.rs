//! Reading Cursor motions over the rendered Document and the semantic text.
use crate::document::{Block, Document};
use crate::layout::{
    block_cells, break_cells, first_navigable, first_row_at, flush_spec, layout_rows, sat, width_sum,
    nearest_in_row, navigable, rows_view, space_cell, wrap_cells, wrap_fold, wrap_step,
    CellLocation, CellView, RenderedDocument, SemanticPosition, WrapState,
};
use crate::text::{
    all_space, all_whitespace, char_is_alphanumeric, graphemes, grapheme_clusters,
    is_alphanumeric_char,
};
use vstd::prelude::*;

verus! {

/// Cursor motions.
#[derive(Clone, Copy, Debug, PartialEq, Eq, Structural)]
pub enum Motion {
    Left,
    Down,
    Up,
    Right,
    WordForward,
    WordBackward,
    RowStart,
    FirstNonBlank,
    RowEnd,
    ParagraphBackward,
    ParagraphForward,
}

/// `a - b`, or zero.
pub open spec fn sat_sub(a: int, b: int) -> int {
    if a >= b { a - b } else { 0 }
}

/// `a + b`, clipped to the largest `usize`.
pub open spec fn sat_add(a: int, b: int) -> int {
    if a + b > usize::MAX { usize::MAX as int } else { a + b }
}

/// `a * b`, clipped to the largest `usize`.
pub open spec fn sat_mul(a: int, b: int) -> int {
    if a * b > usize::MAX { usize::MAX as int } else { a * b }
}

pub fn saturating_mul(a: usize, b: usize) -> (r: usize)
    ensures
        r as int == sat_mul(a as int, b as int),
{
    match a.checked_mul(b) {
        Some(x) => x,
        None => usize::MAX,
    }
}

// ---------------------------------------------------------------------------
// Navigable cells in row order
// ---------------------------------------------------------------------------

/// The positions of all navigable cells, row after row.
pub open spec fn navigable_positions(rows: Seq<Seq<CellView>>) -> Seq<SemanticPosition>
    decreases rows.len(),
{
    if rows.len() == 0 {
        Seq::empty()
    } else {
        navigable_positions(rows.drop_last()) + row_navigable(rows.last())
    }
}

pub open spec fn row_navigable(row: Seq<CellView>) -> Seq<SemanticPosition>
    decreases row.len(),
{
    if row.len() == 0 {
        Seq::empty()
    } else {
        row_navigable(row.drop_last()) + if navigable(row.last()) { seq![row.last().position] } else { Seq::empty() }
    }
}

/// Index of the first occurrence of a position.
pub open spec fn index_of(s: Seq<SemanticPosition>, p: SemanticPosition) -> Option<int>
    decreases s.len(),
{
    if s.len() == 0 {
        None
    } else {
        match index_of(s.drop_last(), p) {
            Some(i) => Some(i),
            None => if s.last() == p { Some(s.len() - 1) } else { None },
        }
    }
}

proof fn lemma_index_of_prefix(s: Seq<SemanticPosition>, k: int, p: SemanticPosition)
    requires
        0 <= k <= s.len(),
        index_of(s.take(k), p) is Some,
    ensures
        index_of(s, p) == index_of(s.take(k), p),
    decreases s.len(),
{
    if k == s.len() {
        assert(s.take(k) =~= s);
    } else {
        assert(s.drop_last().take(k) =~= s.take(k));
        lemma_index_of_prefix(s.drop_last(), k, p);
    }
}

proof fn lemma_index_of_bound(s: Seq<SemanticPosition>, p: SemanticPosition)
    ensures
        index_of(s, p) matches Some(i) ==> 0 <= i < s.len() && s[i] == p,
    decreases s.len(),
{
    if s.len() > 0 {
        lemma_index_of_bound(s.drop_last(), p);
    }
}

fn navigable_list(rendered: &RenderedDocument) -> (r: Vec<SemanticPosition>)
    ensures
        r@ == navigable_positions(rendered.view_rows()),
{
    let ghost rows = rendered.view_rows();
    let mut out: Vec<SemanticPosition> = Vec::new();
    let mut i: usize = 0;
    assert(rows.take(0) =~= Seq::<Seq<CellView>>::empty());
    while i < rendered.rows.len()
        invariant
            i <= rendered.rows@.len(),
            rows == rendered.view_rows(),
            out@ == navigable_positions(rows.take(i as int)),
        decreases rendered.rows.len() - i,
    {
        assert(rows.take(i as int + 1).drop_last() =~= rows.take(i as int));
        let cells = &rendered.rows[i].cells;
        assert(cells.deep_view() == rows[i as int]);
        let ghost base = out@;
        let mut k: usize = 0;
        assert(cells.deep_view().take(0) =~= Seq::<CellView>::empty());
        while k < cells.len()
            invariant
                k <= cells@.len(),
                out@ == base + row_navigable(cells.deep_view().take(k as int)),
            decreases cells.len() - k,
        {
            assert(cells.deep_view().take(k as int + 1).drop_last() =~= cells.deep_view().take(k as int));
            assert(cells.deep_view()[k as int] == cells@[k as int].deep_view());
            if cells[k].is_navigable() {
                out.push(cells[k].position);
            }
            assert(out@ =~= base + row_navigable(cells.deep_view().take(k as int + 1)));
            k = k + 1;
        }
        assert(cells.deep_view().take(cells@.len() as int) =~= cells.deep_view());
        i = i + 1;
    }
    assert(rows.take(rendered.rows@.len() as int) =~= rows);
    out
}

fn position_index(s: &Vec<SemanticPosition>, p: SemanticPosition) -> (r: Option<usize>)
    ensures
        match r {
            Some(i) => index_of(s@, p) == Some(i as int) && i < s@.len(),
            None => index_of(s@, p) is None,
        },
{
    let mut i: usize = 0;
    while i < s.len()
        invariant
            i <= s@.len(),
            index_of(s@.take(i as int), p) is None,
        decreases s.len() - i,
    {
        assert(s@.take(i as int + 1).drop_last() =~= s@.take(i as int));
        if s[i] == p {
            proof { lemma_index_of_prefix(s@, i as int + 1, p); }
            return Some(i);
        }
        i = i + 1;
    }
    assert(s@.take(s@.len() as int) =~= s@);
    None
}

/// `count` navigable cells left or right of the cursor's cell, stopping at
/// the ends of the Document.
pub open spec fn horizontal_spec(rows: Seq<Seq<CellView>>, from: SemanticPosition, right: bool, count: int) -> Option<SemanticPosition> {
    let cells = navigable_positions(rows);
    match index_of(cells, from) {
        Some(current) => {
            let target = if right {
                let t = sat_add(current, count);
                if t < sat_sub(cells.len() as int, 1) { t } else { sat_sub(cells.len() as int, 1) }
            } else {
                sat_sub(current, count)
            };
            if 0 <= target < cells.len() { Some(cells[target]) } else { None }
        },
        None => None,
    }
}

pub fn horizontal_target(rendered: &RenderedDocument, location: CellLocation, right: bool, count: usize) -> (r: Option<SemanticPosition>)
    ensures
        r == horizontal_spec(rendered.view_rows(), location.position, right, count as int),
{
    let cells = navigable_list(rendered);
    let current = match position_index(&cells, location.position) {
        Some(c) => c,
        None => {
            return None;
        },
    };
    let last = if cells.len() > 0 { cells.len() - 1 } else { 0 };
    let target = if right {
        let t = current.saturating_add(count);
        if t < last { t } else { last }
    } else {
        current.saturating_sub(count)
    };
    if target < cells.len() { Some(cells[target]) } else { None }
}

/// The nearest navigable cell in the next row above or below that has one.
pub open spec fn next_row_with_cell(rows: Seq<Seq<CellView>>, row: int, column: int, down: bool) -> Option<(int, SemanticPosition)>
    decreases (if down { rows.len() - row } else { row }),
{
    if down {
        if row + 1 >= rows.len() || row < -1 {
            None
        } else {
            match nearest_in_row(rows[row + 1], column) {
                Some(p) => Some((row + 1, p)),
                None => next_row_with_cell(rows, row + 1, column, down),
            }
        }
    } else {
        if row <= 0 || row > rows.len() {
            None
        } else {
            match nearest_in_row(rows[row - 1], column) {
                Some(p) => Some((row - 1, p)),
                None => next_row_with_cell(rows, row - 1, column, down),
            }
        }
    }
}

/// `count` rows up or down at the preferred column, as far as rows go.
pub open spec fn vertical_spec(rows: Seq<Seq<CellView>>, row: int, target: SemanticPosition, column: int, down: bool, count: nat) -> SemanticPosition
    decreases count,
{
    if count == 0 {
        target
    } else {
        match next_row_with_cell(rows, row, column, down) {
            Some((r, p)) => vertical_spec(rows, r, p, column, down, (count - 1) as nat),
            None => target,
        }
    }
}

fn next_row_exec(rendered: &RenderedDocument, row: usize, column: usize, down: bool) -> (r: Option<(usize, SemanticPosition)>)
    requires
        row < rendered.rows@.len(),
    ensures
        match r {
            Some(x) => next_row_with_cell(rendered.view_rows(), row as int, column as int, down) == Some((x.0 as int, x.1))
                && x.0 < rendered.rows@.len(),
            None => next_row_with_cell(rendered.view_rows(), row as int, column as int, down) is None,
        },
{
    let ghost rows = rendered.view_rows();
    let n = rendered.rows.len();
    if down {
        let mut candidate = row + 1;
        while candidate < rendered.rows.len()
            invariant
                row < candidate <= rendered.rows@.len(),
                down,
                rows == rendered.view_rows(),
                rows.len() == rendered.rows@.len(),
                next_row_with_cell(rows, row as int, column as int, true)
                    == next_row_with_cell(rows, candidate as int - 1, column as int, true),
            decreases rendered.rows.len() - candidate,
        {
            match rendered.nearest_position(candidate, column) {
                Some(p) => {
                    assert(next_row_with_cell(rows, candidate as int - 1, column as int, true) == Some((candidate as int, p)));
                    return Some((candidate, p));
                },
                None => {},
            }
            candidate = candidate + 1;
        }
        None
    } else {
        let mut candidate = row;
        while candidate > 0
            invariant
                candidate <= row < rendered.rows@.len(),
                !down,
                rows == rendered.view_rows(),
                rows.len() == rendered.rows@.len(),
                next_row_with_cell(rows, row as int, column as int, false)
                    == next_row_with_cell(rows, candidate as int, column as int, false),
            decreases candidate,
        {
            match rendered.nearest_position(candidate - 1, column) {
                Some(p) => {
                    assert(next_row_with_cell(rows, candidate as int, column as int, false) == Some((candidate as int - 1, p)));
                    return Some((candidate - 1, p));
                },
                None => {},
            }
            candidate = candidate - 1;
        }
        None
    }
}

pub fn vertical_target(rendered: &RenderedDocument, location: CellLocation, column: usize, down: bool, count: usize) -> (r: Option<SemanticPosition>)
    requires
        location.row < rendered.rows@.len(),
    ensures
        r == Some(vertical_spec(rendered.view_rows(), location.row as int, location.position, column as int, down, count as nat)),
{
    let mut row = location.row;
    let mut target = location.position;
    let mut i: usize = 0;
    while i < count
        invariant
            i <= count,
            row < rendered.rows@.len(),
            vertical_spec(rendered.view_rows(), location.row as int, location.position, column as int, down, count as nat)
                == vertical_spec(rendered.view_rows(), row as int, target, column as int, down, (count - i) as nat),
        decreases count - i,
    {
        match next_row_exec(rendered, row, column, down) {
            Some((next_row, next_target)) => {
                row = next_row;
                target = next_target;
            },
            None => {
                assert(vertical_spec(rendered.view_rows(), row as int, target, column as int, down, (count - i) as nat) == target);
                return Some(target);
            },
        }
        i = i + 1;
    }
    Some(target)
}

// ---------------------------------------------------------------------------
// Words
// ---------------------------------------------------------------------------

/// Character classes of word motions.
#[derive(Clone, Copy, Debug, PartialEq, Eq, Structural)]
pub enum WordClass {
    Whitespace,
    Keyword,
    Punctuation,
}

pub open spec fn class_of(g: Seq<char>) -> WordClass {
    if all_space(g) {
        WordClass::Whitespace
    } else if exists|i: int| 0 <= i < g.len() && (is_alphanumeric_char(#[trigger] g[i]) || g[i] == '_') {
        WordClass::Keyword
    } else {
        WordClass::Punctuation
    }
}

pub fn word_class(g: &Vec<char>) -> (r: WordClass)
    ensures
        r == class_of(g@),
{
    if all_whitespace(g) {
        return WordClass::Whitespace;
    }
    let mut i: usize = 0;
    while i < g.len()
        invariant
            i <= g@.len(),
            !all_space(g@),
            forall|j: int| 0 <= j < i ==> !(is_alphanumeric_char(#[trigger] g@[j]) || g@[j] == '_'),
        decreases g.len() - i,
    {
        if char_is_alphanumeric(g[i]) || g[i] == '_' {
            assert(0 <= i < g@.len() && (is_alphanumeric_char(g@[i as int]) || g@[i as int] == '_'));
            assert(exists|j: int| 0 <= j < g@.len() && (is_alphanumeric_char(#[trigger] g@[j]) || g@[j] == '_'));
            assert(!all_space(g@));
            return WordClass::Keyword;
        }
        i = i + 1;
    }
    WordClass::Punctuation
}

/// Every grapheme of the Document with its position, block after block.
pub open spec fn semantic_graphemes(blocks: Seq<Block>) -> Seq<(SemanticPosition, Seq<char>)>
    decreases blocks.len(),
{
    if blocks.len() == 0 {
        Seq::empty()
    } else {
        let b = (blocks.len() - 1) as usize;
        let gs = grapheme_clusters(blocks.last().text@);
        semantic_graphemes(blocks.drop_last()) + Seq::new(
            gs.len(),
            |i: int| (SemanticPosition { block: b, grapheme: i as usize }, gs[i]),
        )
    }
}

/// The start of the next word, as `w` moves.
pub open spec fn next_word_spec(gs: Seq<(SemanticPosition, Seq<char>)>, current: int) -> int {
    let class = class_of(gs[current].1);
    let a = same_class_end(gs, current, class);
    let b = if a + 1 < gs.len() { a + 1 } else { a };
    let c = skip_space_forward(gs, b);
    skip_space_backward(gs, c)
}

/// Last index of the run of graphemes of one class in one block from `i`.
pub open spec fn same_class_end(gs: Seq<(SemanticPosition, Seq<char>)>, i: int, class: WordClass) -> int
    decreases gs.len() - i,
{
    if class != WordClass::Whitespace && 0 <= i && i + 1 < gs.len() && gs[i].0.block == gs[i + 1].0.block
        && class_of(gs[i + 1].1) == class {
        same_class_end(gs, i + 1, class)
    } else {
        i
    }
}

pub open spec fn skip_space_forward(gs: Seq<(SemanticPosition, Seq<char>)>, i: int) -> int
    decreases gs.len() - i,
{
    if 0 <= i && i + 1 < gs.len() && class_of(gs[i].1) == WordClass::Whitespace {
        skip_space_forward(gs, i + 1)
    } else {
        i
    }
}

pub open spec fn skip_space_backward(gs: Seq<(SemanticPosition, Seq<char>)>, i: int) -> int
    decreases i,
{
    if i > 0 && i < gs.len() && class_of(gs[i].1) == WordClass::Whitespace {
        skip_space_backward(gs, i - 1)
    } else {
        i
    }
}

/// The start of the previous word, as `b` moves.
pub open spec fn previous_word_spec(gs: Seq<(SemanticPosition, Seq<char>)>, current: int) -> int {
    let a = skip_space_backward(gs, sat_sub(current, 1));
    let class = class_of(gs[a].1);
    same_class_start(gs, a, class)
}

pub open spec fn same_class_start(gs: Seq<(SemanticPosition, Seq<char>)>, i: int, class: WordClass) -> int
    decreases i,
{
    if i > 0 && i < gs.len() && gs[i].0.block == gs[i - 1].0.block && class_of(gs[i - 1].1) == class {
        same_class_start(gs, i - 1, class)
    } else {
        i
    }
}

/// A semantic grapheme in executable form.
pub struct Grapheme {
    pub position: SemanticPosition,
    pub text: Vec<char>,
}

impl DeepView for Grapheme {
    type V = (SemanticPosition, Seq<char>);

    open spec fn deep_view(&self) -> (SemanticPosition, Seq<char>) {
        (self.position, self.text@)
    }
}

pub fn semantic_grapheme_list(document: &Document) -> (r: Vec<Grapheme>)
    ensures
        r.deep_view() == semantic_graphemes(document.blocks@),
{
    let mut out: Vec<Grapheme> = Vec::new();
    let mut b: usize = 0;
    assert(out.deep_view() =~= semantic_graphemes(document.blocks@.take(0)));
    while b < document.blocks.len()
        invariant
            b <= document.blocks@.len(),
            out.deep_view() == semantic_graphemes(document.blocks@.take(b as int)),
        decreases document.blocks.len() - b,
    {
        assert(document.blocks@.take(b as int + 1).drop_last() =~= document.blocks@.take(b as int));
        let gs = graphemes(document.blocks[b].text.as_str());
        let ghost base = out.deep_view();
        let mut k: usize = 0;
        while k < gs.len()
            invariant
                k <= gs@.len(),
                out.deep_view() == base + Seq::new(
                    k as nat,
                    |i: int| (SemanticPosition { block: b, grapheme: i as usize }, gs.deep_view()[i]),
                ),
            decreases gs.len() - k,
        {
            let t = gs[k].clone();
            assert(t@ == gs.deep_view()[k as int]);
            let g = Grapheme { position: SemanticPosition { block: b, grapheme: k }, text: t };
            let ghost o = out.deep_view();
            out.push(g);
            assert(out.deep_view() =~= o.push(g.deep_view()));
            assert(out.deep_view() =~= base + Seq::new(
                (k + 1) as nat,
                |i: int| (SemanticPosition { block: b, grapheme: i as usize }, gs.deep_view()[i]),
            ));
            k = k + 1;
        }
        b = b + 1;
    }
    assert(document.blocks@.take(document.blocks@.len() as int) =~= document.blocks@);
    out
}

fn class_at(gs: &Vec<Grapheme>, i: usize) -> (r: WordClass)
    requires
        i < gs@.len(),
    ensures
        r == class_of(gs.deep_view()[i as int].1),
{
    assert(gs.deep_view()[i as int] == gs@[i as int].deep_view());
    word_class(&gs[i].text)
}

pub fn next_word(gs: &Vec<Grapheme>, current: usize) -> (r: usize)
    requires
        current < gs@.len(),
    ensures
        r as int == next_word_spec(gs.deep_view(), current as int),
        r < gs@.len(),
{
    let ghost v = gs.deep_view();
    let n = gs.len();
    let mut index = current;
    let class = class_at(gs, index);
    while class != WordClass::Whitespace && index + 1 < gs.len() && gs[index].position.block == gs[index + 1].position.block
        && class_at(gs, index + 1) == class
        invariant
            current <= index < gs@.len(),
            n == gs@.len(),
            v == gs.deep_view(),
            class == class_of(v[current as int].1),
            same_class_end(v, current as int, class) == same_class_end(v, index as int, class),
        decreases gs.len() - index,
    {
        assert(v[index as int] == gs@[index as int].deep_view());
        assert(v[index as int + 1] == gs@[index as int + 1].deep_view());
        index = index + 1;
    }
    assert(v[index as int] == gs@[index as int].deep_view());
    if index + 1 < gs.len() {
        assert(v[index as int + 1] == gs@[index as int + 1].deep_view());
    }
    assert(same_class_end(v, index as int, class) == index);
    if index + 1 < gs.len() {
        index = index + 1;
    }
    let ghost b = index as int;
    while index + 1 < gs.len() && class_at(gs, index) == WordClass::Whitespace
        invariant
            b <= index < gs@.len(),
            n == gs@.len(),
            v == gs.deep_view(),
            skip_space_forward(v, b) == skip_space_forward(v, index as int),
        decreases gs.len() - index,
    {
        index = index + 1;
    }
    let ghost c = index as int;
    while index > 0 && class_at(gs, index) == WordClass::Whitespace
        invariant
            index <= c < gs@.len(),
            v == gs.deep_view(),
            skip_space_backward(v, c) == skip_space_backward(v, index as int),
        decreases index,
    {
        index = index - 1;
    }
    index
}

pub fn previous_word(gs: &Vec<Grapheme>, current: usize) -> (r: usize)
    requires
        current < gs@.len(),
    ensures
        r as int == previous_word_spec(gs.deep_view(), current as int),
        r < gs@.len(),
{
    let ghost v = gs.deep_view();
    let mut index = if current > 0 { current - 1 } else { 0 };
    let ghost a0 = index as int;
    while index > 0 && class_at(gs, index) == WordClass::Whitespace
        invariant
            index <= a0 < gs@.len(),
            v == gs.deep_view(),
            skip_space_backward(v, a0) == skip_space_backward(v, index as int),
        decreases index,
    {
        index = index - 1;
    }
    let class = class_at(gs, index);
    let ghost a = index as int;
    while index > 0 && gs[index].position.block == gs[index - 1].position.block && class_at(gs, index - 1) == class
        invariant
            index <= a < gs@.len(),
            v == gs.deep_view(),
            class == class_of(v[a].1),
            same_class_start(v, a, class) == same_class_start(v, index as int, class),
        decreases index,
    {
        assert(v[index as int] == gs@[index as int].deep_view());
        assert(v[index as int - 1] == gs@[index as int - 1].deep_view());
        index = index - 1;
    }
    if index > 0 {
        assert(v[index as int] == gs@[index as int].deep_view());
        assert(v[index as int - 1] == gs@[index as int - 1].deep_view());
    }
    index
}

/// Index of the first grapheme at a position.
pub open spec fn grapheme_index(gs: Seq<(SemanticPosition, Seq<char>)>, p: SemanticPosition) -> Option<int>
    decreases gs.len(),
{
    if gs.len() == 0 {
        None
    } else {
        match grapheme_index(gs.drop_last(), p) {
            Some(i) => Some(i),
            None => if gs.last().0 == p { Some(gs.len() - 1) } else { None },
        }
    }
}

/// Repeated word motions.
pub open spec fn repeat_word(gs: Seq<(SemanticPosition, Seq<char>)>, index: int, forward: bool, count: nat) -> int
    decreases count,
{
    if count == 0 {
        index
    } else {
        let next = repeat_word(gs, index, forward, (count - 1) as nat);
        if forward { next_word_spec(gs, next) } else { previous_word_spec(gs, next) }
    }
}

pub open spec fn word_spec(blocks: Seq<Block>, cursor: SemanticPosition, forward: bool, count: nat) -> Option<SemanticPosition> {
    let gs = semantic_graphemes(blocks);
    match grapheme_index(gs, cursor) {
        Some(i) => Some(gs[repeat_word(gs, i, forward, count)].0),
        None => None,
    }
}

proof fn lemma_grapheme_index_prefix(gs: Seq<(SemanticPosition, Seq<char>)>, k: int, p: SemanticPosition)
    requires
        0 <= k <= gs.len(),
        grapheme_index(gs.take(k), p) is Some,
    ensures
        grapheme_index(gs, p) == grapheme_index(gs.take(k), p),
    decreases gs.len(),
{
    if k == gs.len() {
        assert(gs.take(k) =~= gs);
    } else {
        assert(gs.drop_last().take(k) =~= gs.take(k));
        lemma_grapheme_index_prefix(gs.drop_last(), k, p);
    }
}

pub fn word_target(document: &Document, cursor: SemanticPosition, forward: bool, count: usize) -> (r: Option<SemanticPosition>)
    ensures
        r == word_spec(document.blocks@, cursor, forward, count as nat),
{
    let gs = semantic_grapheme_list(document);
    let ghost v = gs.deep_view();
    let mut start: Option<usize> = None;
    let mut i: usize = 0;
    while i < gs.len() && start.is_none()
        invariant
            i <= gs@.len(),
            v == gs.deep_view(),
            start is None ==> grapheme_index(v.take(i as int), cursor) is None,
            start matches Some(s) ==> grapheme_index(v, cursor) == Some(s as int) && s < gs@.len(),
        decreases gs.len() - i + (if start is None { 1int } else { 0int }),
    {
        assert(v.take(i as int + 1).drop_last() =~= v.take(i as int));
        assert(v[i as int] == gs@[i as int].deep_view());
        if gs[i].position == cursor {
            proof { lemma_grapheme_index_prefix(v, i as int + 1, cursor); }
            start = Some(i);
        } else {
            i = i + 1;
        }
    }
    let mut index = match start {
        Some(s) => s,
        None => {
            assert(v.take(gs@.len() as int) =~= v);
            return None;
        },
    };
    let ghost first = index as int;
    let mut k: usize = 0;
    while k < count
        invariant
            k <= count,
            v == gs.deep_view(),
            index < gs@.len(),
            index as int == repeat_word(v, first, forward, k as nat),
        decreases count - k,
    {
        index = if forward { next_word(&gs, index) } else { previous_word(&gs, index) };
        k = k + 1;
    }
    assert(v[index as int] == gs@[index as int].deep_view());
    Some(gs[index].position)
}

// ---------------------------------------------------------------------------
// Paragraphs
// ---------------------------------------------------------------------------

/// The first navigable position of each block, in row order.
pub open spec fn block_starts(cells: Seq<SemanticPosition>) -> Seq<SemanticPosition>
    decreases cells.len(),
{
    if cells.len() == 0 {
        Seq::empty()
    } else {
        let prior = block_starts(cells.drop_last());
        if prior.len() == 0 || prior.last().block != cells.last().block {
            prior.push(cells.last())
        } else {
            prior
        }
    }
}

/// Index of the first block start in the cursor's block.
pub open spec fn block_index_of(starts: Seq<SemanticPosition>, block: usize) -> Option<int>
    decreases starts.len(),
{
    if starts.len() == 0 {
        None
    } else {
        match block_index_of(starts.drop_last(), block) {
            Some(i) => Some(i),
            None => if starts.last().block == block { Some(starts.len() - 1) } else { None },
        }
    }
}

pub open spec fn paragraph_spec(rows: Seq<Seq<CellView>>, cursor: SemanticPosition, forward: bool, count: int) -> Option<SemanticPosition> {
    let starts = block_starts(navigable_positions(rows));
    match block_index_of(starts, cursor.block) {
        Some(current) => {
            let target = if forward {
                let t = sat_add(current, count);
                if t < sat_sub(starts.len() as int, 1) { t } else { sat_sub(starts.len() as int, 1) }
            } else {
                sat_sub(current, count)
            };
            if 0 <= target < starts.len() { Some(starts[target]) } else { None }
        },
        None => None,
    }
}

proof fn lemma_block_index_prefix(s: Seq<SemanticPosition>, k: int, b: usize)
    requires
        0 <= k <= s.len(),
        block_index_of(s.take(k), b) is Some,
    ensures
        block_index_of(s, b) == block_index_of(s.take(k), b),
    decreases s.len(),
{
    if k == s.len() {
        assert(s.take(k) =~= s);
    } else {
        assert(s.drop_last().take(k) =~= s.take(k));
        lemma_block_index_prefix(s.drop_last(), k, b);
    }
}

pub fn paragraph_target(rendered: &RenderedDocument, cursor: SemanticPosition, forward: bool, count: usize) -> (r: Option<SemanticPosition>)
    ensures
        r == paragraph_spec(rendered.view_rows(), cursor, forward, count as int),
{
    let cells = navigable_list(rendered);
    let mut starts: Vec<SemanticPosition> = Vec::new();
    let mut i: usize = 0;
    while i < cells.len()
        invariant
            i <= cells@.len(),
            starts@ == block_starts(cells@.take(i as int)),
        decreases cells.len() - i,
    {
        assert(cells@.take(i as int + 1).drop_last() =~= cells@.take(i as int));
        if starts.len() == 0 || starts[starts.len() - 1].block != cells[i].block {
            starts.push(cells[i]);
        }
        i = i + 1;
    }
    assert(cells@.take(cells@.len() as int) =~= cells@);
    let mut current: Option<usize> = None;
    let mut j: usize = 0;
    while j < starts.len() && current.is_none()
        invariant
            j <= starts@.len(),
            current is None ==> block_index_of(starts@.take(j as int), cursor.block) is None,
            current matches Some(c) ==> block_index_of(starts@, cursor.block) == Some(c as int),
        decreases starts.len() - j + (if current is None { 1int } else { 0int }),
    {
        assert(starts@.take(j as int + 1).drop_last() =~= starts@.take(j as int));
        if starts[j].block == cursor.block {
            proof { lemma_block_index_prefix(starts@, j as int + 1, cursor.block); }
            current = Some(j);
        } else {
            j = j + 1;
        }
    }
    let current = match current {
        Some(c) => c,
        None => {
            assert(starts@.take(starts@.len() as int) =~= starts@);
            return None;
        },
    };
    let last = if starts.len() > 0 { starts.len() - 1 } else { 0 };
    let target = if forward {
        let t = current.saturating_add(count);
        if t < last { t } else { last }
    } else {
        current.saturating_sub(count)
    };
    if target < starts.len() { Some(starts[target]) } else { None }
}

// ---------------------------------------------------------------------------
// Layout keeps every visible grapheme
// ---------------------------------------------------------------------------

/// The cells of rows, one row after the other.
pub open spec fn flatten(rows: Seq<Seq<CellView>>) -> Seq<CellView>
    decreases rows.len(),
{
    if rows.len() == 0 {
        Seq::empty()
    } else {
        flatten(rows.drop_last()) + rows.last()
    }
}

proof fn lemma_row_navigable_append(a: Seq<CellView>, b: Seq<CellView>)
    ensures
        row_navigable(a + b) == row_navigable(a) + row_navigable(b),
    decreases b.len(),
{
    if b.len() == 0 {
        assert(a + b =~= a);
        assert(row_navigable(a) + row_navigable(b) =~= row_navigable(a));
    } else {
        assert((a + b).drop_last() =~= a + b.drop_last());
        lemma_row_navigable_append(a, b.drop_last());
        assert((a + b).last() == b.last());
    }
}

proof fn lemma_navigable_flatten(rows: Seq<Seq<CellView>>)
    ensures
        navigable_positions(rows) == row_navigable(flatten(rows)),
    decreases rows.len(),
{
    if rows.len() > 0 {
        lemma_navigable_flatten(rows.drop_last());
        lemma_row_navigable_append(flatten(rows.drop_last()), rows.last());
    }
}

proof fn lemma_flatten_append(a: Seq<Seq<CellView>>, b: Seq<Seq<CellView>>)
    ensures
        flatten(a + b) == flatten(a) + flatten(b),
    decreases b.len(),
{
    if b.len() == 0 {
        assert(a + b =~= a);
        assert(flatten(a) + flatten(b) =~= flatten(a));
    } else {
        assert((a + b).drop_last() =~= a + b.drop_last());
        lemma_flatten_append(a, b.drop_last());
        assert((a + b).last() == b.last());
        assert(flatten(a) + flatten(b.drop_last()) + b.last() =~= flatten(a) + (flatten(b.drop_last()) + b.last()));
    }
}

proof fn lemma_break_cells_keeps(rows: Seq<Seq<CellView>>, row: Seq<CellView>, cells: Seq<CellView>, width: int)
    ensures
        flatten(break_cells(rows, row, cells, width).0) + break_cells(rows, row, cells, width).1
            == flatten(rows) + row + cells,
    decreases cells.len(),
{
    if cells.len() == 0 {
        assert(flatten(rows) + row + cells =~= flatten(rows) + row);
    } else {
        lemma_break_cells_keeps(rows, row, cells.drop_last(), width);
        let (rows1, row1) = break_cells(rows, row, cells.drop_last(), width);
        assert(flatten(rows) + row + cells =~= flatten(rows) + row + cells.drop_last() + seq![cells.last()]);
        assert(flatten(rows1.push(row1)) == flatten(rows1) + row1) by {
            assert(rows1.push(row1).drop_last() =~= rows1);
        }
        assert(flatten(rows1) + row1.push(cells.last()) =~= flatten(rows1) + row1 + seq![cells.last()]);
    }
}

proof fn lemma_flush_keeps(s: WrapState, width: int)
    ensures
        row_navigable(flatten(flush_spec(s, width).rows) + flush_spec(s, width).row)
            == row_navigable(flatten(s.rows) + s.row + s.word),
        flush_spec(s, width).word.len() == 0 || flush_spec(s, width) == s,
{
    if s.word.len() == 0 {
        assert(flatten(s.rows) + s.row + s.word =~= flatten(s.rows) + s.row);
    } else {
        let f = flush_spec(s, width);
        let ww = crate::layout::sat(crate::layout::width_sum(s.word));
        let sep_w: int = if s.row.len() > 0 { 1 } else { 0 };
        let overflow = s.row.len() > 0 && crate::layout::sat(crate::layout::sat(crate::layout::sat(crate::layout::width_sum(s.row)) + sep_w) + ww) > width;
        let rows1 = if overflow { s.rows.push(s.row) } else { s.rows };
        let row1 = if overflow { Seq::<CellView>::empty() } else { s.row };
        assert(flatten(rows1) + row1 =~= flatten(s.rows) + s.row) by {
            if overflow {
                assert(s.rows.push(s.row).drop_last() =~= s.rows);
            }
        }
        if ww <= width {
            if row1.len() > 0 {
                match s.separator {
                    Some(sep) => {
                        let space = space_cell(sep);
                        assert(!navigable(space)) by {
                            assert(space.symbol[0] == ' ');
                        }
                        assert(flatten(f.rows) + f.row =~= (flatten(rows1) + row1) + seq![space] + s.word);
                        lemma_row_navigable_append((flatten(rows1) + row1) + seq![space], s.word);
                        lemma_row_navigable_append(flatten(rows1) + row1, seq![space]);
                        assert(seq![space].drop_last() =~= Seq::<CellView>::empty());
                        lemma_row_navigable_append(flatten(rows1) + row1, s.word);
                        assert(row_navigable(Seq::<CellView>::empty()) =~= Seq::<SemanticPosition>::empty());
                        assert(seq![space].last() == space);
                        assert(row_navigable(seq![space]) =~= Seq::<SemanticPosition>::empty());
                        assert(row_navigable(flatten(f.rows) + f.row) == row_navigable(flatten(rows1) + row1 + s.word));
                    },
                    None => {
                        assert(flatten(f.rows) + f.row =~= (flatten(rows1) + row1) + s.word);
                    },
                }
            } else {
                assert(flatten(f.rows) + f.row =~= (flatten(rows1) + row1) + s.word);
            }
            assert(flatten(rows1) + row1 + s.word =~= flatten(s.rows) + s.row + s.word);
        } else {
            let rows2 = if row1.len() > 0 { rows1.push(row1) } else { rows1 };
            assert(flatten(rows2) =~= flatten(rows1) + row1) by {
                if row1.len() > 0 {
                    assert(rows1.push(row1).drop_last() =~= rows1);
                }
            }
            lemma_break_cells_keeps(rows2, Seq::empty(), s.word, width);
            assert(flatten(rows2) + Seq::<CellView>::empty() + s.word =~= flatten(rows1) + row1 + s.word);
            assert(flatten(rows1) + row1 + s.word =~= flatten(s.rows) + s.row + s.word);
        }
    }
}

proof fn lemma_wrap_fold_keeps(cells: Seq<CellView>, width: int)
    ensures
        row_navigable(flatten(wrap_fold(cells, width).rows) + wrap_fold(cells, width).row + wrap_fold(cells, width).word)
            == row_navigable(cells),
    decreases cells.len(),
{
    if cells.len() == 0 {
        assert(flatten(Seq::<Seq<CellView>>::empty()) + Seq::<CellView>::empty() + Seq::<CellView>::empty() =~= Seq::<CellView>::empty());
    } else {
        let s = wrap_fold(cells.drop_last(), width);
        let cell = cells.last();
        lemma_wrap_fold_keeps(cells.drop_last(), width);
        assert(cells[cells.len() - 1] == cells.last());
        if crate::text::all_space(cell.symbol) {
            lemma_flush_keeps(s, width);
            let f = flush_spec(s, width);
            let t = wrap_fold(cells, width);
            assert(t.rows == f.rows && t.row == f.row && t.word == f.word);
            if f.word.len() > 0 {
                assert(f == s);
            }
            assert(f.word.len() == 0);
            assert(flatten(f.rows) + f.row + f.word =~= flatten(f.rows) + f.row);
            assert(!navigable(cell));
            assert(row_navigable(cells) =~= row_navigable(cells.drop_last()));
        } else {
            let base = flatten(s.rows) + s.row;
            let t = wrap_fold(cells, width);
            assert(t.rows == s.rows && t.row == s.row && t.word == s.word.push(cell));
            assert(base + s.word.push(cell) =~= (base + s.word) + seq![cell]);
            lemma_row_navigable_append(base + s.word, seq![cell]);
            assert(seq![cell].drop_last() =~= Seq::<CellView>::empty());
            assert(row_navigable(Seq::<CellView>::empty()) =~= Seq::<SemanticPosition>::empty());
            assert(seq![cell].last() == cell);
            assert(navigable(cell));
            assert(row_navigable(seq![cell]) =~= seq![cell.position]);
            assert(row_navigable(cells) =~= row_navigable(cells.drop_last()) + seq![cell.position]);
        }
    }
}

proof fn lemma_wrap_cells_keeps(cells: Seq<CellView>, width: int)
    ensures
        row_navigable(flatten(wrap_cells(cells, width))) == row_navigable(cells),
{
    let s = wrap_fold(cells, width);
    lemma_wrap_fold_keeps(cells, width);
    lemma_flush_keeps(s, width);
    let f = flush_spec(s, width);
    if f.word.len() > 0 {
        assert(f == s);
    }
    if f.row.len() > 0 {
        assert(f.rows.push(f.row).drop_last() =~= f.rows);
    } else {
        assert(flatten(f.rows) + f.row =~= flatten(f.rows));
    }
    assert(flatten(f.rows) + f.row + f.word =~= flatten(f.rows) + f.row);
}

proof fn lemma_block_cells_navigable(b: usize, gs: Seq<Seq<char>>, n: int)
    requires
        0 <= n <= gs.len(),
        gs.len() <= usize::MAX,
    ensures
        row_navigable(block_cells(b, gs).take(n)) == Seq::new(n as nat, |i: int| SemanticPosition { block: b, grapheme: i as usize })
            .filter(|p: SemanticPosition| !crate::text::all_space(gs[p.grapheme as int])),
    decreases n,
{
    reveal(Seq::filter);
    let pred = |p: SemanticPosition| !crate::text::all_space(gs[p.grapheme as int]);
    let raw = Seq::new(n as nat, |i: int| SemanticPosition { block: b, grapheme: i as usize });
    if n == 0 {
        assert(block_cells(b, gs).take(0) =~= Seq::<CellView>::empty());
        assert(raw.filter(pred) =~= Seq::<SemanticPosition>::empty());
    } else {
        lemma_block_cells_navigable(b, gs, n - 1);
        assert(block_cells(b, gs).take(n).drop_last() =~= block_cells(b, gs).take(n - 1));
        assert(raw.drop_last() =~= Seq::new((n - 1) as nat, |i: int| SemanticPosition { block: b, grapheme: i as usize }));
        assert(raw.last().grapheme as int == n - 1);
    }
}

/// At any pane width, the cells the Reading Cursor can rest on are the
/// Document's visible graphemes, each once and in Document order: wrapping
/// loses, repeats and reorders none of them.
pub proof fn lemma_layout_keeps_visible_graphemes(blocks: Seq<crate::document::Block>, width: int)
    requires
        blocks.len() <= usize::MAX,
        forall|k: int| 0 <= k < blocks.len() ==> crate::text::grapheme_clusters(#[trigger] blocks[k].text@).len() <= usize::MAX,
    ensures
        navigable_positions(layout_rows(blocks, width)) == crate::outline::logical_positions_spec(blocks),
    decreases blocks.len(),
{
    if blocks.len() > 0 {
        let d = blocks.drop_last();
        assert forall|k: int| 0 <= k < d.len() implies crate::text::grapheme_clusters(#[trigger] d[k].text@).len() <= usize::MAX by {
            assert(d[k] == blocks[k]);
        }
        lemma_layout_keeps_visible_graphemes(d, width);
        let b = (blocks.len() - 1) as usize;
        let gs = crate::text::grapheme_clusters(blocks.last().text@);
        assert(blocks[blocks.len() - 1] == blocks.last());
        let cells = block_cells(b, gs);
        let wrapped = wrap_cells(cells, width);
        lemma_navigable_flatten(layout_rows(blocks, width));
        lemma_navigable_flatten(layout_rows(d, width));
        lemma_navigable_flatten(wrapped);
        lemma_flatten_append(layout_rows(d, width), wrapped);
        lemma_row_navigable_append(flatten(layout_rows(d, width)), flatten(wrapped));
        lemma_wrap_cells_keeps(cells, width);
        lemma_block_cells_navigable(b, gs, gs.len() as int);
        assert(cells.take(gs.len() as int) =~= cells);
    }
}

// ---------------------------------------------------------------------------
// Rows fit the pane
// ---------------------------------------------------------------------------

/// A rendered row holds at least one cell and fits the pane width, unless
/// it is a single cell wider than the pane.
pub open spec fn row_fits(row: Seq<CellView>, width: int) -> bool {
    row.len() == 1 || (row.len() > 1 && width_sum(row) <= width)
}

/// Every row fits.
pub open spec fn rows_fit(rows: Seq<Seq<CellView>>, width: int) -> bool {
    forall|i: int| 0 <= i < rows.len() ==> row_fits(#[trigger] rows[i], width)
}

/// White space is at most one column wide.
pub open spec fn narrow_spaces(cells: Seq<CellView>) -> bool {
    forall|i: int| 0 <= i < cells.len() && crate::text::all_space((#[trigger] cells[i]).symbol) ==> cells[i].width <= 1
}

proof fn lemma_width_sum_append(a: Seq<CellView>, b: Seq<CellView>)
    ensures
        width_sum(a + b) == width_sum(a) + width_sum(b),
    decreases b.len(),
{
    if b.len() == 0 {
        assert(a + b =~= a);
    } else {
        assert((a + b).drop_last() =~= a + b.drop_last());
        lemma_width_sum_append(a, b.drop_last());
    }
}

proof fn lemma_width_sum_nonnegative(a: Seq<CellView>)
    ensures
        width_sum(a) >= 0,
    decreases a.len(),
{
    if a.len() > 0 {
        lemma_width_sum_nonnegative(a.drop_last());
    }
}

proof fn lemma_rows_fit_push(rows: Seq<Seq<CellView>>, row: Seq<CellView>, width: int)
    requires
        rows_fit(rows, width),
        row_fits(row, width),
    ensures
        rows_fit(rows.push(row), width),
{
    assert forall|i: int| 0 <= i < rows.push(row).len() implies row_fits(#[trigger] rows.push(row)[i], width) by {
        if i < rows.len() {
            assert(rows.push(row)[i] == rows[i]);
        }
    }
}

proof fn lemma_break_cells_fit(rows: Seq<Seq<CellView>>, row: Seq<CellView>, cells: Seq<CellView>, width: int)
    requires
        rows_fit(rows, width),
        row.len() == 0 || row_fits(row, width),
        0 <= width < usize::MAX,
    ensures
        rows_fit(break_cells(rows, row, cells, width).0, width),
        break_cells(rows, row, cells, width).1.len() == 0 || row_fits(break_cells(rows, row, cells, width).1, width),
    decreases cells.len(),
{
    if cells.len() > 0 {
        lemma_break_cells_fit(rows, row, cells.drop_last(), width);
        let (rows1, row1) = break_cells(rows, row, cells.drop_last(), width);
        let cell = cells.last();
        lemma_width_sum_nonnegative(row1);
        if row1.len() > 0 && sat(sat(width_sum(row1)) + cell.width) > width {
            lemma_rows_fit_push(rows1, row1, width);
        } else {
            assert(row1.push(cell).drop_last() =~= row1);
            assert(row1.push(cell).last() == cell);
            if row1.len() == 0 {
                assert(row1.push(cell).len() == 1);
            } else {
                if width_sum(row1) > usize::MAX {
                    assert(sat(width_sum(row1)) == usize::MAX);
                    assert(false);
                }
                assert(sat(width_sum(row1)) == width_sum(row1));
                if width_sum(row1) + cell.width > usize::MAX {
                    assert(false);
                }
                assert(width_sum(row1.push(cell)) == width_sum(row1) + cell.width);
            }
        }
    }
}

proof fn lemma_flush_fits(s: WrapState, width: int)
    requires
        rows_fit(s.rows, width),
        s.row.len() == 0 || row_fits(s.row, width),
        s.separator matches Some(sep) ==> sep.width <= 1,
        1 <= width < usize::MAX,
    ensures
        rows_fit(flush_spec(s, width).rows, width),
        flush_spec(s, width).row.len() == 0 || row_fits(flush_spec(s, width).row, width),
{
    if s.word.len() > 0 {
        let ww = sat(width_sum(s.word));
        let sep_w: int = if s.row.len() > 0 { 1 } else { 0 };
        lemma_width_sum_nonnegative(s.row);
        lemma_width_sum_nonnegative(s.word);
        let overflow = s.row.len() > 0 && sat(sat(sat(width_sum(s.row)) + sep_w) + ww) > width;
        let rows1 = if overflow { s.rows.push(s.row) } else { s.rows };
        let row1 = if overflow { Seq::<CellView>::empty() } else { s.row };
        if overflow {
            lemma_rows_fit_push(s.rows, s.row, width);
        }
        if ww <= width {
            if width_sum(s.word) > usize::MAX {
                assert(false);
            }
            assert(width_sum(s.word) == ww);
            if row1.len() > 0 {
                assert(!overflow);
                if width_sum(s.row) > usize::MAX {
                    assert(false);
                }
                if width_sum(s.row) + 1 > usize::MAX {
                    assert(false);
                }
                if width_sum(s.row) + 1 + ww > usize::MAX {
                    assert(false);
                }
                assert(width_sum(s.row) + sep_w + width_sum(s.word) <= width);
                match s.separator {
                    Some(sep) => {
                        let space = space_cell(sep);
                        lemma_width_sum_append(row1.push(space), s.word);
                        assert(row1.push(space).drop_last() =~= row1);
                    },
                    None => {
                        lemma_width_sum_append(row1, s.word);
                    },
                }
            } else if s.word.len() > 1 {
                assert(row_fits(s.word, width));
            }
        } else {
            let rows2 = if row1.len() > 0 { rows1.push(row1) } else { rows1 };
            if row1.len() > 0 {
                lemma_rows_fit_push(rows1, row1, width);
            }
            lemma_break_cells_fit(rows2, Seq::empty(), s.word, width);
        }
    }
}

/// Ending a word keeps the rows within the pane and loses nothing: when
/// every finished row and the open row fit (or hold one cell) and a
/// separator is at most one column wide, the word is placed, the
/// separator is used up, every row still fits, and the cells the cursor
/// can rest on are those of the old rows, open row and word, in order.
pub proof fn lemma_ending_a_word_keeps_rows_fitting(s: WrapState, width: int)
    requires
        rows_fit(s.rows, width),
        s.row.len() == 0 || row_fits(s.row, width),
        s.separator matches Some(sep) ==> sep.width <= 1,
        s.word.len() > 0,
        1 <= width < usize::MAX,
    ensures
        flush_spec(s, width).word.len() == 0,
        flush_spec(s, width).separator is None,
        rows_fit(flush_spec(s, width).rows, width),
        flush_spec(s, width).row.len() == 0 || row_fits(flush_spec(s, width).row, width),
        row_navigable(flatten(flush_spec(s, width).rows) + flush_spec(s, width).row) == row_navigable(
            flatten(s.rows) + s.row + s.word,
        ),
{
    lemma_flush_fits(s, width);
    lemma_flush_keeps(s, width);
}

proof fn lemma_wrap_fold_fits(cells: Seq<CellView>, width: int)
    requires
        narrow_spaces(cells),
        1 <= width < usize::MAX,
    ensures
        rows_fit(wrap_fold(cells, width).rows, width),
        wrap_fold(cells, width).row.len() == 0 || row_fits(wrap_fold(cells, width).row, width),
        wrap_fold(cells, width).separator matches Some(sep) ==> sep.width <= 1,
    decreases cells.len(),
{
    if cells.len() > 0 {
        let d = cells.drop_last();
        assert(narrow_spaces(d)) by {
            assert forall|i: int| 0 <= i < d.len() && crate::text::all_space((#[trigger] d[i]).symbol) implies d[i].width <= 1 by {
                assert(d[i] == cells[i]);
            }
        }
        lemma_wrap_fold_fits(d, width);
        let s = wrap_fold(d, width);
        let cell = cells.last();
        assert(cells[cells.len() - 1] == cell);
        if crate::text::all_space(cell.symbol) {
            lemma_flush_fits(s, width);
        }
    }
}

/// When white space is at most one column wide, every rendered row holds
/// at least one cell and fits the pane, except a row holding one grapheme
/// wider than the pane.
pub proof fn lemma_layout_rows_fit(blocks: Seq<crate::document::Block>, width: int)
    requires
        1 <= width < usize::MAX,
        forall|k: int, g: int|
            0 <= k < blocks.len() && 0 <= g < crate::text::grapheme_clusters(blocks[k].text@).len()
                && crate::text::all_space(#[trigger] crate::text::grapheme_clusters(blocks[k].text@)[g])
                ==> crate::text::display_width(crate::text::grapheme_clusters(blocks[k].text@)[g]) <= 1,
    ensures
        rows_fit(layout_rows(blocks, width), width),
    decreases blocks.len(),
{
    if blocks.len() > 0 {
        let d = blocks.drop_last();
        assert forall|k: int, g: int|
            0 <= k < d.len() && 0 <= g < crate::text::grapheme_clusters(d[k].text@).len()
                && crate::text::all_space(#[trigger] crate::text::grapheme_clusters(d[k].text@)[g])
            implies crate::text::display_width(crate::text::grapheme_clusters(d[k].text@)[g]) <= 1 by {
            assert(d[k] == blocks[k]);
        }
        lemma_layout_rows_fit(d, width);
        let b = (blocks.len() - 1) as usize;
        let gs = crate::text::grapheme_clusters(blocks.last().text@);
        assert(blocks[blocks.len() - 1] == blocks.last());
        let cells = block_cells(b, gs);
        assert(narrow_spaces(cells)) by {
            assert forall|i: int| 0 <= i < cells.len() && crate::text::all_space((#[trigger] cells[i]).symbol) implies cells[i].width <= 1 by {
                assert(cells[i].symbol == gs[i]);
            }
        }
        lemma_wrap_fold_fits(cells, width);
        let s = wrap_fold(cells, width);
        lemma_flush_fits(s, width);
        let f = flush_spec(s, width);
        if f.row.len() > 0 {
            lemma_rows_fit_push(f.rows, f.row, width);
        }
        let head = layout_rows(d, width);
        let tail = wrap_cells(cells, width);
        assert forall|i: int| 0 <= i < (head + tail).len() implies row_fits(#[trigger] (head + tail)[i], width) by {
            if i < head.len() {
                assert((head + tail)[i] == head[i]);
            } else {
                assert((head + tail)[i] == tail[i - head.len()]);
            }
        }
    }
}


/// A grapheme that is one letter, digit or `_`: one character, not white
/// space, alphanumeric or an underscore.
pub open spec fn word_grapheme(g: Seq<char>) -> bool {
    g.len() == 1 && !crate::text::is_space(g[0]) && (is_alphanumeric_char(g[0]) || g[0] == '_')
}

proof fn lemma_word_grapheme_is_keyword(g: Seq<char>)
    requires
        word_grapheme(g),
    ensures
        class_of(g) == WordClass::Keyword,
{
    assert(!all_space(g));
    assert(is_alphanumeric_char(g[0]) || g[0] == '_');
}

proof fn lemma_same_class_end_bounds(gs: Seq<(SemanticPosition, Seq<char>)>, i: int, class: WordClass)
    requires
        0 <= i < gs.len(),
        class_of(gs[i].1) == class,
    ensures
        i <= same_class_end(gs, i, class) < gs.len(),
        class_of(gs[same_class_end(gs, i, class)].1) == class,
    decreases gs.len() - i,
{
    if class != WordClass::Whitespace && i + 1 < gs.len() && gs[i].0.block == gs[i + 1].0.block
        && class_of(gs[i + 1].1) == class {
        lemma_same_class_end_bounds(gs, i + 1, class);
    }
}

proof fn lemma_run_end(gs: Seq<(SemanticPosition, Seq<char>)>, i: int, j: int)
    requires
        0 <= i <= j < gs.len(),
        forall|k: int| i <= k <= j ==> word_grapheme(#[trigger] gs[k].1) && gs[k].0.block == gs[i].0.block,
    ensures
        same_class_end(gs, i, WordClass::Keyword) >= j,
    decreases j - i,
{
    assert(word_grapheme(gs[i].1));
    lemma_word_grapheme_is_keyword(gs[i].1);
    lemma_same_class_end_bounds(gs, i, WordClass::Keyword);
    if i < j {
        assert(word_grapheme(gs[i + 1].1) && gs[i + 1].0.block == gs[i].0.block);
        lemma_word_grapheme_is_keyword(gs[i + 1].1);
        assert forall|k: int| i + 1 <= k <= j implies word_grapheme(#[trigger] gs[k].1) && gs[k].0.block == gs[i + 1].0.block by {
            assert(word_grapheme(gs[k].1) && gs[k].0.block == gs[i].0.block);
        }
        lemma_run_end(gs, i + 1, j);
    }
}

proof fn lemma_skip_forward_bounds(gs: Seq<(SemanticPosition, Seq<char>)>, i: int)
    requires
        0 <= i < gs.len(),
    ensures
        i <= skip_space_forward(gs, i) < gs.len(),
        class_of(gs[i].1) != WordClass::Whitespace ==> skip_space_forward(gs, i) == i,
    decreases gs.len() - i,
{
    if i + 1 < gs.len() && class_of(gs[i].1) == WordClass::Whitespace {
        lemma_skip_forward_bounds(gs, i + 1);
    }
}

proof fn lemma_skip_backward_stops(gs: Seq<(SemanticPosition, Seq<char>)>, a: int, c: int)
    requires
        0 <= a <= c < gs.len(),
        class_of(gs[a].1) != WordClass::Whitespace,
    ensures
        a <= skip_space_backward(gs, c) <= c,
    decreases c,
{
    if c > 0 && class_of(gs[c].1) == WordClass::Whitespace {
        lemma_skip_backward_stops(gs, a, c - 1);
    }
}

/// `_` is a word character like letters and digits: from the start of a
/// run of letters, digits and `_` in one block, `w` never lands inside the
/// run. It lands at its last grapheme or later, and past the run whenever
/// a grapheme that is not white space follows it.
pub proof fn lemma_word_motion_skips_the_whole_word(gs: Seq<(SemanticPosition, Seq<char>)>, i: int, j: int)
    requires
        0 <= i <= j < gs.len(),
        forall|k: int| i <= k <= j ==> word_grapheme(#[trigger] gs[k].1) && gs[k].0.block == gs[i].0.block,
    ensures
        j <= next_word_spec(gs, i) < gs.len(),
        j + 1 < gs.len() && !all_space(gs[j + 1].1) ==> next_word_spec(gs, i) >= j + 1,
{
    assert(word_grapheme(gs[i].1) && gs[i].0.block == gs[i].0.block);
    lemma_word_grapheme_is_keyword(gs[i].1);
    lemma_run_end(gs, i, j);
    lemma_same_class_end_bounds(gs, i, WordClass::Keyword);
    let a = same_class_end(gs, i, WordClass::Keyword);
    let b = if a + 1 < gs.len() { a + 1 } else { a };
    lemma_skip_forward_bounds(gs, b);
    let c = skip_space_forward(gs, b);
    lemma_skip_backward_stops(gs, a, c);
    if j + 1 < gs.len() && !all_space(gs[j + 1].1) && a == j {
        assert(class_of(gs[j + 1].1) != WordClass::Whitespace);
        lemma_skip_backward_stops(gs, b, c);
    }
}

} // verus!
