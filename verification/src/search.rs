//! Literal search over the rendered text of the Document: smart case with
//! full Unicode case folding, matches mapped back to semantic positions.
use crate::document::{
    alert_label, image_text, marker_label, Block, BlockKind, Document, InlineSpan,
};
use crate::layout::{sat, SemanticPosition};
use crate::text::{
    all_space, all_whitespace, char_is_uppercase, chars_of, display_width, fold_chars,
    fold_text, grapheme_clusters, graphemes, is_single, is_uppercase_char, push_all,
    text_width,
};
use vstd::prelude::*;

verus! {

/// Where a searchable grapheme leads: the cursor target, the highlighted
/// position, and the block whose generated label it belongs to.
#[derive(Clone, Copy, Debug, PartialEq, Eq, Structural)]
pub struct SearchMapping {
    pub target: Option<SemanticPosition>,
    pub highlight: Option<SemanticPosition>,
    pub leading_block: Option<usize>,
}

/// One searchable grapheme and its mapping.
#[derive(Clone, Debug)]
pub struct SearchUnit {
    pub text: Vec<char>,
    pub mapping: SearchMapping,
}

impl DeepView for SearchUnit {
    type V = (Seq<char>, SearchMapping);

    open spec fn deep_view(&self) -> (Seq<char>, SearchMapping) {
        (self.text@, self.mapping)
    }
}

/// A search match: the cursor target and the positions to highlight.
#[derive(Clone, Debug, PartialEq, Eq)]
pub struct SearchMatch {
    pub start: SemanticPosition,
    pub positions: Vec<SemanticPosition>,
    pub leading_blocks: Vec<usize>,
}

#[verifier::ext_equal]
pub struct MatchView {
    pub start: SemanticPosition,
    pub positions: Seq<SemanticPosition>,
    pub leading_blocks: Seq<usize>,
}

impl DeepView for SearchMatch {
    type V = MatchView;

    open spec fn deep_view(&self) -> MatchView {
        MatchView { start: self.start, positions: self.positions@, leading_blocks: self.leading_blocks@ }
    }
}

pub type Line = Seq<(Seq<char>, SearchMapping)>;

// ---------------------------------------------------------------------------
// Case handling
// ---------------------------------------------------------------------------

/// Smart case: a query with an uppercase character is matched exactly.
pub open spec fn has_uppercase(s: Seq<char>) -> bool {
    exists|i: int| 0 <= i < s.len() && is_uppercase_char(#[trigger] s[i])
}

/// The text compared by the search: as is when case matters, else folded.
pub open spec fn search_case(s: Seq<char>, case_sensitive: bool) -> Seq<char> {
    if case_sensitive { s } else { fold_text(s) }
}

fn any_uppercase(s: &Vec<char>) -> (r: bool)
    ensures
        r == has_uppercase(s@),
{
    let mut i: usize = 0;
    while i < s.len()
        invariant
            i <= s.len(),
            forall|j: int| 0 <= j < i ==> !is_uppercase_char(#[trigger] s@[j]),
        decreases s.len() - i,
    {
        if char_is_uppercase(s[i]) {
            return true;
        }
        i = i + 1;
    }
    false
}

fn search_case_exec(s: &Vec<char>, case_sensitive: bool) -> (r: Vec<char>)
    ensures
        r@ == search_case(s@, case_sensitive),
{
    if case_sensitive {
        s.clone()
    } else {
        fold_chars(s)
    }
}

// ---------------------------------------------------------------------------
// Literal occurrences
// ---------------------------------------------------------------------------

/// `needle` occurs in `hay` at index `i`.
pub open spec fn occurs_at(hay: Seq<char>, needle: Seq<char>, i: int) -> bool {
    0 <= i && i + needle.len() <= hay.len() && hay.subrange(i, i + needle.len()) == needle
}

/// The first occurrence at or after `from` (`str::find` on the rest).
pub open spec fn first_occurrence_from(hay: Seq<char>, needle: Seq<char>, from: int) -> Option<int>
    decreases hay.len() - from,
{
    if from < 0 || from > hay.len() - needle.len() {
        None
    } else if occurs_at(hay, needle, from) {
        Some(from)
    } else if from >= hay.len() {
        None
    } else {
        first_occurrence_from(hay, needle, from + 1)
    }
}

fn occurs_at_exec(hay: &Vec<char>, needle: &Vec<char>, i: usize) -> (r: bool)
    requires
        i + needle@.len() <= hay@.len(),
    ensures
        r == occurs_at(hay@, needle@, i as int),
{
    let n = hay.len();
    let mut k: usize = 0;
    while k < needle.len()
        invariant
            k <= needle.len(),
            n == hay@.len(),
            i + needle@.len() <= hay@.len(),
            forall|j: int| 0 <= j < k ==> hay@[i + j] == needle@[j],
        decreases needle.len() - k,
    {
        if hay[i + k] != needle[k] {
            assert(hay@.subrange(i as int, i + needle@.len())[k as int] != needle@[k as int]);
            return false;
        }
        k = k + 1;
    }
    assert(hay@.subrange(i as int, i + needle@.len()) =~= needle@);
    true
}

/// `str::find` from an offset, on characters.
fn find_from(hay: &Vec<char>, needle: &Vec<char>, from: usize) -> (r: Option<usize>)
    requires
        from <= hay@.len(),
    ensures
        r == (match first_occurrence_from(hay@, needle@, from as int) {
            Some(i) => Some(i as usize),
            None => None::<usize>,
        }),
{
    if needle.len() > hay.len() {
        return None;
    }
    let last = hay.len() - needle.len();
    if from > last {
        return None;
    }
    let mut i = from;
    loop
        invariant
            from <= i <= last,
            last == hay@.len() - needle@.len(),
            first_occurrence_from(hay@, needle@, from as int) == first_occurrence_from(hay@, needle@, i as int),
        decreases last - i,
    {
        if occurs_at_exec(hay, needle, i) {
            return Some(i);
        }
        if i >= last {
            assert(first_occurrence_from(hay@, needle@, i as int + 1) is None);
            return None;
        }
        i = i + 1;
    }
}

// ---------------------------------------------------------------------------
// Matches within one searchable line
// ---------------------------------------------------------------------------

/// The compared text of a line.
pub open spec fn line_haystack(line: Line, cs: bool) -> Seq<char>
    decreases line.len(),
{
    if line.len() == 0 {
        Seq::empty()
    } else {
        line_haystack(line.drop_last(), cs) + search_case(line.last().0, cs)
    }
}

/// One mapping per compared character.
pub open spec fn line_mappings(line: Line, cs: bool) -> Seq<SearchMapping>
    decreases line.len(),
{
    if line.len() == 0 {
        Seq::empty()
    } else {
        line_mappings(line.drop_last(), cs) + Seq::new(
            search_case(line.last().0, cs).len(),
            |i: int| line.last().1,
        )
    }
}

/// The first target among mappings.
pub open spec fn first_target(ms: Seq<SearchMapping>) -> Option<SemanticPosition>
    decreases ms.len(),
{
    if ms.len() == 0 {
        None
    } else {
        match first_target(ms.drop_last()) {
            Some(t) => Some(t),
            None => ms.last().target,
        }
    }
}

/// The last target among mappings.
pub open spec fn last_target(ms: Seq<SearchMapping>) -> Option<SemanticPosition>
    decreases ms.len(),
{
    if ms.len() == 0 {
        None
    } else {
        match ms.last().target {
            Some(t) => Some(t),
            None => last_target(ms.drop_last()),
        }
    }
}

/// Highlight positions of mappings, each once, in order.
pub open spec fn distinct_highlights(ms: Seq<SearchMapping>) -> Seq<SemanticPosition>
    decreases ms.len(),
{
    if ms.len() == 0 {
        Seq::empty()
    } else {
        let prior = distinct_highlights(ms.drop_last());
        match ms.last().highlight {
            Some(p) => if prior.contains(p) { prior } else { prior.push(p) },
            None => prior,
        }
    }
}

/// Label blocks of mappings, each once, in order.
pub open spec fn distinct_leading(ms: Seq<SearchMapping>) -> Seq<usize>
    decreases ms.len(),
{
    if ms.len() == 0 {
        Seq::empty()
    } else {
        let prior = distinct_leading(ms.drop_last());
        match ms.last().leading_block {
            Some(b) => if prior.contains(b) { prior } else { prior.push(b) },
            None => prior,
        }
    }
}

/// The match found at `start`: its target is the first target inside the
/// match, else the next one after it, else the last one before it.
pub open spec fn match_at(ms: Seq<SearchMapping>, start: int, end: int) -> Option<MatchView> {
    let inside = ms.subrange(start, end);
    let target = match first_target(inside) {
        Some(t) => Some(t),
        None => match first_target(ms.subrange(end, ms.len() as int)) {
            Some(t) => Some(t),
            None => last_target(ms.subrange(0, start)),
        },
    };
    match target {
        Some(t) => Some(MatchView {
            start: t,
            positions: distinct_highlights(inside),
            leading_blocks: distinct_leading(inside),
        }),
        None => None,
    }
}

/// Adds a match unless an identical one is already listed.
pub open spec fn add_match(matches: Seq<MatchView>, m: Option<MatchView>) -> Seq<MatchView> {
    match m {
        Some(m) => if matches.contains(m) { matches } else { matches.push(m) },
        None => matches,
    }
}

/// All occurrences at or after `from`, each adding its match.
pub open spec fn scan_line(
    matches: Seq<MatchView>,
    hay: Seq<char>,
    ms: Seq<SearchMapping>,
    needle: Seq<char>,
    from: int,
) -> Seq<MatchView>
    decreases hay.len() - from,
{
    if needle.len() == 0 || from < 0 || from > hay.len() {
        matches
    } else {
        match first_occurrence_from(hay, needle, from) {
            Some(start) => if start >= from && start < hay.len() {
                scan_line(
                    add_match(matches, match_at(ms, start, start + needle.len())),
                    hay,
                    ms,
                    needle,
                    start + 1,
                )
            } else {
                matches
            },
            None => matches,
        }
    }
}

proof fn lemma_first_occurrence_bounds(hay: Seq<char>, needle: Seq<char>, from: int)
    ensures
        first_occurrence_from(hay, needle, from) matches Some(i) ==> from <= i && occurs_at(hay, needle, i),
    decreases hay.len() - from,
{
    if from < 0 || from > hay.len() - needle.len() {
    } else if occurs_at(hay, needle, from) {
    } else if from >= hay.len() {
    } else {
        lemma_first_occurrence_bounds(hay, needle, from + 1);
    }
}

fn contains_position(v: &Vec<SemanticPosition>, p: SemanticPosition) -> (r: bool)
    ensures
        r == v@.contains(p),
{
    let mut i: usize = 0;
    while i < v.len()
        invariant
            i <= v.len(),
            forall|j: int| 0 <= j < i ==> v@[j] != p,
        decreases v.len() - i,
    {
        if v[i] == p {
            return true;
        }
        i = i + 1;
    }
    false
}

/// Whether a list of block indices holds `x`.
pub fn contains_usize(v: &Vec<usize>, x: usize) -> (r: bool)
    ensures
        r == v@.contains(x),
{
    let mut i: usize = 0;
    while i < v.len()
        invariant
            i <= v.len(),
            forall|j: int| 0 <= j < i ==> v@[j] != x,
        decreases v.len() - i,
    {
        if v[i] == x {
            return true;
        }
        i = i + 1;
    }
    false
}

fn positions_eq(a: &Vec<SemanticPosition>, b: &Vec<SemanticPosition>) -> (r: bool)
    ensures
        r == (a@ == b@),
{
    if a.len() != b.len() {
        return false;
    }
    let mut i: usize = 0;
    while i < a.len()
        invariant
            i <= a.len(),
            a.len() == b.len(),
            forall|j: int| 0 <= j < i ==> a@[j] == b@[j],
        decreases a.len() - i,
    {
        if a[i] != b[i] {
            return false;
        }
        i = i + 1;
    }
    assert(a@ =~= b@);
    true
}

fn usizes_eq(a: &Vec<usize>, b: &Vec<usize>) -> (r: bool)
    ensures
        r == (a@ == b@),
{
    if a.len() != b.len() {
        return false;
    }
    let mut i: usize = 0;
    while i < a.len()
        invariant
            i <= a.len(),
            a.len() == b.len(),
            forall|j: int| 0 <= j < i ==> a@[j] == b@[j],
        decreases a.len() - i,
    {
        if a[i] != b[i] {
            return false;
        }
        i = i + 1;
    }
    assert(a@ =~= b@);
    true
}

/// Whether a match with the same content is already listed.
fn has_match(matches: &Vec<SearchMatch>, m: &SearchMatch) -> (r: bool)
    ensures
        r == matches.deep_view().contains(m.deep_view()),
{
    let mut i: usize = 0;
    while i < matches.len()
        invariant
            i <= matches.len(),
            forall|j: int| 0 <= j < i ==> matches.deep_view()[j] != m.deep_view(),
        decreases matches.len() - i,
    {
        let other = &matches[i];
        if other.start == m.start && positions_eq(&other.positions, &m.positions) && usizes_eq(&other.leading_blocks, &m.leading_blocks) {
            assert(matches.deep_view()[i as int] == m.deep_view());
            return true;
        }
        assert(matches.deep_view()[i as int] == other.deep_view());
        i = i + 1;
    }
    false
}

/// The match for the occurrence `start..end` of the compared text.
fn build_match(ms: &Vec<SearchMapping>, start: usize, end: usize) -> (r: Option<SearchMatch>)
    requires
        start <= end <= ms@.len(),
    ensures
        match r {
            Some(m) => match_at(ms@, start as int, end as int) == Some(m.deep_view()),
            None => match_at(ms@, start as int, end as int) is None,
        },
{
    let ghost inside = ms@.subrange(start as int, end as int);
    let mut target: Option<SemanticPosition> = None;
    let mut positions: Vec<SemanticPosition> = Vec::new();
    let mut leading: Vec<usize> = Vec::new();
    let mut k = start;
    while k < end
        invariant
            start <= k <= end <= ms@.len(),
            inside == ms@.subrange(start as int, end as int),
            target == first_target(ms@.subrange(start as int, k as int)),
            positions@ == distinct_highlights(ms@.subrange(start as int, k as int)),
            leading@ == distinct_leading(ms@.subrange(start as int, k as int)),
        decreases end - k,
    {
        assert(ms@.subrange(start as int, k as int + 1).drop_last() =~= ms@.subrange(start as int, k as int));
        let m = ms[k];
        if target.is_none() {
            target = m.target;
        }
        match m.highlight {
            Some(p) => {
                if !contains_position(&positions, p) {
                    positions.push(p);
                }
            },
            None => {},
        }
        match m.leading_block {
            Some(b) => {
                if !contains_usize(&leading, b) {
                    leading.push(b);
                }
            },
            None => {},
        }
        k = k + 1;
    }
    if target.is_none() {
        let mut j = end;
        while j < ms.len() && target.is_none()
            invariant
                end <= j <= ms@.len(),
                target is None ==> first_target(ms@.subrange(end as int, j as int)) is None,
                target is Some ==> first_target(ms@.subrange(end as int, ms@.len() as int)) == target,
                first_target(ms@.subrange(start as int, end as int)) is None,
            decreases ms@.len() - j + (if target is None { 1int } else { 0int }),
        {
            assert(ms@.subrange(end as int, j as int + 1).drop_last() =~= ms@.subrange(end as int, j as int));
            if ms[j].target.is_some() {
                proof {
                    let suffix = ms@.subrange(end as int, ms@.len() as int);
                    assert(suffix.take(j - end) =~= ms@.subrange(end as int, j as int));
                    lemma_first_target_prefix(suffix, j - end);
                    lemma_first_target_extends(suffix, j - end + 1);
                }
                target = ms[j].target;
            } else {
                j = j + 1;
            }
        }
        if target.is_none() {
            assert(ms@.subrange(end as int, j as int) =~= ms@.subrange(end as int, ms@.len() as int));
            assert(ms@.subrange(0, start as int).len() == start);
            let mut i = start;
            while i > 0 && target.is_none()
                invariant
                    i <= start,
                    start <= ms@.len(),
                    target is None ==> last_target(ms@.subrange(0, start as int)) == last_target(ms@.subrange(0, i as int)),
                    target is Some ==> last_target(ms@.subrange(0, start as int)) == target,
                decreases i + (if target is None { 1int } else { 0int }),
            {
                assert(ms@.subrange(0, i as int).drop_last() =~= ms@.subrange(0, i as int - 1));
                if ms[i - 1].target.is_some() {
                    target = ms[i - 1].target;
                } else {
                    i = i - 1;
                }
            }
        }
    }
    match target {
        Some(t) => Some(SearchMatch { start: t, positions, leading_blocks: leading }),
        None => None,
    }
}

proof fn lemma_first_target_extends(ms: Seq<SearchMapping>, k: int)
    requires
        0 <= k <= ms.len(),
        first_target(ms.take(k)) is Some,
    ensures
        first_target(ms) == first_target(ms.take(k)),
    decreases ms.len(),
{
    if k == ms.len() {
        assert(ms.take(k) =~= ms);
    } else {
        assert(ms.drop_last().take(k) =~= ms.take(k));
        lemma_first_target_extends(ms.drop_last(), k);
    }
}

proof fn lemma_first_target_prefix(ms: Seq<SearchMapping>, j: int)
    requires
        0 <= j < ms.len(),
        first_target(ms.take(j)) is None,
        ms[j].target is Some,
    ensures
        first_target(ms.take(j + 1)) == ms[j].target,
{
    assert(ms.take(j + 1).drop_last() =~= ms.take(j));
}


// ---------------------------------------------------------------------------
// Searchable lines of the Document
// ---------------------------------------------------------------------------

/// Searchable units of one span whose first grapheme is at `g`, and the
/// grapheme index after the span. An image stands as its placeholder text.
pub open spec fn span_units(span: InlineSpan, block: usize, g: int) -> (Line, int) {
    let gs = grapheme_clusters(span.text@);
    let pos = SemanticPosition { block, grapheme: g as usize };
    match span.image {
        Some(image) => {
            let shown = grapheme_clusters(image_text(image.alt_text@, image.target@));
            (
                Seq::new(
                    shown.len(),
                    |i: int|
                        (shown[i], SearchMapping { target: Some(pos), highlight: Some(pos), leading_block: None }),
                ),
                sat(g + gs.len()),
            )
        },
        None => (
            Seq::new(
                gs.len(),
                |i: int|
                    {
                        let p = SemanticPosition { block, grapheme: sat(g + i) as usize };
                        (
                            gs[i],
                            SearchMapping {
                                target: if all_space(gs[i]) { None } else { Some(p) },
                                highlight: Some(p),
                                leading_block: None,
                            },
                        )
                    },
            ),
            sat(g + gs.len()),
        ),
    }
}

/// Searchable units of a sequence of spans starting at grapheme `g`.
pub open spec fn spans_units(spans: Seq<InlineSpan>, block: usize, g: int) -> (Line, int)
    decreases spans.len(),
{
    if spans.len() == 0 {
        (Seq::empty(), g)
    } else {
        let (prior, g1) = spans_units(spans.drop_last(), block, g);
        let (last, g2) = span_units(spans.last(), block, g1);
        (prior + last, g2)
    }
}

/// The units split at hard line breaks, empty lines dropped.
pub open spec fn split_lines(raw: Line) -> Seq<Line> {
    let (done, open) = split_fold(raw);
    if open.len() > 0 { done.push(open) } else { done }
}

pub open spec fn split_fold(raw: Line) -> (Seq<Line>, Line)
    decreases raw.len(),
{
    if raw.len() == 0 {
        (Seq::empty(), Seq::empty())
    } else {
        let (done, open) = split_fold(raw.drop_last());
        let u = raw.last();
        if u.0 == seq!['\n'] {
            (if open.len() > 0 { done.push(open) } else { done }, Seq::empty())
        } else {
            (done, open.push(u))
        }
    }
}

/// Code lines: split at line breaks, tabs expanded to the next stop of four.
pub open spec fn code_lines(raw: Line) -> Seq<Line> {
    let (done, open, _col) = code_fold(raw);
    if open.len() > 0 { done.push(open) } else { done }
}

/// Spaces that a tab expands to at a source column.
pub open spec fn tab_spaces(column: int) -> Seq<char> {
    Seq::new((4 - column % 4) as nat, |i: int| ' ')
}

pub open spec fn code_fold(raw: Line) -> (Seq<Line>, Line, int)
    decreases raw.len(),
{
    if raw.len() == 0 {
        (Seq::empty(), Seq::empty(), 0)
    } else {
        let (done, open, col) = code_fold(raw.drop_last());
        let u = raw.last();
        if u.0 == seq!['\n'] {
            (if open.len() > 0 { done.push(open) } else { done }, Seq::empty(), 0)
        } else if u.0 == seq!['\t'] {
            (done, open.push((tab_spaces(col), u.1)), sat(col + (4 - col % 4)))
        } else {
            (done, open.push(u), sat(col + display_width(u.0)))
        }
    }
}

/// Prose lines: split at line breaks, each run of white space between
/// visible graphemes searched as one space, leading white space dropped.
pub open spec fn wrapped_lines(raw: Line) -> Seq<Line> {
    let (done, open, _pending) = wrapped_fold(raw);
    if open.len() > 0 { done.push(open) } else { done }
}

pub open spec fn wrapped_fold(raw: Line) -> (Seq<Line>, Line, Option<SearchMapping>)
    decreases raw.len(),
{
    if raw.len() == 0 {
        (Seq::empty(), Seq::empty(), None)
    } else {
        let (done, open, pending) = wrapped_fold(raw.drop_last());
        let u = raw.last();
        if u.0 == seq!['\n'] {
            (if open.len() > 0 { done.push(open) } else { done }, Seq::empty(), None)
        } else if all_space(u.0) {
            (done, open, if open.len() > 0 && pending is None { Some(u.1) } else { pending })
        } else {
            let open1 = match pending {
                Some(m) => open.push((seq![' '], m)),
                None => open,
            };
            (done, open1.push(u), None)
        }
    }
}

/// The generated labels of a block that are searchable as it shows them.
pub open spec fn leading_fragments(block: Block) -> Seq<Seq<char>> {
    let a = match block.alert {
        Some(kind) => seq![alert_label(kind)],
        None => Seq::empty(),
    };
    let f = if block.kind == BlockKind::FrontMatter { seq!["metadata"@] } else { Seq::empty() };
    let l = match block.list_item {
        Some(item) => if block.kind != BlockKind::Empty && !item.continuation {
            seq![marker_label(item.marker)]
        } else {
            Seq::empty()
        },
        None => Seq::empty(),
    };
    let t = if block.kind == BlockKind::ThematicBreak { seq!["─"@] } else { Seq::empty() };
    a + f + l + t
}

/// The units of a text that all map the same way.
pub open spec fn uniform_line(text: Seq<char>, m: SearchMapping) -> Line {
    let gs = grapheme_clusters(text);
    Seq::new(gs.len(), |i: int| (gs[i], m))
}

/// The first target of a line.
pub open spec fn line_first_target(line: Line) -> Option<SemanticPosition>
    decreases line.len(),
{
    if line.len() == 0 {
        None
    } else {
        match line_first_target(line.drop_last()) {
            Some(t) => Some(t),
            None => line.last().1.target,
        }
    }
}

/// Searchable lines of a table: each cell searched alone, line by line.
pub open spec fn table_lines(rows: Seq<crate::document::TableRow>, block: usize) -> Seq<Line>
    decreases rows.len(),
{
    if rows.len() == 0 {
        Seq::empty()
    } else {
        table_lines(rows.drop_last(), block) + cells_lines(rows.last().cells@, block)
    }
}

pub open spec fn cells_lines(cells: Seq<crate::document::TableCell>, block: usize) -> Seq<Line>
    decreases cells.len(),
{
    if cells.len() == 0 {
        Seq::empty()
    } else {
        cells_lines(cells.drop_last(), block) + split_lines(
            spans_units(cells.last().spans@, block, cells.last().grapheme_offset as int).0,
        )
    }
}

/// The searchable lines of one block.
pub open spec fn block_lines(block: Block, index: usize) -> Seq<Line> {
    match block.table {
        Some(table) => table_lines(table.rows@, index),
        None => {
            let raw = spans_units(block.spans@, index, 0).0;
            let target = match line_first_target(raw) {
                Some(t) => Some(t),
                None => if block.kind == BlockKind::Empty || block.kind == BlockKind::ThematicBreak {
                    Some(SemanticPosition { block: index, grapheme: 0 })
                } else {
                    None
                },
            };
            let fragments = leading_fragments(block);
            let leading = if target is Some {
                Seq::new(
                    fragments.len(),
                    |i: int| uniform_line(
                        fragments[i],
                        SearchMapping { target, highlight: None, leading_block: Some(index) },
                    ),
                )
            } else {
                Seq::empty()
            };
            let marker = match block.list_item {
                Some(item) => if block.kind == BlockKind::Empty {
                    seq![uniform_line(marker_label(item.marker), SearchMapping { target, highlight: target, leading_block: None })]
                } else {
                    Seq::empty()
                },
                None => Seq::empty(),
            };
            let body = if block.kind == BlockKind::Code || block.kind == BlockKind::FrontMatter {
                code_lines(raw)
            } else {
                wrapped_lines(raw)
            };
            leading + marker + body
        },
    }
}

/// All searchable lines of the Document, block by block.
pub open spec fn document_lines(blocks: Seq<Block>) -> Seq<Line>
    decreases blocks.len(),
{
    if blocks.len() == 0 {
        Seq::empty()
    } else {
        document_lines(blocks.drop_last()) + block_lines(blocks.last(), (blocks.len() - 1) as usize)
    }
}

/// All matches of the compared needle over the lines, in order, without duplicates.
pub open spec fn matches_over(lines: Seq<Line>, needle: Seq<char>, cs: bool) -> Seq<MatchView>
    decreases lines.len(),
{
    if lines.len() == 0 {
        Seq::empty()
    } else {
        scan_line(
            matches_over(lines.drop_last(), needle, cs),
            line_haystack(lines.last(), cs),
            line_mappings(lines.last(), cs),
            needle,
            0,
        )
    }
}

/// The matches of a literal query over the Document's rendered text.
pub open spec fn search_matches(blocks: Seq<Block>, query: Seq<char>) -> Seq<MatchView> {
    let cs = has_uppercase(query);
    let needle = search_case(query, cs);
    if needle.len() == 0 { Seq::empty() } else { matches_over(document_lines(blocks), needle, cs) }
}

// --- executable counterparts ---

/// Appends the searchable units of spans, advancing the grapheme index.
fn push_searchable_spans(
    spans: &[InlineSpan],
    block: usize,
    grapheme: &mut usize,
    searchable: &mut Vec<SearchUnit>,
)
    ensures
        (final(searchable).deep_view(), *final(grapheme) as int) == ({
            let (u, g) = spans_units(spans@, block, *old(grapheme) as int);
            (old(searchable).deep_view() + u, g)
        }),
{
    let ghost g0 = *grapheme as int;
    let ghost base = searchable.deep_view();
    let mut s: usize = 0;
    while s < spans.len()
        invariant
            s <= spans@.len(),
            (searchable.deep_view(), *grapheme as int) == ({
                let (u, g) = spans_units(spans@.take(s as int), block, g0);
                (base + u, g)
            }),
        decreases spans.len() - s,
    {
        assert(spans@.take(s as int + 1).drop_last() =~= spans@.take(s as int));
        let span = &spans[s];
        let ghost before = searchable.deep_view();
        let ghost g1 = *grapheme as int;
        let gs = graphemes(span.text.as_str());
        match &span.image {
            Some(image) => {
                let pos = SemanticPosition { block, grapheme: *grapheme };
                let shown = graphemes(image.rendered_text().as_str());
                let mut k: usize = 0;
                while k < shown.len()
                    invariant
                        k <= shown@.len(),
                        searchable.deep_view() == before + Seq::new(
                            k as nat,
                            |i: int|
                                (shown.deep_view()[i], SearchMapping { target: Some(pos), highlight: Some(pos), leading_block: None }),
                        ),
                    decreases shown.len() - k,
                {
                    let ghost b2 = searchable.deep_view();
                    let t = shown[k].clone();
                    assert(t@ == shown.deep_view()[k as int]);
                    let unit = SearchUnit {
                        text: t,
                        mapping: SearchMapping { target: Some(pos), highlight: Some(pos), leading_block: None },
                    };
                    searchable.push(unit);
                    assert(searchable.deep_view() =~= b2.push(unit.deep_view()));
                    assert(searchable.deep_view() =~= before + Seq::new(
                        (k + 1) as nat,
                        |i: int|
                            (shown.deep_view()[i], SearchMapping { target: Some(pos), highlight: Some(pos), leading_block: None }),
                    ));
                    k = k + 1;
                }
                *grapheme = grapheme.saturating_add(gs.len());
            },
            None => {
                let mut k: usize = 0;
                while k < gs.len()
                    invariant
                        k <= gs@.len(),
                        *grapheme as int == sat(g1 + k),
                        searchable.deep_view() == before + Seq::new(
                            k as nat,
                            |i: int|
                                {
                                    let p = SemanticPosition { block, grapheme: sat(g1 + i) as usize };
                                    (
                                        gs.deep_view()[i],
                                        SearchMapping {
                                            target: if all_space(gs.deep_view()[i]) { None } else { Some(p) },
                                            highlight: Some(p),
                                            leading_block: None,
                                        },
                                    )
                                },
                        ),
                    decreases gs.len() - k,
                {
                    let position = SemanticPosition { block, grapheme: *grapheme };
                    let target = if all_whitespace(&gs[k]) { None } else { Some(position) };
                    let ghost b2 = searchable.deep_view();
                    let t = gs[k].clone();
                    assert(t@ == gs.deep_view()[k as int]);
                    let unit = SearchUnit {
                        text: t,
                        mapping: SearchMapping { target, highlight: Some(position), leading_block: None },
                    };
                    searchable.push(unit);
                    assert(searchable.deep_view() =~= b2.push(unit.deep_view()));
                    assert(searchable.deep_view() =~= before + Seq::new(
                        (k + 1) as nat,
                        |i: int|
                            {
                                let p = SemanticPosition { block, grapheme: sat(g1 + i) as usize };
                                (
                                    gs.deep_view()[i],
                                    SearchMapping {
                                        target: if all_space(gs.deep_view()[i]) { None } else { Some(p) },
                                        highlight: Some(p),
                                        leading_block: None,
                                    },
                                )
                            },
                    ));
                    *grapheme = grapheme.saturating_add(1);
                    k = k + 1;
                }
            },
        }
        s = s + 1;
    }
    assert(spans@.take(spans@.len() as int) =~= spans@);
}


fn copy_unit(u: &SearchUnit) -> (r: SearchUnit)
    ensures
        r.deep_view() == u.deep_view(),
{
    SearchUnit { text: u.text.clone(), mapping: u.mapping }
}

/// Moves the open line to the finished ones when it holds anything.
fn push_searchable_block(blocks: &mut Vec<Vec<SearchUnit>>, line: &mut Vec<SearchUnit>)
    ensures
        final(blocks).deep_view() == (if old(line)@.len() > 0 {
            old(blocks).deep_view().push(old(line).deep_view())
        } else {
            old(blocks).deep_view()
        }),
        final(line)@.len() == 0,
{
    if line.len() > 0 {
        let mut taken: Vec<SearchUnit> = Vec::new();
        std::mem::swap(&mut taken, line);
        let ghost b = blocks.deep_view();
        blocks.push(taken);
        assert(blocks.deep_view() =~= b.push(taken.deep_view()));
    }
}

/// Splits units at hard line breaks.
fn split_searchable_lines(raw: &Vec<SearchUnit>) -> (r: Vec<Vec<SearchUnit>>)
    ensures
        r.deep_view() == split_lines(raw.deep_view()),
{
    let mut blocks: Vec<Vec<SearchUnit>> = Vec::new();
    let mut line: Vec<SearchUnit> = Vec::new();
    let mut i: usize = 0;
    assert(blocks.deep_view() =~= Seq::<Line>::empty());
    assert(line.deep_view() =~= Seq::<(Seq<char>, SearchMapping)>::empty());
    while i < raw.len()
        invariant
            i <= raw@.len(),
            split_fold(raw.deep_view().take(i as int)) == (blocks.deep_view(), line.deep_view()),
        decreases raw.len() - i,
    {
        assert(raw.deep_view().take(i as int + 1).drop_last() =~= raw.deep_view().take(i as int));
        let u = copy_unit(&raw[i]);
        if is_single(&u.text, '\n') {
            push_searchable_block(&mut blocks, &mut line);
            assert(line.deep_view() =~= Seq::<(Seq<char>, SearchMapping)>::empty());
        } else {
            let ghost l = line.deep_view();
            line.push(u);
            assert(line.deep_view() =~= l.push(u.deep_view()));
        }
        i = i + 1;
    }
    assert(raw.deep_view().take(raw@.len() as int) =~= raw.deep_view());
    push_searchable_block(&mut blocks, &mut line);
    blocks
}

fn spaces(n: usize) -> (r: Vec<char>)
    ensures
        r@ == Seq::new(n as nat, |i: int| ' '),
{
    let mut v: Vec<char> = Vec::new();
    let mut i: usize = 0;
    while i < n
        invariant
            i <= n,
            v@ == Seq::new(i as nat, |j: int| ' '),
        decreases n - i,
    {
        v.push(' ');
        assert(v@ =~= Seq::new((i + 1) as nat, |j: int| ' '));
        i = i + 1;
    }
    v
}

/// Code lines with tabs expanded to stops of four.
fn searchable_code_lines(raw: &Vec<SearchUnit>) -> (r: Vec<Vec<SearchUnit>>)
    ensures
        r.deep_view() == code_lines(raw.deep_view()),
{
    let mut blocks: Vec<Vec<SearchUnit>> = Vec::new();
    let mut line: Vec<SearchUnit> = Vec::new();
    let mut column: usize = 0;
    let mut i: usize = 0;
    assert(blocks.deep_view() =~= Seq::<Line>::empty());
    assert(line.deep_view() =~= Seq::<(Seq<char>, SearchMapping)>::empty());
    while i < raw.len()
        invariant
            i <= raw@.len(),
            code_fold(raw.deep_view().take(i as int)) == (blocks.deep_view(), line.deep_view(), column as int),
        decreases raw.len() - i,
    {
        assert(raw.deep_view().take(i as int + 1).drop_last() =~= raw.deep_view().take(i as int));
        let u = copy_unit(&raw[i]);
        if is_single(&u.text, '\n') {
            push_searchable_block(&mut blocks, &mut line);
            assert(line.deep_view() =~= Seq::<(Seq<char>, SearchMapping)>::empty());
            column = 0;
        } else if is_single(&u.text, '\t') {
            let width = 4 - column % 4;
            let ghost l = line.deep_view();
            let unit = SearchUnit { text: spaces(width), mapping: u.mapping };
            line.push(unit);
            assert(line.deep_view() =~= l.push((tab_spaces(column as int), u.mapping)));
            column = column.saturating_add(width);
        } else {
            let w = text_width(&u.text);
            let ghost l = line.deep_view();
            line.push(u);
            assert(line.deep_view() =~= l.push(u.deep_view()));
            column = column.saturating_add(w);
        }
        i = i + 1;
    }
    assert(raw.deep_view().take(raw@.len() as int) =~= raw.deep_view());
    push_searchable_block(&mut blocks, &mut line);
    blocks
}

/// Prose lines with white space runs searched as single spaces.
fn searchable_wrapped_lines(raw: &Vec<SearchUnit>) -> (r: Vec<Vec<SearchUnit>>)
    ensures
        r.deep_view() == wrapped_lines(raw.deep_view()),
{
    let mut blocks: Vec<Vec<SearchUnit>> = Vec::new();
    let mut line: Vec<SearchUnit> = Vec::new();
    let mut pending: Option<SearchMapping> = None;
    let mut i: usize = 0;
    assert(blocks.deep_view() =~= Seq::<Line>::empty());
    assert(line.deep_view() =~= Seq::<(Seq<char>, SearchMapping)>::empty());
    while i < raw.len()
        invariant
            i <= raw@.len(),
            wrapped_fold(raw.deep_view().take(i as int)) == (blocks.deep_view(), line.deep_view(), pending),
        decreases raw.len() - i,
    {
        assert(raw.deep_view().take(i as int + 1).drop_last() =~= raw.deep_view().take(i as int));
        let u = copy_unit(&raw[i]);
        if is_single(&u.text, '\n') {
            push_searchable_block(&mut blocks, &mut line);
            assert(line.deep_view() =~= Seq::<(Seq<char>, SearchMapping)>::empty());
            pending = None;
        } else if all_whitespace(&u.text) {
            if line.len() > 0 && pending.is_none() {
                pending = Some(u.mapping);
            }
        } else {
            match pending {
                Some(m) => {
                    let mut sp: Vec<char> = Vec::new();
                    sp.push(' ');
                    let ghost l = line.deep_view();
                    let unit = SearchUnit { text: sp, mapping: m };
                    line.push(unit);
                    assert(line.deep_view() =~= l.push((seq![' '], m)));
                },
                None => {},
            }
            pending = None;
            let ghost l = line.deep_view();
            line.push(u);
            assert(line.deep_view() =~= l.push(u.deep_view()));
        }
        i = i + 1;
    }
    assert(raw.deep_view().take(raw@.len() as int) =~= raw.deep_view());
    push_searchable_block(&mut blocks, &mut line);
    blocks
}

/// The generated labels of a block, as the search sees them.
fn searchable_leading_fragments(block: &Block) -> (r: Vec<Vec<char>>)
    ensures
        r.deep_view() == leading_fragments(*block),
{
    let mut parts: Vec<Vec<char>> = Vec::new();
    match block.alert {
        Some(kind) => {
            let x = chars_of(kind.rendered_label());
            let ghost xv = x@;
            parts.push(x);
            assert(parts.deep_view()[0] == xv);
            assert(parts.deep_view() =~= seq![alert_label(kind)]);
        },
        None => {
            assert(parts.deep_view() =~= Seq::<Seq<char>>::empty());
        },
    }
    let ghost a = parts.deep_view();
    if matches!(block.kind, BlockKind::FrontMatter) {
        let x = chars_of("metadata");
        let ghost xv = x@;
        assert(x.deep_view() =~= x@);
        parts.push(x);
        assert(parts.deep_view() =~= a.push(xv));
    }
    let ghost f = parts.deep_view();
    match block.list_item {
        Some(item) => {
            if !matches!(block.kind, BlockKind::Empty) && !item.continuation {
                let x = item.marker.rendered_label();
                let ghost xv = x@;
                assert(x.deep_view() =~= x@);
                parts.push(x);
                assert(parts.deep_view() =~= f.push(xv));
            }
        },
        None => {},
    }
    let ghost l = parts.deep_view();
    if matches!(block.kind, BlockKind::ThematicBreak) {
        let x = chars_of("─");
        let ghost xv = x@;
        assert(x.deep_view() =~= x@);
        parts.push(x);
        assert(parts.deep_view() =~= l.push(xv));
    }
    assert(parts.deep_view() =~= leading_fragments(*block));
    parts
}

/// A line whose units all map the same way.
fn uniform_units(text: &Vec<char>, m: SearchMapping) -> (r: Vec<SearchUnit>)
    ensures
        r.deep_view() == uniform_line(text@, m),
{
    let gs = graphemes(crate::text::string_of(text).as_str());
    let mut out: Vec<SearchUnit> = Vec::new();
    let mut k: usize = 0;
    while k < gs.len()
        invariant
            k <= gs@.len(),
            gs.deep_view() == grapheme_clusters(text@),
            out.deep_view() == Seq::new(k as nat, |i: int| (gs.deep_view()[i], m)),
        decreases gs.len() - k,
    {
        let t = gs[k].clone();
        assert(t@ == gs.deep_view()[k as int]);
        let unit = SearchUnit { text: t, mapping: m };
        let ghost o = out.deep_view();
        out.push(unit);
        assert(out.deep_view() =~= o.push(unit.deep_view()));
        assert(out.deep_view() =~= Seq::new((k + 1) as nat, |i: int| (gs.deep_view()[i], m)));
        k = k + 1;
    }
    out
}

fn line_first_target_exec(line: &Vec<SearchUnit>) -> (r: Option<SemanticPosition>)
    ensures
        r == line_first_target(line.deep_view()),
{
    let mut i: usize = 0;
    while i < line.len()
        invariant
            i <= line@.len(),
            line_first_target(line.deep_view().take(i as int)) is None,
        decreases line.len() - i,
    {
        assert(line.deep_view().take(i as int + 1).drop_last() =~= line.deep_view().take(i as int));
        if line[i].mapping.target.is_some() {
            proof { lemma_line_first_target(line.deep_view(), i as int + 1); }
            return line[i].mapping.target;
        }
        i = i + 1;
    }
    assert(line.deep_view().take(line@.len() as int) =~= line.deep_view());
    None
}

proof fn lemma_line_first_target(line: Line, k: int)
    requires
        0 <= k <= line.len(),
        line_first_target(line.take(k)) is Some,
    ensures
        line_first_target(line) == line_first_target(line.take(k)),
    decreases line.len(),
{
    if k == line.len() {
        assert(line.take(k) =~= line);
    } else {
        assert(line.drop_last().take(k) =~= line.take(k));
        lemma_line_first_target(line.drop_last(), k);
    }
}

fn append_lines(dst: &mut Vec<Vec<SearchUnit>>, src: Vec<Vec<SearchUnit>>)
    ensures
        final(dst).deep_view() == old(dst).deep_view() + src.deep_view(),
{
    let mut src = src;
    let ghost a = dst.deep_view();
    let ghost b = src.deep_view();
    dst.append(&mut src);
    assert(dst.deep_view() =~= a + b);
}

/// The searchable lines of one block, as `block_lines` describes them.
fn searchable_block_lines(block: &Block, index: usize) -> (r: Vec<Vec<SearchUnit>>)
    ensures
        r.deep_view() == block_lines(*block, index),
{
    let mut out: Vec<Vec<SearchUnit>> = Vec::new();
    match &block.table {
        Some(table) => {
            let mut ri: usize = 0;
            assert(out.deep_view() =~= table_lines(table.rows@.take(0), index));
            while ri < table.rows.len()
                invariant
                    ri <= table.rows@.len(),
                    out.deep_view() == table_lines(table.rows@.take(ri as int), index),
                decreases table.rows.len() - ri,
            {
                assert(table.rows@.take(ri as int + 1).drop_last() =~= table.rows@.take(ri as int));
                let row = &table.rows[ri];
                let mut ci: usize = 0;
                let ghost before = out.deep_view();
                assert(cells_lines(row.cells@.take(0), index) =~= Seq::<Line>::empty());
                while ci < row.cells.len()
                    invariant
                        ci <= row.cells@.len(),
                        out.deep_view() == before + cells_lines(row.cells@.take(ci as int), index),
                    decreases row.cells.len() - ci,
                {
                    assert(row.cells@.take(ci as int + 1).drop_last() =~= row.cells@.take(ci as int));
                    let cell = &row.cells[ci];
                    let mut g = cell.grapheme_offset;
                    let mut raw: Vec<SearchUnit> = Vec::new();
                    assert(raw.deep_view() =~= Seq::<(Seq<char>, SearchMapping)>::empty());
                    push_searchable_spans(cell.spans.as_slice(), index, &mut g, &mut raw);
                    let lines = split_searchable_lines(&raw);
                    let ghost o = out.deep_view();
                    append_lines(&mut out, lines);
                    assert(o + split_lines(raw.deep_view()) =~= before + cells_lines(row.cells@.take(ci as int + 1), index));
                    ci = ci + 1;
                }
                assert(row.cells@.take(row.cells@.len() as int) =~= row.cells@);
                ri = ri + 1;
            }
            assert(table.rows@.take(table.rows@.len() as int) =~= table.rows@);
            return out;
        },
        None => {},
    }
    let mut g: usize = 0;
    let mut raw: Vec<SearchUnit> = Vec::new();
    assert(raw.deep_view() =~= Seq::<(Seq<char>, SearchMapping)>::empty());
    push_searchable_spans(block.spans.as_slice(), index, &mut g, &mut raw);
    let first = line_first_target_exec(&raw);
    let target = match first {
        Some(t) => Some(t),
        None => if matches!(block.kind, BlockKind::Empty) || matches!(block.kind, BlockKind::ThematicBreak) {
            Some(SemanticPosition { block: index, grapheme: 0 })
        } else {
            None
        },
    };
    let ghost fragments = leading_fragments(*block);
    if target.is_some() {
        let parts = searchable_leading_fragments(block);
        let mut k: usize = 0;
        while k < parts.len()
            invariant
                k <= parts@.len(),
                parts.deep_view() == fragments,
                out.deep_view() == Seq::new(
                    k as nat,
                    |i: int| uniform_line(fragments[i], SearchMapping { target, highlight: None, leading_block: Some(index) }),
                ),
            decreases parts.len() - k,
        {
            assert(parts@[k as int]@ == fragments[k as int]);
            let line = uniform_units(&parts[k], SearchMapping { target, highlight: None, leading_block: Some(index) });
            let ghost o = out.deep_view();
            out.push(line);
            assert(out.deep_view() =~= o.push(line.deep_view()));
            assert(out.deep_view() =~= Seq::new(
                (k + 1) as nat,
                |i: int| uniform_line(fragments[i], SearchMapping { target, highlight: None, leading_block: Some(index) }),
            ));
            k = k + 1;
        }
    } else {
        assert(out.deep_view() =~= Seq::<Line>::empty());
    }
    let ghost leading = out.deep_view();
    if matches!(block.kind, BlockKind::Empty) {
        match block.list_item {
            Some(item) => {
                let line = uniform_units(&item.marker.rendered_label(), SearchMapping { target, highlight: target, leading_block: None });
                let ghost o = out.deep_view();
                out.push(line);
                assert(out.deep_view() =~= o.push(line.deep_view()));
            },
            None => {},
        }
    }
    let body = if matches!(block.kind, BlockKind::Code) || matches!(block.kind, BlockKind::FrontMatter) {
        searchable_code_lines(&raw)
    } else {
        searchable_wrapped_lines(&raw)
    };
    let ghost o = out.deep_view();
    append_lines(&mut out, body);
    assert(out.deep_view() =~= block_lines(*block, index));
    out
}

/// The compared text and per-character mappings of a line.
fn line_text(line: &Vec<SearchUnit>, cs: bool) -> (r: (Vec<char>, Vec<SearchMapping>))
    ensures
        r.0@ == line_haystack(line.deep_view(), cs),
        r.1@ == line_mappings(line.deep_view(), cs),
{
    let mut hay: Vec<char> = Vec::new();
    let mut ms: Vec<SearchMapping> = Vec::new();
    let mut i: usize = 0;
    while i < line.len()
        invariant
            i <= line@.len(),
            hay@ == line_haystack(line.deep_view().take(i as int), cs),
            ms@ == line_mappings(line.deep_view().take(i as int), cs),
        decreases line.len() - i,
    {
        assert(line.deep_view().take(i as int + 1).drop_last() =~= line.deep_view().take(i as int));
        let text = search_case_exec(&line[i].text, cs);
        let m = line[i].mapping;
        push_all(&mut hay, &text);
        let ghost before = ms@;
        let mut k: usize = 0;
        while k < text.len()
            invariant
                k <= text@.len(),
                ms@ == before + Seq::new(k as nat, |j: int| m),
            decreases text.len() - k,
        {
            ms.push(m);
            assert(ms@ =~= before + Seq::new((k + 1) as nat, |j: int| m));
            k = k + 1;
        }
        i = i + 1;
    }
    assert(line.deep_view().take(line@.len() as int) =~= line.deep_view());
    (hay, ms)
}

/// Adds every occurrence of the needle in one line, as `scan_line` describes.
fn scan_line_exec(
    matches: &mut Vec<SearchMatch>,
    hay: &Vec<char>,
    ms: &Vec<SearchMapping>,
    needle: &Vec<char>,
)
    requires
        hay@.len() == ms@.len(),
        needle@.len() > 0,
    ensures
        final(matches).deep_view() == scan_line(old(matches).deep_view(), hay@, ms@, needle@, 0),
{
    let ghost m0 = matches.deep_view();
    let mut offset: usize = 0;
    while offset < hay.len()
        invariant
            offset <= hay@.len(),
            hay@.len() == ms@.len(),
            needle@.len() > 0,
            m0 == old(matches).deep_view(),
            scan_line(m0, hay@, ms@, needle@, 0) == scan_line(matches.deep_view(), hay@, ms@, needle@, offset as int),
        decreases hay.len() - offset,
    {
        match find_from(hay, needle, offset) {
            None => {
                assert(scan_line(matches.deep_view(), hay@, ms@, needle@, offset as int) == matches.deep_view());
                return;
            },
            Some(start) => {
                proof { lemma_first_occurrence_bounds(hay@, needle@, offset as int); }
                let end = start + needle.len();
                let built = build_match(ms, start, end);
                let ghost before = matches.deep_view();
                match built {
                    Some(m) => {
                        if !has_match(matches, &m) {
                            matches.push(m);
                            assert(matches.deep_view() =~= before.push(m.deep_view()));
                        }
                    },
                    None => {},
                }
                offset = start + 1;
            },
        }
    }
    assert(first_occurrence_from(hay@, needle@, offset as int) is None);
    assert(scan_line(matches.deep_view(), hay@, ms@, needle@, offset as int) == matches.deep_view());
}

/// The matches of a literal query over the Document, in Document order of
/// their lines, each match found once.
pub fn find_matches(document: &Document, query: &str) -> (r: Vec<SearchMatch>)
    ensures
        r.deep_view() == search_matches(document.blocks@, query@),
{
    let q = chars_of(query);
    let case_sensitive = any_uppercase(&q);
    let needle = search_case_exec(&q, case_sensitive);
    let mut matches: Vec<SearchMatch> = Vec::new();
    if needle.len() == 0 {
        assert(matches.deep_view() =~= Seq::<MatchView>::empty());
        return matches;
    }
    let mut lines: Vec<Vec<SearchUnit>> = Vec::new();
    let mut b: usize = 0;
    assert(lines.deep_view() =~= document_lines(document.blocks@.take(0)));
    while b < document.blocks.len()
        invariant
            b <= document.blocks@.len(),
            lines.deep_view() == document_lines(document.blocks@.take(b as int)),
        decreases document.blocks.len() - b,
    {
        assert(document.blocks@.take(b as int + 1).drop_last() =~= document.blocks@.take(b as int));
        let more = searchable_block_lines(&document.blocks[b], b);
        append_lines(&mut lines, more);
        b = b + 1;
    }
    assert(document.blocks@.take(document.blocks@.len() as int) =~= document.blocks@);
    let ghost all = lines.deep_view();
    let mut i: usize = 0;
    assert(matches.deep_view() =~= matches_over(all.take(0), needle@, case_sensitive));
    while i < lines.len()
        invariant
            i <= lines@.len(),
            all == lines.deep_view(),
            needle@.len() > 0,
            matches.deep_view() == matches_over(all.take(i as int), needle@, case_sensitive),
        decreases lines.len() - i,
    {
        assert(all.take(i as int + 1).drop_last() =~= all.take(i as int));
        let (hay, ms) = line_text(&lines[i], case_sensitive);
        proof { lemma_line_lengths(all[i as int], case_sensitive); }
        scan_line_exec(&mut matches, &hay, &ms, &needle);
        i = i + 1;
    }
    assert(all.take(lines@.len() as int) =~= all);
    matches
}

proof fn lemma_line_lengths(line: Line, cs: bool)
    ensures
        line_haystack(line, cs).len() == line_mappings(line, cs).len(),
    decreases line.len(),
{
    if line.len() > 0 {
        lemma_line_lengths(line.drop_last(), cs);
    }
}


// ---------------------------------------------------------------------------
// Match ranges inside one generated label
// ---------------------------------------------------------------------------

/// Bytes taken by a character in UTF-8 (`char::len_utf8`).
pub open spec fn utf8_len(c: char) -> int {
    let v = c as u32;
    if v < 0x80 { 1 } else if v < 0x800 { 2 } else if v < 0x10000 { 3 } else { 4 }
}

pub fn char_len_utf8(c: char) -> (r: usize)
    ensures
        r == utf8_len(c),
{
    let v = c as u32;
    if v < 0x80 { 1 } else if v < 0x800 { 2 } else if v < 0x10000 { 3 } else { 4 }
}

/// The compared characters of a text, each with the byte range of the
/// character of the text it came from.
pub open spec fn folded_with_ranges(s: Seq<char>, cs: bool) -> (Seq<char>, Seq<(int, int)>, int)
    decreases s.len(),
{
    if s.len() == 0 {
        (Seq::empty(), Seq::empty(), 0)
    } else {
        let (hay, ranges, byte) = folded_with_ranges(s.drop_last(), cs);
        let f = search_case(seq![s.last()], cs);
        let end = sat(byte + utf8_len(s.last()));
        (hay + f, ranges + Seq::new(f.len(), |i: int| (byte, end)), end)
    }
}

/// Adds a byte range, merging it into the previous one when they touch.
pub open spec fn merge_range(ranges: Seq<(int, int)>, r: (int, int)) -> Seq<(int, int)> {
    if ranges.len() == 0 || ranges.last().1 < r.0 {
        ranges.push(r)
    } else {
        let prior = ranges.last();
        ranges.drop_last().push((prior.0, if prior.1 >= r.1 { prior.1 } else { r.1 }))
    }
}

/// Every occurrence from `from` on, its byte range merged in.
pub open spec fn scan_ranges(
    out: Seq<(int, int)>,
    hay: Seq<char>,
    map: Seq<(int, int)>,
    needle: Seq<char>,
    from: int,
) -> Seq<(int, int)>
    decreases hay.len() - from,
{
    if needle.len() == 0 || from < 0 || from > hay.len() {
        out
    } else {
        match first_occurrence_from(hay, needle, from) {
            Some(start) => if start >= from && start < hay.len() {
                let end = start + needle.len();
                let out1 = if end <= map.len() {
                    merge_range(out, (map[start].0, map[end - 1].1))
                } else {
                    out
                };
                scan_ranges(out1, hay, map, needle, start + 1)
            } else {
                out
            },
            None => out,
        }
    }
}

/// The byte ranges of `text` covered by matches of the query, merged where
/// they overlap or touch.
pub open spec fn match_ranges(text: Seq<char>, query: Seq<char>) -> Seq<(int, int)> {
    let cs = has_uppercase(query);
    let needle = search_case(query, cs);
    let (hay, map, _end) = folded_with_ranges(text, cs);
    if needle.len() == 0 { Seq::empty() } else { scan_ranges(Seq::empty(), hay, map, needle, 0) }
}

proof fn lemma_folded_lengths(s: Seq<char>, cs: bool)
    ensures
        folded_with_ranges(s, cs).0.len() == folded_with_ranges(s, cs).1.len(),
        folded_with_ranges(s, cs).2 >= 0,
    decreases s.len(),
{
    if s.len() > 0 {
        lemma_folded_lengths(s.drop_last(), cs);
    }
}

/// Where a query matches inside a text, as byte ranges of the text.
pub fn literal_match_ranges(text: &str, query: &str) -> (r: Vec<std::ops::Range<usize>>)
    ensures
        r@.len() == match_ranges(text@, query@).len(),
        forall|i: int|
            0 <= i < r@.len() ==> (#[trigger] r@[i]).start == match_ranges(text@, query@)[i].0 && r@[i].end
                == match_ranges(text@, query@)[i].1,
{
    let q = chars_of(query);
    let case_sensitive = any_uppercase(&q);
    let needle = search_case_exec(&q, case_sensitive);
    let chars = chars_of(text);
    let mut hay: Vec<char> = Vec::new();
    let mut map: Vec<(usize, usize)> = Vec::new();
    let mut byte: usize = 0;
    let mut i: usize = 0;
    while i < chars.len()
        invariant
            i <= chars@.len(),
            chars@ == text@,
            folded_with_ranges(chars@.take(i as int), case_sensitive).0 == hay@,
            folded_with_ranges(chars@.take(i as int), case_sensitive).1 == map@.map_values(|p: (usize, usize)| (p.0 as int, p.1 as int)),
            folded_with_ranges(chars@.take(i as int), case_sensitive).2 == byte as int,
        decreases chars.len() - i,
    {
        assert(chars@.take(i as int + 1).drop_last() =~= chars@.take(i as int));
        let c = chars[i];
        let mut one: Vec<char> = Vec::new();
        one.push(c);
        assert(one@ =~= seq![c]);
        let f = search_case_exec(&one, case_sensitive);
        let end = byte.saturating_add(char_len_utf8(c));
        push_all(&mut hay, &f);
        let ghost before = map@;
        let mut k: usize = 0;
        while k < f.len()
            invariant
                k <= f@.len(),
                map@ == before + Seq::new(k as nat, |j: int| (byte, end)),
            decreases f.len() - k,
        {
            map.push((byte, end));
            assert(map@ =~= before + Seq::new((k + 1) as nat, |j: int| (byte, end)));
            k = k + 1;
        }
        assert(map@.map_values(|p: (usize, usize)| (p.0 as int, p.1 as int)) =~= before.map_values(|p: (usize, usize)| (p.0 as int, p.1 as int)) + Seq::new(f@.len(), |j: int| (byte as int, end as int)));
        byte = end;
        i = i + 1;
    }
    assert(chars@.take(chars@.len() as int) =~= chars@);
    let ghost spec_map = map@.map_values(|p: (usize, usize)| (p.0 as int, p.1 as int));
    let mut out: Vec<(usize, usize)> = Vec::new();
    if needle.len() > 0 {
        proof { lemma_folded_lengths(text@, case_sensitive); }
        let mut offset: usize = 0;
        let mut done = false;
        assert(out@.map_values(|p: (usize, usize)| (p.0 as int, p.1 as int)) =~= Seq::<(int, int)>::empty());
        while offset < hay.len() && !done
            invariant
                offset <= hay@.len(),
                hay@.len() == map@.len(),
                needle@.len() > 0,
                spec_map == map@.map_values(|p: (usize, usize)| (p.0 as int, p.1 as int)),
                scan_ranges(Seq::empty(), hay@, spec_map, needle@, 0)
                    == scan_ranges(out@.map_values(|p: (usize, usize)| (p.0 as int, p.1 as int)), hay@, spec_map, needle@, offset as int),
                done ==> scan_ranges(out@.map_values(|p: (usize, usize)| (p.0 as int, p.1 as int)), hay@, spec_map, needle@, offset as int)
                    == out@.map_values(|p: (usize, usize)| (p.0 as int, p.1 as int)),
            decreases hay.len() - offset + (if done { 0int } else { 1int }),
        {
            let ghost out_view = out@.map_values(|p: (usize, usize)| (p.0 as int, p.1 as int));
            match find_from(&hay, &needle, offset) {
                None => {
                    assert(scan_ranges(out_view, hay@, spec_map, needle@, offset as int) == out_view);
                    done = true;
                },
                Some(start) => {
                    proof { lemma_first_occurrence_bounds(hay@, needle@, offset as int); }
                    let end = start + needle.len();
                    let first = map[start];
                    let last = map[end - 1];
                    if out.len() == 0 || out[out.len() - 1].1 < first.0 {
                        out.push((first.0, last.1));
                        assert(out@.map_values(|p: (usize, usize)| (p.0 as int, p.1 as int)) =~= merge_range(out_view, (first.0 as int, last.1 as int)));
                    } else {
                        let n = out.len() - 1;
                        let prior = out[n];
                        let merged_end = if prior.1 >= last.1 { prior.1 } else { last.1 };
                        out.set(n, (prior.0, merged_end));
                        assert(out@.map_values(|p: (usize, usize)| (p.0 as int, p.1 as int)) =~= merge_range(out_view, (first.0 as int, last.1 as int)));
                    }
                    offset = start + 1;
                },
            }
        }
        if !done {
            assert(first_occurrence_from(hay@, needle@, offset as int) is None);
        }
    }
    let mut result: Vec<std::ops::Range<usize>> = Vec::new();
    let mut j: usize = 0;
    while j < out.len()
        invariant
            j <= out@.len(),
            result@.len() == j,
            forall|k: int| 0 <= k < j ==> (#[trigger] result@[k]).start == out@[k].0 && result@[k].end == out@[k].1,
        decreases out.len() - j,
    {
        result.push(std::ops::Range { start: out[j].0, end: out[j].1 });
        j = j + 1;
    }
    assert(out@.map_values(|p: (usize, usize)| (p.0 as int, p.1 as int)) == match_ranges(text@, query@)) by {
        if needle@.len() == 0 {
            assert(out@.map_values(|p: (usize, usize)| (p.0 as int, p.1 as int)) =~= Seq::<(int, int)>::empty());
        }
    }
    result
}



/// Byte ranges in increasing order, each well formed, none touching the
/// next.
pub open spec fn ranges_separated(rs: Seq<(int, int)>) -> bool {
    &&& forall|i: int| 0 <= i < rs.len() ==> (#[trigger] rs[i]).0 <= rs[i].1
    &&& forall|i: int, j: int| 0 <= i < j < rs.len() ==> (#[trigger] rs[i]).1 < (#[trigger] rs[j]).0
}

/// Every compared character points back to a byte range of its character:
/// well formed, ending before the bytes still to come, and in text order.
spec fn map_ordered(map: Seq<(int, int)>, end: int) -> bool {
    &&& forall|k: int| 0 <= k < map.len() ==> 0 <= (#[trigger] map[k]).0 <= map[k].1 <= end
    &&& forall|i: int, j: int| 0 <= i <= j < map.len() ==> (#[trigger] map[i]).0 <= (#[trigger] map[j]).0
}

proof fn lemma_folded_ordered(s: Seq<char>, cs: bool)
    ensures
        map_ordered(folded_with_ranges(s, cs).1, folded_with_ranges(s, cs).2),
        0 <= folded_with_ranges(s, cs).2 <= usize::MAX,
    decreases s.len(),
{
    if s.len() > 0 {
        lemma_folded_ordered(s.drop_last(), cs);
        let (hay, ranges, byte) = folded_with_ranges(s.drop_last(), cs);
        let f = search_case(seq![s.last()], cs);
        let end = sat(byte + utf8_len(s.last()));
        let added = Seq::new(f.len(), |i: int| (byte, end));
        let map = ranges + added;
        assert forall|k: int| 0 <= k < map.len() implies 0 <= (#[trigger] map[k]).0 <= map[k].1 <= end by {
            if k >= ranges.len() {
                assert(map[k] == added[k - ranges.len()]);
            } else {
                assert(map[k] == ranges[k]);
            }
        }
        assert forall|i: int, j: int| 0 <= i <= j < map.len() implies (#[trigger] map[i]).0 <= (#[trigger] map[j]).0 by {
            if j >= ranges.len() {
                assert(map[j] == added[j - ranges.len()]);
                if i < ranges.len() {
                    assert(map[i] == ranges[i]);
                } else {
                    assert(map[i] == added[i - ranges.len()]);
                }
            } else {
                assert(map[i] == ranges[i]);
                assert(map[j] == ranges[j]);
            }
        }
    }
}

/// The scan keeps its ranges separated, every later match starting at or
/// after the last range's start.
proof fn lemma_scan_separated(out: Seq<(int, int)>, hay: Seq<char>, map: Seq<(int, int)>, needle: Seq<char>, from: int, end: int)
    requires
        map_ordered(map, end),
        map.len() == hay.len(),
        ranges_separated(out),
        out.len() > 0 ==> forall|k: int| from <= k < map.len() ==> out.last().0 <= (#[trigger] map[k]).0,
    ensures
        ranges_separated(scan_ranges(out, hay, map, needle, from)),
    decreases hay.len() - from,
{
    if needle.len() == 0 || from < 0 || from > hay.len() {
    } else {
        match first_occurrence_from(hay, needle, from) {
            Some(start) => if start >= from && start < hay.len() {
                let stop = start + needle.len();
                if stop <= map.len() {
                    let r = (map[start].0, map[stop - 1].1);
                    assert(map[start].0 <= map[stop - 1].0);
                    let out1 = merge_range(out, r);
                    if out.len() == 0 || out.last().1 < r.0 {
                        assert forall|i: int, j: int| 0 <= i < j < out1.len() implies (#[trigger] out1[i]).1 < (#[trigger] out1[j]).0 by {
                            if j == out.len() {
                                assert(out1[i] == out[i]);
                                assert(out[i].1 < out.last().0 || i == out.len() - 1);
                            } else {
                                assert(out1[i] == out[i] && out1[j] == out[j]);
                            }
                        }
                        assert forall|i: int| 0 <= i < out1.len() implies (#[trigger] out1[i]).0 <= out1[i].1 by {
                            if i < out.len() {
                                assert(out1[i] == out[i]);
                            }
                        }
                    } else {
                        let prior = out.last();
                        assert forall|i: int, j: int| 0 <= i < j < out1.len() implies (#[trigger] out1[i]).1 < (#[trigger] out1[j]).0 by {
                            assert(out1[i] == out[i]);
                            if j < out1.len() - 1 {
                                assert(out1[j] == out[j]);
                            } else {
                                assert(out1[j].0 == prior.0);
                                assert(out[j] == prior);
                            }
                        }
                        assert forall|i: int| 0 <= i < out1.len() implies (#[trigger] out1[i]).0 <= out1[i].1 by {
                            if i < out1.len() - 1 {
                                assert(out1[i] == out[i]);
                            } else {
                                assert(out[i] == prior);
                            }
                        }
                    }
                    assert(out1.len() > 0);
                    assert forall|k: int| start + 1 <= k < map.len() implies out1.last().0 <= (#[trigger] map[k]).0 by {
                        assert(map[start].0 <= map[k].0);
                        if !(out.len() == 0 || out.last().1 < r.0) {
                            assert(out.last().0 <= map[start].0);
                        }
                    }
                    lemma_scan_separated(out1, hay, map, needle, start + 1, end);
                } else {
                    if out.len() > 0 {
                        assert forall|k: int| start + 1 <= k < map.len() implies out.last().0 <= (#[trigger] map[k]).0 by {
                            assert(from <= k);
                        }
                    }
                    lemma_scan_separated(out, hay, map, needle, start + 1, end);
                }
            } else {
            },
            None => {},
        }
    }
}

/// The ranges a query covers in a text come in increasing order, each well
/// formed, and none touches the next: touching or overlapping matches are
/// merged into one.
pub proof fn lemma_match_ranges_separated(text: Seq<char>, query: Seq<char>)
    ensures
        ranges_separated(match_ranges(text, query)),
{
    let cs = has_uppercase(query);
    let needle = search_case(query, cs);
    let (hay, map, end) = folded_with_ranges(text, cs);
    lemma_folded_lengths(text, cs);
    lemma_folded_ordered(text, cs);
    if needle.len() > 0 {
        lemma_scan_separated(Seq::empty(), hay, map, needle, 0, end);
    }
}

} // verus!
