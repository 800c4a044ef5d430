//! The Outline of headings, in-document link targets, and the anchors that
//! keep the reading position across a Reload.
use crate::document::{Block, BlockKind, Document, HeadingLevel, InlineSpan};
use crate::layout::{pos_le, position_le, SemanticPosition};
use crate::text::{
    concat_all, display_width, text_width, all_space, all_whitespace, chars_eq, chars_of, graphemes, grapheme_clusters, is_space,
    is_whitespace, lowercase_text, push_all, string_of, to_lowercase,
};
use crate::document::decimal;
use vstd::prelude::*;

verus! {

/// One Outline entry: a heading's position, level and label.
#[derive(Clone, Debug, PartialEq, Eq)]
pub struct OutlineEntry {
    pub position: SemanticPosition,
    pub level: HeadingLevel,
    pub label: Vec<char>,
    pub collapsed: bool,
}

#[verifier::ext_equal]
pub struct EntryView {
    pub position: SemanticPosition,
    pub level: HeadingLevel,
    pub label: Seq<char>,
    pub collapsed: bool,
}

impl DeepView for OutlineEntry {
    type V = EntryView;

    open spec fn deep_view(&self) -> EntryView {
        EntryView { position: self.position, level: self.level, label: self.label@, collapsed: self.collapsed }
    }
}

/// The readable label of a heading: its text, images by their alt text.
pub open spec fn label_of(spans: Seq<InlineSpan>) -> Seq<char>
    decreases spans.len(),
{
    if spans.len() == 0 {
        Seq::empty()
    } else {
        let s = spans.last();
        label_of(spans.drop_last()) + match s.image {
            Some(image) => if image.alt_text@.len() == 0 { "(image)"@ } else { image.alt_text@ },
            None => s.text@,
        }
    }
}

fn outline_label(block: &Block) -> (r: Vec<char>)
    ensures
        r@ == label_of(block.spans@),
{
    let mut out: Vec<char> = Vec::new();
    let mut i: usize = 0;
    while i < block.spans.len()
        invariant
            i <= block.spans@.len(),
            out@ == label_of(block.spans@.take(i as int)),
        decreases block.spans.len() - i,
    {
        assert(block.spans@.take(i as int + 1).drop_last() =~= block.spans@.take(i as int));
        let span = &block.spans[i];
        match &span.image {
            Some(image) => {
                let alt = chars_of(image.alt_text.as_str());
                if alt.len() == 0 {
                    push_all(&mut out, &chars_of("(image)"));
                } else {
                    push_all(&mut out, &alt);
                }
            },
            None => push_all(&mut out, &chars_of(span.text.as_str())),
        }
        i = i + 1;
    }
    assert(block.spans@.take(block.spans@.len() as int) =~= block.spans@);
    out
}

/// The Outline: one entry per heading, in Document order, expanded.
pub open spec fn outline_of(blocks: Seq<Block>) -> Seq<EntryView>
    decreases blocks.len(),
{
    if blocks.len() == 0 {
        Seq::empty()
    } else {
        let b = blocks.last();
        outline_of(blocks.drop_last()) + match b.kind {
            BlockKind::Heading(level) => seq![EntryView {
                position: SemanticPosition { block: (blocks.len() - 1) as usize, grapheme: 0 },
                level,
                label: label_of(b.spans@),
                collapsed: false,
            }],
            _ => Seq::empty(),
        }
    }
}

/// The Outline is the Document's headings: it is empty exactly when the
/// Document has no heading, and each entry sits on the first grapheme of a
/// heading block.
pub proof fn lemma_outline_is_the_headings(blocks: Seq<Block>)
    requires
        blocks.len() <= usize::MAX,
    ensures
        (outline_of(blocks).len() > 0) <==> exists|b: int| 0 <= b < blocks.len() && (#[trigger] blocks[b]).kind is Heading,
        forall|i: int|
            0 <= i < outline_of(blocks).len() ==> {
                let p = (#[trigger] outline_of(blocks)[i]).position;
                &&& p.grapheme == 0
                &&& p.block < blocks.len()
                &&& blocks[p.block as int].kind is Heading
            },
    decreases blocks.len(),
{
    if blocks.len() > 0 {
        let d = blocks.drop_last();
        lemma_outline_is_the_headings(d);
        let o = outline_of(blocks);
        let od = outline_of(d);
        assert forall|i: int| 0 <= i < o.len() implies {
            let p = (#[trigger] o[i]).position;
            &&& p.grapheme == 0
            &&& p.block < blocks.len()
            &&& blocks[p.block as int].kind is Heading
        } by {
            if i < od.len() {
                assert(o[i] == od[i]);
                assert(blocks[od[i].position.block as int] == d[od[i].position.block as int]);
            } else {
                match blocks.last().kind {
                    BlockKind::Heading(level) => {
                        let e = EntryView {
                            position: SemanticPosition { block: (blocks.len() - 1) as usize, grapheme: 0 },
                            level,
                            label: label_of(blocks.last().spans@),
                            collapsed: false,
                        };
                        assert(o == od + seq![e]);
                        assert(o[i] == e);
                        assert(blocks[blocks.len() - 1] == blocks.last());
                    },
                    _ => {
                        assert(o.len() == od.len());
                    },
                }
            }
        }
        if exists|b: int| 0 <= b < blocks.len() && (#[trigger] blocks[b]).kind is Heading {
            let b = choose|b: int| 0 <= b < blocks.len() && (#[trigger] blocks[b]).kind is Heading;
            if b < d.len() {
                assert(d[b] == blocks[b]);
            }
        }
        if od.len() > 0 {
            let b = choose|b: int| 0 <= b < d.len() && (#[trigger] d[b]).kind is Heading;
            assert(blocks[b] == d[b]);
        }
    }
}

pub fn outline_entries(document: &Document) -> (r: Vec<OutlineEntry>)
    ensures
        r.deep_view() == outline_of(document.blocks@),
{
    let mut out: Vec<OutlineEntry> = Vec::new();
    let mut b: usize = 0;
    assert(out.deep_view() =~= outline_of(document.blocks@.take(0)));
    while b < document.blocks.len()
        invariant
            b <= document.blocks@.len(),
            out.deep_view() == outline_of(document.blocks@.take(b as int)),
        decreases document.blocks.len() - b,
    {
        assert(document.blocks@.take(b as int + 1).drop_last() =~= document.blocks@.take(b as int));
        let block = &document.blocks[b];
        let ghost o = out.deep_view();
        match block.kind {
            BlockKind::Heading(level) => {
                let e = OutlineEntry {
                    position: SemanticPosition { block: b, grapheme: 0 },
                    level,
                    label: outline_label(block),
                    collapsed: false,
                };
                out.push(e);
                assert(out.deep_view() =~= o.push(e.deep_view()));
            },
            _ => {
                assert(out.deep_view() =~= o + Seq::<EntryView>::empty());
            },
        }
        b = b + 1;
    }
    assert(document.blocks@.take(document.blocks@.len() as int) =~= document.blocks@);
    out
}

/// The chain of enclosing headings of each entry, by level and label.
pub open spec fn heading_paths_spec(outline: Seq<EntryView>) -> Seq<Seq<(HeadingLevel, Seq<char>)>> {
    heading_paths_fold(outline).0
}

pub open spec fn heading_paths_fold(outline: Seq<EntryView>) -> (Seq<Seq<(HeadingLevel, Seq<char>)>>, Seq<(HeadingLevel, Seq<char>)>)
    decreases outline.len(),
{
    if outline.len() == 0 {
        (Seq::empty(), Seq::empty())
    } else {
        let (paths, current) = heading_paths_fold(outline.drop_last());
        let e = outline.last();
        let kept = pop_deeper(current, e.level.spec_depth());
        let next = kept.push((e.level, e.label));
        (paths.push(next), next)
    }
}

/// There is one heading path per entry.
pub proof fn lemma_heading_paths_len(outline: Seq<EntryView>)
    ensures
        heading_paths_spec(outline).len() == outline.len(),
    decreases outline.len(),
{
    if outline.len() > 0 {
        lemma_heading_paths_len(outline.drop_last());
    }
}

/// Drops the trailing headings at or below a depth.
pub open spec fn pop_deeper(current: Seq<(HeadingLevel, Seq<char>)>, depth: nat) -> Seq<(HeadingLevel, Seq<char>)>
    decreases current.len(),
{
    if current.len() > 0 && current.last().0.spec_depth() >= depth {
        pop_deeper(current.drop_last(), depth)
    } else {
        current
    }
}

/// A heading path in executable form.
pub struct PathPart {
    pub level: HeadingLevel,
    pub label: Vec<char>,
}

impl DeepView for PathPart {
    type V = (HeadingLevel, Seq<char>);

    open spec fn deep_view(&self) -> (HeadingLevel, Seq<char>) {
        (self.level, self.label@)
    }
}

fn copy_path(path: &Vec<PathPart>) -> (r: Vec<PathPart>)
    ensures
        r.deep_view() == path.deep_view(),
{
    let mut out: Vec<PathPart> = Vec::new();
    let mut i: usize = 0;
    while i < path.len()
        invariant
            i <= path@.len(),
            out.deep_view() == path.deep_view().take(i as int),
        decreases path.len() - i,
    {
        let part = PathPart { level: path[i].level, label: path[i].label.clone() };
        let ghost o = out.deep_view();
        out.push(part);
        assert(out.deep_view() =~= o.push(part.deep_view()));
        assert(path.deep_view().take(i as int + 1) =~= path.deep_view().take(i as int).push(path@[i as int].deep_view()));
        i = i + 1;
    }
    assert(path.deep_view().take(path@.len() as int) =~= path.deep_view());
    out
}

pub fn heading_paths(outline: &Vec<OutlineEntry>) -> (r: Vec<Vec<PathPart>>)
    ensures
        r.deep_view() == heading_paths_spec(outline.deep_view()),
{
    let mut current: Vec<PathPart> = Vec::new();
    let mut paths: Vec<Vec<PathPart>> = Vec::new();
    let mut i: usize = 0;
    assert(outline.deep_view().take(0) =~= Seq::<EntryView>::empty());
    while i < outline.len()
        invariant
            i <= outline@.len(),
            heading_paths_fold(outline.deep_view().take(i as int)) == (paths.deep_view(), current.deep_view()),
        decreases outline.len() - i,
    {
        assert(outline.deep_view().take(i as int + 1).drop_last() =~= outline.deep_view().take(i as int));
        let entry = &outline[i];
        assert(outline.deep_view()[i as int] == entry.deep_view());
        let depth = entry.level.depth();
        let ghost c0 = current.deep_view();
        while current.len() > 0 && current[current.len() - 1].level.depth() >= depth
            invariant
                pop_deeper(c0, depth as nat) == pop_deeper(current.deep_view(), depth as nat),
            decreases current.len(),
        {
            let ghost c = current.deep_view();
            current.pop();
            assert(current.deep_view() =~= c.drop_last());
        }
        let ghost kept = current.deep_view();
        let part = PathPart { level: entry.level, label: entry.label.clone() };
        current.push(part);
        assert(current.deep_view() =~= kept.push(part.deep_view()));
        let snapshot = copy_path(&current);
        let ghost p0 = paths.deep_view();
        paths.push(snapshot);
        assert(paths.deep_view() =~= p0.push(current.deep_view()));
        i = i + 1;
    }
    assert(outline.deep_view().take(outline@.len() as int) =~= outline.deep_view());
    paths
}

/// The positions that belong to the section of entry `index`: from its
/// heading's block up to the next entry's block.
pub open spec fn section_positions(positions: Seq<SemanticPosition>, outline: Seq<EntryView>, index: int) -> Seq<SemanticPosition> {
    let start = outline[index].position.block;
    let end: int = if index + 1 < outline.len() { outline[index + 1].position.block as int } else { usize::MAX as int };
    positions.filter(|p: SemanticPosition| start <= p.block && (p.block as int) < end)
}

pub fn positions_in_section(positions: &Vec<SemanticPosition>, outline: &Vec<OutlineEntry>, index: usize) -> (r: Vec<SemanticPosition>)
    requires
        index < outline@.len(),
    ensures
        r@ == section_positions(positions@, outline.deep_view(), index as int),
{
    assert(outline.deep_view()[index as int] == outline@[index as int].deep_view());
    let n = outline.len();
    let start = outline[index].position.block;
    let end = if index + 1 < n {
        assert(outline.deep_view()[index as int + 1] == outline@[index as int + 1].deep_view());
        outline[index + 1].position.block
    } else {
        usize::MAX
    };
    let ghost pred = |p: SemanticPosition| start <= p.block && (p.block as int) < end;
    let mut out: Vec<SemanticPosition> = Vec::new();
    let mut i: usize = 0;
    while i < positions.len()
        invariant
            i <= positions@.len(),
            pred == (|p: SemanticPosition| start <= p.block && (p.block as int) < end),
            out@ == positions@.take(i as int).filter(pred),
        decreases positions.len() - i,
    {
        reveal_with_fuel(Seq::filter, 1);
        assert(positions@.take(i as int + 1).drop_last() =~= positions@.take(i as int));
        let p = positions[i];
        if start <= p.block && p.block < end {
            out.push(p);
        }
        i = i + 1;
    }
    assert(positions@.take(positions@.len() as int) =~= positions@);
    out
}

/// A position remembered by its rank among a sequence of positions.
#[derive(Clone, Copy, Debug, Default, PartialEq, Eq, Structural)]
pub struct RelativeAnchor {
    pub ordinal: usize,
    pub extent: usize,
}

/// How many positions are at or before the cursor.
pub open spec fn count_le(positions: Seq<SemanticPosition>, cursor: SemanticPosition) -> int
    decreases positions.len(),
{
    if positions.len() == 0 {
        0
    } else {
        count_le(positions.drop_last(), cursor) + if pos_le(positions.last(), cursor) { 1int } else { 0int }
    }
}

/// The rank of the last position at or before the cursor (positions sorted).
pub open spec fn anchor_of(positions: Seq<SemanticPosition>, cursor: Option<SemanticPosition>) -> RelativeAnchor {
    RelativeAnchor {
        ordinal: match cursor {
            Some(c) => (if count_le(positions, c) > 0 { count_le(positions, c) - 1 } else { 0 }) as usize,
            None => 0,
        },
        extent: positions.len() as usize,
    }
}

/// The position at the same relative rank in a new sequence, rounded.
pub open spec fn restore_spec(a: RelativeAnchor, positions: Seq<SemanticPosition>) -> Option<SemanticPosition> {
    if positions.len() == 0 {
        None
    } else {
        let ordinal: int = if a.extent <= 1 {
            0
        } else {
            let o = if a.ordinal <= a.extent - 1 { a.ordinal as int } else { a.extent - 1 };
            let scaled = crate::navigation::sat_add(crate::navigation::sat_mul(o, positions.len() - 1), (a.extent - 1) / 2);
            scaled / (a.extent - 1)
        };
        if 0 <= ordinal < positions.len() { Some(positions[ordinal]) } else { None }
    }
}

impl RelativeAnchor {
    /// Remembers the cursor by its rank among sorted positions.
    pub fn capture(positions: &Vec<SemanticPosition>, cursor: Option<SemanticPosition>) -> (r: RelativeAnchor)
        ensures
            r == anchor_of(positions@, cursor),
    {
        let ordinal = match cursor {
            Some(c) => {
                let mut count: usize = 0;
                let mut i: usize = 0;
                while i < positions.len()
                    invariant
                        i <= positions@.len(),
                        count as int == count_le(positions@.take(i as int), c),
                        count <= i,
                    decreases positions.len() - i,
                {
                    assert(positions@.take(i as int + 1).drop_last() =~= positions@.take(i as int));
                    if position_le(positions[i], c) {
                        count = count + 1;
                    }
                    i = i + 1;
                }
                assert(positions@.take(positions@.len() as int) =~= positions@);
                if count > 0 { count - 1 } else { 0 }
            },
            None => 0,
        };
        RelativeAnchor { ordinal, extent: positions.len() }
    }

    /// The position at the same relative rank among new positions.
    pub fn restore(self, positions: &Vec<SemanticPosition>) -> (r: Option<SemanticPosition>)
        ensures
            r == restore_spec(self, positions@),
    {
        if positions.len() == 0 {
            return None;
        }
        let ordinal = if self.extent <= 1 {
            0
        } else {
            let o = if self.ordinal <= self.extent - 1 { self.ordinal } else { self.extent - 1 };
            let scaled = crate::navigation::saturating_mul(o, positions.len() - 1).saturating_add((self.extent - 1) / 2);
            scaled / (self.extent - 1)
        };
        if ordinal < positions.len() { Some(positions[ordinal]) } else { None }
    }
}

/// The positions of the Document's visible graphemes, in Document order.
pub open spec fn logical_positions_spec(blocks: Seq<Block>) -> Seq<SemanticPosition>
    decreases blocks.len(),
{
    if blocks.len() == 0 {
        Seq::empty()
    } else {
        let b = (blocks.len() - 1) as usize;
        let gs = grapheme_clusters(blocks.last().text@);
        logical_positions_spec(blocks.drop_last()) + Seq::new(gs.len(), |i: int| SemanticPosition { block: b, grapheme: i as usize })
            .filter(|p: SemanticPosition| !all_space(gs[p.grapheme as int]))
    }
}

pub fn logical_positions(document: &Document) -> (r: Vec<SemanticPosition>)
    ensures
        r@ == logical_positions_spec(document.blocks@),
{
    let mut out: Vec<SemanticPosition> = Vec::new();
    let mut b: usize = 0;
    assert(out@ =~= logical_positions_spec(document.blocks@.take(0)));
    while b < document.blocks.len()
        invariant
            b <= document.blocks@.len(),
            out@ == logical_positions_spec(document.blocks@.take(b as int)),
        decreases document.blocks.len() - b,
    {
        assert(document.blocks@.take(b as int + 1).drop_last() =~= document.blocks@.take(b as int));
        let gs = graphemes(document.blocks[b].text.as_str());
        let ghost v = gs.deep_view();
        let ghost all = Seq::new(v.len(), |i: int| SemanticPosition { block: b, grapheme: i as usize });
        let ghost pred = |p: SemanticPosition| !all_space(v[p.grapheme as int]);
        let ghost base = out@;
        let mut k: usize = 0;
        while k < gs.len()
            invariant
                k <= gs@.len(),
                v == gs.deep_view(),
                all == Seq::new(v.len(), |i: int| SemanticPosition { block: b, grapheme: i as usize }),
                pred == (|p: SemanticPosition| !all_space(v[p.grapheme as int])),
                out@ == base + all.take(k as int).filter(pred),
            decreases gs.len() - k,
        {
            reveal_with_fuel(Seq::filter, 1);
            assert(all.take(k as int + 1).drop_last() =~= all.take(k as int));
            assert(gs@[k as int]@ == v[k as int]);
            if !all_whitespace(&gs[k]) {
                out.push(SemanticPosition { block: b, grapheme: k });
            }
            assert(out@ =~= base + all.take(k as int + 1).filter(pred));
            k = k + 1;
        }
        assert(all.take(gs@.len() as int) =~= all);
        b = b + 1;
    }
    assert(document.blocks@.take(document.blocks@.len() as int) =~= document.blocks@);
    out
}


/// How many leading graphemes fit, one after another, into `limit` columns.
pub open spec fn fitting_graphemes(gs: Seq<Seq<char>>, limit: int) -> nat
    decreases gs.len(),
{
    if gs.len() == 0 || display_width(gs[0]) > limit {
        0
    } else {
        1 + fitting_graphemes(gs.drop_first(), limit - display_width(gs[0]))
    }
}

/// An Outline row's text: the prefix, then the label when it fits in the
/// pane's width, else as many of its leading graphemes as leave one column
/// for an ellipsis, then the ellipsis.
pub open spec fn outline_row_text(prefix: Seq<char>, label: Seq<char>, width: u16) -> Seq<char> {
    let available: int = if display_width(prefix) <= width { width - display_width(prefix) } else { 0 };
    if display_width(label) <= available {
        prefix + label
    } else if available == 0 {
        prefix
    } else {
        let gs = grapheme_clusters(label);
        prefix + concat_all(gs.take(fitting_graphemes(gs, available - 1) as int)) + seq!['\u{2026}']
    }
}

proof fn lemma_concat_take_push(gs: Seq<Seq<char>>, i: int)
    requires
        0 <= i < gs.len(),
    ensures
        concat_all(gs.take(i + 1)) == concat_all(gs.take(i)) + gs[i],
{
    assert(gs.take(i + 1).drop_last() =~= gs.take(i));
}

/// Fits an Outline row into the pane: `prefix` and `label`, the label cut
/// short with an ellipsis when the row would be wider than `width`.
pub fn ellipsize_outline_label(prefix: &str, label: &str, width: u16) -> (r: String)
    ensures
        r@ == outline_row_text(prefix@, label@, width),
{
    let prefix_chars = chars_of(prefix);
    let label_chars = chars_of(label);
    let prefix_width = text_width(&prefix_chars);
    let available: usize = if prefix_width <= width as usize { width as usize - prefix_width } else { 0 };
    let mut out = prefix_chars.clone();
    if text_width(&label_chars) <= available {
        push_all(&mut out, &label_chars);
        return string_of(&out);
    }
    if available == 0 {
        return string_of(&out);
    }
    let label_width = available - 1;
    let gs = graphemes(label);
    let ghost all = gs.deep_view();
    let mut used: usize = 0;
    let mut i: usize = 0;
    assert(all.skip(0) =~= all);
    assert(all.take(0) =~= Seq::<Seq<char>>::empty());
    while i < gs.len()
        invariant_except_break
            i <= gs.len(),
            all == gs.deep_view(),
            used <= label_width,
            label_width < 0x10000,
            fitting_graphemes(all, label_width as int) == i + fitting_graphemes(all.skip(i as int), label_width - used),
            out@ == prefix@ + concat_all(all.take(i as int)),
        ensures
            i <= gs.len(),
            fitting_graphemes(all, label_width as int) == i,
            out@ == prefix@ + concat_all(all.take(i as int)),
        decreases gs.len() - i,
    {
        let w = text_width(&gs[i]);
        assert(all.skip(i as int)[0] == all[i as int]);
        assert(gs[i as int]@ == all[i as int]);
        if w > label_width - used {
            break;
        }
        proof {
            assert(all.skip(i as int).drop_first() =~= all.skip(i as int + 1));
            lemma_concat_take_push(all, i as int);
        }
        push_all(&mut out, &gs[i]);
        used = used + w;
        i = i + 1;
    }
    proof {
        if i == gs.len() {
            assert(all.skip(i as int).len() == 0);
        }
    }
    out.push('\u{2026}');
    string_of(&out)
}

} // verus!
