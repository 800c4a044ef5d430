//! Links: heading fragments in GitHub's style, footnote targets, and what
//! a link under the Reading Cursor points to.
use crate::copy::table_cells;
use crate::document::{decimal, decimal_chars, Block, BlockKind, Document, InlineSpan, TableCell};
use crate::layout::{sat, SemanticPosition};
use crate::text::{
    chars_eq, chars_of, graphemes, grapheme_clusters, is_space, is_whitespace, lowercase_text,
    push_all, to_lowercase,
};
use vstd::prelude::*;

verus! {

pub open spec fn starts_with(s: Seq<char>, prefix: Seq<char>) -> bool {
    prefix.len() <= s.len() && s.take(prefix.len() as int) == prefix
}

pub fn has_prefix(s: &Vec<char>, prefix: &Vec<char>) -> (r: bool)
    ensures
        r == starts_with(s@, prefix@),
{
    if prefix.len() > s.len() {
        return false;
    }
    let mut i: usize = 0;
    while i < prefix.len()
        invariant
            i <= prefix@.len(),
            prefix@.len() <= s@.len(),
            forall|j: int| 0 <= j < i ==> s@[j] == prefix@[j],
        decreases prefix.len() - i,
    {
        if s[i] != prefix[i] {
            assert(s@.take(prefix@.len() as int)[i as int] != prefix@[i as int]);
            return false;
        }
        i = i + 1;
    }
    assert(s@.take(prefix@.len() as int) =~= prefix@);
    true
}

/// A link that names a local file rather than a scheme or a fragment.
pub open spec fn relative_path(t: Seq<char>) -> bool {
    starts_with(t, "./"@) || starts_with(t, "../"@) || starts_with(t, "/"@) || (!t.contains(':')
        && !starts_with(t, "#"@))
}

pub fn looks_like_relative_path(target: &Vec<char>) -> (r: bool)
    ensures
        r == relative_path(target@),
{
    if has_prefix(target, &chars_of("./")) || has_prefix(target, &chars_of("../")) || has_prefix(target, &chars_of("/")) {
        return true;
    }
    let mut i: usize = 0;
    while i < target.len()
        invariant
            i <= target@.len(),
            forall|j: int| 0 <= j < i ==> target@[j] != ':',
            !starts_with(target@, "./"@),
            !starts_with(target@, "../"@),
            !starts_with(target@, "/"@),
        decreases target.len() - i,
    {
        if target[i] == ':' {
            assert(target@.contains(':'));
            return false;
        }
        i = i + 1;
    }
    assert(!target@.contains(':'));
    !has_prefix(target, &chars_of("#"))
}

/// Characters that GitHub keeps in heading anchors.
pub open spec fn slug_keeps(c: char) -> bool {
    let v = c as u32;
    !((0x2000 <= v && v <= 0x206f) || (0x2e00 <= v && v <= 0x2e7f)) && !(c == '\'' || c == '!' || c == '"'
        || c == '#' || c == '$' || c == '%' || c == '&' || c == '(' || c == ')' || c == '*' || c == '+'
        || c == ',' || c == '.' || c == '/' || c == ':' || c == ';' || c == '<' || c == '=' || c == '>'
        || c == '?' || c == '@' || c == '[' || c == '\\' || c == ']' || c == '^' || c == '`' || c == '{'
        || c == '|' || c == '}' || c == '~')
}

pub fn github_slug_keeps(c: char) -> (r: bool)
    ensures
        r == slug_keeps(c),
{
    let v = c as u32;
    !((0x2000 <= v && v <= 0x206f) || (0x2e00 <= v && v <= 0x2e7f)) && !(c == '\'' || c == '!' || c == '"'
        || c == '#' || c == '$' || c == '%' || c == '&' || c == '(' || c == ')' || c == '*' || c == '+'
        || c == ',' || c == '.' || c == '/' || c == ':' || c == ';' || c == '<' || c == '=' || c == '>'
        || c == '?' || c == '@' || c == '[' || c == '\\' || c == ']' || c == '^' || c == '`' || c == '{'
        || c == '|' || c == '}' || c == '~')
}

/// Slug of lowercased text: white space becomes `-`, punctuation is dropped.
pub open spec fn slug_chars(s: Seq<char>) -> Seq<char>
    decreases s.len(),
{
    if s.len() == 0 {
        Seq::empty()
    } else {
        let c = s.last();
        slug_chars(s.drop_last()) + if is_space(c) {
            seq!['-']
        } else if slug_keeps(c) {
            seq![c]
        } else {
            Seq::empty()
        }
    }
}

/// GitHub's heading anchor of a text.
pub open spec fn heading_slug(text: Seq<char>) -> Seq<char> {
    slug_chars(lowercase_text(text))
}

pub fn github_heading_slug(text: &Vec<char>) -> (r: Vec<char>)
    ensures
        r@ == heading_slug(text@),
{
    let lower = to_lowercase(text);
    let mut slug: Vec<char> = Vec::new();
    let mut i: usize = 0;
    while i < lower.len()
        invariant
            i <= lower@.len(),
            slug@ == slug_chars(lower@.take(i as int)),
        decreases lower.len() - i,
    {
        assert(lower@.take(i as int + 1).drop_last() =~= lower@.take(i as int));
        let c = lower[i];
        if is_whitespace(c) {
            slug.push('-');
        } else if github_slug_keeps(c) {
            slug.push(c);
        }
        assert(slug@ =~= slug_chars(lower@.take(i as int + 1)));
        i = i + 1;
    }
    assert(lower@.take(lower@.len() as int) =~= lower@);
    slug
}

/// The counts of slugs handed out so far: an association list in which a
/// later entry for a key replaces the earlier one.
pub open spec fn count_of(counts: Seq<(Seq<char>, usize)>, key: Seq<char>) -> Option<usize>
    decreases counts.len(),
{
    if counts.len() == 0 {
        None
    } else if counts.last().0 == key {
        Some(counts.last().1)
    } else {
        count_of(counts.drop_last(), key)
    }
}

/// `base-n`.
pub open spec fn numbered(base: Seq<char>, n: nat) -> Seq<char> {
    base + seq!['-'] + decimal(n)
}

/// Searching for a free slug: `base`, then `base-1`, `base-2`, ... as the
/// counter for `base` advances.
pub open spec fn free_slug(counts: Seq<(Seq<char>, usize)>, base: Seq<char>, slug: Seq<char>) -> (Seq<(Seq<char>, usize)>, Seq<char>)
    decreases usize::MAX - (match count_of(counts, base) { Some(n) => n as int, None => 0int }),
{
    if count_of(counts, slug) is Some {
        let current: int = match count_of(counts, base) { Some(n) => n as int, None => 0 };
        if current >= usize::MAX {
            (counts, slug)
        } else {
            let next = (current + 1) as usize;
            free_slug(counts.push((base, next)), base, numbered(base, next as nat))
        }
    } else {
        (counts, slug)
    }
}

/// The unique slug handed out for a heading, and the counts after it.
pub open spec fn unique_slug(counts: Seq<(Seq<char>, usize)>, base: Seq<char>) -> (Seq<(Seq<char>, usize)>, Seq<char>) {
    let (c, slug) = free_slug(counts, base, base);
    (c.push((slug, 0usize)), slug)
}

/// A slug count in executable form.
#[derive(Debug)]
pub struct SlugCount {
    pub slug: Vec<char>,
    pub count: usize,
}

impl DeepView for SlugCount {
    type V = (Seq<char>, usize);

    open spec fn deep_view(&self) -> (Seq<char>, usize) {
        (self.slug@, self.count)
    }
}

fn lookup_count(counts: &Vec<SlugCount>, key: &Vec<char>) -> (r: Option<usize>)
    ensures
        r == count_of(counts.deep_view(), key@),
{
    let mut i = counts.len();
    assert(counts.deep_view().take(i as int) =~= counts.deep_view());
    while i > 0
        invariant
            i <= counts@.len(),
            count_of(counts.deep_view(), key@) == count_of(counts.deep_view().take(i as int), key@),
        decreases i,
    {
        assert(counts.deep_view().take(i as int).drop_last() =~= counts.deep_view().take(i as int - 1));
        assert(counts.deep_view()[i as int - 1] == counts@[i as int - 1].deep_view());
        if chars_eq(&counts[i - 1].slug, key) {
            return Some(counts[i - 1].count);
        }
        i = i - 1;
    }
    None
}

fn push_count(counts: &mut Vec<SlugCount>, slug: &Vec<char>, count: usize)
    ensures
        final(counts).deep_view() == old(counts).deep_view().push((slug@, count)),
{
    let ghost c = counts.deep_view();
    let e = SlugCount { slug: slug.clone(), count };
    counts.push(e);
    assert(counts.deep_view() =~= c.push((slug@, count)));
}

/// Hands out `base`, or `base-N` for the next free `N`, and records it.
pub fn unique_heading_slug(base: &Vec<char>, counts: &mut Vec<SlugCount>) -> (r: Vec<char>)
    ensures
        (final(counts).deep_view(), r@) == unique_slug(old(counts).deep_view(), base@),
{
    let mut slug = base.clone();
    let ghost c0 = counts.deep_view();
    loop
        invariant
            free_slug(c0, base@, base@) == free_slug(counts.deep_view(), base@, slug@),
        ensures
            free_slug(c0, base@, base@) == (counts.deep_view(), slug@),
        decreases usize::MAX - (match count_of(counts.deep_view(), base@) { Some(n) => n as int, None => 0int }),
    {
        if lookup_count(counts, &slug).is_none() {
            break;
        }
        let current = match lookup_count(counts, base) { Some(n) => n, None => 0 };
        if current >= usize::MAX {
            break;
        }
        let next = current + 1;
        push_count(counts, base, next);
        let mut numbered_slug = base.clone();
        numbered_slug.push('-');
        push_all(&mut numbered_slug, &decimal_chars(next as u64));
        assert(numbered_slug@ =~= numbered(base@, next as nat));
        slug = numbered_slug;
    }
    push_count(counts, &slug, 0);
    slug
}

/// A fragment target: a slug and where it leads.
#[derive(Debug)]
pub struct FragmentTarget {
    pub key: Vec<char>,
    pub position: SemanticPosition,
}

impl DeepView for FragmentTarget {
    type V = (Seq<char>, SemanticPosition);

    open spec fn deep_view(&self) -> (Seq<char>, SemanticPosition) {
        (self.key@, self.position)
    }
}

/// Where a fragment leads: the first target recorded under its key.
pub open spec fn target_of(targets: Seq<(Seq<char>, SemanticPosition)>, key: Seq<char>) -> Option<SemanticPosition>
    decreases targets.len(),
{
    if targets.len() == 0 {
        None
    } else {
        match target_of(targets.drop_last(), key) {
            Some(p) => Some(p),
            None => if targets.last().0 == key { Some(targets.last().1) } else { None },
        }
    }
}

/// Records a target unless its key already has one.
pub open spec fn or_insert(targets: Seq<(Seq<char>, SemanticPosition)>, key: Seq<char>, p: SemanticPosition) -> Seq<(Seq<char>, SemanticPosition)> {
    if target_of(targets, key) is Some { targets } else { targets.push((key, p)) }
}

pub fn lookup_target(targets: &Vec<FragmentTarget>, key: &Vec<char>) -> (r: Option<SemanticPosition>)
    ensures
        r == target_of(targets.deep_view(), key@),
{
    let mut i: usize = 0;
    while i < targets.len()
        invariant
            i <= targets@.len(),
            target_of(targets.deep_view().take(i as int), key@) is None,
        decreases targets.len() - i,
    {
        assert(targets.deep_view().take(i as int + 1).drop_last() =~= targets.deep_view().take(i as int));
        assert(targets.deep_view()[i as int] == targets@[i as int].deep_view());
        if chars_eq(&targets[i].key, key) {
            proof { lemma_target_prefix(targets.deep_view(), i as int + 1, key@); }
            return Some(targets[i].position);
        }
        i = i + 1;
    }
    assert(targets.deep_view().take(targets@.len() as int) =~= targets.deep_view());
    None
}

proof fn lemma_target_prefix(t: Seq<(Seq<char>, SemanticPosition)>, k: int, key: Seq<char>)
    requires
        0 <= k <= t.len(),
        target_of(t.take(k), key) is Some,
    ensures
        target_of(t, key) == target_of(t.take(k), key),
    decreases t.len(),
{
    if k == t.len() {
        assert(t.take(k) =~= t);
    } else {
        assert(t.drop_last().take(k) =~= t.take(k));
        lemma_target_prefix(t.drop_last(), k, key);
    }
}

fn insert_target(targets: &mut Vec<FragmentTarget>, key: Vec<char>, p: SemanticPosition)
    ensures
        final(targets).deep_view() == or_insert(old(targets).deep_view(), key@, p),
{
    if lookup_target(targets, &key).is_none() {
        let ghost t = targets.deep_view();
        let e = FragmentTarget { key, position: p };
        targets.push(e);
        assert(targets.deep_view() =~= t.push(e.deep_view()));
    }
}

/// Graphemes a span takes in a block: one for an image, else its text's.
pub open spec fn span_count(span: InlineSpan) -> int {
    if span.image is Some { 1 } else { grapheme_clusters(span.text@).len() as int }
}

pub fn span_grapheme_count(span: &InlineSpan) -> (r: usize)
    ensures
        r as int == span_count(*span),
{
    if span.image.is_some() { 1 } else { graphemes(span.text.as_str()).len() }
}

/// A fragment collection state: the targets so far and the grapheme that
/// the next span starts at.
pub type TargetState = (Seq<(Seq<char>, SemanticPosition)>, int);

/// The footnote target that one span's link adds, and where the next span starts.
pub open spec fn span_targets(state: TargetState, span: InlineSpan, block: usize) -> TargetState {
    let (t, g) = state;
    let p = SemanticPosition { block, grapheme: g as usize };
    let t2 = match span.link_target {
        Some(target) => if starts_with(target@, "#fn-"@) {
            or_insert(t, "fnref-"@ + lowercase_text(target@.skip("#fn-"@.len() as int)), p)
        } else if starts_with(target@, "#fnref-"@) {
            or_insert(t, "fn-"@ + lowercase_text(target@.skip("#fnref-"@.len() as int)), p)
        } else {
            t
        },
        None => t,
    };
    (t2, sat(g + span_count(span)))
}

pub open spec fn spans_targets(state: TargetState, spans: Seq<InlineSpan>, block: usize) -> TargetState
    decreases spans.len(),
{
    if spans.len() == 0 {
        state
    } else {
        span_targets(spans_targets(state, spans.drop_last(), block), spans.last(), block)
    }
}

pub open spec fn cells_targets(state: TargetState, cells: Seq<TableCell>, block: usize) -> TargetState
    decreases cells.len(),
{
    if cells.len() == 0 {
        state
    } else {
        spans_targets(cells_targets(state, cells.drop_last(), block), cells.last().spans@, block)
    }
}

/// The footnote targets of a block's links; a table's cells are read in row order.
pub open spec fn block_targets(t: Seq<(Seq<char>, SemanticPosition)>, b: Block, block: usize) -> Seq<(Seq<char>, SemanticPosition)> {
    match b.table {
        Some(table) => cells_targets((t, 0), table_cells(table.rows@), block).0,
        None => spans_targets((t, 0), b.spans@, block).0,
    }
}

/// The state of collecting fragment targets over the first blocks: the
/// targets and the heading slug counts.
pub open spec fn targets_fold(blocks: Seq<Block>) -> (Seq<(Seq<char>, SemanticPosition)>, Seq<(Seq<char>, usize)>)
    decreases blocks.len(),
{
    if blocks.len() == 0 {
        (Seq::empty(), Seq::empty())
    } else {
        let (t0, c0) = targets_fold(blocks.drop_last());
        let b = blocks.last();
        let index = (blocks.len() - 1) as usize;
        let (t1, c1) = match b.kind {
            BlockKind::Heading(_) => {
                let (c, slug) = unique_slug(c0, heading_slug(b.text@));
                (or_insert(t0, slug, SemanticPosition { block: index, grapheme: 0 }), c)
            },
            _ => (t0, c0),
        };
        (block_targets(t1, b, index), c1)
    }
}

/// In-document link targets: GitHub heading anchors and footnote pairs.
pub open spec fn fragment_targets_spec(blocks: Seq<Block>) -> Seq<(Seq<char>, SemanticPosition)> {
    targets_fold(blocks).0
}

/// The characters of `s` from index `n` on.
pub fn suffix_from(s: &Vec<char>, n: usize) -> (r: Vec<char>)
    requires
        n <= s@.len(),
    ensures
        r@ == s@.skip(n as int),
{
    let mut out: Vec<char> = Vec::new();
    let mut i: usize = n;
    while i < s.len()
        invariant
            n <= i <= s@.len(),
            out@ == s@.subrange(n as int, i as int),
        decreases s.len() - i,
    {
        out.push(s[i]);
        i = i + 1;
        assert(out@ =~= s@.subrange(n as int, i as int));
    }
    assert(out@ =~= s@.skip(n as int));
    out
}

fn add_span_targets(targets: &mut Vec<FragmentTarget>, span: &InlineSpan, block: usize, g: usize) -> (r: usize)
    ensures
        (final(targets).deep_view(), r as int) == span_targets((old(targets).deep_view(), g as int), *span, block),
{
    let count = span_grapheme_count(span);
    let p = SemanticPosition { block, grapheme: g };
    match &span.link_target {
        Some(target) => {
            let t = chars_of(target.as_str());
            let fn_prefix = chars_of("#fn-");
            let fnref_prefix = chars_of("#fnref-");
            if has_prefix(&t, &fn_prefix) {
                let label = to_lowercase(&suffix_from(&t, fn_prefix.len()));
                let mut key = chars_of("fnref-");
                push_all(&mut key, &label);
                insert_target(targets, key, p);
            } else if has_prefix(&t, &fnref_prefix) {
                let label = to_lowercase(&suffix_from(&t, fnref_prefix.len()));
                let mut key = chars_of("fn-");
                push_all(&mut key, &label);
                insert_target(targets, key, p);
            }
        },
        None => {},
    }
    g.saturating_add(count)
}

fn add_spans_targets(targets: &mut Vec<FragmentTarget>, spans: &Vec<InlineSpan>, block: usize, g: usize) -> (r: usize)
    ensures
        (final(targets).deep_view(), r as int) == spans_targets((old(targets).deep_view(), g as int), spans@, block),
{
    let ghost t0 = targets.deep_view();
    let mut grapheme = g;
    let mut k: usize = 0;
    while k < spans.len()
        invariant
            k <= spans@.len(),
            (targets.deep_view(), grapheme as int) == spans_targets((t0, g as int), spans@.take(k as int), block),
        decreases spans.len() - k,
    {
        assert(spans@.take(k as int + 1).drop_last() =~= spans@.take(k as int));
        grapheme = add_span_targets(targets, &spans[k], block, grapheme);
        k = k + 1;
    }
    assert(spans@.take(spans@.len() as int) =~= spans@);
    grapheme
}

fn add_block_targets(targets: &mut Vec<FragmentTarget>, b: &Block, block: usize)
    ensures
        final(targets).deep_view() == block_targets(old(targets).deep_view(), *b, block),
{
    match &b.table {
        Some(table) => {
            let ghost t0 = targets.deep_view();
            let mut grapheme: usize = 0;
            let mut ri: usize = 0;
            assert(table_cells(table.rows@.take(0)) =~= Seq::<TableCell>::empty());
            while ri < table.rows.len()
                invariant
                    ri <= table.rows@.len(),
                    (targets.deep_view(), grapheme as int) == cells_targets((t0, 0), table_cells(table.rows@.take(ri as int)), block),
                decreases table.rows.len() - ri,
            {
                assert(table.rows@.take(ri as int + 1).drop_last() =~= table.rows@.take(ri as int));
                let ghost before = table_cells(table.rows@.take(ri as int));
                let row = &table.rows[ri];
                let mut ci: usize = 0;
                assert(before + row.cells@.take(0) =~= before);
                while ci < row.cells.len()
                    invariant
                        ci <= row.cells@.len(),
                        (targets.deep_view(), grapheme as int) == cells_targets((t0, 0), before + row.cells@.take(ci as int), block),
                    decreases row.cells.len() - ci,
                {
                    assert((before + row.cells@.take(ci as int + 1)).drop_last() =~= before + row.cells@.take(ci as int));
                    grapheme = add_spans_targets(targets, &row.cells[ci].spans, block, grapheme);
                    ci = ci + 1;
                }
                assert(before + row.cells@.take(row.cells@.len() as int) =~= table_cells(table.rows@.take(ri as int + 1)));
                ri = ri + 1;
            }
            assert(table.rows@.take(table.rows@.len() as int) =~= table.rows@);
        },
        None => {
            add_spans_targets(targets, &b.spans, block, 0);
        },
    }
}

/// The in-document link targets of a document: each heading's GitHub
/// anchor (made unique with `-1`, `-2`, ...) leads to the heading, and a
/// footnote reference and its definition lead to each other.
pub fn fragment_targets(document: &Document) -> (r: Vec<FragmentTarget>)
    requires
        document.blocks@.len() <= usize::MAX,
    ensures
        r.deep_view() == fragment_targets_spec(document.blocks@),
{
    let mut targets: Vec<FragmentTarget> = Vec::new();
    let mut counts: Vec<SlugCount> = Vec::new();
    let mut i: usize = 0;
    assert(targets.deep_view() =~= Seq::<(Seq<char>, SemanticPosition)>::empty());
    assert(counts.deep_view() =~= Seq::<(Seq<char>, usize)>::empty());
    while i < document.blocks.len()
        invariant
            i <= document.blocks@.len(),
            (targets.deep_view(), counts.deep_view()) == targets_fold(document.blocks@.take(i as int)),
        decreases document.blocks.len() - i,
    {
        assert(document.blocks@.take(i as int + 1).drop_last() =~= document.blocks@.take(i as int));
        let b = &document.blocks[i];
        match b.kind {
            BlockKind::Heading(_) => {
                let base = github_heading_slug(&chars_of(b.text.as_str()));
                let slug = unique_heading_slug(&base, &mut counts);
                insert_target(&mut targets, slug, SemanticPosition { block: i, grapheme: 0 });
            },
            _ => {},
        }
        add_block_targets(&mut targets, b, i);
        i = i + 1;
    }
    assert(document.blocks@.take(document.blocks@.len() as int) =~= document.blocks@);
    targets
}

/// Looking for the span under a grapheme: `Some(link)` once a span covers
/// it, with the grapheme that the next span starts at.
pub type HitState = (Option<Option<Seq<char>>>, int);

pub open spec fn span_hit(state: HitState, span: InlineSpan, cursor: int) -> HitState {
    match state.0 {
        Some(_) => state,
        None => {
            let end = sat(state.1 + span_count(span));
            if state.1 <= cursor < end {
                (Some(match span.link_target { Some(t) => Some(t@), None => None }), end)
            } else {
                (None, end)
            }
        },
    }
}

pub open spec fn spans_hit(state: HitState, spans: Seq<InlineSpan>, cursor: int) -> HitState
    decreases spans.len(),
{
    if spans.len() == 0 { state } else { span_hit(spans_hit(state, spans.drop_last(), cursor), spans.last(), cursor) }
}

/// Table cells are searched in row order, each from its own grapheme offset.
pub open spec fn cells_hit(found: Option<Option<Seq<char>>>, cells: Seq<TableCell>, cursor: int) -> Option<Option<Seq<char>>>
    decreases cells.len(),
{
    if cells.len() == 0 {
        found
    } else {
        match cells_hit(found, cells.drop_last(), cursor) {
            Some(x) => Some(x),
            None => spans_hit((None, cells.last().grapheme_offset as int), cells.last().spans@, cursor).0,
        }
    }
}

/// The link target of the span under a position, if a span with a link covers it.
pub open spec fn link_at(blocks: Seq<Block>, p: SemanticPosition) -> Option<Seq<char>> {
    if p.block >= blocks.len() {
        None
    } else {
        let b = blocks[p.block as int];
        let hit = match b.table {
            Some(table) => cells_hit(None, table_cells(table.rows@), p.grapheme as int),
            None => spans_hit((None, 0), b.spans@, p.grapheme as int).0,
        };
        match hit { Some(Some(t)) => Some(t), _ => None }
    }
}

fn find_span_hit(spans: &Vec<InlineSpan>, start: usize, cursor: usize) -> (r: Option<Option<String>>)
    ensures
        match (r, spans_hit((None, start as int), spans@, cursor as int).0) {
            (None, None) => true,
            (Some(None), Some(None)) => true,
            (Some(Some(s)), Some(Some(t))) => s@ == t,
            _ => false,
        },
{
    let mut found: Option<Option<String>> = None;
    let mut grapheme = start;
    let mut k: usize = 0;
    while k < spans.len()
        invariant
            k <= spans@.len(),
            ({
                let st = spans_hit((None, start as int), spans@.take(k as int), cursor as int);
                &&& (found is None <==> st.0 is None)
                &&& (found is Some ==> (found->0 is None <==> st.0->0 is None))
                &&& (found is Some && found->0 is Some ==> found->0->0@ == st.0->0->0)
                &&& (found is None ==> grapheme as int == st.1)
            }),
        decreases spans.len() - k,
    {
        assert(spans@.take(k as int + 1).drop_last() =~= spans@.take(k as int));
        if found.is_none() {
            let span = &spans[k];
            let end = grapheme.saturating_add(span_grapheme_count(span));
            if grapheme <= cursor && cursor < end {
                found = Some(match &span.link_target { Some(t) => Some(t.clone()), None => None });
            }
            grapheme = end;
        }
        k = k + 1;
    }
    assert(spans@.take(spans@.len() as int) =~= spans@);
    found
}

/// The link target of the span under `cursor`, if it has one.
pub fn link_target_at_position(document: &Document, cursor: SemanticPosition) -> (r: Option<String>)
    ensures
        r is Some <==> link_at(document.blocks@, cursor) is Some,
        r is Some ==> r->0@ == link_at(document.blocks@, cursor)->0,
{
    if cursor.block >= document.blocks.len() {
        return None;
    }
    let b = &document.blocks[cursor.block];
    let hit = match &b.table {
        Some(table) => {
            let mut found: Option<Option<String>> = None;
            let mut ri: usize = 0;
            assert(table_cells(table.rows@.take(0)) =~= Seq::<TableCell>::empty());
            while ri < table.rows.len()
                invariant
                    ri <= table.rows@.len(),
                    ({
                        let st = cells_hit(None, table_cells(table.rows@.take(ri as int)), cursor.grapheme as int);
                        &&& (found is None <==> st is None)
                        &&& (found is Some ==> (found->0 is None <==> st->0 is None))
                        &&& (found is Some && found->0 is Some ==> found->0->0@ == st->0->0)
                    }),
                decreases table.rows.len() - ri,
            {
                assert(table.rows@.take(ri as int + 1).drop_last() =~= table.rows@.take(ri as int));
                let ghost before = table_cells(table.rows@.take(ri as int));
                let row = &table.rows[ri];
                let mut ci: usize = 0;
                assert(before + row.cells@.take(0) =~= before);
                while ci < row.cells.len()
                    invariant
                        ci <= row.cells@.len(),
                        ({
                            let st = cells_hit(None, before + row.cells@.take(ci as int), cursor.grapheme as int);
                            &&& (found is None <==> st is None)
                            &&& (found is Some ==> (found->0 is None <==> st->0 is None))
                            &&& (found is Some && found->0 is Some ==> found->0->0@ == st->0->0)
                        }),
                    decreases row.cells.len() - ci,
                {
                    assert((before + row.cells@.take(ci as int + 1)).drop_last() =~= before + row.cells@.take(ci as int));
                    if found.is_none() {
                        let cell = &row.cells[ci];
                        found = find_span_hit(&cell.spans, cell.grapheme_offset, cursor.grapheme);
                    }
                    ci = ci + 1;
                }
                assert(before + row.cells@.take(row.cells@.len() as int) =~= table_cells(table.rows@.take(ri as int + 1)));
                ri = ri + 1;
            }
            assert(table.rows@.take(table.rows@.len() as int) =~= table.rows@);
            found
        },
        None => find_span_hit(&b.spans, 0, cursor.grapheme),
    };
    match hit {
        Some(Some(t)) => Some(t),
        _ => None,
    }
}

proof fn lemma_count_of_push(c: Seq<(Seq<char>, usize)>, k: Seq<char>, n: usize, key: Seq<char>)
    ensures
        count_of(c.push((k, n)), key) == (if k == key { Some(n) } else { count_of(c, key) }),
{
    assert(c.push((k, n)).drop_last() =~= c);
}

proof fn lemma_free_slug(counts: Seq<(Seq<char>, usize)>, base: Seq<char>, slug: Seq<char>)
    ensures
        ({
            let (c, s) = free_slug(counts, base, slug);
            &&& (count_of(c, s) is None || count_of(c, base) == Some(usize::MAX))
            &&& (count_of(c, s) is None ==> count_of(counts, s) is None)
        }),
    decreases usize::MAX - (match count_of(counts, base) { Some(n) => n as int, None => 0int }),
{
    if count_of(counts, slug) is Some {
        let current: int = match count_of(counts, base) { Some(n) => n as int, None => 0 };
        if current >= usize::MAX {
        } else {
            let next = (current + 1) as usize;
            let c1 = counts.push((base, next));
            lemma_count_of_push(counts, base, next, base);
            lemma_free_slug(c1, base, numbered(base, next as nat));
            let (c, s) = free_slug(c1, base, numbered(base, next as nat));
            if count_of(c, s) is None {
                lemma_count_of_push(counts, base, next, s);
            }
        }
    } else {
        match count_of(counts, base) {
            Some(n) => if n == usize::MAX {} else {},
            None => {},
        }
    }
}

/// A heading anchor handed out was not handed out before, unless the
/// counter for its heading text ran out, and it is recorded as taken.
pub proof fn lemma_unique_slug_fresh(counts: Seq<(Seq<char>, usize)>, base: Seq<char>)
    ensures
        ({
            let (after, slug) = unique_slug(counts, base);
            let (before_record, _) = free_slug(counts, base, base);
            &&& (count_of(counts, slug) is None || count_of(before_record, base) == Some(usize::MAX))
            &&& count_of(after, slug) == Some(0usize)
        }),
{
    lemma_free_slug(counts, base, base);
    let (c, slug) = free_slug(counts, base, base);
    lemma_count_of_push(c, slug, 0, slug);
}


/// ASCII punctuation other than `-` and `_`, which GitHub drops from
/// heading anchors.
pub open spec fn anchor_drops(c: char) -> bool {
    c == '!' || c == '"' || c == '#' || c == '$' || c == '%' || c == '&' || c == '\'' || c == '(' || c == ')'
        || c == '*' || c == '+' || c == ',' || c == '.' || c == '/' || c == ':' || c == ';' || c == '<' || c == '='
        || c == '>' || c == '?' || c == '@' || c == '[' || c == '\\' || c == ']' || c == '^' || c == '`' || c == '{'
        || c == '|' || c == '}' || c == '~'
}

proof fn lemma_slug_chars_clean(s: Seq<char>)
    ensures
        forall|i: int| 0 <= i < slug_chars(s).len() ==> !anchor_drops(#[trigger] slug_chars(s)[i]),
    decreases s.len(),
{
    if s.len() > 0 {
        lemma_slug_chars_clean(s.drop_last());
        let a = slug_chars(s.drop_last());
        let c = s.last();
        let b = if is_space(c) { seq!['-'] } else if slug_keeps(c) { seq![c] } else { Seq::<char>::empty() };
        assert(slug_chars(s) == a + b);
        assert forall|i: int| 0 <= i < (a + b).len() implies !anchor_drops(#[trigger] (a + b)[i]) by {
            if i < a.len() {
                assert((a + b)[i] == a[i]);
            } else {
                assert((a + b)[i] == b[i - a.len()]);
            }
        }
    }
}

/// A GitHub heading anchor holds no ASCII punctuation but `-` and `_`:
/// whatever the heading's text, no character of its slug is one of
/// ``! " # $ % & ' ( ) * + , . / : ; < = > ? @ [ \ ] ^ ` { | } ~``.
pub proof fn lemma_heading_slug_has_no_punctuation(text: Seq<char>)
    ensures
        forall|i: int| 0 <= i < heading_slug(text).len() ==> !anchor_drops(#[trigger] heading_slug(text)[i]),
{
    lemma_slug_chars_clean(lowercase_text(text));
}

} // verus!
