//! Presentation styles for code graphemes, and how per-byte highlighting
//! output is mapped onto the graphemes of the code.
use crate::search::utf8_len;
use crate::text::{all_nonempty, chars_of, concat_all, grapheme_clusters, graphemes, string_of};
use syntect::easy::HighlightLines;
use syntect::highlighting::{FontStyle, Theme, ThemeSet};
use syntect::parsing::{SyntaxReference, SyntaxSet};
use vstd::prelude::*;

verus! {

/// Presentation-only styling for one semantic code grapheme.
#[derive(Clone, Copy, Debug, Default, PartialEq, Eq)]
pub struct HighlightStyle {
    pub foreground: Option<(u8, u8, u8)>,
    pub bold: bool,
    pub italic: bool,
    pub underlined: bool,
}

impl HighlightStyle {
    pub fn foreground(self) -> (r: Option<(u8, u8, u8)>)
        ensures
            r == self.foreground,
    {
        self.foreground
    }

    pub fn is_bold(self) -> (r: bool)
        ensures
            r == self.bold,
    {
        self.bold
    }

    pub fn is_italic(self) -> (r: bool)
        ensures
            r == self.italic,
    {
        self.italic
    }

    pub fn is_underlined(self) -> (r: bool)
        ensures
            r == self.underlined,
    {
        self.underlined
    }
}

/// A replaceable highlighter: `Ok(None)` for an unknown language, `Err`
/// for a highlighting failure, else one style per grapheme of the code.
pub trait CodeHighlighter {
    fn highlight(&mut self, language: &str, code: &str) -> Result<Option<Vec<HighlightStyle>>, String>;
}

/// The UTF-8 length of a text.
pub open spec fn utf8_count(s: Seq<char>) -> int
    decreases s.len(),
{
    if s.len() == 0 {
        0
    } else {
        utf8_count(s.drop_last()) + utf8_len(s.last())
    }
}

/// The UTF-8 length of a sequence of texts.
pub open spec fn parts_bytes(parts: Seq<Seq<char>>) -> int
    decreases parts.len(),
{
    if parts.len() == 0 {
        0
    } else {
        parts_bytes(parts.drop_last()) + utf8_count(parts.last())
    }
}

/// Each grapheme takes the style of its first byte.
pub open spec fn grapheme_styles_spec(gs: Seq<Seq<char>>, byte_styles: Seq<HighlightStyle>) -> Seq<HighlightStyle> {
    Seq::new(gs.len(), |k: int| byte_styles[parts_bytes(gs.take(k))])
}

/// The message when highlighting changed the code's length.
pub open spec fn length_mismatch() -> Seq<char> {
    "highlighted text did not preserve the semantic code"@
}

proof fn lemma_utf8_count_append(a: Seq<char>, b: Seq<char>)
    ensures
        utf8_count(a + b) == utf8_count(a) + utf8_count(b),
    decreases b.len(),
{
    if b.len() > 0 {
        assert((a + b).drop_last() =~= a + b.drop_last());
        lemma_utf8_count_append(a, b.drop_last());
    }
}

proof fn lemma_parts_bytes(parts: Seq<Seq<char>>)
    ensures
        parts_bytes(parts) == utf8_count(concat_all(parts)),
    decreases parts.len(),
{
    if parts.len() > 0 {
        lemma_parts_bytes(parts.drop_last());
        lemma_utf8_count_append(concat_all(parts.drop_last()), parts.last());
    }
}

proof fn lemma_utf8_count_positive(s: Seq<char>)
    ensures
        utf8_count(s) >= s.len(),
    decreases s.len(),
{
    if s.len() > 0 {
        lemma_utf8_count_positive(s.drop_last());
    }
}

fn text_bytes(s: &Vec<char>) -> (r: usize)
    requires
        utf8_count(s@) <= usize::MAX,
    ensures
        r == utf8_count(s@),
{
    let mut total: usize = 0;
    let mut i: usize = 0;
    while i < s.len()
        invariant
            i <= s@.len(),
            total == utf8_count(s@.take(i as int)),
            utf8_count(s@) <= usize::MAX,
        decreases s.len() - i,
    {
        assert(s@.take(i as int + 1).drop_last() =~= s@.take(i as int));
        proof {
            lemma_utf8_count_append(s@.take(i as int + 1), s@.skip(i as int + 1));
            assert(s@.take(i as int + 1) + s@.skip(i as int + 1) =~= s@);
            lemma_utf8_count_positive(s@.skip(i as int + 1));
        }
        total = total + crate::search::char_len_utf8(s[i]);
        i = i + 1;
    }
    assert(s@.take(s@.len() as int) =~= s@);
    total
}

/// Maps a highlighter's per-byte styles onto the code's graphemes: each
/// grapheme takes the style of its first byte. Highlighting output that
/// does not cover the code byte for byte is an error.
pub fn grapheme_styles(code: &str, byte_styles: &Vec<HighlightStyle>) -> (r: Result<Vec<HighlightStyle>, String>)
    ensures
        match r {
            Ok(styles) => byte_styles@.len() == utf8_count(code@)
                && styles@ == grapheme_styles_spec(grapheme_clusters(code@), byte_styles@)
                && ((forall|j: int| 0 <= j < byte_styles@.len() ==> (#[trigger] byte_styles@[j]).foreground is Some)
                ==> forall|i: int| 0 <= i < styles@.len() ==> (#[trigger] styles@[i]).foreground is Some),
            Err(message) => byte_styles@.len() != utf8_count(code@) && message@ == length_mismatch(),
        },
{
    let gs = graphemes(code);
    let ghost g = gs.deep_view();
    proof { lemma_parts_bytes(g); }
    assert(parts_bytes(g) == utf8_count(code@));
    let n = byte_styles.len();
    let mut styles: Vec<HighlightStyle> = Vec::new();
    let mut offset: usize = 0;
    let mut k: usize = 0;
    while k < gs.len()
        invariant
            k <= gs@.len(),
            g == gs.deep_view(),
            g == grapheme_clusters(code@),
            parts_bytes(g) == utf8_count(code@),
            all_nonempty(g),
            offset as int == parts_bytes(g.take(k as int)),
            offset <= n,
            n == byte_styles@.len(),
            styles@.len() == k,
            forall|j: int| 0 <= j < k ==> styles@[j] == byte_styles@[parts_bytes(g.take(j))],
            forall|j: int| 0 <= j < k ==> parts_bytes(g.take(j)) < n,
        decreases gs.len() - k,
    {
        assert(g.take(k as int + 1).drop_last() =~= g.take(k as int));
        assert(g[k as int] == gs@[k as int]@);
        let part = &gs[k];
        let ghost need = utf8_count(part@);
        proof { lemma_utf8_count_positive(part@); }
        if !utf8_count_small(part, n - offset) {
            proof { lemma_bytes_exceed(g, k as int, n as int); }
            return Err(crate::text::string_of(&crate::text::chars_of("highlighted text did not preserve the semantic code")));
        }
        styles.push(byte_styles[offset]);
        let bytes = text_bytes(part);
        offset = offset + bytes;
        k = k + 1;
    }
    assert(g.take(gs@.len() as int) =~= g);
    if offset != n {
        return Err(crate::text::string_of(&crate::text::chars_of("highlighted text did not preserve the semantic code")));
    }
    assert(styles@ =~= grapheme_styles_spec(g, byte_styles@));
    proof {
        if forall|j: int| 0 <= j < byte_styles@.len() ==> (#[trigger] byte_styles@[j]).foreground is Some {
            assert forall|i: int| 0 <= i < styles@.len() implies (#[trigger] styles@[i]).foreground is Some by {
                assert(styles@[i] == grapheme_styles_spec(g, byte_styles@)[i]);
                lemma_parts_bytes(g.take(i));
                lemma_utf8_count_positive(concat_all(g.take(i)));
                assert(parts_bytes(g.take(i)) < n);
            }
        }
    }
    Ok(styles)
}

/// Whether a text's UTF-8 length is at most `limit`.
fn utf8_count_small(s: &Vec<char>, limit: usize) -> (r: bool)
    ensures
        r == (utf8_count(s@) <= limit),
{
    let mut total: usize = 0;
    let mut i: usize = 0;
    while i < s.len()
        invariant
            i <= s@.len(),
            total == utf8_count(s@.take(i as int)),
            total <= limit,
        decreases s.len() - i,
    {
        assert(s@.take(i as int + 1).drop_last() =~= s@.take(i as int));
        let c = crate::search::char_len_utf8(s[i]);
        if c > limit - total {
            proof {
                lemma_utf8_count_append(s@.take(i as int + 1), s@.skip(i as int + 1));
                assert(s@.take(i as int + 1) + s@.skip(i as int + 1) =~= s@);
                lemma_utf8_count_positive(s@.skip(i as int + 1));
            }
            return false;
        }
        total = total + c;
        i = i + 1;
    }
    assert(s@.take(s@.len() as int) =~= s@);
    true
}

/// When grapheme `k` does not fit in the styles, the whole code does not either.
proof fn lemma_bytes_exceed(g: Seq<Seq<char>>, k: int, n: int)
    requires
        0 <= k < g.len(),
        parts_bytes(g.take(k)) + utf8_count(g[k]) > n,
    ensures
        parts_bytes(g) > n,
    decreases g.len(),
{
    if k == g.len() - 1 {
        assert(g.drop_last() =~= g.take(k));
    } else {
        assert(g.drop_last().take(k) =~= g.take(k));
        assert(g.drop_last()[k] == g[k]);
        lemma_bytes_exceed(g.drop_last(), k, n);
        lemma_utf8_count_positive(g.last());
    }
}

// ---------------------------------------------------------------------------
// syntect
// ---------------------------------------------------------------------------

#[verifier::external_type_specification]
#[verifier::external_body]
pub struct ExSyntaxSet(SyntaxSet);

#[verifier::external_type_specification]
#[verifier::external_body]
pub struct ExSyntaxReference(SyntaxReference);

#[verifier::external_type_specification]
#[verifier::external_body]
pub struct ExTheme(Theme);

#[verifier::external_type_specification]
#[verifier::external_body]
pub struct ExHighlightLines<'a>(HighlightLines<'a>);

/// `SyntaxSet::load_defaults_newlines`: syntect's bundled syntaxes, for
/// lines that keep their line feeds. Nothing is claimed of the result.
#[verifier::external_body]
fn default_syntaxes() -> SyntaxSet {
    SyntaxSet::load_defaults_newlines()
}

/// The `base16-ocean.dark` theme taken out of `ThemeSet::load_defaults`,
/// whose documentation lists that theme among the bundled ones: the result
/// is a theme. Nothing is claimed of the theme itself.
#[verifier::external_body]
fn default_theme() -> (r: Option<Theme>)
    ensures
        r is Some,
{
    ThemeSet::load_defaults().themes.remove("base16-ocean.dark")
}

/// Whether syntect's bundled syntaxes know a fence's language token
/// (`SyntaxSet::find_syntax_by_token` finds a syntax for it).
pub uninterp spec fn syntect_knows(language: Seq<char>) -> bool;

/// The styled runs, each a style and the byte length of its text, that
/// syntect gives for `line` when a highlighter for `language`, over the
/// bundled syntaxes and the `base16-ocean.dark` theme, has already been
/// fed the lines `fed`, one call each, in order; or syntect's error message.
pub uninterp spec fn syntect_line_runs(language: Seq<char>, fed: Seq<Seq<char>>, line: Seq<char>) -> Result<
    Seq<(HighlightStyle, usize)>,
    Seq<char>,
>;

/// A syntect line highlighter for one language, with the lines it has
/// been fed so far, one entry per call. Only `start_highlighting` makes
/// one and only `highlight_line` feeds it, over the highlighter's bundled
/// syntaxes; each call records its line.
struct LineHighlighter<'a> {
    lines: HighlightLines<'a>,
    syntaxes: &'a SyntaxSet,
    language: String,
    fed: Vec<Vec<char>>,
}

/// `SyntaxSet::find_syntax_by_token` on the highlighter's bundled syntaxes,
/// then `HighlightLines::new` with its theme: a line highlighter for the
/// language at the top of a text, if syntect knows the language.
#[verifier::external_body]
fn start_highlighting<'a>(highlighter: &'a SyntectHighlighter, language: &str) -> (r: Option<LineHighlighter<'a>>)
    requires
        highlighter.has_theme(),
    ensures
        r is Some <==> syntect_knows(language@),
        r matches Some(l) ==> l.language@ == language@ && l.fed.deep_view() == Seq::<Seq<char>>::empty(),
{
    let theme = highlighter.theme.as_ref()?;
    let syntax = highlighter.syntaxes.find_syntax_by_token(language)?;
    Some(LineHighlighter {
        lines: HighlightLines::new(syntax, theme),
        syntaxes: &highlighter.syntaxes,
        language: language.to_owned(),
        fed: Vec::new(),
    })
}

/// `HighlightLines::highlight_line` on the next line: its styled runs,
/// each as its style and the byte length of its text, or syntect's error
/// message. The line is recorded among the lines fed. Each run's style
/// carries the foreground colour syntect gave it.
#[verifier::external_body]
fn highlight_line(highlighter: &mut LineHighlighter, line: &str) -> (r: Result<Vec<(HighlightStyle, usize)>, String>)
    ensures
        final(highlighter).language == old(highlighter).language,
        final(highlighter).fed.deep_view() == old(highlighter).fed.deep_view().push(line@),
        match r {
            Ok(runs) => syntect_line_runs(old(highlighter).language@, old(highlighter).fed.deep_view(), line@)
                == Ok::<Seq<(HighlightStyle, usize)>, Seq<char>>(runs@) && forall|i: int|
                0 <= i < runs@.len() ==> (#[trigger] runs@[i]).0.foreground is Some,
            Err(m) => syntect_line_runs(old(highlighter).language@, old(highlighter).fed.deep_view(), line@)
                == Err::<Seq<(HighlightStyle, usize)>, Seq<char>>(m@),
        },
{
    let result = highlighter.lines.highlight_line(line, highlighter.syntaxes);
    highlighter.fed.push(line.chars().collect());
    match result {
        Ok(runs) => Ok(runs.iter().map(|(style, text)| (HighlightStyle {
            foreground: Some((style.foreground.r, style.foreground.g, style.foreground.b)),
            bold: style.font_style.contains(FontStyle::BOLD),
            italic: style.font_style.contains(FontStyle::ITALIC),
            underlined: style.font_style.contains(FontStyle::UNDERLINE),
        }, text.len())).collect()),
        Err(error) => Err(error.to_string()),
    }
}

/// A text cut after each line feed, as syntect's `LinesWithEndings` does:
/// every line but the last ends with its line feed, and none is empty.
pub open spec fn lines_with_endings(s: Seq<char>) -> Seq<Seq<char>>
    decreases s.len(),
{
    if s.len() == 0 {
        Seq::empty()
    } else {
        let lines = lines_with_endings(s.drop_last());
        if lines.len() == 0 || lines.last().last() == '\n' {
            lines.push(seq![s.last()])
        } else {
            lines.update(lines.len() - 1, lines.last().push(s.last()))
        }
    }
}

proof fn lemma_lines_nonempty(s: Seq<char>)
    ensures
        forall|i: int| 0 <= i < lines_with_endings(s).len() ==> (#[trigger] lines_with_endings(s)[i]).len() > 0,
    decreases s.len(),
{
    if s.len() > 0 {
        lemma_lines_nonempty(s.drop_last());
        let prev = lines_with_endings(s.drop_last());
        let lines = lines_with_endings(s);
        assert forall|i: int| 0 <= i < lines.len() implies (#[trigger] lines[i]).len() > 0 by {
            if i < prev.len() && !(prev.len() > 0 && prev.last().last() != '\n' && i == prev.len() - 1) {
                assert(lines[i] == prev[i]);
            }
        }
    }
}

fn split_lines_with_endings(code: &str) -> (r: Vec<Vec<char>>)
    ensures
        r.deep_view() == lines_with_endings(code@),
{
    let chars = chars_of(code);
    let mut lines: Vec<Vec<char>> = Vec::new();
    let mut i: usize = 0;
    assert(chars@.take(0) =~= Seq::<char>::empty());
    while i < chars.len()
        invariant
            i <= chars@.len(),
            lines.deep_view() == lines_with_endings(chars@.take(i as int)),
        decreases chars.len() - i,
    {
        assert(chars@.take(i as int + 1).drop_last() =~= chars@.take(i as int));
        proof { lemma_lines_nonempty(chars@.take(i as int)); }
        let ghost before = lines.deep_view();
        let n = lines.len();
        let start_new = n == 0 || {
            let last = &lines[n - 1];
            assert(before[n - 1] =~= last@);
            last.len() > 0 && last[last.len() - 1] == '\n'
        };
        if start_new {
            let line = vec![chars[i]];
            assert(line.deep_view() =~= seq![chars@[i as int]]);
            lines.push(line);
            assert(lines.deep_view() =~= before.push(seq![chars@[i as int]]));
        } else {
            let mut last = lines.pop().unwrap();
            last.push(chars[i]);
            let ghost extended = last@;
            assert(last.deep_view() =~= extended);
            lines.push(last);
            assert(lines.deep_view() =~= before.update(n - 1, before[n - 1].push(chars@[i as int])));
        }
        i = i + 1;
    }
    assert(chars@.take(chars@.len() as int) =~= chars@);
    lines
}

/// Styled runs spread out over their bytes.
pub open spec fn runs_expanded(runs: Seq<(HighlightStyle, usize)>) -> Seq<HighlightStyle>
    decreases runs.len(),
{
    if runs.len() == 0 {
        Seq::empty()
    } else {
        runs_expanded(runs.drop_last()) + Seq::new(runs.last().1 as nat, |i: int| runs.last().0)
    }
}

/// Spreading runs out keeps their colours: when every run has a
/// foreground, every byte has one.
proof fn lemma_runs_expanded_coloured(runs: Seq<(HighlightStyle, usize)>)
    requires
        forall|i: int| 0 <= i < runs.len() ==> (#[trigger] runs[i]).0.foreground is Some,
    ensures
        forall|j: int| 0 <= j < runs_expanded(runs).len() ==> (#[trigger] runs_expanded(runs)[j]).foreground is Some,
    decreases runs.len(),
{
    if runs.len() > 0 {
        let d = runs.drop_last();
        assert forall|i: int| 0 <= i < d.len() implies (#[trigger] d[i]).0.foreground is Some by {
            assert(d[i] == runs[i]);
        }
        lemma_runs_expanded_coloured(d);
        let a = runs_expanded(d);
        let b = Seq::new(runs.last().1 as nat, |i: int| runs.last().0);
        assert(runs_expanded(runs) == a + b);
        assert forall|j: int| 0 <= j < (a + b).len() implies (#[trigger] (a + b)[j]).foreground is Some by {
            if j < a.len() {
                assert((a + b)[j] == a[j]);
            } else {
                assert((a + b)[j] == b[j - a.len()]);
            }
        }
    }
}

/// Appends each run's style once per byte of its text.
pub fn expand_runs(out: &mut Vec<HighlightStyle>, runs: &Vec<(HighlightStyle, usize)>)
    ensures
        final(out)@ == old(out)@ + runs_expanded(runs@),
{
    let ghost start = out@;
    let mut k: usize = 0;
    while k < runs.len()
        invariant
            k <= runs@.len(),
            out@ == start + runs_expanded(runs@.take(k as int)),
        decreases runs.len() - k,
    {
        assert(runs@.take(k as int + 1).drop_last() =~= runs@.take(k as int));
        let (style, length) = runs[k];
        let ghost base = out@;
        let mut j: usize = 0;
        while j < length
            invariant
                j <= length,
                out@ == base + Seq::new(j as nat, |i: int| style),
            decreases length - j,
        {
            out.push(style);
            j = j + 1;
            assert(out@ =~= base + Seq::new(j as nat, |i: int| style));
        }
        assert(out@ =~= start + runs_expanded(runs@.take(k as int + 1)));
        k = k + 1;
    }
    assert(runs@.take(runs@.len() as int) =~= runs@);
}

/// The highlighter behind fenced code blocks: syntect's bundled syntaxes
/// and the `base16-ocean.dark` theme.
pub struct SyntectHighlighter {
    syntaxes: SyntaxSet,
    theme: Option<Theme>,
}

impl SyntectHighlighter {
    /// Whether the highlighter holds a theme to highlight with.
    pub closed spec fn has_theme(&self) -> bool {
        self.theme is Some
    }

    /// syntect's bundled syntaxes with the bundled `base16-ocean.dark` theme.
    pub fn new() -> (r: SyntectHighlighter)
        ensures
            r.has_theme(),
    {
        SyntectHighlighter { syntaxes: default_syntaxes(), theme: default_theme() }
    }

    /// Highlights code line by line and maps the styles onto its
    /// graphemes; `Ok(None)` for a language syntect does not know.
    pub fn highlight_code(&self, language: &str, code: &str) -> (r: Result<Option<Vec<HighlightStyle>>, String>)
        ensures
            highlight_view(r) == highlighted(self.has_theme(), language@, code@),
            r matches Ok(Some(styles)) ==> forall|i: int| 0 <= i < styles@.len() ==> (#[trigger] styles@[i]).foreground is Some,
    {
        if self.theme.is_none() {
            return Ok(None);
        }
        let mut highlighter = match start_highlighting(self, language) {
            Some(h) => h,
            None => {
                return Ok(None);
            },
        };
        let lines = split_lines_with_endings(code);
        let ghost ls = lines.deep_view();
        let mut byte_styles: Vec<HighlightStyle> = Vec::new();
        let mut k: usize = 0;
        assert(ls.take(0) =~= Seq::<Seq<char>>::empty());
        while k < lines.len()
            invariant
                k <= lines@.len(),
                ls == lines.deep_view(),
                ls == lines_with_endings(code@),
                highlighter.language@ == language@,
                syntect_knows(language@),
                self.has_theme(),
                highlighter.fed.deep_view() == ls.take(k as int),
                forall|j: int| 0 <= j < byte_styles@.len() ==> (#[trigger] byte_styles@[j]).foreground is Some,
                syntect_styles_after(language@, ls, k as nat) == Ok::<Seq<HighlightStyle>, Seq<char>>(byte_styles@),
            decreases lines.len() - k,
        {
            let line = string_of(&lines[k]);
            assert(lines[k as int]@ == ls[k as int]);
            assert(ls.take(k as int + 1).drop_last() =~= ls.take(k as int));
            match highlight_line(&mut highlighter, line.as_str()) {
                Ok(runs) => {
                    let ghost before = byte_styles@;
                    expand_runs(&mut byte_styles, &runs);
                    proof {
                        lemma_runs_expanded_coloured(runs@);
                        assert forall|j: int| 0 <= j < byte_styles@.len() implies (#[trigger] byte_styles@[j]).foreground is Some by {
                            if j < before.len() {
                                assert(byte_styles@[j] == before[j]);
                            } else {
                                assert(byte_styles@[j] == runs_expanded(runs@)[j - before.len()]);
                            }
                        }
                    }
                },
                Err(error) => {
                    assert(syntect_styles_after(language@, ls, (k + 1) as nat) == Err::<Seq<HighlightStyle>, Seq<char>>(error@));
                    proof {
                        lemma_error_stays(language@, ls, (k + 1) as nat);
                        assert(syntect_byte_styles(language@, code@) == Err::<Seq<HighlightStyle>, Seq<char>>(error@));
                    }
                    return Err(error);
                },
            }
            k = k + 1;
        }
        assert(ls.len() == lines@.len());
        match grapheme_styles(code, &byte_styles) {
            Ok(styles) => Ok(Some(styles)),
            Err(message) => Err(message),
        }
    }
}

/// A highlighting result as plain values.
pub open spec fn highlight_view(r: Result<Option<Vec<HighlightStyle>>, String>) -> Result<Option<Seq<HighlightStyle>>, Seq<char>> {
    match r {
        Ok(Some(styles)) => Ok(Some(styles@)),
        Ok(None) => Ok(None),
        Err(m) => Err(m@),
    }
}

/// The per-byte styles of the first `k` lines, as syntect highlights them
/// one after another; the first error ends the highlighting.
pub open spec fn syntect_styles_after(language: Seq<char>, lines: Seq<Seq<char>>, k: nat) -> Result<Seq<HighlightStyle>, Seq<char>>
    decreases k,
{
    if k == 0 || k > lines.len() {
        Ok(Seq::empty())
    } else {
        match syntect_styles_after(language, lines, (k - 1) as nat) {
            Err(m) => Err(m),
            Ok(before) => match syntect_line_runs(language, lines.take(k - 1), lines[k - 1]) {
                Err(m) => Err(m),
                Ok(runs) => Ok(before + runs_expanded(runs)),
            },
        }
    }
}

/// The per-byte styles syntect gives a whole code text, line by line.
pub open spec fn syntect_byte_styles(language: Seq<char>, code: Seq<char>) -> Result<Seq<HighlightStyle>, Seq<char>> {
    syntect_styles_after(language, lines_with_endings(code), lines_with_endings(code).len())
}

/// What highlighting code gives: nothing for a language syntect does not
/// know (or without a theme), syntect's error, or one style per grapheme,
/// each that of the grapheme's first byte; styles that do not cover the
/// code byte for byte are an error.
pub open spec fn highlighted(has_theme: bool, language: Seq<char>, code: Seq<char>) -> Result<Option<Seq<HighlightStyle>>, Seq<char>> {
    if !has_theme || !syntect_knows(language) {
        Ok(None)
    } else {
        match syntect_byte_styles(language, code) {
            Err(m) => Err(m),
            Ok(bytes) => if bytes.len() == utf8_count(code) {
                Ok(Some(grapheme_styles_spec(grapheme_clusters(code), bytes)))
            } else {
                Err(length_mismatch())
            },
        }
    }
}

/// Once highlighting has failed, it stays failed with the same message.
proof fn lemma_error_stays(language: Seq<char>, lines: Seq<Seq<char>>, k: nat)
    requires
        k <= lines.len(),
        syntect_styles_after(language, lines, k) is Err,
    ensures
        syntect_styles_after(language, lines, lines.len()) == syntect_styles_after(language, lines, k),
    decreases lines.len() - k,
{
    if k < lines.len() {
        assert(syntect_styles_after(language, lines, (k + 1) as nat) == syntect_styles_after(language, lines, k));
        lemma_error_stays(language, lines, (k + 1) as nat);
    }
}

impl CodeHighlighter for SyntectHighlighter {
    /// As `highlight_code`.
    fn highlight(&mut self, language: &str, code: &str) -> (r: Result<Option<Vec<HighlightStyle>>, String>)
        ensures
            highlight_view(r) == highlighted(old(self).has_theme(), language@, code@),
            r matches Ok(Some(styles)) ==> forall|i: int| 0 <= i < styles@.len() ==> (#[trigger] styles@[i]).foreground is Some,
            *final(self) == *old(self),
    {
        self.highlight_code(language, code)
    }
}

} // verus!
