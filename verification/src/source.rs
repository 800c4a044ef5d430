//! Why a Document's source could not be read.
use crate::document::{Block, BlockKind, Document, DocumentWarning, InlineSpan, InlineStyle};
use crate::text::{all_space, all_whitespace, chars_of, is_control, is_control_char, push_all, string_of};
use vstd::prelude::*;
use vstd::utf8::{decode_utf8, valid_utf8};

verus! {

/// What went wrong with a source.
#[derive(Clone, Debug, PartialEq, Eq)]
pub enum SourceErrorKind {
    /// The path names a directory.
    Directory,
    /// Reading failed, with the system's description.
    Read(String),
    /// The source changed between the two reads of a Reload.
    ChangedDuringReload,
}

/// A source that could not be read: the text of its path, and what went
/// wrong.
#[derive(Clone, Debug, PartialEq, Eq)]
pub struct SourceError {
    pub path: String,
    pub kind: SourceErrorKind,
}

/// A hexadecimal digit, in lower case.
pub open spec fn hex_digit(d: u32) -> char {
    if d < 10 { ('0' as u32 + d) as char } else { ('a' as u32 + d - 10) as char }
}

/// The lower-case hexadecimal digits of a number, without leading zeros.
pub open spec fn hex_text(n: u32) -> Seq<char>
    decreases n,
{
    if n < 16 { seq![hex_digit(n)] } else { hex_text(n / 16).push(hex_digit(n % 16)) }
}

/// One character of a path as a message writes it, in Rust's debug
/// notation: quotes, backslashes and control characters are escaped.
pub open spec fn escaped_char(c: char) -> Seq<char> {
    if c == '"' {
        seq!['\\', '"']
    } else if c == '\\' {
        seq!['\\', '\\']
    } else if c == '\t' {
        seq!['\\', 't']
    } else if c == '\r' {
        seq!['\\', 'r']
    } else if c == '\n' {
        seq!['\\', 'n']
    } else if c == '\0' {
        seq!['\\', '0']
    } else if is_control(c) {
        "\\u{"@ + hex_text(c as u32) + "}"@
    } else {
        seq![c]
    }
}

/// A text with each of its characters escaped.
pub open spec fn escaped_text(s: Seq<char>) -> Seq<char>
    decreases s.len(),
{
    if s.len() == 0 { Seq::empty() } else { escaped_text(s.drop_last()) + escaped_char(s.last()) }
}

/// A path quoted as a message shows it.
pub open spec fn quoted_path(path: Seq<char>) -> Seq<char> {
    seq!['"'] + escaped_text(path) + seq!['"']
}

/// The message of a source error.
pub open spec fn source_error_text(e: SourceError) -> Seq<char> {
    match e.kind {
        SourceErrorKind::Directory => "cannot open "@ + quoted_path(e.path@) + ": path is a directory"@,
        SourceErrorKind::Read(reason) => "cannot read "@ + quoted_path(e.path@) + ": "@ + reason@,
        SourceErrorKind::ChangedDuringReload => "cannot Reload "@ + quoted_path(e.path@) + ": source changed while it was being read"@,
    }
}

fn hex_digit_exec(d: u32) -> (r: char)
    requires
        d < 16,
    ensures
        r == hex_digit(d),
{
    if d < 10 { ((48 + d) as u8) as char } else { ((97 + d - 10) as u8) as char }
}

fn hex_chars(n: u32) -> (r: Vec<char>)
    ensures
        r@ == hex_text(n),
    decreases n,
{
    if n < 16 {
        vec![hex_digit_exec(n)]
    } else {
        let mut out = hex_chars(n / 16);
        out.push(hex_digit_exec(n % 16));
        out
    }
}

/// Appends one character of a path, escaped.
fn push_escaped(out: &mut Vec<char>, c: char)
    ensures
        final(out)@ == old(out)@ + escaped_char(c),
{
    let ghost start = out@;
    proof {
        reveal_strlit("}");
    }
    if c == '"' {
        out.push('\\');
        out.push('"');
    } else if c == '\\' {
        out.push('\\');
        out.push('\\');
    } else if c == '\t' {
        out.push('\\');
        out.push('t');
    } else if c == '\r' {
        out.push('\\');
        out.push('r');
    } else if c == '\n' {
        out.push('\\');
        out.push('n');
    } else if c == '\0' {
        out.push('\\');
        out.push('0');
    } else if is_control_char(c) {
        push_all(out, &chars_of("\\u{"));
        push_all(out, &hex_chars(c as u32));
        out.push('}');
    } else {
        out.push(c);
    }
    assert(out@ =~= start + escaped_char(c));
}

/// Appends a path, quoted and escaped.
fn push_quoted(out: &mut Vec<char>, path: &str)
    ensures
        final(out)@ == old(out)@ + quoted_path(path@),
{
    let chars = chars_of(path);
    let ghost start = out@;
    out.push('"');
    let mut i: usize = 0;
    while i < chars.len()
        invariant
            i <= chars.len(),
            chars@ == path@,
            out@ == start + seq!['"'] + escaped_text(path@.take(i as int)),
        decreases chars.len() - i,
    {
        assert(path@.take(i as int + 1).drop_last() =~= path@.take(i as int));
        push_escaped(out, chars[i]);
        i = i + 1;
    }
    assert(path@.take(path@.len() as int) =~= path@);
    out.push('"');
    assert(out@ =~= start + quoted_path(path@));
}

/// No escaped character is a control character.
proof fn lemma_escaped_has_no_controls(s: Seq<char>)
    ensures
        forall|i: int| 0 <= i < escaped_text(s).len() ==> !is_control(#[trigger] escaped_text(s)[i]),
    decreases s.len(),
{
    if s.len() > 0 {
        lemma_escaped_has_no_controls(s.drop_last());
        lemma_escaped_char_has_no_controls(s.last());
        let a = escaped_text(s.drop_last());
        let b = escaped_char(s.last());
        assert(escaped_text(s) == a + b);
        assert forall|i: int| 0 <= i < (a + b).len() implies !is_control(#[trigger] (a + b)[i]) by {
            if i >= a.len() {
                assert((a + b)[i] == b[i - a.len()]);
            } else {
                assert((a + b)[i] == a[i]);
            }
        }
    }
}

proof fn lemma_escaped_char_has_no_controls(c: char)
    ensures
        forall|i: int| 0 <= i < escaped_char(c).len() ==> !is_control(#[trigger] escaped_char(c)[i]),
{
    reveal_strlit("\\u{");
    reveal_strlit("}");
    if is_control(c) && c != '"' && c != '\\' && c != '\t' && c != '\r' && c != '\n' && c != '\0' {
        let h = hex_text(c as u32);
        lemma_hex_has_no_controls(c as u32);
        let e = "\\u{"@ + h + "}"@;
        assert forall|i: int| 0 <= i < e.len() implies !is_control(#[trigger] e[i]) by {
            if i < 3 {
                assert(e[i] == "\\u{"@[i]);
            } else if i < 3 + h.len() {
                assert(e[i] == h[i - 3]);
            } else {
                assert(e[i] == '}');
            }
        }
    }
}

proof fn lemma_hex_digit_not_control(d: u32)
    requires
        d < 16,
    ensures
        !is_control(hex_digit(d)),
{
    assert('0' as u32 == 48);
    assert('a' as u32 == 97);
}

proof fn lemma_hex_has_no_controls(n: u32)
    ensures
        forall|i: int| 0 <= i < hex_text(n).len() ==> !is_control(#[trigger] hex_text(n)[i]),
    decreases n,
{
    if n < 16 {
        lemma_hex_digit_not_control(n);
    } else {
        lemma_hex_has_no_controls(n / 16);
        lemma_hex_digit_not_control(n % 16);
        let t = hex_text(n);
        let p = hex_text(n / 16);
        assert forall|i: int| 0 <= i < t.len() implies !is_control(#[trigger] t[i]) by {
            if i < p.len() {
                assert(t[i] == p[i]);
            } else {
                assert(t[i] == hex_digit(n % 16));
            }
        }
    }
}

/// A source error's message shows the path's control characters escaped:
/// when the system's reason holds none, the message holds none.
pub proof fn lemma_message_has_no_controls(e: SourceError)
    requires
        e.kind matches SourceErrorKind::Read(reason) ==> forall|i: int| 0 <= i < reason@.len() ==> !is_control(#[trigger] reason@[i]),
    ensures
        forall|i: int| 0 <= i < source_error_text(e).len() ==> !is_control(#[trigger] source_error_text(e)[i]),
{
    lemma_escaped_has_no_controls(e.path@);
    reveal_strlit("cannot open ");
    reveal_strlit(": path is a directory");
    reveal_strlit("cannot read ");
    reveal_strlit(": ");
    reveal_strlit("cannot Reload ");
    reveal_strlit(": source changed while it was being read");
    let q = quoted_path(e.path@);
    assert forall|i: int| 0 <= i < q.len() implies !is_control(#[trigger] q[i]) by {
        if 1 <= i < q.len() - 1 {
            assert(q[i] == escaped_text(e.path@)[i - 1]);
        }
    }
}

impl SourceError {
    /// The error's message, with the path quoted and escaped.
    pub fn message(&self) -> (r: String)
        ensures
            r@ == source_error_text(*self),
    {
        let (head, tail) = match &self.kind {
            SourceErrorKind::Directory => (chars_of("cannot open "), chars_of(": path is a directory")),
            SourceErrorKind::Read(reason) => {
                let mut t = chars_of(": ");
                push_all(&mut t, &chars_of(reason.as_str()));
                (chars_of("cannot read "), t)
            },
            SourceErrorKind::ChangedDuringReload => (
                chars_of("cannot Reload "),
                chars_of(": source changed while it was being read"),
            ),
        };
        let mut out = head;
        push_quoted(&mut out, self.path.as_str());
        push_all(&mut out, &tail);
        string_of(&out)
    }
}

/// The text of bytes read as UTF-8 with every invalid sequence replaced
/// by U+FFFD, as `String::from_utf8_lossy` computes it.
pub uninterp spec fn utf8_lossy(bytes: Seq<u8>) -> Seq<char>;

/// `String::from_utf8_lossy`: the text of the bytes; for valid UTF-8 it
/// is their decoding.
#[verifier::external_body]
fn lossy_text(bytes: &[u8]) -> (r: String)
    ensures
        r@ == utf8_lossy(bytes@),
        valid_utf8(bytes@) ==> r@ == decode_utf8(bytes@),
{
    String::from_utf8_lossy(bytes).into_owned()
}

/// `std::str::from_utf8` succeeds exactly on valid UTF-8.
#[verifier::external_body]
fn is_utf8(bytes: &[u8]) -> (r: bool)
    ensures
        r == valid_utf8(bytes@),
{
    std::str::from_utf8(bytes).is_ok()
}

/// The lines of a text, split at line feeds.
pub open spec fn split_at_newlines(s: Seq<char>) -> Seq<Seq<char>>
    decreases s.len(),
{
    if s.len() == 0 {
        seq![Seq::empty()]
    } else {
        let lines = split_at_newlines(s.drop_last());
        if s.last() == '\n' {
            lines.push(Seq::empty())
        } else {
            lines.update(lines.len() - 1, lines.last().push(s.last()))
        }
    }
}

/// A line without the carriage return that may end it.
pub open spec fn without_cr(line: Seq<char>) -> Seq<char> {
    if line.len() > 0 && line.last() == '\r' { line.drop_last() } else { line }
}

/// The lines of a text that hold more than white space.
pub open spec fn shown_lines(s: Seq<char>) -> Seq<Seq<char>> {
    split_at_newlines(s).map_values(|l: Seq<char>| without_cr(l)).filter(|l: Seq<char>| !all_space(l))
}

/// A block showing one line of text as a plain paragraph.
pub open spec fn is_line_paragraph(b: Block, line: Seq<char>) -> bool {
    &&& b.kind == BlockKind::Paragraph
    &&& b.text@ == line
    &&& b.spans@.len() == 1
    &&& b.spans@[0].text@ == line
    &&& b.spans@[0].style == InlineStyle::default_spec()
    &&& b.spans@[0].link_target is None
    &&& b.spans@[0].image is None
    &&& b.table is None
    &&& b.list_item is None
    &&& b.alert is None
    &&& b.language is None
    &&& b.quote_depth == 0
}

proof fn lemma_split_nonempty(s: Seq<char>)
    ensures
        split_at_newlines(s).len() >= 1,
    decreases s.len(),
{
    if s.len() > 0 {
        lemma_split_nonempty(s.drop_last());
    }
}

fn line_paragraph(line: &Vec<char>) -> (r: Block)
    ensures
        is_line_paragraph(r, line@),
{
    let text = string_of(line);
    let b = Block::new(BlockKind::Paragraph, vec![InlineSpan::plain(text.as_str())]);
    assert(crate::document::spans_text(b.spans@.drop_last()) =~= Seq::<char>::empty());
    b
}

/// The text shown as it is, without Markdown: each line that holds more
/// than white space becomes a paragraph.
pub fn plain_document(text: &str) -> (r: Document)
    ensures
        r.warnings@.len() == 0,
        r.blocks@.len() == shown_lines(text@).len(),
        forall|i: int| 0 <= i < r.blocks@.len() ==> is_line_paragraph(#[trigger] r.blocks@[i], shown_lines(text@)[i]),
{
    let chars = chars_of(text);
    let mut lines: Vec<Vec<char>> = Vec::new();
    let mut current: Vec<char> = Vec::new();
    let mut i: usize = 0;
    assert(chars@.take(0) =~= Seq::<char>::empty());
    while i < chars.len()
        invariant
            i <= chars@.len(),
            lines.deep_view().push(current@) == split_at_newlines(chars@.take(i as int)),
        decreases chars.len() - i,
    {
        assert(chars@.take(i as int + 1).drop_last() =~= chars@.take(i as int));
        let ghost before = lines.deep_view().push(current@);
        if chars[i] == '\n' {
            let ghost l = lines.deep_view();
            let finished = current;
            assert(finished.deep_view() =~= finished@);
            lines.push(finished);
            assert(lines.deep_view() =~= l.push(finished@));
            current = Vec::new();
            assert(lines.deep_view().push(current@) =~= before.push(Seq::<char>::empty()));
        } else {
            current.push(chars[i]);
            assert(lines.deep_view().push(current@) =~= before.update(before.len() - 1, before.last().push(chars@[i as int])));
        }
        i = i + 1;
    }
    assert(chars@.take(chars@.len() as int) =~= chars@);
    let ghost l = lines.deep_view();
    assert(current.deep_view() =~= current@);
    lines.push(current);
    assert(lines.deep_view() =~= l.push(current@));
    assert(lines.deep_view() =~= split_at_newlines(text@));
    let ghost all = split_at_newlines(text@).map_values(|l: Seq<char>| without_cr(l));
    let ghost pred = |l: Seq<char>| !all_space(l);
    let mut blocks: Vec<Block> = Vec::new();
    let ghost mut shown: Seq<Seq<char>> = Seq::empty();
    let mut k: usize = 0;
    while k < lines.len()
        invariant
            k <= lines@.len(),
            lines.deep_view() == split_at_newlines(text@),
            all == split_at_newlines(text@).map_values(|l: Seq<char>| without_cr(l)),
            pred == (|l: Seq<char>| !all_space(l)),
            shown == all.take(k as int).filter(pred),
            blocks@.len() == shown.len(),
            forall|j: int| 0 <= j < blocks@.len() ==> is_line_paragraph(#[trigger] blocks@[j], shown[j]),
        decreases lines.len() - k,
    {
        reveal_with_fuel(Seq::filter, 1);
        assert(all.take(k as int + 1).drop_last() =~= all.take(k as int));
        assert(lines.deep_view()[k as int] =~= lines@[k as int]@);
        let mut line: Vec<char> = Vec::new();
        let n = lines[k].len();
        let keep = if n > 0 && lines[k][n - 1] == '\r' { n - 1 } else { n };
        let mut j: usize = 0;
        while j < keep
            invariant
                j <= keep <= n,
                k < lines@.len(),
                n == lines@[k as int]@.len(),
                line@ == lines@[k as int]@.take(j as int),
            decreases keep - j,
        {
            line.push(lines[k][j]);
            j = j + 1;
            assert(line@ =~= lines@[k as int]@.take(j as int));
        }
        assert(line@ =~= without_cr(lines@[k as int]@));
        assert(all[k as int] == line@);
        if !all_whitespace(&line) {
            let b = line_paragraph(&line);
            blocks.push(b);
            proof { shown = shown.push(line@); }
        }
        k = k + 1;
    }
    assert(all.take(lines@.len() as int) =~= all);
    Document::new(blocks)
}

/// A Document read from bytes: invalid UTF-8 is replaced with U+FFFD and
/// a warning is recorded.
pub fn document_from_bytes(bytes: &[u8]) -> (r: Document)
    ensures
        ({
            let text = if valid_utf8(bytes@) { decode_utf8(bytes@) } else { utf8_lossy(bytes@) };
            &&& r.blocks@.len() == shown_lines(text).len()
            &&& forall|i: int| 0 <= i < r.blocks@.len() ==> is_line_paragraph(#[trigger] r.blocks@[i], shown_lines(text)[i])
            &&& r.warnings@ == (if valid_utf8(bytes@) { Seq::empty() } else { seq![DocumentWarning::InvalidUtf8Replaced] })
        }),
{
    let valid = is_utf8(bytes);
    let text = lossy_text(bytes);
    let mut document = plain_document(text.as_str());
    if !valid {
        document.add_warning(DocumentWarning::InvalidUtf8Replaced);
        assert(document.warnings@ =~= seq![DocumentWarning::InvalidUtf8Replaced]);
    } else {
        assert(document.warnings@ =~= Seq::<DocumentWarning>::empty());
    }
    document
}

} // verus!
