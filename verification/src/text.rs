//! Text primitives: Unicode segmentation, display width, case folding and
//! the character classes that the reader's logic relies on.
use unicode_casefold::UnicodeCaseFold;
use unicode_segmentation::UnicodeSegmentation;
use unicode_width::UnicodeWidthStr;
use vstd::prelude::*;

verus! {

/// The extended grapheme clusters of a text, as segmented by `unicode-segmentation`.
pub uninterp spec fn grapheme_clusters(s: Seq<char>) -> Seq<Seq<char>>;

/// The displayed width of a text, as measured by `unicode-width`.
pub uninterp spec fn display_width(s: Seq<char>) -> usize;

/// The full, non-Turkic case folding of one character, by `unicode-casefold`.
pub uninterp spec fn char_case_fold(c: char) -> Seq<char>;

/// Unicode `Uppercase` property of a character, as `char::is_uppercase` reports it.
pub uninterp spec fn is_uppercase_char(c: char) -> bool;

/// Unicode `Alphabetic` or `Numeric` property, as `char::is_alphanumeric` reports it.
pub uninterp spec fn is_alphanumeric_char(c: char) -> bool;

/// The Unicode lowercase mapping of a text, as `str::to_lowercase` computes it.
pub uninterp spec fn lowercase_text(s: Seq<char>) -> Seq<char>;

/// Concatenation of a sequence of texts.
pub open spec fn concat_all(parts: Seq<Seq<char>>) -> Seq<char>
    decreases parts.len(),
{
    if parts.len() == 0 {
        Seq::empty()
    } else {
        concat_all(parts.drop_last()) + parts.last()
    }
}

/// Every part of a segmentation is non-empty.
pub open spec fn all_nonempty(parts: Seq<Seq<char>>) -> bool {
    forall|i: int| 0 <= i < parts.len() ==> #[trigger] parts[i].len() > 0
}

/// Case folding of a whole text, character by character.
pub open spec fn fold_text(s: Seq<char>) -> Seq<char>
    decreases s.len(),
{
    if s.len() == 0 {
        Seq::empty()
    } else {
        fold_text(s.drop_last()) + char_case_fold(s.last())
    }
}

/// The `White_Space` property, which `char::is_whitespace` reports.
pub open spec fn is_space(c: char) -> bool {
    let v = c as u32;
    (0x9 <= v && v <= 0xd) || v == 0x20 || v == 0x85 || v == 0xa0 || v == 0x1680 || (0x2000
        <= v && v <= 0x200a) || v == 0x2028 || v == 0x2029 || v == 0x202f || v == 0x205f || v
        == 0x3000
}

/// The general category `Cc`, which `char::is_control` reports.
pub open spec fn is_control(c: char) -> bool {
    let v = c as u32;
    v <= 0x1f || (0x7f <= v && v <= 0x9f)
}

/// Every character of a text is white space.
pub open spec fn all_space(s: Seq<char>) -> bool {
    forall|i: int| 0 <= i < s.len() ==> is_space(#[trigger] s[i])
}

/// `char::is_whitespace`, whose whole behaviour is the `White_Space` list.
pub fn is_whitespace(c: char) -> (r: bool)
    ensures
        r == is_space(c),
{
    let v = c as u32;
    (0x9 <= v && v <= 0xd) || v == 0x20 || v == 0x85 || v == 0xa0 || v == 0x1680 || (0x2000
        <= v && v <= 0x200a) || v == 0x2028 || v == 0x2029 || v == 0x202f || v == 0x205f || v
        == 0x3000
}

/// `char::is_control`, whose whole behaviour is the `Cc` range list.
pub fn is_control_char(c: char) -> (r: bool)
    ensures
        r == is_control(c),
{
    let v = c as u32;
    v <= 0x1f || (0x7f <= v && v <= 0x9f)
}

/// Whether every character of a text is white space.
pub fn all_whitespace(s: &Vec<char>) -> (r: bool)
    ensures
        r == all_space(s@),
{
    let mut i: usize = 0;
    while i < s.len()
        invariant
            i <= s.len(),
            forall|j: int| 0 <= j < i ==> is_space(#[trigger] s@[j]),
        decreases s.len() - i,
    {
        if !is_whitespace(s[i]) {
            return false;
        }
        i = i + 1;
    }
    true
}

/// Wraps `UnicodeSegmentation::graphemes` (extended clusters): the clusters of
/// the text in order, each cluster's characters taken out as a vector. The
/// iterator hands out consecutive, non-empty slices that cover the text.
#[verifier::external_body]
pub(crate) fn graphemes(s: &str) -> (r: Vec<Vec<char>>)
    ensures
        r.deep_view() == grapheme_clusters(s@),
        concat_all(r.deep_view()) == s@,
        all_nonempty(r.deep_view()),
{
    s.graphemes(true).map(|g| g.chars().collect()).collect()
}

/// Wraps `UnicodeWidthStr::width` on the text of the given characters.
#[verifier::external_body]
pub(crate) fn text_width(s: &Vec<char>) -> (r: usize)
    ensures
        r == display_width(s@),
{
    s.iter().collect::<String>().as_str().width()
}

/// Wraps `UnicodeCaseFold::case_fold` on one character: its folded characters.
#[verifier::external_body]
pub(crate) fn case_fold_char(c: char) -> (r: Vec<char>)
    ensures
        r@ == char_case_fold(c),
{
    c.case_fold().collect()
}

/// Wraps `char::is_uppercase`.
#[verifier::external_body]
pub(crate) fn char_is_uppercase(c: char) -> (r: bool)
    ensures
        r == is_uppercase_char(c),
{
    c.is_uppercase()
}

/// Wraps `char::is_alphanumeric`.
#[verifier::external_body]
pub(crate) fn char_is_alphanumeric(c: char) -> (r: bool)
    ensures
        r == is_alphanumeric_char(c),
{
    c.is_alphanumeric()
}

/// Wraps `str::to_lowercase` on the text of the given characters.
#[verifier::external_body]
pub(crate) fn to_lowercase(s: &Vec<char>) -> (r: Vec<char>)
    ensures
        r@ == lowercase_text(s@),
{
    s.iter().collect::<String>().to_lowercase().chars().collect()
}

/// The characters of a text (`str::chars`, collected).
#[verifier::external_body]
pub(crate) fn chars_of(s: &str) -> (r: Vec<char>)
    ensures
        r@ == s@,
{
    s.chars().collect()
}

/// The text made of the given characters (`String: FromIterator<char>`).
#[verifier::external_body]
pub(crate) fn string_of(s: &Vec<char>) -> (r: String)
    ensures
        r@ == s@,
{
    s.iter().collect()
}

/// Case folding of a text, character by character, as the search compares it.
pub fn fold_chars(s: &Vec<char>) -> (r: Vec<char>)
    ensures
        r@ == fold_text(s@),
{
    let mut out: Vec<char> = Vec::new();
    let mut i: usize = 0;
    while i < s.len()
        invariant
            i <= s.len(),
            out@ == fold_text(s@.take(i as int)),
        decreases s.len() - i,
    {
        let mut folded = case_fold_char(s[i]);
        assert(s@.take(i as int + 1).drop_last() == s@.take(i as int));
        out.append(&mut folded);
        i = i + 1;
    }
    assert(s@.take(s.len() as int) == s@);
    out
}

/// Appends the characters of `src` to `dst`.
pub fn push_all(dst: &mut Vec<char>, src: &Vec<char>)
    ensures
        final(dst)@ == old(dst)@ + src@,
{
    let mut i: usize = 0;
    while i < src.len()
        invariant
            i <= src.len(),
            dst@ == old(dst)@ + src@.take(i as int),
        decreases src.len() - i,
    {
        dst.push(src[i]);
        assert(src@.take(i as int + 1) == src@.take(i as int).push(src@[i as int]));
        i = i + 1;
    }
    assert(src@.take(src.len() as int) == src@);
}

/// Whether two character vectors are equal.
pub fn chars_eq(a: &Vec<char>, b: &Vec<char>) -> (r: bool)
    ensures
        r == (a@ == b@),
{
    if a.len() != b.len() {
        return false;
    }
    let mut i: usize = 0;
    while i < a.len()
        invariant
            i <= a.len(),
            a.len() == b.len(),
            forall|j: int| 0 <= j < i ==> a@[j] == b@[j],
        decreases a.len() - i,
    {
        if a[i] != b[i] {
            return false;
        }
        i = i + 1;
    }
    assert(a@ =~= b@);
    true
}

/// Whether a character vector is exactly the one character `c`.
pub fn is_single(a: &Vec<char>, c: char) -> (r: bool)
    ensures
        r == (a@ == seq![c]),
{
    if a.len() == 1 && a[0] == c {
        assert(a@ =~= seq![c]);
        true
    } else {
        false
    }
}


/// A character as the screen shows it: a control character becomes the
/// replacement character, so document text never drives the terminal.
pub open spec fn shown_char(c: char) -> char {
    if is_control(c) { '\u{fffd}' } else { c }
}

/// A text as the screen shows it: no control character is left in it.
pub fn shown_text(s: &str) -> (r: String)
    ensures
        r@ == s@.map_values(|c: char| shown_char(c)),
        forall|i: int| 0 <= i < r@.len() ==> !is_control(#[trigger] r@[i]),
{
    let chars = chars_of(s);
    let mut out: Vec<char> = Vec::new();
    let mut i: usize = 0;
    while i < chars.len()
        invariant
            i <= chars.len(),
            chars@ == s@,
            out@ == s@.take(i as int).map_values(|c: char| shown_char(c)),
        decreases chars.len() - i,
    {
        let c = chars[i];
        if is_control_char(c) {
            out.push('\u{fffd}');
        } else {
            out.push(c);
        }
        assert(s@.take(i as int + 1).map_values(|c: char| shown_char(c)) =~= s@.take(i as int).map_values(
            |c: char| shown_char(c),
        ).push(shown_char(c)));
        i = i + 1;
    }
    assert(s@.take(s@.len() as int) =~= s@);
    let r = string_of(&out);
    assert forall|i: int| 0 <= i < r@.len() implies !is_control(#[trigger] r@[i]) by {
        assert(r@[i] == shown_char(s@[i]));
    }
    r
}

} // verus!
