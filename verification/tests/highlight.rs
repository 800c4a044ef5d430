use mdview::highlight::{grapheme_styles, CodeHighlighter, HighlightStyle, SyntectHighlighter};

fn style(red: u8) -> HighlightStyle {
    HighlightStyle { foreground: Some((red, 0, 0)), bold: red % 2 == 0, italic: false, underlined: red > 2 }
}

#[test]
fn each_grapheme_takes_the_style_of_its_first_byte() {
    assert_eq!(grapheme_styles("ab", &vec![style(1), style(2)]), Ok(vec![style(1), style(2)]));
    assert_eq!(grapheme_styles("éa", &vec![style(1), style(2), style(3)]), Ok(vec![style(1), style(3)]));
    assert_eq!(grapheme_styles("e\u{301}x", &vec![style(1), style(2), style(3), style(4)]), Ok(vec![style(1), style(4)]));
    assert_eq!(grapheme_styles("", &vec![]), Ok(vec![]));
}

#[test]
fn styles_that_do_not_cover_the_code_are_refused() {
    let message = Err("highlighted text did not preserve the semantic code".to_owned());
    assert_eq!(grapheme_styles("ab", &vec![style(1)]), message);
    assert_eq!(grapheme_styles("ab", &vec![style(1), style(2), style(3)]), message);
    assert_eq!(grapheme_styles("é", &vec![style(1)]), message);
}

#[test]
fn style_getters() {
    let s = style(4);
    assert_eq!(s.foreground(), Some((4, 0, 0)));
    assert!(s.is_bold());
    assert!(!s.is_italic());
    assert!(s.is_underlined());
    assert_eq!(HighlightStyle::default().foreground(), None);
}

#[test]
fn syntect_highlights_rust_without_changing_grapheme_count() {
    let code = "fn main() { println!(\"界\"); }\n";
    let styles = SyntectHighlighter::new()
        .highlight("rust", code)
        .expect("highlighting succeeds")
        .expect("Rust is recognized");

    assert_eq!(styles.len(), unicode_segmentation::UnicodeSegmentation::graphemes(code, true).count());
}

#[test]
fn unknown_languages_are_not_highlighted() {
    assert_eq!(SyntectHighlighter::new().highlight("not-a-real-language", "x"), Ok(None));
}

#[test]
fn runs_are_spread_over_their_bytes() {
    let mut out = vec![style(9)];
    mdview::highlight::expand_runs(&mut out, &vec![(style(1), 2), (style(2), 0), (style(3), 1)]);
    assert_eq!(out, vec![style(9), style(1), style(1), style(3)]);
}

#[test]
fn recognised_code_gets_a_colour_for_every_grapheme() {
    let code = "fn main() { println!(\"界\"); }\n";
    let styles = SyntectHighlighter::new().highlight_code("rust", code).expect("highlighting succeeds").expect("Rust is recognized");
    assert_eq!(styles.len(), 29);
    assert!(styles.iter().all(|style| style.foreground().is_some()));
}
