use mdview::outline::ellipsize_outline_label;

#[test]
fn outline_label_that_fits_is_kept_whole() {
    assert_eq!(ellipsize_outline_label("  ▸ ", "Usage", 16), "  ▸ Usage");
    assert_eq!(ellipsize_outline_label("", "abc", 3), "abc");
}

#[test]
fn long_outline_label_is_cut_with_an_ellipsis() {
    assert_eq!(ellipsize_outline_label("  ", "Hello world", 8), "  Hello…");
    assert_eq!(ellipsize_outline_label("", "abcd", 3), "ab…");
}

#[test]
fn wide_graphemes_are_never_split_by_the_ellipsis() {
    assert_eq!(ellipsize_outline_label("", "界界界", 4), "界…");
    assert_eq!(ellipsize_outline_label("", "e\u{301}xyz", 3), "e\u{301}x…");
}

#[test]
fn outline_row_without_room_keeps_only_the_prefix() {
    assert_eq!(ellipsize_outline_label("abcdef", "x", 3), "abcdef");
    assert_eq!(ellipsize_outline_label("ab", "xyz", 2), "ab");
}

#[test]
fn control_characters_never_reach_the_screen() {
    assert_eq!(mdview::text::shown_text("a\u{1b}[2Jb\tc"), "a\u{fffd}[2Jb\u{fffd}c");
    assert_eq!(mdview::text::shown_text("plain 界"), "plain 界");
}
