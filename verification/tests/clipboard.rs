use mdview::clipboard::{
    encode_osc52, ClipboardAdapter, ClipboardMethod, ClipboardResult, ClipboardWriter, FakeClipboard,
};

#[test]
fn adapter_prefers_native_and_falls_back_to_osc52() {
    let mut native_calls = 0;
    let mut osc_calls = 0;
    let mut adapter = ClipboardAdapter::new(
        |text: &str| -> Result<(), String> {
            native_calls += 1;
            assert_eq!(text, "hello");
            Err("native blocked".into())
        },
        |text: &str| -> Result<(), String> {
            osc_calls += 1;
            assert_eq!(text, "hello");
            Ok(())
        },
    );

    assert_eq!(adapter.copy("hello"), ClipboardResult::Copied(ClipboardMethod::Osc52));
    drop(adapter);
    assert_eq!(native_calls, 1);
    assert_eq!(osc_calls, 1);

    let mut adapter = ClipboardAdapter::new(
        |_text: &str| -> Result<(), String> { Ok(()) },
        |_text: &str| -> Result<(), String> { panic!("osc should not run") },
    );
    assert_eq!(adapter.copy("native"), ClipboardResult::Copied(ClipboardMethod::Native));
}

#[test]
fn adapter_reports_combined_failure() {
    let mut adapter = ClipboardAdapter::new(
        |_text: &str| -> Result<(), String> { Err("no pbcopy".into()) },
        |_text: &str| -> Result<(), String> { Err("no tty".into()) },
    );
    assert_eq!(adapter.copy("x"), ClipboardResult::Failed("no pbcopy; no tty".into()));
}

#[test]
fn osc52_payload_is_base64_wrapped() {
    let payload = encode_osc52("Hi");
    assert!(payload.starts_with("\x1b]52;c;"));
    assert!(payload.ends_with('\x07'));
    assert!(payload.contains("SGk="));
}

#[test]
fn osc52_payload_exact_values() {
    assert_eq!(encode_osc52(""), "\x1b]52;c;\x07");
    assert_eq!(encode_osc52("M"), "\x1b]52;c;TQ==\x07");
    assert_eq!(encode_osc52("Ma"), "\x1b]52;c;TWE=\x07");
    assert_eq!(encode_osc52("Man"), "\x1b]52;c;TWFu\x07");
    assert_eq!(encode_osc52("hello"), "\x1b]52;c;aGVsbG8=\x07");
    assert_eq!(encode_osc52("é"), "\x1b]52;c;w6k=\x07");
}

#[test]
fn base64_length_follows_groups_of_three() {
    for (text, len) in [("", 0), ("a", 4), ("ab", 4), ("abc", 4), ("abcd", 8), ("abcdefg", 12)] {
        let payload = encode_osc52(text);
        assert_eq!(payload.chars().count(), 8 + len, "{text}");
    }
}

#[test]
fn fake_clipboard_records_writes() {
    let mut clipboard = FakeClipboard::failing("denied");
    assert_eq!(clipboard.write_text("one"), ClipboardResult::Failed("denied".to_owned()));
    assert_eq!(clipboard.write_text("two"), ClipboardResult::Failed("denied".to_owned()));
    assert_eq!(clipboard.writes, vec!["one".to_owned(), "two".to_owned()]);
    let mut ok = FakeClipboard::succeeding();
    assert_eq!(ok.write_text("x"), ClipboardResult::Copied(ClipboardMethod::Native));
}
