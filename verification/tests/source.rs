use mdview::source::{SourceError, SourceErrorKind};

#[test]
fn source_errors_name_the_path_and_the_reason() {
    let path = "notes.md".to_owned();
    let directory = SourceError { path: path.clone(), kind: SourceErrorKind::Directory };
    assert_eq!(directory.message(), "cannot open \"notes.md\": path is a directory");
    let read = SourceError { path: path.clone(), kind: SourceErrorKind::Read("No such file".to_owned()) };
    assert_eq!(read.message(), "cannot read \"notes.md\": No such file");
    let changed = SourceError { path, kind: SourceErrorKind::ChangedDuringReload };
    assert_eq!(changed.message(), "cannot Reload \"notes.md\": source changed while it was being read");
}

#[test]
fn error_paths_escape_terminal_controls_in_filenames() {
    let error = SourceError { path: "bad\u{1b}]0;owned\u{7}".to_owned(), kind: SourceErrorKind::Directory };
    let message = error.message();
    assert_eq!(message, format!("cannot open {:?}: path is a directory", "bad\u{1b}]0;owned\u{7}"));
    assert!(message.contains("owned") && !message.contains('\u{1b}') && !message.contains('\u{7}'));
    let read = SourceError { path: "a\"b\\c\td".to_owned(), kind: SourceErrorKind::Read("gone".to_owned()) };
    assert_eq!(read.message(), format!("cannot read {:?}: gone", "a\"b\\c\td"));
}
