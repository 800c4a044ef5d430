use mdview::browser::{is_web_url, BrowserLauncher, BrowserResult, FakeBrowser, SystemBrowser};

#[test]
fn system_browser_rejects_non_web_schemes_without_launching() {
    let mut browser = SystemBrowser::new();
    for url in [
        "./other.md",
        "../readme.md",
        "mailto:a@b.c",
        "javascript:alert(1)",
        "file:///tmp/x",
        "ftp://example.com",
    ] {
        assert_eq!(
            browser.open_url_with(url, |_program: &str| -> bool { panic!("launched a program for {url}") }),
            BrowserResult::Failed("unsupported URL scheme".to_owned()),
            "{url}"
        );
    }
}

#[test]
fn system_browser_accepts_http_and_https_schemes_case_insensitively() {
    assert!(is_web_url("http://example.com"));
    assert!(is_web_url("https://example.com"));
    assert!(is_web_url("HTTP://EXAMPLE.COM"));
    assert!(is_web_url("HTTPS://EXAMPLE.COM/path"));
    assert!(!is_web_url("./relative.md"));
    assert!(!is_web_url("mailto:a@b.c"));
}

#[test]
fn mixed_case_schemes_are_web_links() {
    assert!(is_web_url("HtTpS://example.com"));
    assert!(!is_web_url("https:/example.com"));
    assert!(!is_web_url("http:"));
}

#[test]
fn system_browser_tries_open_then_xdg_open() {
    let mut browser = SystemBrowser::new();
    let mut tried: Vec<String> = Vec::new();
    let result = browser.open_url_with("https://example.com", |program: &str| {
        tried.push(program.to_owned());
        program == "xdg-open"
    });
    assert_eq!(result, BrowserResult::Opened);
    assert_eq!(tried, vec!["open".to_owned(), "xdg-open".to_owned()]);
}

#[test]
fn system_browser_stops_after_the_first_success() {
    let mut browser = SystemBrowser::new();
    let mut tried = 0;
    let result = browser.open_url_with("http://example.com", |_program: &str| {
        tried += 1;
        true
    });
    assert_eq!(result, BrowserResult::Opened);
    assert_eq!(tried, 1);
}

#[test]
fn system_browser_reports_missing_launchers() {
    let mut browser = SystemBrowser::new();
    assert_eq!(
        browser.open_url_with("https://example.com", |_program: &str| false),
        BrowserResult::Failed("no system browser launcher available".to_owned())
    );
}

#[test]
fn fake_browser_records_requests() {
    let mut browser = FakeBrowser::failing("blocked");
    assert_eq!(browser.open_url("https://a.example"), BrowserResult::Failed("blocked".to_owned()));
    let mut ok = FakeBrowser::succeeding();
    assert_eq!(ok.open_url("https://b.example"), BrowserResult::Opened);
    assert_eq!(browser.opened, vec!["https://a.example".to_owned()]);
    assert_eq!(ok.opened, vec!["https://b.example".to_owned()]);
}
