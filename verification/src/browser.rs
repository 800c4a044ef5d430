//! Browser decisions: only explicit `http` and `https` links may launch.
use crate::text::{chars_of, string_of};
use vstd::prelude::*;

verus! {

/// Result of attempting to open a URL in the system browser.
#[derive(Clone, Debug, PartialEq, Eq)]
pub enum BrowserResult {
    Opened,
    Failed(String),
}

/// Abstraction over browser launchers so tests never open a real browser.
pub trait BrowserLauncher {
    fn open_url(&mut self, url: &str) -> BrowserResult;
}

/// ASCII lowercase of one character (`char::to_ascii_lowercase`).
pub open spec fn ascii_lower(c: char) -> char {
    if 'A' <= c && c <= 'Z' { ((c as u32) + 32) as char } else { c }
}

pub fn to_ascii_lower(c: char) -> (r: char)
    ensures
        r == ascii_lower(c),
{
    if 'A' <= c && c <= 'Z' {
        ((c as u8) + 32) as char
    } else {
        c
    }
}

/// `prefix` starts `s` when ASCII case is ignored in `s`.
pub open spec fn starts_with_ascii_ci(s: Seq<char>, prefix: Seq<char>) -> bool {
    prefix.len() <= s.len() && forall|i: int| 0 <= i < prefix.len() ==> ascii_lower(#[trigger] s[i]) == prefix[i]
}

/// A URL with an `http` or `https` scheme, in any ASCII case.
pub open spec fn web_url(url: Seq<char>) -> bool {
    starts_with_ascii_ci(url, "http://"@) || starts_with_ascii_ci(url, "https://"@)
}

fn starts_with_ci(s: &Vec<char>, prefix: &Vec<char>) -> (r: bool)
    ensures
        r == starts_with_ascii_ci(s@, prefix@),
{
    if prefix.len() > s.len() {
        return false;
    }
    let mut i: usize = 0;
    while i < prefix.len()
        invariant
            i <= prefix.len(),
            prefix.len() <= s.len(),
            forall|j: int| 0 <= j < i ==> ascii_lower(#[trigger] s@[j]) == prefix@[j],
        decreases prefix.len() - i,
    {
        if to_ascii_lower(s[i]) != prefix[i] {
            return false;
        }
        i = i + 1;
    }
    true
}

/// Whether a link may be handed to the system browser.
pub fn is_web_url(url: &str) -> (r: bool)
    ensures
        r == web_url(url@),
{
    let chars = chars_of(url);
    starts_with_ci(&chars, &chars_of("http://")) || starts_with_ci(&chars, &chars_of("https://"))
}

/// Production adapter: the platform `open` helpers, for web links only.
pub struct SystemBrowser;

impl SystemBrowser {
    pub fn new() -> (r: Self) {
        SystemBrowser
    }

    /// Opens a web link by trying `open`, then `xdg-open`; anything else is
    /// refused before any program is launched. `launch` runs one program on
    /// the URL and reports whether it succeeded.
    pub fn open_url_with<L>(&mut self, url: &str, launch: L) -> (r: BrowserResult) where
        L: FnMut(&str) -> bool,

        requires
            forall|program: &str| call_requires(launch, (program,)),
        ensures
            !web_url(url@) ==> (r matches BrowserResult::Failed(m) && m@ == "unsupported URL scheme"@),
            web_url(url@) ==> (r == BrowserResult::Opened || (r matches BrowserResult::Failed(m) && m@
                == "no system browser launcher available"@)),
            web_url(url@) && r == BrowserResult::Opened ==> call_ensures(launch, ("open",), true)
                || call_ensures(launch, ("xdg-open",), true),
            web_url(url@) && r != BrowserResult::Opened ==> call_ensures(launch, ("open",), false)
                && call_ensures(launch, ("xdg-open",), false),
    {
        let mut launch = launch;
        if !is_web_url(url) {
            return BrowserResult::Failed(string_of(&chars_of("unsupported URL scheme")));
        }
        let first = launch("open");
        if first {
            return BrowserResult::Opened;
        }
        let second = launch("xdg-open");
        if second {
            BrowserResult::Opened
        } else {
            BrowserResult::Failed(string_of(&chars_of("no system browser launcher available")))
        }
    }
}

/// Test double that records requests and returns a configured result.
#[derive(Clone, Debug)]
pub struct FakeBrowser {
    pub result: BrowserResult,
    pub opened: Vec<String>,
}

impl FakeBrowser {
    pub fn succeeding() -> (r: Self)
        ensures
            r.result == BrowserResult::Opened,
            r.opened@.len() == 0,
    {
        FakeBrowser { result: BrowserResult::Opened, opened: Vec::new() }
    }

    pub fn failing(message: &str) -> (r: Self)
        ensures
            r.result matches BrowserResult::Failed(m) && m@ == message@,
            r.opened@.len() == 0,
    {
        FakeBrowser { result: BrowserResult::Failed(string_of(&chars_of(message))), opened: Vec::new() }
    }

    /// Records the URL and answers with the configured result.
    pub fn record(&mut self, url: &str) -> (r: BrowserResult)
        ensures
            final(self).opened@.len() == old(self).opened@.len() + 1,
            final(self).opened@.last()@ == url@,
            final(self).opened@.drop_last() == old(self).opened@,
            final(self).result == old(self).result,
            r == old(self).result,
    {
        self.opened.push(string_of(&chars_of(url)));
        match &self.result {
            BrowserResult::Opened => BrowserResult::Opened,
            BrowserResult::Failed(m) => BrowserResult::Failed(m.clone()),
        }
    }
}

impl BrowserLauncher for FakeBrowser {
    /// Records the URL and answers with the configured result.
    fn open_url(&mut self, url: &str) -> (r: BrowserResult)
        ensures
            final(self).opened@.len() == old(self).opened@.len() + 1,
            final(self).opened@.last()@ == url@,
            final(self).opened@.drop_last() == old(self).opened@,
            final(self).result == old(self).result,
            r == old(self).result,
    {
        self.record(url)
    }
}

/// Whether a link opens in the browser does not depend on the ASCII case
/// of the link.
pub proof fn lemma_web_url_ignores_ascii_case(url: Seq<char>)
    ensures
        web_url(url) == web_url(url.map_values(|c: char| ascii_lower(c))),
{
    let lower = url.map_values(|c: char| ascii_lower(c));
    assert forall|i: int| 0 <= i < url.len() implies ascii_lower(#[trigger] lower[i]) == ascii_lower(url[i]) by {
        let c = url[i];
        if 'A' <= c && c <= 'Z' {
            assert(((c as u32) + 32) as char == lower[i]);
        }
    }
    lemma_same_prefix(url, lower, "http://"@);
    lemma_same_prefix(url, lower, "https://"@);
}

proof fn lemma_same_prefix(url: Seq<char>, lower: Seq<char>, prefix: Seq<char>)
    requires
        lower.len() == url.len(),
        forall|i: int| 0 <= i < url.len() ==> ascii_lower(#[trigger] lower[i]) == ascii_lower(url[i]),
    ensures
        starts_with_ascii_ci(url, prefix) == starts_with_ascii_ci(lower, prefix),
{
    if starts_with_ascii_ci(url, prefix) {
        assert forall|i: int| 0 <= i < prefix.len() implies ascii_lower(#[trigger] lower[i]) == prefix[i] by {
            assert(ascii_lower(url[i]) == prefix[i]);
        }
    }
    if starts_with_ascii_ci(lower, prefix) {
        assert forall|i: int| 0 <= i < prefix.len() implies ascii_lower(#[trigger] url[i]) == prefix[i] by {
            assert(ascii_lower(lower[i]) == prefix[i]);
        }
    }
}

} // verus!
