//! Clipboard decisions: native tools first, OSC 52 as the fallback, and the
//! OSC 52 payload itself.
use crate::text::{chars_of, push_all, string_of};
use vstd::prelude::*;
use vstd::utf8::encode_utf8;

verus! {

/// How text was delivered to the user's clipboard pathway.
#[derive(Clone, Copy, Debug, PartialEq, Eq, Structural)]
pub enum ClipboardMethod {
    Native,
    Osc52,
}

/// Result of attempting to write the Selection to a clipboard.
#[derive(Clone, Debug, PartialEq, Eq)]
pub enum ClipboardResult {
    Copied(ClipboardMethod),
    Failed(String),
}

/// Abstraction over clipboard backends so tests never touch the real clipboard.
pub trait ClipboardWriter {
    fn write_text(&mut self, text: &str) -> ClipboardResult;
}

/// What a copy reports, given what the native attempt and, after a native
/// failure, the OSC 52 attempt returned.
pub open spec fn is_fallback_outcome(
    r: ClipboardResult,
    native: Result<(), String>,
    osc52: Result<(), String>,
) -> bool {
    match native {
        Ok(()) => r == ClipboardResult::Copied(ClipboardMethod::Native),
        Err(n) => match osc52 {
            Ok(()) => r == ClipboardResult::Copied(ClipboardMethod::Osc52),
            Err(o) => r matches ClipboardResult::Failed(m) && m@ == n@ + "; "@ + o@,
        },
    }
}

/// Tries the native backend; only when it fails, tries OSC 52; when both
/// fail, reports both reasons.
pub fn copy_with_fallback<N, O>(text: &str, native: N, osc52: O) -> (r: ClipboardResult) where
    N: FnMut(&str) -> Result<(), String>,
    O: FnMut(&str) -> Result<(), String>,

    requires
        call_requires(native, (text,)),
        forall|n: Result<(), String>| #[trigger] call_ensures(native, (text,), n) && n is Err ==> call_requires(osc52, (text,)),
    ensures
        exists|n: Result<(), String>|
            {
                &&& #[trigger] call_ensures(native, (text,), n)
                &&& (n is Ok ==> r == ClipboardResult::Copied(ClipboardMethod::Native))
                &&& (n is Err ==> exists|o: Result<(), String>|
                    #[trigger] call_ensures(osc52, (text,), o) && is_fallback_outcome(r, n, o))
            },
{
    let mut native = native;
    let mut osc52 = osc52;
    let n = native(text);
    match n {
        Ok(()) => ClipboardResult::Copied(ClipboardMethod::Native),
        Err(native_error) => {
            let o = osc52(text);
            match o {
                Ok(()) => {
                    assert(is_fallback_outcome(ClipboardResult::Copied(ClipboardMethod::Osc52), n, o));
                    ClipboardResult::Copied(ClipboardMethod::Osc52)
                },
                Err(osc_error) => {
                    let mut message = chars_of(native_error.as_str());
                    push_all(&mut message, &chars_of("; "));
                    push_all(&mut message, &chars_of(osc_error.as_str()));
                    let r = ClipboardResult::Failed(string_of(&message));
                    assert(is_fallback_outcome(r, n, o));
                    r
                },
            }
        },
    }
}

/// Clipboard decision logic with injectable backends for adapter tests.
pub struct ClipboardAdapter<N, O> {
    native: N,
    osc52: O,
}

impl<N, O> ClipboardAdapter<N, O> where
    N: FnMut(&str) -> Result<(), String>,
    O: FnMut(&str) -> Result<(), String>,
 {
    pub closed spec fn native(&self) -> N {
        self.native
    }

    pub closed spec fn osc52(&self) -> O {
        self.osc52
    }

    pub fn new(native: N, osc52: O) -> (r: Self)
        ensures
            r.native() == native,
            r.osc52() == osc52,
    {
        ClipboardAdapter { native, osc52 }
    }

    /// Copies through the native backend, falling back to OSC 52.
    pub fn copy(&mut self, text: &str) -> (r: ClipboardResult)
        requires
            call_requires(old(self).native(), (text,)),
            forall|n: Result<(), String>| #[trigger] call_ensures(old(self).native(), (text,), n) && n is Err ==> call_requires(old(self).osc52(), (text,)),
        ensures
            exists|n: Result<(), String>|
                {
                    &&& #[trigger] call_ensures(old(self).native(), (text,), n)
                    &&& (n is Ok ==> r == ClipboardResult::Copied(ClipboardMethod::Native))
                    &&& (n is Err ==> exists|o: Result<(), String>|
                        #[trigger] call_ensures(old(self).osc52(), (text,), o) && is_fallback_outcome(r, n, o))
                },
    {
        let n = (self.native)(text);
        match n {
            Ok(()) => ClipboardResult::Copied(ClipboardMethod::Native),
            Err(native_error) => {
                let o = (self.osc52)(text);
                match o {
                    Ok(()) => {
                        assert(is_fallback_outcome(ClipboardResult::Copied(ClipboardMethod::Osc52), n, o));
                        ClipboardResult::Copied(ClipboardMethod::Osc52)
                    },
                    Err(osc_error) => {
                        let mut message = chars_of(native_error.as_str());
                        push_all(&mut message, &chars_of("; "));
                        push_all(&mut message, &chars_of(osc_error.as_str()));
                        let r = ClipboardResult::Failed(string_of(&message));
                        assert(is_fallback_outcome(r, n, o));
                        r
                    },
                }
            },
        }
    }
}

/// Test double that records writes and returns a configured result.
#[derive(Debug)]
pub struct FakeClipboard {
    pub writes: Vec<String>,
    pub result: ClipboardResult,
}

impl FakeClipboard {
    pub fn succeeding() -> (r: Self)
        ensures
            r.writes@.len() == 0,
            r.result == ClipboardResult::Copied(ClipboardMethod::Native),
    {
        FakeClipboard { writes: Vec::new(), result: ClipboardResult::Copied(ClipboardMethod::Native) }
    }

    pub fn failing(message: &str) -> (r: Self)
        ensures
            r.writes@.len() == 0,
            r.result matches ClipboardResult::Failed(m) && m@ == message@,
    {
        FakeClipboard { writes: Vec::new(), result: ClipboardResult::Failed(string_of(&chars_of(message))) }
    }

    /// Records the text and answers with the configured result.
    pub fn record(&mut self, text: &str) -> (r: ClipboardResult)
        ensures
            final(self).writes@.len() == old(self).writes@.len() + 1,
            final(self).writes@.last()@ == text@,
            final(self).writes@.drop_last() == old(self).writes@,
            final(self).result == old(self).result,
            r == old(self).result,
    {
        self.writes.push(string_of(&chars_of(text)));
        clone_result(&self.result)
    }
}

impl ClipboardWriter for FakeClipboard {
    /// Records the text and answers with the configured result.
    fn write_text(&mut self, text: &str) -> (r: ClipboardResult)
        ensures
            final(self).writes@.len() == old(self).writes@.len() + 1,
            final(self).writes@.last()@ == text@,
            final(self).writes@.drop_last() == old(self).writes@,
            final(self).result == old(self).result,
            r == old(self).result,
    {
        self.record(text)
    }
}

/// A copy of a clipboard result.
pub fn clone_result(r: &ClipboardResult) -> (c: ClipboardResult)
    ensures
        c == *r,
{
    match r {
        ClipboardResult::Copied(m) => ClipboardResult::Copied(*m),
        ClipboardResult::Failed(s) => ClipboardResult::Failed(s.clone()),
    }
}

// ---------------------------------------------------------------------------
// OSC 52
// ---------------------------------------------------------------------------

/// The Base64 alphabet.
pub open spec fn b64_char(v: int) -> char {
    if v < 26 {
        (65 + v) as char
    } else if v < 52 {
        (97 + (v - 26)) as char
    } else if v < 62 {
        (48 + (v - 52)) as char
    } else if v == 62 {
        '+'
    } else {
        '/'
    }
}

/// Standard, padded Base64 of a byte sequence.
pub open spec fn base64(bytes: Seq<u8>) -> Seq<char>
    decreases bytes.len(),
{
    if bytes.len() == 0 {
        Seq::empty()
    } else if bytes.len() == 1 {
        let b0 = bytes[0] as int;
        seq![b64_char(b0 / 4), b64_char((b0 % 4) * 16), '=', '=']
    } else if bytes.len() == 2 {
        let b0 = bytes[0] as int;
        let b1 = bytes[1] as int;
        seq![b64_char(b0 / 4), b64_char((b0 % 4) * 16 + b1 / 16), b64_char((b1 % 16) * 4), '=']
    } else {
        let b0 = bytes[0] as int;
        let b1 = bytes[1] as int;
        let b2 = bytes[2] as int;
        seq![
            b64_char(b0 / 4),
            b64_char((b0 % 4) * 16 + b1 / 16),
            b64_char((b1 % 16) * 4 + b2 / 64),
            b64_char(b2 % 64),
        ] + base64(bytes.skip(3))
    }
}

fn b64_digit(v: u32) -> (c: char)
    requires
        v < 64,
    ensures
        c == b64_char(v as int),
{
    if v < 26 {
        ((65 + v) as u8) as char
    } else if v < 52 {
        ((97 + (v - 26)) as u8) as char
    } else if v < 62 {
        ((48 + (v - 52)) as u8) as char
    } else if v == 62 {
        '+'
    } else {
        '/'
    }
}

/// Base64 of the bytes from index `start` on.
fn base64_from(bytes: &[u8], start: usize) -> (r: Vec<char>)
    requires
        start <= bytes@.len(),
    ensures
        r@ == base64(bytes@.skip(start as int)),
    decreases bytes@.len() - start,
{
    let rest = bytes.len() - start;
    let mut out: Vec<char> = Vec::new();
    if rest == 0 {
        assert(bytes@.skip(start as int).len() == 0);
        return out;
    }
    let b0 = bytes[start] as u32;
    if rest == 1 {
        out.push(b64_digit(b0 / 4));
        out.push(b64_digit((b0 % 4) * 16));
        out.push('=');
        out.push('=');
        assert(out@ =~= base64(bytes@.skip(start as int)));
        return out;
    }
    let b1 = bytes[start + 1] as u32;
    if rest == 2 {
        out.push(b64_digit(b0 / 4));
        out.push(b64_digit((b0 % 4) * 16 + b1 / 16));
        out.push(b64_digit((b1 % 16) * 4));
        out.push('=');
        assert(out@ =~= base64(bytes@.skip(start as int)));
        return out;
    }
    let b2 = bytes[start + 2] as u32;
    out.push(b64_digit(b0 / 4));
    out.push(b64_digit((b0 % 4) * 16 + b1 / 16));
    out.push(b64_digit((b1 % 16) * 4 + b2 / 64));
    out.push(b64_digit(b2 % 64));
    let tail = base64_from(bytes, start + 3);
    assert(bytes@.skip(start as int).skip(3) =~= bytes@.skip(start as int + 3));
    push_all(&mut out, &tail);
    assert(out@ =~= base64(bytes@.skip(start as int)));
    out
}

/// The OSC 52 escape sequence that asks the terminal to set the clipboard.
pub open spec fn osc52_payload(text: Seq<char>) -> Seq<char> {
    seq!['\x1b', ']', '5', '2', ';', 'c', ';'] + base64(encode_utf8(text)) + seq!['\x07']
}

/// `ESC ] 52 ; c ; BASE64(text) BEL`.
pub fn encode_osc52(text: &str) -> (r: String)
    ensures
        r@ == osc52_payload(text@),
{
    let bytes = text.as_bytes();
    let mut out: Vec<char> = Vec::new();
    out.push('\x1b');
    out.push(']');
    out.push('5');
    out.push('2');
    out.push(';');
    out.push('c');
    out.push(';');
    let encoded = base64_from(bytes, 0);
    assert(bytes@.skip(0) =~= bytes@);
    push_all(&mut out, &encoded);
    out.push('\x07');
    assert(out@ =~= osc52_payload(text@));
    string_of(&out)
}

/// Base64 writes four characters for every three bytes, the last group padded.
pub proof fn lemma_base64_length(bytes: Seq<u8>)
    ensures
        base64(bytes).len() == 4 * ((bytes.len() + 2) / 3),
    decreases bytes.len(),
{
    if bytes.len() > 2 {
        lemma_base64_length(bytes.skip(3));
    }
}

/// The OSC 52 sequence is the Base64 of the text's UTF-8 between the
/// `ESC ] 52 ; c ;` introducer and BEL.
pub proof fn lemma_osc52_framing(text: Seq<char>)
    ensures
        osc52_payload(text).len() == 8 + 4 * ((encode_utf8(text).len() + 2) / 3),
        osc52_payload(text).take(7) == seq!['\x1b', ']', '5', '2', ';', 'c', ';'],
        osc52_payload(text).last() == '\x07',
        osc52_payload(text).subrange(7, osc52_payload(text).len() - 1) == base64(encode_utf8(text)),
{
    lemma_base64_length(encode_utf8(text));
    let p = osc52_payload(text);
    assert(p.take(7) =~= seq!['\x1b', ']', '5', '2', ';', 'c', ';']);
    assert(p.subrange(7, p.len() - 1) =~= base64(encode_utf8(text)));
}


/// The value of a character in the RFC 4648 Base64 alphabet: `A`–`Z` are
/// 0–25, `a`–`z` 26–51, `0`–`9` 52–61, `+` 62 and `/` 63; anything else
/// has none.
pub open spec fn rfc4648_value(c: char) -> int {
    let u = c as u32;
    if 65 <= u <= 90 {
        u - 65
    } else if 97 <= u <= 122 {
        u - 97 + 26
    } else if 48 <= u <= 57 {
        u - 48 + 52
    } else if c == '+' {
        62
    } else if c == '/' {
        63
    } else {
        -1
    }
}

/// Decoding padded Base64 with the RFC 4648 alphabet, four characters at
/// a time.
pub open spec fn rfc4648_decode(s: Seq<char>) -> Seq<u8>
    decreases s.len(),
{
    if s.len() < 4 {
        Seq::empty()
    } else {
        let v0 = rfc4648_value(s[0]);
        let v1 = rfc4648_value(s[1]);
        let v2 = rfc4648_value(s[2]);
        let v3 = rfc4648_value(s[3]);
        if s[2] == '=' {
            seq![(v0 * 4 + v1 / 16) as u8]
        } else if s[3] == '=' {
            seq![(v0 * 4 + v1 / 16) as u8, ((v1 % 16) * 16 + v2 / 4) as u8]
        } else {
            seq![(v0 * 4 + v1 / 16) as u8, ((v1 % 16) * 16 + v2 / 4) as u8, ((v2 % 4) * 64 + v3) as u8]
                + rfc4648_decode(s.skip(4))
        }
    }
}

proof fn lemma_digit_value(v: int)
    requires
        0 <= v < 64,
    ensures
        rfc4648_value(b64_char(v)) == v,
        b64_char(v) != '=',
{
}

proof fn lemma_base64_decodes(bytes: Seq<u8>)
    ensures
        rfc4648_decode(base64(bytes)) == bytes,
    decreases bytes.len(),
{
    if bytes.len() == 0 {
        assert(rfc4648_decode(base64(bytes)) =~= bytes);
    } else {
        let b0 = bytes[0] as int;
        let c0 = b0 / 4;
        assert(0 <= c0 < 64);
        lemma_digit_value(c0);
        if bytes.len() == 1 {
            let c1 = (b0 % 4) * 16;
            lemma_digit_value(c1);
            assert(c0 * 4 + c1 / 16 == b0) by (nonlinear_arith)
                requires
                    c0 == b0 / 4,
                    c1 == (b0 % 4) * 16,
                    0 <= b0 < 256,
            ;
            assert(rfc4648_decode(base64(bytes)) =~= bytes);
        } else {
            let b1 = bytes[1] as int;
            let c1 = (b0 % 4) * 16 + b1 / 16;
            assert(0 <= c1 < 64) by (nonlinear_arith)
                requires
                    c1 == (b0 % 4) * 16 + b1 / 16,
                    0 <= b0 < 256,
                    0 <= b1 < 256,
            ;
            lemma_digit_value(c1);
            assert(c0 * 4 + c1 / 16 == b0) by (nonlinear_arith)
                requires
                    c0 == b0 / 4,
                    c1 == (b0 % 4) * 16 + b1 / 16,
                    0 <= b0 < 256,
                    0 <= b1 < 256,
            ;
            if bytes.len() == 2 {
                let c2 = (b1 % 16) * 4;
                lemma_digit_value(c2);
                assert((c1 % 16) * 16 + c2 / 4 == b1) by (nonlinear_arith)
                    requires
                        c1 == (b0 % 4) * 16 + b1 / 16,
                        c2 == (b1 % 16) * 4,
                        0 <= b0 < 256,
                        0 <= b1 < 256,
                ;
                assert(rfc4648_decode(base64(bytes)) =~= bytes);
            } else {
                let b2 = bytes[2] as int;
                let c2 = (b1 % 16) * 4 + b2 / 64;
                let c3 = b2 % 64;
                assert(0 <= c2 < 64) by (nonlinear_arith)
                    requires
                        c2 == (b1 % 16) * 4 + b2 / 64,
                        0 <= b1 < 256,
                        0 <= b2 < 256,
                ;
                lemma_digit_value(c2);
                lemma_digit_value(c3);
                assert((c1 % 16) * 16 + c2 / 4 == b1) by (nonlinear_arith)
                    requires
                        c1 == (b0 % 4) * 16 + b1 / 16,
                        c2 == (b1 % 16) * 4 + b2 / 64,
                        0 <= b0 < 256,
                        0 <= b1 < 256,
                        0 <= b2 < 256,
                ;
                assert((c2 % 4) * 64 + c3 == b2) by (nonlinear_arith)
                    requires
                        c2 == (b1 % 16) * 4 + b2 / 64,
                        c3 == b2 % 64,
                        0 <= b1 < 256,
                        0 <= b2 < 256,
                ;
                lemma_base64_decodes(bytes.skip(3));
                let head = seq![b64_char(c0), b64_char(c1), b64_char(c2), b64_char(c3)];
                let enc = base64(bytes);
                assert(enc == head + base64(bytes.skip(3)));
                assert(enc.skip(4) =~= base64(bytes.skip(3)));
                lemma_base64_length(bytes.skip(3));
                assert(rfc4648_decode(enc) =~= seq![b0 as u8, b1 as u8, b2 as u8] + bytes.skip(3));
                assert(bytes =~= seq![b0 as u8, b1 as u8, b2 as u8] + bytes.skip(3));
            }
        }
    }
}

/// The OSC 52 payload decodes back to the copied text: the characters
/// between `ESC ] 52 ; c ;` and BEL, decoded with the RFC 4648 Base64
/// table, are exactly the UTF-8 bytes of the text.
pub proof fn lemma_osc52_decodes_to_the_text(text: Seq<char>)
    ensures
        ({
            let p = osc52_payload(text);
            rfc4648_decode(p.subrange(7, p.len() - 1)) == encode_utf8(text)
        }),
{
    lemma_osc52_framing(text);
    lemma_base64_decodes(encode_utf8(text));
}

} // verus!
