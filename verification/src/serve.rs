//! The decisions of the local preview server that need no file system:
//! percent-encoding of routes, classification of link references, content
//! types, code fences, and the layout of the navigation.
use vstd::prelude::*;
use vstd::utf8::{decode_utf8, encode_utf8, valid_utf8};

use crate::paths::{chars_equal, extension, markdown_path};
use crate::document::{escape_char, path_title, MarkdownDocument};
use crate::markdown::{markdown_events, parse_events, MdEvent, TagData, TagKind};
use crate::terminal::{decimal, decimal_chars};
use crate::text::{
    ascii_lower, chars_of, is_ws, lower, push_all, split_words, starts_with, string_from_chars,
    to_ascii_lower, words,
};

verus! {

/// The value of an ASCII hexadecimal digit, in either case.
pub open spec fn hex_val(b: u8) -> Option<u8> {
    if 48 <= b <= 57 {
        Some((b - 48) as u8)
    } else if 97 <= b <= 102 {
        Some((b - 97 + 10) as u8)
    } else if 65 <= b <= 70 {
        Some((b - 65 + 10) as u8)
    } else {
        None
    }
}

/// The value of an ASCII hexadecimal digit, in either case.
pub fn hex_value(byte: u8) -> (v: Option<u8>)
    ensures
        v == hex_val(byte),
{
    if 48u8 <= byte && byte <= 57u8 {
        Some(byte - 48u8)
    } else if 97u8 <= byte && byte <= 102u8 {
        Some(byte - 97u8 + 10)
    } else if 65u8 <= byte && byte <= 70u8 {
        Some(byte - 65u8 + 10)
    } else {
        None
    }
}

/// The bytes written by `b` with each `%XX` replaced by the byte `XX`;
/// `None` when a `%` is not followed by two hexadecimal digits.
pub open spec fn unescape_bytes(b: Seq<u8>) -> Option<Seq<u8>>
    decreases b.len(),
{
    if b.len() == 0 {
        Some(Seq::empty())
    } else if b[0] == 37 {
        if b.len() < 3 {
            None
        } else {
            match (hex_val(b[1]), hex_val(b[2])) {
                (Some(h), Some(l)) => match unescape_bytes(b.skip(3)) {
                    Some(r) => Some(seq![(h * 16 + l) as u8] + r),
                    None => None,
                },
                _ => None,
            }
        }
    } else {
        match unescape_bytes(b.skip(1)) {
            Some(r) => Some(seq![b[0]] + r),
            None => None,
        }
    }
}

/// The text that a percent-encoded text stands for: `None` when an escape
/// is malformed or the bytes are not UTF-8.
pub open spec fn percent_decoded(s: Seq<char>) -> Option<Seq<char>> {
    match unescape_bytes(encode_utf8(s)) {
        Some(b) => if valid_utf8(b) {
            Some(decode_utf8(b))
        } else {
            None
        },
        None => None,
    }
}

/// Calls `String::from_utf8`. Claimed, as its documentation says: it
/// succeeds exactly when the bytes are valid UTF-8, and the string then
/// holds the characters that they encode.
#[verifier::external_body]
fn string_from_utf8(bytes: Vec<u8>) -> (s: Option<String>)
    ensures
        s is Some <==> valid_utf8(bytes@),
        s matches Some(t) ==> t@ == decode_utf8(bytes@),
{
    String::from_utf8(bytes).ok()
}

pub open spec fn prepend(o: Seq<u8>, r: Option<Seq<u8>>) -> Option<Seq<u8>> {
    match r {
        Some(t) => Some(o + t),
        None => None,
    }
}

/// Decodes `%XX` escapes, then reads the bytes as UTF-8.
pub fn percent_decode(value: &str) -> (decoded: Option<String>)
    ensures
        match decoded {
            Some(d) => percent_decoded(value@) == Some(d@),
            None => percent_decoded(value@) is None,
        },
{
    let bytes = value.as_bytes();
    let ghost b = bytes@;
    let mut output: Vec<u8> = Vec::new();
    let mut index: usize = 0;
    assert(b.skip(0) == b);
    while index < bytes.len()
        invariant
            index <= b.len(),
            b == bytes@,
            b == encode_utf8(value@),
            unescape_bytes(b) == prepend(output@, unescape_bytes(b.skip(index as int))),
        decreases b.len() - index,
    {
        let ghost rest = b.skip(index as int);
        assert(rest[0] == b[index as int]);
        if bytes[index] == 37u8 {
            if bytes.len() - index <= 2 {
                return None;
            }
            let hi = bytes[index + 1];
            let lo = bytes[index + 2];
            assert(rest[1] == hi && rest[2] == lo);
            let h = match hex_value(hi) {
                Some(h) => h,
                None => {
                    return None;
                },
            };
            let l = match hex_value(lo) {
                Some(l) => l,
                None => {
                    return None;
                },
            };
            assert(rest.skip(3) == b.skip(index + 3));
            let ghost before = output@;
            output.push(h * 16 + l);
            assert(output@ == before + seq![(h * 16 + l) as u8]);
            proof {
                match unescape_bytes(b.skip(index + 3)) {
                    Some(r) => {
                        assert(before + (seq![(h * 16 + l) as u8] + r) =~= output@ + r);
                    },
                    None => {},
                }
            }
            index = index + 3;
        } else {
            assert(rest.skip(1) == b.skip(index + 1));
            let ghost before = output@;
            output.push(bytes[index]);
            proof {
                match unescape_bytes(b.skip(index + 1)) {
                    Some(r) => {
                        assert(before + (seq![b[index as int]] + r) =~= output@ + r);
                    },
                    None => {},
                }
            }
            index = index + 1;
        }
    }
    assert(b.skip(index as int) =~= Seq::<u8>::empty());
    assert(output@ + Seq::<u8>::empty() =~= output@);
    string_from_utf8(output)
}

/// Whether a byte is kept as it is in a route segment.
pub open spec fn unreserved(b: u8) -> bool {
    ||| 48 <= b <= 57
    ||| 65 <= b <= 90
    ||| 97 <= b <= 122
    ||| b == 45
    ||| b == 46
    ||| b == 95
    ||| b == 126
}

pub open spec fn hex_upper(d: nat) -> char {
    if d < 10 {
        ((48 as u8) + d) as char
    } else {
        ((65 as u8) + d - 10) as char
    }
}

/// How one byte is written in a route segment.
pub open spec fn encode_byte(b: u8) -> Seq<char> {
    if unreserved(b) {
        seq![b as char]
    } else {
        seq!['%', hex_upper((b / 16) as nat), hex_upper((b % 16) as nat)]
    }
}

pub open spec fn encode_bytes(b: Seq<u8>) -> Seq<char>
    decreases b.len(),
{
    if b.len() == 0 {
        Seq::empty()
    } else {
        encode_bytes(b.drop_last()) + encode_byte(b.last())
    }
}

/// A route segment: the UTF-8 bytes of `s`, with every byte other than
/// ASCII letters, digits, `-`, `.`, `_` and `~` written as `%XX`.
pub open spec fn route_segment(s: Seq<char>) -> Seq<char> {
    encode_bytes(encode_utf8(s))
}

fn hex_upper_digit(d: u8) -> (c: char)
    requires
        d < 16,
    ensures
        c == hex_upper(d as nat),
{
    if d < 10 {
        ((48 as u8) + d) as char
    } else {
        ((65 as u8) + d - 10) as char
    }
}

/// Percent-encodes a path segment for use in a route.
pub fn percent_encode_route_segment(segment: &str) -> (encoded: String)
    ensures
        encoded@ == route_segment(segment@),
{
    let bytes = segment.as_bytes();
    let mut out: Vec<char> = Vec::new();
    let mut i: usize = 0;
    while i < bytes.len()
        invariant
            i <= bytes@.len(),
            bytes@ == encode_utf8(segment@),
            out@ == encode_bytes(bytes@.take(i as int)),
        decreases bytes@.len() - i,
    {
        let byte = bytes[i];
        let ghost before = out@;
        if (48u8 <= byte && byte <= 57u8) || (65u8 <= byte && byte <= 90u8) || (97u8 <= byte
            && byte <= 122u8) || byte == 45u8 || byte == 46u8 || byte == 95u8 || byte == 126u8 {
            out.push(byte as char);
        } else {
            out.push('%');
            out.push(hex_upper_digit(byte / 16));
            out.push(hex_upper_digit(byte % 16));
        }
        assert(out@ =~= before + encode_byte(byte));
        assert(bytes@.take(i + 1).drop_last() == bytes@.take(i as int));
        i = i + 1;
    }
    assert(bytes@.take(bytes@.len() as int) == bytes@);
    string_from_chars(out.as_slice())
}

/// Decodes up to four times, stopping early once decoding changes nothing.
pub open spec fn decode_rounds(s: Seq<char>, n: nat) -> Option<Seq<char>>
    decreases n,
{
    if n == 0 {
        Some(s)
    } else {
        match percent_decoded(s) {
            None => None,
            Some(d) => if d == s {
                Some(d)
            } else {
                decode_rounds(d, (n - 1) as nat)
            },
        }
    }
}

/// Percent-decodes `value` repeatedly, at most four times, until it no
/// longer changes; `None` when a round fails.
pub fn decode_repeated(value: &str) -> (decoded: Option<String>)
    ensures
        match decoded {
            Some(d) => decode_rounds(value@, 4) == Some(d@),
            None => decode_rounds(value@, 4) is None,
        },
{
    let mut current = value.to_owned();
    let mut round: usize = 0;
    while round < 4
        invariant
            round <= 4,
            decode_rounds(value@, 4) == decode_rounds(current@, (4 - round) as nat),
        decreases 4 - round,
    {
        let decoded = match percent_decode(current.as_str()) {
            Some(d) => d,
            None => {
                return None;
            },
        };
        if decoded == current {
            return Some(decoded);
        }
        current = decoded;
        round = round + 1;
    }
    Some(current)
}

pub open spec fn lit_http() -> Seq<char> {
    seq!['h', 't', 't', 'p', ':']
}

pub open spec fn lit_https() -> Seq<char> {
    seq!['h', 't', 't', 'p', 's', ':']
}

pub open spec fn lit_mailto() -> Seq<char> {
    seq!['m', 'a', 'i', 'l', 't', 'o', ':']
}

pub open spec fn lit_file() -> Seq<char> {
    seq!['f', 'i', 'l', 'e', ':']
}

/// Whether `s` holds `part` somewhere.
pub open spec fn contains_seq(s: Seq<char>, part: Seq<char>) -> bool {
    exists|i: int| 0 <= i <= s.len() - part.len() && #[trigger] s.subrange(i, i + part.len()) == part
}

/// References that the server leaves alone: web, mail and file URLs
/// (scheme in any case), absolute paths, and Windows drive paths.
pub open spec fn external_or_absolute(r: Seq<char>) -> bool {
    let l = lower(r);
    ||| starts_with(l, lit_http())
    ||| starts_with(l, lit_https())
    ||| starts_with(l, lit_mailto())
    ||| starts_with(l, lit_file())
    ||| starts_with(r, seq!['/'])
    ||| contains_seq(r, seq![':', '\\'])
}

fn lowercase(s: &[char]) -> (l: Vec<char>)
    ensures
        l@ == lower(s@),
{
    let mut l: Vec<char> = Vec::new();
    let mut i: usize = 0;
    while i < s.len()
        invariant
            i <= s@.len(),
            l@ == lower(s@.take(i as int)),
        decreases s@.len() - i,
    {
        l.push(to_ascii_lower(s[i]));
        i = i + 1;
        assert(lower(s@.take(i as int)) =~= lower(s@.take((i - 1) as int)).push(
            ascii_lower(s@[i - 1]),
        ));
    }
    assert(s@.take(s@.len() as int) == s@);
    l
}

fn has_drive_separator(s: &[char]) -> (b: bool)
    ensures
        b == contains_seq(s@, seq![':', '\\']),
{
    let mut i: usize = 0;
    while i < s.len()
        invariant
            forall|j: int|
                0 <= j < i && j + 1 < s@.len() ==> !(#[trigger] s@[j] == ':' && s@[j + 1] == '\\'),
        decreases s@.len() - i,
    {
        if i + 1 < s.len() && s[i] == ':' && s[i + 1] == '\\' {
            assert(s@.subrange(i as int, i + 2) =~= seq![':', '\\']);
            return true;
        }
        i = i + 1;
    }
    proof {
        assert forall|j: int| 0 <= j <= s@.len() - 2 implies #[trigger] s@.subrange(j, j + 2)
            != seq![':', '\\'] by {
            if s@.subrange(j, j + 2) == seq![':', '\\'] {
                assert(s@.subrange(j, j + 2)[0] == s@[j]);
                assert(s@.subrange(j, j + 2)[1] == s@[j + 1]);
            }
        }
    }
    false
}

/// Whether a reference points outside the served tree: a web, mail or file
/// URL, an absolute path, or a Windows drive path.
pub fn is_external_or_absolute(reference: &str) -> (b: bool)
    ensures
        b == external_or_absolute(reference@),
{
    let r = chars_of(reference);
    let l = lowercase(r.as_slice());
    let http = vec!['h', 't', 't', 'p', ':'];
    let https = vec!['h', 't', 't', 'p', 's', ':'];
    let mailto = vec!['m', 'a', 'i', 'l', 't', 'o', ':'];
    let file = vec!['f', 'i', 'l', 'e', ':'];
    let slash = vec!['/'];
    assert(http@ =~= lit_http());
    assert(https@ =~= lit_https());
    assert(mailto@ =~= lit_mailto());
    assert(file@ =~= lit_file());
    assert(slash@ =~= seq!['/']);
    crate::text::chars_start_with(l.as_slice(), http.as_slice())
        || crate::text::chars_start_with(l.as_slice(), https.as_slice())
        || crate::text::chars_start_with(l.as_slice(), mailto.as_slice())
        || crate::text::chars_start_with(l.as_slice(), file.as_slice())
        || crate::text::chars_start_with(r.as_slice(), slash.as_slice()) || has_drive_separator(
        r.as_slice(),
    )
}

/// The index of the first `?` or `#` in `s`, or its length.
pub open spec fn suffix_start(s: Seq<char>) -> int
    decreases s.len(),
{
    if s.len() == 0 {
        0
    } else if s[0] == '?' || s[0] == '#' {
        0
    } else {
        1 + suffix_start(s.drop_first())
    }
}

pub open spec fn is_control(c: char) -> bool {
    (c as u32) < 0x20 || (c as u32) == 0x7f
}

/// A reference without its query and fragment; `None` when that part holds
/// an ASCII control character.
pub open spec fn reference_path(r: Seq<char>) -> Option<Seq<char>> {
    let p = r.take(suffix_start(r));
    if exists|i: int| 0 <= i < p.len() && is_control(#[trigger] p[i]) {
        None
    } else {
        Some(p)
    }
}

pub proof fn lemma_suffix_start(s: Seq<char>, k: int)
    requires
        0 <= k <= s.len(),
        forall|j: int| 0 <= j < k ==> s[j] != '?' && s[j] != '#',
        k == s.len() || s[k] == '?' || s[k] == '#',
    ensures
        suffix_start(s) == k,
    decreases k,
{
    if k > 0 {
        lemma_suffix_start(s.drop_first(), k - 1);
    }
}

/// The path part of a reference: everything before the first `?` or `#`,
/// or `None` when it holds an ASCII control character.
pub fn reference_without_suffix(reference: &str) -> (path: Option<String>)
    ensures
        match path {
            Some(p) => reference_path(reference@) == Some(p@),
            None => reference_path(reference@) is None,
        },
{
    let r = chars_of(reference);
    let mut k: usize = 0;
    while k < r.len() && r[k] != '?' && r[k] != '#'
        invariant
            k <= r@.len(),
            forall|j: int| 0 <= j < k ==> r@[j] != '?' && r@[j] != '#',
        decreases r@.len() - k,
    {
        k = k + 1;
    }
    proof {
        lemma_suffix_start(r@, k as int);
    }
    let mut p: Vec<char> = Vec::new();
    let mut i: usize = 0;
    while i < k
        invariant
            k <= r@.len(),
            i <= k,
            r@ == reference@,
            suffix_start(r@) == k,
            p@ == r@.take(i as int),
            forall|j: int| 0 <= j < i ==> !is_control(#[trigger] r@[j]),
        decreases k - i,
    {
        let c = r[i];
        if (c as u32) < 0x20 || (c as u32) == 0x7f {
            assert(r@.take(k as int)[i as int] == c);
            assert(is_control(r@.take(k as int)[i as int]));
            return None;
        }
        p.push(c);
        i = i + 1;
        assert(p@ =~= r@.take(i as int));
    }
    proof {
        let q = r@.take(k as int);
        assert forall|j: int| 0 <= j < q.len() implies !is_control(#[trigger] q[j]) by {
            assert(q[j] == r@[j]);
        }
    }
    Some(string_from_chars(p.as_slice()))
}

/// The content type that the server sends for a referenced file, chosen by
/// its extension in any case; unknown kinds are sent as bytes.
pub open spec fn content_type_for(ext: Option<Seq<char>>) -> Seq<char> {
    match ext {
        Some(e) => {
            let l = lower(e);
            if l == seq!['p', 'n', 'g'] {
                CT_PNG@
            } else if l == seq!['j', 'p', 'g'] || l == seq!['j', 'p', 'e', 'g'] {
                CT_JPEG@
            } else if l == seq!['g', 'i', 'f'] {
                CT_GIF@
            } else if l == seq!['w', 'e', 'b', 'p'] {
                CT_WEBP@
            } else if l == seq!['a', 'v', 'i', 'f'] {
                CT_AVIF@
            } else if l == seq!['i', 'c', 'o'] {
                CT_ICO@
            } else if l == seq!['t', 'x', 't'] || l == seq!['l', 'o', 'g'] {
                CT_TEXT@
            } else if l == seq!['p', 'd', 'f'] {
                CT_PDF@
            } else if l == seq!['j', 's', 'o', 'n'] {
                CT_JSON@
            } else if l == seq!['c', 's', 'v'] {
                CT_CSV@
            } else if l == seq!['x', 'm', 'l'] {
                CT_XML@
            } else {
                CT_BYTES@
            }
        },
        None => CT_BYTES@,
    }
}

pub const CT_PNG: &'static str = "image/png";

pub const CT_JPEG: &'static str = "image/jpeg";

pub const CT_GIF: &'static str = "image/gif";

pub const CT_WEBP: &'static str = "image/webp";

pub const CT_AVIF: &'static str = "image/avif";

pub const CT_ICO: &'static str = "image/x-icon";

pub const CT_TEXT: &'static str = "text/plain; charset=utf-8";

pub const CT_PDF: &'static str = "application/pdf";

pub const CT_JSON: &'static str = "application/json";

pub const CT_CSV: &'static str = "text/csv; charset=utf-8";

pub const CT_XML: &'static str = "application/xml";

pub const CT_BYTES: &'static str = "application/octet-stream";

fn is_word(l: &[char], w: &str) -> (b: bool)
    ensures
        b == (l@ == w@),
{
    let v = chars_of(w);
    chars_equal(l, v.as_slice())
}

/// The content type for a referenced file, by its extension.
pub fn safe_content_type(path: &str) -> (ct: &'static str)
    ensures
        ct@ == content_type_for(extension(path@)),
{
    let p = chars_of(path);
    let ext = match crate::paths::path_file_name(p.as_slice()) {
        Some(name) => crate::paths::name_extension_of(name.as_slice()),
        None => None,
    };
    match ext {
        None => CT_BYTES,
        Some(e) => {
            let l = lowercase(e.as_slice());
            proof {
                reveal_strlit("png");
                reveal_strlit("jpg");
                reveal_strlit("jpeg");
                reveal_strlit("gif");
                reveal_strlit("webp");
                reveal_strlit("avif");
                reveal_strlit("ico");
                reveal_strlit("txt");
                reveal_strlit("log");
                reveal_strlit("pdf");
                reveal_strlit("json");
                reveal_strlit("csv");
                reveal_strlit("xml");
                assert("png"@ =~= seq!['p', 'n', 'g']);
                assert("jpg"@ =~= seq!['j', 'p', 'g']);
                assert("jpeg"@ =~= seq!['j', 'p', 'e', 'g']);
                assert("gif"@ =~= seq!['g', 'i', 'f']);
                assert("webp"@ =~= seq!['w', 'e', 'b', 'p']);
                assert("avif"@ =~= seq!['a', 'v', 'i', 'f']);
                assert("ico"@ =~= seq!['i', 'c', 'o']);
                assert("txt"@ =~= seq!['t', 'x', 't']);
                assert("log"@ =~= seq!['l', 'o', 'g']);
                assert("pdf"@ =~= seq!['p', 'd', 'f']);
                assert("json"@ =~= seq!['j', 's', 'o', 'n']);
                assert("csv"@ =~= seq!['c', 's', 'v']);
                assert("xml"@ =~= seq!['x', 'm', 'l']);
            }
            if is_word(l.as_slice(), "png") {
                CT_PNG
            } else if is_word(l.as_slice(), "jpg") || is_word(l.as_slice(), "jpeg") {
                CT_JPEG
            } else if is_word(l.as_slice(), "gif") {
                CT_GIF
            } else if is_word(l.as_slice(), "webp") {
                CT_WEBP
            } else if is_word(l.as_slice(), "avif") {
                CT_AVIF
            } else if is_word(l.as_slice(), "ico") {
                CT_ICO
            } else if is_word(l.as_slice(), "txt") || is_word(l.as_slice(), "log") {
                CT_TEXT
            } else if is_word(l.as_slice(), "pdf") {
                CT_PDF
            } else if is_word(l.as_slice(), "json") {
                CT_JSON
            } else if is_word(l.as_slice(), "csv") {
                CT_CSV
            } else if is_word(l.as_slice(), "xml") {
                CT_XML
            } else {
                CT_BYTES
            }
        },
    }
}

/// Whether a link points at a Markdown file.
pub fn is_markdown_link(path: &str) -> (b: bool)
    ensures
        b == markdown_path(path@),
{
    crate::paths::is_markdown_path(path)
}

/// The length of the run of `c` at the start of `s`.
pub open spec fn run_length(s: Seq<char>, c: char) -> nat
    decreases s.len(),
{
    if s.len() > 0 && s[0] == c {
        1 + run_length(s.drop_first(), c)
    } else {
        0
    }
}

/// A code-fence marker: a line that starts with at least three backticks
/// or tildes, given as the fence character and the length of its run.
pub open spec fn fence_of(line: Seq<char>) -> Option<(char, nat)> {
    if line.len() > 0 && (line[0] == '`' || line[0] == '~') && run_length(line, line[0]) >= 3 {
        Some((line[0], run_length(line, line[0])))
    } else {
        None
    }
}

proof fn lemma_run_length(s: Seq<char>, c: char, k: int)
    requires
        0 <= k <= s.len(),
        forall|j: int| 0 <= j < k ==> s[j] == c,
        k == s.len() || s[k] != c,
    ensures
        run_length(s, c) == k,
    decreases k,
{
    if k > 0 {
        lemma_run_length(s.drop_first(), c, k - 1);
    }
}

/// The fence character and run length of a code-fence line, or `None`.
pub fn fence_marker(trimmed: &str) -> (m: Option<(char, usize)>)
    ensures
        match m {
            Some((c, n)) => fence_of(trimmed@) == Some((c, n as nat)),
            None => fence_of(trimmed@) is None,
        },
{
    let t = chars_of(trimmed);
    if t.len() == 0 {
        return None;
    }
    let ch = t[0];
    if ch != '`' && ch != '~' {
        return None;
    }
    let mut n: usize = 0;
    while n < t.len() && t[n] == ch
        invariant
            n <= t@.len(),
            forall|j: int| 0 <= j < n ==> t@[j] == ch,
        decreases t@.len() - n,
    {
        n = n + 1;
    }
    proof {
        lemma_run_length(t@, ch, n as int);
    }
    if n >= 3 {
        Some((ch, n))
    } else {
        None
    }
}

/// How documents are listed: not at all for a single document, as tabs for
/// up to six explicitly named files, in a sidebar otherwise.
#[derive(Debug, Clone, Copy, PartialEq, Eq, Structural)]
pub enum NavLayout {
    Empty,
    Tabs,
    Sidebar,
}

/// How the served documents were chosen.
#[derive(Debug, Clone, Copy, PartialEq, Eq, Structural)]
pub enum ServeMode {
    SingleFile,
    Explicit,
    Directory,
}

/// The layout of the navigation for `document_count` documents.
pub fn nav_layout(document_count: usize, mode: ServeMode) -> (layout: NavLayout)
    ensures
        layout == (if document_count <= 1 {
            NavLayout::Empty
        } else if mode != ServeMode::Directory && document_count <= 6 {
            NavLayout::Tabs
        } else {
            NavLayout::Sidebar
        }),
{
    if document_count <= 1 {
        NavLayout::Empty
    } else if mode != ServeMode::Directory && document_count <= 6 {
        NavLayout::Tabs
    } else {
        NavLayout::Sidebar
    }
}

/// Where the destination of an inline link ends: the first `)` at or after
/// byte `i` of `b` that is neither escaped by a backslash nor inside a
/// single- or double-quoted title.
pub open spec fn destination_end(b: Seq<u8>, i: int, escaped: bool, quote: Option<u8>) -> Option<int>
    decreases b.len() - i,
{
    if i < 0 || i >= b.len() {
        None
    } else if escaped {
        destination_end(b, i + 1, false, quote)
    } else if b[i] == 92 {
        destination_end(b, i + 1, true, quote)
    } else if quote is Some {
        destination_end(
            b,
            i + 1,
            false,
            if b[i] == quote->0 {
                None
            } else {
                quote
            },
        )
    } else if b[i] == 34 || b[i] == 39 {
        destination_end(b, i + 1, false, Some(b[i]))
    } else if b[i] == 41 {
        Some(i)
    } else {
        destination_end(b, i + 1, false, None)
    }
}

/// The byte offset of the `)` that closes a link destination starting at
/// byte `start` of `line`; backslash escapes and quoted titles are skipped.
pub fn find_link_destination_end(line: &str, start: usize) -> (end: Option<usize>)
    requires
        vstd::utf8::is_char_boundary(encode_utf8(line@), start as int),
    ensures
        match end {
            Some(e) => destination_end(encode_utf8(line@), start as int, false, None) == Some(
                e as int,
            ),
            None => destination_end(encode_utf8(line@), start as int, false, None) is None,
        },
{
    let b = line.as_bytes();
    let mut escaped = false;
    let mut quote: Option<u8> = None;
    let mut i = start;
    if i > b.len() {
        return None;
    }
    while i < b.len()
        invariant
            i <= b@.len(),
            b@ == encode_utf8(line@),
            destination_end(b@, start as int, false, None) == destination_end(
                b@,
                i as int,
                escaped,
                quote,
            ),
        decreases b@.len() - i,
    {
        let c = b[i];
        if escaped {
            escaped = false;
        } else if c == 92u8 {
            escaped = true;
        } else if quote.is_some() {
            if quote == Some(c) {
                quote = None;
            }
        } else if c == 34u8 || c == 39u8 {
            quote = Some(c);
        } else if c == 41u8 {
            return Some(i);
        }
        i = i + 1;
    }
    None
}

/// Where a link's `(destination title)` text splits: at the first
/// whitespace character not escaped by a backslash, or at its end.
pub open spec fn title_split(s: Seq<char>, i: int, escaped: bool) -> int
    decreases s.len() - i,
{
    if i < 0 || i >= s.len() {
        s.len() as int
    } else if escaped {
        title_split(s, i + 1, false)
    } else if s[i] == '\\' {
        title_split(s, i + 1, true)
    } else if is_ws(s[i]) {
        i
    } else {
        title_split(s, i + 1, false)
    }
}

pub proof fn lemma_title_split_bounds(s: Seq<char>, i: int, escaped: bool)
    requires
        0 <= i <= s.len(),
    ensures
        i <= title_split(s, i, escaped) <= s.len(),
    decreases s.len() - i,
{
    if i < s.len() {
        if escaped || s[i] == '\\' || !is_ws(s[i]) {
            lemma_title_split_bounds(s, i + 1, !escaped && s[i] == '\\');
        }
    }
}

/// Splits a link's `(destination title)` text at its first unescaped
/// whitespace, so that a title and the parentheses in it stay together.
pub fn split_destination_and_title(content: &str) -> (parts: (String, String))
    ensures
        parts.0@ == content@.take(title_split(content@, 0, false)),
        parts.1@ == content@.skip(title_split(content@, 0, false)),
{
    let c = chars_of(content);
    let mut escaped = false;
    let mut i: usize = 0;
    let mut k: usize = c.len();
    let mut done = false;
    while i < c.len() && !done
        invariant
            i <= c@.len(),
            c@ == content@,
            done ==> k <= c@.len() && title_split(c@, 0, false) == k,
            !done ==> k == c@.len() && title_split(c@, 0, false) == title_split(
                c@,
                i as int,
                escaped,
            ),
        decreases c@.len() - i, if done {
            0int
        } else {
            1int
        },
    {
        if escaped {
            escaped = false;
            i = i + 1;
        } else if c[i] == '\\' {
            escaped = true;
            i = i + 1;
        } else if crate::text::is_whitespace(c[i]) {
            k = i;
            done = true;
        } else {
            i = i + 1;
        }
    }
    proof {
        lemma_title_split_bounds(c@, 0, false);
    }
    let mut first: Vec<char> = Vec::new();
    let mut second: Vec<char> = Vec::new();
    let mut j: usize = 0;
    while j < c.len()
        invariant
            j <= c@.len(),
            k <= c@.len(),
            j <= k ==> first@ == c@.take(j as int) && second@.len() == 0,
            j > k ==> first@ == c@.take(k as int) && second@ == c@.subrange(k as int, j as int),
        decreases c@.len() - j,
    {
        if j < k {
            first.push(c[j]);
            assert(first@ =~= c@.take(j + 1));
        } else {
            second.push(c[j]);
            assert(second@ =~= c@.subrange(k as int, j + 1));
        }
        j = j + 1;
    }
    assert(c@.subrange(k as int, c@.len() as int) == c@.skip(k as int));
    if k == c.len() {
        assert(c@.take(k as int) == c@);
        assert(c@.skip(k as int) =~= Seq::<char>::empty());
    }
    (string_from_chars(first.as_slice()), string_from_chars(second.as_slice()))
}

/// `s` with every non-overlapping occurrence of `from`, read from the left,
/// replaced by `to` (`str::replace`).
pub open spec fn replace_all(s: Seq<char>, from: Seq<char>, to: Seq<char>) -> Seq<char>
    decreases s.len(),
{
    if from.len() == 0 || s.len() < from.len() {
        s
    } else if s.take(from.len() as int) == from {
        to + replace_all(s.skip(from.len() as int), from, to)
    } else {
        seq![s[0]] + replace_all(s.drop_first(), from, to)
    }
}

pub(crate) fn matches_at(s: &[char], i: usize, part: &[char]) -> (b: bool)
    requires
        i + part@.len() <= s@.len(),
    ensures
        b == (s@.subrange(i as int, i + part@.len()) == part@),
{
    let mut j: usize = 0;
    while j < part.len()
        invariant
            i + part@.len() <= s@.len(),
            j <= part@.len(),
            forall|t: int| 0 <= t < j ==> s@[i + t] == part@[t],
        decreases part@.len() - j,
    {
        assert(i + j < s.len());
        if s[i + j] != part[j] {
            assert(s@.subrange(i as int, i + part@.len())[j as int] != part@[j as int]);
            return false;
        }
        j = j + 1;
    }
    assert(s@.subrange(i as int, i + part@.len()) =~= part@);
    true
}

/// Replaces every occurrence of `from` in `s`, read from the left, by `to`.
pub(crate) fn replace_chars(s: &[char], from: &[char], to: &[char]) -> (r: Vec<char>)
    requires
        from@.len() > 0,
    ensures
        r@ == replace_all(s@, from@, to@),
{
    let mut out: Vec<char> = Vec::new();
    let mut i: usize = 0;
    assert(s@.skip(0) == s@);
    while i < s.len()
        invariant
            i <= s@.len(),
            from@.len() > 0,
            replace_all(s@, from@, to@) == out@ + replace_all(s@.skip(i as int), from@, to@),
        decreases s@.len() - i,
    {
        let ghost rest = s@.skip(i as int);
        if s.len() - i >= from.len() && matches_at(s, i, from) {
            assert(rest.take(from@.len() as int) == s@.subrange(i as int, i + from@.len()));
            assert(rest.skip(from@.len() as int) == s@.skip(i + from@.len()));
            let ghost before = out@;
            crate::text::push_all(&mut out, to);
            assert(before + (to@ + replace_all(s@.skip(i + from@.len()), from@, to@)) =~= out@
                + replace_all(s@.skip(i + from@.len()), from@, to@));
            i = i + from.len();
        } else {
            proof {
                if rest.len() >= from@.len() {
                    assert(rest.take(from@.len() as int) == s@.subrange(i as int, i + from@.len()));
                    assert(rest.drop_first() == s@.skip(i + 1));
                } else {
                    assert(rest == seq![rest[0]] + rest.drop_first());
                    assert(rest.drop_first() == s@.skip(i + 1));
                    assert(replace_all(rest.drop_first(), from@, to@) == rest.drop_first());
                }
            }
            let ghost before = out@;
            out.push(s[i]);
            assert(before + (seq![s@[i as int]] + replace_all(s@.skip(i + 1), from@, to@)) =~= out@
                + replace_all(s@.skip(i + 1), from@, to@));
            i = i + 1;
        }
    }
    assert(s@.skip(i as int) =~= Seq::<char>::empty());
    assert(out@ + Seq::<char>::empty() =~= out@);
    out
}

pub open spec fn mojibake_prefix() -> Seq<char> {
    seq!['\u{e2}', '\u{20ac}']
}

/// The text with the seven Windows-1252 misreadings of UTF-8 punctuation
/// (dashes, curly quotes, ellipsis) put back, one after the other.
pub open spec fn replace_windows_1252(s: Seq<char>) -> Seq<char> {
    let p = mojibake_prefix();
    let s1 = replace_all(s, p.push('\u{201d}'), seq!['\u{2014}']);
    let s2 = replace_all(s1, p.push('\u{201c}'), seq!['\u{2013}']);
    let s3 = replace_all(s2, p.push('\u{2dc}'), seq!['\u{2018}']);
    let s4 = replace_all(s3, p.push('\u{2122}'), seq!['\u{2019}']);
    let s5 = replace_all(s4, p.push('\u{153}'), seq!['\u{201c}']);
    let s6 = replace_all(s5, p.push('\u{9d}'), seq!['\u{201d}']);
    replace_all(s6, p.push('\u{a6}'), seq!['\u{2026}'])
}

fn replace_one(s: Vec<char>, last: char, good: char) -> (r: Vec<char>)
    ensures
        r@ == replace_all(s@, mojibake_prefix().push(last), seq![good]),
{
    let bad = vec!['\u{e2}', '\u{20ac}', last];
    let to = vec![good];
    assert(bad@ =~= mojibake_prefix().push(last));
    assert(to@ =~= seq![good]);
    replace_chars(s.as_slice(), bad.as_slice(), to.as_slice())
}

/// Puts back UTF-8 punctuation that was read as Windows-1252.
pub fn replace_windows_1252_mojibake(value: &str) -> (r: String)
    ensures
        r@ == replace_windows_1252(value@),
{
    let s0 = chars_of(value);
    let s1 = replace_one(s0, '\u{201d}', '\u{2014}');
    let s2 = replace_one(s1, '\u{201c}', '\u{2013}');
    let s3 = replace_one(s2, '\u{2dc}', '\u{2018}');
    let s4 = replace_one(s3, '\u{2122}', '\u{2019}');
    let s5 = replace_one(s4, '\u{153}', '\u{201c}');
    let s6 = replace_one(s5, '\u{9d}', '\u{201d}');
    let s7 = replace_one(s6, '\u{a6}', '\u{2026}');
    string_from_chars(s7.as_slice())
}

/// The low byte of each character.
pub open spec fn low_bytes(s: Seq<char>) -> Seq<u8>
    decreases s.len(),
{
    if s.len() == 0 {
        Seq::empty()
    } else {
        low_bytes(s.drop_last()).push(s.last() as u8)
    }
}

/// The bytes that a text of Latin-1 characters stands for; `None` when a
/// character is beyond U+00FF.
pub open spec fn latin1_bytes(s: Seq<char>) -> Option<Seq<u8>> {
    if forall|i: int| 0 <= i < s.len() ==> (#[trigger] s[i] as u32) <= 0xff {
        Some(low_bytes(s))
    } else {
        None
    }
}

/// Reads a text whose characters are all Latin-1 as UTF-8 bytes.
pub open spec fn latin1_decoded(s: Seq<char>) -> Option<Seq<char>> {
    match latin1_bytes(s) {
        Some(b) => if valid_utf8(b) {
            Some(decode_utf8(b))
        } else {
            None
        },
        None => None,
    }
}

/// Reads text that was decoded as Latin-1 back as UTF-8, when all its
/// characters are Latin-1 and the bytes are UTF-8.
pub fn decode_latin1_mojibake(value: &str) -> (r: Option<String>)
    ensures
        match r {
            Some(t) => latin1_decoded(value@) == Some(t@),
            None => latin1_decoded(value@) is None,
        },
{
    let c = chars_of(value);
    let mut bytes: Vec<u8> = Vec::new();
    let mut i: usize = 0;
    while i < c.len()
        invariant
            i <= c@.len(),
            c@ == value@,
            bytes@ == low_bytes(c@.take(i as int)),
            forall|j: int| 0 <= j < i ==> (#[trigger] c@[j] as u32) <= 0xff,
        decreases c@.len() - i,
    {
        let code = c[i] as u32;
        if code > 0xff {
            return None;
        }
        bytes.push(c[i] as u8);
        i = i + 1;
        assert(c@.take(i as int).drop_last() == c@.take(i - 1));
        assert(c@.take(i as int).last() == c@[i - 1]);
    }
    assert(c@.take(c@.len() as int) == c@);
    string_from_utf8(bytes)
}

/// One round of repair: Windows-1252 punctuation put back, then the text
/// read as UTF-8 when it is Latin-1 that decodes.
pub open spec fn repair_round(s: Seq<char>) -> Seq<char> {
    let mapped = replace_windows_1252(s);
    match latin1_decoded(mapped) {
        Some(d) => d,
        None => mapped,
    }
}

pub open spec fn repair_rounds(s: Seq<char>, n: nat) -> Seq<char>
    decreases n,
{
    if n == 0 {
        s
    } else {
        let d = repair_round(s);
        if d == s {
            d
        } else {
            repair_rounds(d, (n - 1) as nat)
        }
    }
}

/// Repairs text that went through one to three rounds of UTF-8 being read
/// as Latin-1 or Windows-1252, stopping once a round changes nothing.
pub fn repair_utf8_mojibake(value: &str) -> (r: String)
    ensures
        r@ == repair_rounds(value@, 3),
{
    let mut repaired = value.to_owned();
    let mut round: usize = 0;
    while round < 3
        invariant
            round <= 3,
            repair_rounds(value@, 3) == repair_rounds(repaired@, (3 - round) as nat),
        decreases 3 - round,
    {
        let mapped = replace_windows_1252_mojibake(repaired.as_str());
        let decoded = match decode_latin1_mojibake(mapped.as_str()) {
            Some(d) => d,
            None => mapped,
        };
        if decoded == repaired {
            return decoded;
        }
        repaired = decoded;
        round = round + 1;
    }
    repaired
}

/// How one character is written in the server's HTML: markup characters
/// as named references, other non-ASCII characters as `&#N;`.
pub open spec fn html_char(c: char) -> Seq<char> {
    if c == '&' || c == '<' || c == '>' || c == '"' || c == '\'' {
        escape_char(c)
    } else if (c as u32) >= 128 {
        seq!['&', '#'] + decimal((c as u32) as nat) + seq![';']
    } else {
        seq![c]
    }
}

pub open spec fn html_chars(s: Seq<char>) -> Seq<char>
    decreases s.len(),
{
    if s.len() == 0 {
        Seq::empty()
    } else {
        html_chars(s.drop_last()) + html_char(s.last())
    }
}

/// Escapes text for the server's HTML after repairing misdecoded UTF-8:
/// markup characters become named references and every other non-ASCII
/// character a numeric one.
pub fn html_escape(value: &str) -> (escaped: String)
    ensures
        escaped@ == html_chars(repair_rounds(value@, 3)),
{
    let repaired = repair_utf8_mojibake(value);
    let c = chars_of(repaired.as_str());
    let mut out: Vec<char> = Vec::new();
    let mut i: usize = 0;
    while i < c.len()
        invariant
            i <= c@.len(),
            out@ == html_chars(c@.take(i as int)),
        decreases c@.len() - i,
    {
        let ch = c[i];
        let ghost before = out@;
        if ch == '&' || ch == '<' || ch == '>' || ch == '"' || ch == '\'' {
            let e = escape_char_chars(ch);
            crate::text::push_all(&mut out, e.as_slice());
        } else if (ch as u32) >= 128 {
            out.push('&');
            out.push('#');
            let digits = decimal_chars((ch as u32) as u128);
            crate::text::push_all(&mut out, digits.as_slice());
            out.push(';');
        } else {
            out.push(ch);
        }
        assert(out@ =~= before + html_char(ch));
        assert(c@.take(i + 1).drop_last() == c@.take(i as int));
        i = i + 1;
    }
    assert(c@.take(c@.len() as int) == c@);
    string_from_chars(out.as_slice())
}

fn escape_char_chars(c: char) -> (v: Vec<char>)
    ensures
        v@ == escape_char(c),
{
    let v = if c == '&' {
        vec!['&', 'a', 'm', 'p', ';']
    } else if c == '<' {
        vec!['&', 'l', 't', ';']
    } else if c == '>' {
        vec!['&', 'g', 't', ';']
    } else if c == '"' {
        vec!['&', 'q', 'u', 'o', 't', ';']
    } else if c == '\'' {
        vec!['&', '#', '3', '9', ';']
    } else {
        vec![c]
    };
    assert(v@ =~= escape_char(c));
    v
}

/// Components read so far while scanning a path, and the component still
/// being read.
pub open spec fn component_scan(p: Seq<char>) -> (Seq<Seq<char>>, Seq<char>)
    decreases p.len(),
{
    if p.len() == 0 {
        (Seq::empty(), Seq::empty())
    } else {
        let (done, cur) = component_scan(p.drop_last());
        if p.last() == '/' {
            (done.push(cur), Seq::empty())
        } else {
            (done, cur.push(p.last()))
        }
    }
}

/// A path component that names something: neither empty, `.` nor `..`.
pub open spec fn is_normal(c: Seq<char>) -> bool {
    c.len() > 0 && c != seq!['.'] && c != seq!['.', '.']
}

/// The named components of a relative path, in order.
pub open spec fn normal_components(p: Seq<char>) -> Seq<Seq<char>> {
    let (done, cur) = component_scan(p);
    keep_normal(done.push(cur))
}

/// The components that are named, in order.
pub open spec fn keep_normal(cs: Seq<Seq<char>>) -> Seq<Seq<char>>
    decreases cs.len(),
{
    if cs.len() == 0 {
        Seq::empty()
    } else if is_normal(cs.last()) {
        keep_normal(cs.drop_last()).push(cs.last())
    } else {
        keep_normal(cs.drop_last())
    }
}

/// Parts joined with `/` between them.
pub open spec fn join_slash(parts: Seq<Seq<char>>) -> Seq<char>
    decreases parts.len(),
{
    if parts.len() == 0 {
        Seq::empty()
    } else if parts.len() == 1 {
        parts[0]
    } else {
        join_slash(parts.drop_last()) + seq!['/'] + parts.last()
    }
}

/// The route of a path relative to the served root: `/`, then its named
/// components, percent-encoded, joined with `/`.
pub open spec fn route_of(relative: Seq<char>) -> Seq<char> {
    seq!['/'] + join_slash(normal_components(relative).map_values(|c: Seq<char>| route_segment(c)))
}

fn is_normal_component(c: &[char]) -> (b: bool)
    ensures
        b == is_normal(c@),
{
    if c.len() == 0 {
        return false;
    }
    if c.len() == 1 && c[0] == '.' {
        assert(c@ =~= seq!['.']);
        return false;
    }
    if c.len() == 2 && c[0] == '.' && c[1] == '.' {
        assert(c@ =~= seq!['.', '.']);
        return false;
    }
    proof {
        if c@ == seq!['.'] {
            assert(c@[0] == '.');
        }
        if c@ == seq!['.', '.'] {
            assert(c@[0] == '.' && c@[1] == '.');
        }
    }
    true
}

/// The route of a path relative to the served root.
pub fn relative_to_route(relative: &str) -> (route: String)
    ensures
        route@ == route_of(relative@),
{
    let p = chars_of(relative);
    let mut done: Vec<Vec<char>> = Vec::new();
    let mut cur: Vec<char> = Vec::new();
    let mut i: usize = 0;
    while i < p.len()
        invariant
            i <= p@.len(),
            done@.len() == component_scan(p@.take(i as int)).0.len(),
            forall|k: int|
                0 <= k < done@.len() ==> #[trigger] done@[k]@ == component_scan(
                    p@.take(i as int),
                ).0[k],
            cur@ == component_scan(p@.take(i as int)).1,
        decreases p@.len() - i,
    {
        assert(p@.take(i + 1).drop_last() == p@.take(i as int));
        if p[i] == '/' {
            let c = cur;
            done.push(c);
            cur = Vec::new();
        } else {
            cur.push(p[i]);
        }
        i = i + 1;
    }
    assert(p@.take(p@.len() as int) == p@);
    done.push(cur);
    let ghost all = component_scan(p@).0.push(component_scan(p@).1);
    assert(done@.len() == all.len());
    let mut out: Vec<char> = vec!['/'];
    let mut j: usize = 0;
    let mut kept: usize = 0;
    let ghost mut parts: Seq<Seq<char>> = Seq::empty();
    while j < done.len()
        invariant
            j <= done@.len(),
            done@.len() == all.len(),
            forall|k: int| 0 <= k < done@.len() ==> #[trigger] done@[k]@ == all[k],
            parts == keep_normal(all.take(j as int)),
            kept == parts.len(),
            kept <= j,
            out@ == seq!['/'] + join_slash(parts.map_values(|c: Seq<char>| route_segment(c))),
        decreases done@.len() - j,
    {
        let ghost prev = parts;
        assert(all.take(j + 1).drop_last() == all.take(j as int));
        assert(all.take(j + 1) == all.take(j as int).push(all[j as int]));
        if is_normal_component(done[j].as_slice()) {
            let name = string_from_chars(done[j].as_slice());
            let encoded = percent_encode_route_segment(name.as_str());
            let e = chars_of(encoded.as_str());
            proof {
                parts = prev.push(all[j as int]);
            }
            let ghost mapped = parts.map_values(|c: Seq<char>| route_segment(c));
            assert(mapped.drop_last() =~= prev.map_values(|c: Seq<char>| route_segment(c)));
            if kept > 0 {
                out.push('/');
            }
            crate::text::push_all(&mut out, e.as_slice());
            kept = kept + 1;
            assert(out@ =~= seq!['/'] + join_slash(mapped));
        }
        j = j + 1;
    }
    assert(all.take(all.len() as int) == all);
    string_from_chars(out.as_slice())
}

/// A served document as the navigation lists it.
#[derive(Debug, Clone, PartialEq, Eq)]
pub struct NavEntry {
    pub route: String,
    pub title: String,
}

/// How the server escapes text in its own markup.
pub open spec fn shell_escape(s: Seq<char>) -> Seq<char> {
    html_chars(repair_rounds(s, 3))
}

/// One navigation link; the active document's is marked as the current page.
pub open spec fn nav_link(route: Seq<char>, title: Seq<char>, active: bool) -> Seq<char> {
    NAV_LINK_OPEN@ + shell_escape(route) + NAV_LINK_TITLE@ + shell_escape(route) + seq!['"'] + (
    if active {
        NAV_CURRENT@
    } else {
        Seq::empty()
    }) + seq!['>'] + shell_escape(title) + NAV_LINK_CLOSE@
}

pub open spec fn nav_links(entries: Seq<NavEntry>, active_route: Seq<char>) -> Seq<char>
    decreases entries.len(),
{
    if entries.len() == 0 {
        Seq::empty()
    } else {
        let e = entries.last();
        nav_links(entries.drop_last(), active_route) + nav_link(
            e.route@,
            e.title@,
            e.route@ == active_route,
        )
    }
}

/// The navigation markup: empty for a single document, otherwise tabs or a
/// sidebar with one link per document.
pub open spec fn nav_html(entries: Seq<NavEntry>, mode: ServeMode, active_route: Seq<char>) -> Seq<
    char,
> {
    let layout = if entries.len() <= 1 {
        NavLayout::Empty
    } else if mode != ServeMode::Directory && entries.len() <= 6 {
        NavLayout::Tabs
    } else {
        NavLayout::Sidebar
    };
    match layout {
        NavLayout::Empty => NAV_EMPTY@,
        NavLayout::Tabs => NAV_OPEN@ + NAV_TABS@ + seq!['"', '>'] + nav_links(entries, active_route)
            + NAV_CLOSE@,
        NavLayout::Sidebar => NAV_OPEN@ + NAV_SIDEBAR@ + seq!['"', '>'] + nav_links(
            entries,
            active_route,
        ) + NAV_CLOSE@,
    }
}

pub const NAV_EMPTY: &'static str = "<nav data-markview-nav></nav>";

pub const NAV_OPEN: &'static str = "<nav data-markview-nav class=\"";

pub const NAV_TABS: &'static str = "markview-tabs";

pub const NAV_SIDEBAR: &'static str = "markview-sidebar";

pub const NAV_CLOSE: &'static str = "</nav>";

pub const NAV_LINK_OPEN: &'static str = "<a href=\"";

pub const NAV_LINK_TITLE: &'static str = "\" title=\"";

pub const NAV_CURRENT: &'static str = " aria-current=\"page\"";

pub const NAV_LINK_CLOSE: &'static str = "</a>";

/// The navigation markup for the served documents, with the document at
/// `active_route` marked as the current page.
pub fn render_nav(entries: &[NavEntry], mode: ServeMode, active_route: &str) -> (nav: String)
    ensures
        nav@ == nav_html(entries@, mode, active_route@),
{
    let layout = nav_layout(entries.len(), mode);
    match layout {
        NavLayout::Empty => {
            return NAV_EMPTY.to_owned();
        },
        _ => {},
    }
    let mut out: Vec<char> = Vec::new();
    crate::text::push_str(&mut out, NAV_OPEN);
    match layout {
        NavLayout::Tabs => crate::text::push_str(&mut out, NAV_TABS),
        _ => crate::text::push_str(&mut out, NAV_SIDEBAR),
    }
    out.push('"');
    out.push('>');
    let ghost head = out@;
    let active = chars_of(active_route);
    let mut i: usize = 0;
    while i < entries.len()
        invariant
            i <= entries@.len(),
            active@ == active_route@,
            out@ == head + nav_links(entries@.take(i as int), active_route@),
        decreases entries@.len() - i,
    {
        let e = &entries[i];
        let route = html_escape(e.route.as_str());
        let title = html_escape(e.title.as_str());
        let r = chars_of(e.route.as_str());
        let ghost before = out@;
        crate::text::push_str(&mut out, NAV_LINK_OPEN);
        crate::text::push_str(&mut out, route.as_str());
        crate::text::push_str(&mut out, NAV_LINK_TITLE);
        crate::text::push_str(&mut out, route.as_str());
        out.push('"');
        if chars_equal(r.as_slice(), active.as_slice()) {
            crate::text::push_str(&mut out, NAV_CURRENT);
        }
        out.push('>');
        crate::text::push_str(&mut out, title.as_str());
        crate::text::push_str(&mut out, NAV_LINK_CLOSE);
        assert(out@ =~= before + nav_link(e.route@, e.title@, e.route@ == active_route@));
        assert(entries@.take(i + 1).drop_last() =~= entries@.take(i as int));
        i = i + 1;
    }
    assert(entries@.take(entries@.len() as int) == entries@);
    crate::text::push_str(&mut out, NAV_CLOSE);
    string_from_chars(out.as_slice())
}

/// Words joined by single spaces.
pub open spec fn join_words(ws: Seq<Seq<char>>) -> Seq<char>
    decreases ws.len(),
{
    if ws.len() == 0 {
        Seq::empty()
    } else if ws.len() == 1 {
        ws[0]
    } else {
        join_words(ws.drop_last()) + seq![' '] + ws.last()
    }
}

/// The text of the first heading among `events[i..]`, whitespace collapsed;
/// `None` when there is no heading or it holds no text.
pub open spec fn heading_title_from(events: Seq<MdEvent>, i: int, active: bool, title: Seq<char>) -> Option<
    Seq<char>,
>
    decreases events.len() - i,
{
    if i < 0 || i >= events.len() {
        None
    } else {
        match events[i] {
            MdEvent::Start(TagKind::Heading(_), _) => heading_title_from(events, i + 1, true, title),
            MdEvent::End(TagKind::Heading(_)) => if active {
                let t = join_words(words(title));
                if t.len() == 0 {
                    None
                } else {
                    Some(t)
                }
            } else {
                heading_title_from(events, i + 1, active, title)
            },
            MdEvent::Text(t) => heading_title_from(
                events,
                i + 1,
                active,
                if active {
                    title + t@ + seq![' ']
                } else {
                    title
                },
            ),
            MdEvent::Code(t) => heading_title_from(
                events,
                i + 1,
                active,
                if active {
                    title + t@ + seq![' ']
                } else {
                    title
                },
            ),
            MdEvent::SoftBreak => heading_title_from(
                events,
                i + 1,
                active,
                if active {
                    title.push(' ')
                } else {
                    title
                },
            ),
            MdEvent::HardBreak => heading_title_from(
                events,
                i + 1,
                active,
                if active {
                    title.push(' ')
                } else {
                    title
                },
            ),
            _ => heading_title_from(events, i + 1, active, title),
        }
    }
}

pub open spec fn heading_title(events: Seq<MdEvent>) -> Option<Seq<char>> {
    heading_title_from(events, 0, false, Seq::empty())
}

fn join_with_spaces(ws: &Vec<Vec<char>>) -> (t: Vec<char>)
    ensures
        t@ == join_words(ws@.map_values(|w: Vec<char>| w@)),
{
    let ghost all = ws@.map_values(|w: Vec<char>| w@);
    let mut t: Vec<char> = Vec::new();
    let mut i: usize = 0;
    while i < ws.len()
        invariant
            i <= ws@.len(),
            all == ws@.map_values(|w: Vec<char>| w@),
            t@ == join_words(all.take(i as int)),
        decreases ws@.len() - i,
    {
        assert(all.take(i + 1).drop_last() =~= all.take(i as int));
        if i > 0 {
            t.push(' ');
        }
        push_all(&mut t, ws[i].as_slice());
        proof {
            if i == 0 {
                assert(all.take(1) =~= seq![all[0]]);
            }
        }
        i = i + 1;
    }
    assert(all.take(all.len() as int) =~= all);
    t
}

/// The collapsed text of the first heading among `events`.
pub fn first_heading_in(events: &[MdEvent]) -> (title: Option<String>)
    ensures
        match title {
            Some(t) => heading_title(events@) == Some(t@),
            None => heading_title(events@) is None,
        },
{
    let mut active = false;
    let mut title: Vec<char> = Vec::new();
    let mut i: usize = 0;
    while i < events.len()
        invariant
            i <= events@.len(),
            heading_title(events@) == heading_title_from(events@, i as int, active, title@),
        decreases events@.len() - i,
    {
        match &events[i] {
            MdEvent::Start(TagKind::Heading(_), _) => {
                active = true;
            },
            MdEvent::End(TagKind::Heading(_)) => {
                if active {
                    let ws = split_words(title.as_slice());
                    proof {
                        assert(ws@.map_values(|w: Vec<char>| w@) =~= words(title@));
                    }
                    let t = join_with_spaces(&ws);
                    if t.len() == 0 {
                        return None;
                    }
                    return Some(string_from_chars(t.as_slice()));
                }
            },
            MdEvent::Text(t) | MdEvent::Code(t) => {
                if active {
                    let ghost before = title@;
                    crate::text::push_str(&mut title, t.as_str());
                    title.push(' ');
                    assert(title@ =~= before + t@ + seq![' ']);
                }
            },
            MdEvent::SoftBreak | MdEvent::HardBreak => {
                if active {
                    title.push(' ');
                }
            },
            _ => {},
        }
        i = i + 1;
    }
    None
}

/// The collapsed text of the first heading of a Markdown source, parsed
/// with every extension enabled.
pub fn first_heading_title(source: &str) -> (title: Option<String>)
    ensures
        match title {
            Some(t) => heading_title(markdown_events(source@, true)) == Some(t@),
            None => heading_title(markdown_events(source@, true)) is None,
        },
{
    let events = parse_events(source, true);
    first_heading_in(events.as_slice())
}

/// The title the server shows for a document: its first heading, else the
/// file name of its path, else `Markdown`, with misdecoded UTF-8 repaired.
pub open spec fn served_title(path: Seq<char>, source: Seq<char>) -> Seq<char> {
    repair_rounds(
        match heading_title(markdown_events(source, true)) {
            Some(t) => t,
            None => path_title(path),
        },
        3,
    )
}

/// The title the server shows for the document at `path` with text `source`.
pub fn title_for_source(path: &str, source: &str) -> (title: String)
    ensures
        title@ == served_title(path@, source@),
{
    let t = match first_heading_title(source) {
        Some(t) => t,
        None => MarkdownDocument::from_path("", path).title().to_owned(),
    };
    repair_utf8_mojibake(t.as_str())
}

/// The kind of a change that the file watcher reports, as `notify` sorts
/// them.
#[derive(Debug, Clone, Copy, PartialEq, Eq, Structural)]
pub enum FileChange {
    Any,
    Access,
    Create,
    Modify,
    Remove,
    Other,
}

/// Whether a change to a served file makes its pages reload: a file was
/// created, modified or removed.
pub fn is_reload_event(kind: FileChange) -> (b: bool)
    ensures
        b == (kind == FileChange::Create || kind == FileChange::Modify || kind
            == FileChange::Remove),
{
    match kind {
        FileChange::Create | FileChange::Modify | FileChange::Remove => true,
        _ => false,
    }
}


proof fn lemma_code_as_text(events: Seq<MdEvent>, k: int, c: String, i: int, active: bool, title: Seq<char>)
    requires
        0 <= k < events.len(),
        events[k] == MdEvent::Code(c),
    ensures
        heading_title_from(events.update(k, MdEvent::Text(c)), i, active, title)
            == heading_title_from(events, i, active, title),
    decreases events.len() - i,
{
    let e2 = events.update(k, MdEvent::Text(c));
    if 0 <= i < events.len() {
        if i != k {
            assert(e2[i] == events[i]);
        }
        match events[i] {
            MdEvent::Start(TagKind::Heading(_), _) => {
                lemma_code_as_text(events, k, c, i + 1, true, title);
            },
            MdEvent::Text(t) => {
                lemma_code_as_text(
                    events,
                    k,
                    c,
                    i + 1,
                    active,
                    if active {
                        title + t@ + seq![' ']
                    } else {
                        title
                    },
                );
            },
            MdEvent::Code(t) => {
                lemma_code_as_text(
                    events,
                    k,
                    c,
                    i + 1,
                    active,
                    if active {
                        title + t@ + seq![' ']
                    } else {
                        title
                    },
                );
            },
            MdEvent::SoftBreak => {
                lemma_code_as_text(
                    events,
                    k,
                    c,
                    i + 1,
                    active,
                    if active {
                        title.push(' ')
                    } else {
                        title
                    },
                );
            },
            MdEvent::HardBreak => {
                lemma_code_as_text(
                    events,
                    k,
                    c,
                    i + 1,
                    active,
                    if active {
                        title.push(' ')
                    } else {
                        title
                    },
                );
            },
            _ => {
                lemma_code_as_text(events, k, c, i + 1, active, title);
            },
        }
    }
}

/// The title taken from a heading holds the text of its inline code spans
/// just as it holds its plain text: writing a code span's text as plain
/// text instead changes no title.
pub proof fn code_spans_count_in_titles(events: Seq<MdEvent>, k: int, c: String)
    requires
        0 <= k < events.len(),
        events[k] == MdEvent::Code(c),
    ensures
        heading_title(events.update(k, MdEvent::Text(c))) == heading_title(events),
{
    lemma_code_as_text(events, k, c, 0, false, Seq::empty());
}

/// A heading made of one text is titled by that text's words, one space
/// between each, whatever follows it.
pub proof fn headings_are_titled_by_their_text(
    level: u8,
    data: TagData,
    t: String,
    rest: Seq<MdEvent>,
)
    requires
        join_words(words(t@)).len() > 0,
    ensures
        heading_title(
            seq![
                MdEvent::Start(TagKind::Heading(level), data),
                MdEvent::Text(t),
                MdEvent::End(TagKind::Heading(level)),
            ] + rest,
        ) == Some(join_words(words(t@ + seq![' ']))),
{
    let events = seq![
        MdEvent::Start(TagKind::Heading(level), data),
        MdEvent::Text(t),
        MdEvent::End(TagKind::Heading(level)),
    ] + rest;
    assert(events[0] == MdEvent::Start(TagKind::Heading(level), data));
    assert(events[1] == MdEvent::Text(t));
    assert(events[2] == MdEvent::End(TagKind::Heading(level)));
    let title = Seq::<char>::empty() + t@ + seq![' '];
    assert(title =~= t@ + seq![' ']);
    assert(words(t@ + seq![' ']) == words(t@)) by {
        assert((t@ + seq![' ']).drop_last() =~= t@);
    }
    assert(heading_title_from(events, 2, true, title) == Some(join_words(words(title))));
    assert(heading_title_from(events, 1, true, Seq::empty()) == heading_title_from(
        events,
        2,
        true,
        title,
    ));
    assert(heading_title_from(events, 0, false, Seq::empty()) == heading_title_from(
        events,
        1,
        true,
        Seq::empty(),
    ));
}

} // verus!
