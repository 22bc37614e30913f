//! What is done to the HTML body that `pulldown_cmark` makes before it is
//! shown: active elements written in the Markdown are turned into text,
//! headings get ids made from their text, and the served page writes every
//! non-ASCII character as a numeric reference.
use vstd::prelude::*;

use crate::terminal::{decimal, decimal_chars};
use crate::text::{ascii_lower, push_all, push_str, string_from_chars, chars_of, to_ascii_lower};

verus! {

/// Whether `s[j..]` starts with `name`, ignoring ASCII case.
pub open spec fn starts_ci(s: Seq<char>, j: int, name: Seq<char>) -> bool {
    &&& 0 <= j
    &&& j + name.len() <= s.len()
    &&& forall|k: int| 0 <= k < name.len() ==> ascii_lower(#[trigger] s[j + k]) == name[k]
}

pub open spec fn name_script() -> Seq<char> {
    seq!['s', 'c', 'r', 'i', 'p', 't']
}

pub open spec fn name_style() -> Seq<char> {
    seq!['s', 't', 'y', 'l', 'e']
}

pub open spec fn name_iframe() -> Seq<char> {
    seq!['i', 'f', 'r', 'a', 'm', 'e']
}

pub open spec fn name_object() -> Seq<char> {
    seq!['o', 'b', 'j', 'e', 'c', 't']
}

pub open spec fn name_embed() -> Seq<char> {
    seq!['e', 'm', 'b', 'e', 'd']
}

/// Whether an element name that runs code or loads a page starts at `s[j..]`:
/// `script`, `style`, `iframe`, `object` or `embed`, in any case.
pub open spec fn active_at(s: Seq<char>, j: int) -> bool {
    ||| starts_ci(s, j, name_script())
    ||| starts_ci(s, j, name_style())
    ||| starts_ci(s, j, name_iframe())
    ||| starts_ci(s, j, name_object())
    ||| starts_ci(s, j, name_embed())
}

/// `s[i]` as written in the sanitized body: a `<` that opens an active
/// element becomes `&lt;`, so the element shows as text.
pub open spec fn neutral_piece(s: Seq<char>, i: int) -> Seq<char> {
    if s[i] == '<' && active_at(s, i + 1) {
        seq!['&', 'l', 't', ';']
    } else {
        seq![s[i]]
    }
}

/// `s[i..]` sanitized.
pub open spec fn neutralized_from(s: Seq<char>, i: int) -> Seq<char>
    decreases s.len() - i,
{
    if i < 0 || i >= s.len() {
        Seq::empty()
    } else {
        neutral_piece(s, i) + neutralized_from(s, i + 1)
    }
}

/// The sanitized body.
pub open spec fn sanitized(s: Seq<char>) -> Seq<char> {
    neutralized_from(s, 0)
}

/// No `<` in `s` opens an active element.
pub open spec fn opens_no_active_element(s: Seq<char>) -> bool {
    forall|p: int| 0 <= p < s.len() && s[p] == '<' ==> !active_at(s, p + 1)
}

fn starts_ci_at(s: &[char], j: usize, name: &[char]) -> (b: bool)
    requires
        j <= s@.len(),
    ensures
        b == starts_ci(s@, j as int, name@),
{
    if name.len() > s.len() - j {
        return false;
    }
    let mut k: usize = 0;
    let mut p: usize = j;
    while k < name.len()
        invariant
            k <= name@.len(),
            p == j + k,
            j + name@.len() <= s@.len(),
            forall|m: int| 0 <= m < k ==> ascii_lower(#[trigger] s@[j + m]) == name@[m],
        decreases name@.len() - k,
    {
        if to_ascii_lower(s[p]) != name[k] {
            return false;
        }
        k = k + 1;
        p = p + 1;
    }
    true
}

fn active_at_chars(s: &[char], j: usize) -> (b: bool)
    requires
        j <= s@.len(),
    ensures
        b == active_at(s@, j as int),
{
    let script = vec!['s', 'c', 'r', 'i', 'p', 't'];
    let style = vec!['s', 't', 'y', 'l', 'e'];
    let iframe = vec!['i', 'f', 'r', 'a', 'm', 'e'];
    let object = vec!['o', 'b', 'j', 'e', 'c', 't'];
    let embed = vec!['e', 'm', 'b', 'e', 'd'];
    assert(script@ =~= name_script());
    assert(style@ =~= name_style());
    assert(iframe@ =~= name_iframe());
    assert(object@ =~= name_object());
    assert(embed@ =~= name_embed());
    starts_ci_at(s, j, script.as_slice()) || starts_ci_at(s, j, style.as_slice()) || starts_ci_at(
        s,
        j,
        iframe.as_slice(),
    ) || starts_ci_at(s, j, object.as_slice()) || starts_ci_at(s, j, embed.as_slice())
}

/// Turns every `script`, `style`, `iframe`, `object` and `embed` element
/// written in `body` into text, by writing its opening `<` as `&lt;`.
pub fn sanitize_html(body: &str) -> (r: String)
    ensures
        r@ == sanitized(body@),
{
    let s = chars_of(body);
    let mut out: Vec<char> = Vec::new();
    let mut i: usize = 0;
    while i < s.len()
        invariant
            i <= s@.len(),
            s@ == body@,
            out@ + neutralized_from(s@, i as int) == sanitized(s@),
        decreases s@.len() - i,
    {
        let ghost before = out@;
        if s[i] == '<' && active_at_chars(s.as_slice(), i + 1) {
            out.push('&');
            out.push('l');
            out.push('t');
            out.push(';');
        } else {
            out.push(s[i]);
        }
        assert(out@ =~= before + neutral_piece(s@, i as int));
        assert(before + neutralized_from(s@, i as int) == out@ + neutralized_from(
            s@,
            i + 1,
        ));
        i = i + 1;
    }
    assert(out@ =~= sanitized(s@));
    string_from_chars(out.as_slice())
}

/// An element name is letters only, so no `&` starts it.
proof fn lemma_sanitized_prefix(s: Seq<char>, j: int, name: Seq<char>)
    requires
        0 <= j <= s.len(),
        forall|k: int| 0 <= k < name.len() ==> #[trigger] name[k] != '&',
        starts_ci(neutralized_from(s, j), 0, name),
    ensures
        starts_ci(s, j, name),
    decreases name.len(),
{
    let o = neutralized_from(s, j);
    if name.len() > 0 {
        assert(j < s.len());
        assert(o =~= neutral_piece(s, j) + neutralized_from(s, j + 1));
        assert(ascii_lower(o[0int + 0int]) == name[0]);
        if s[j] == '<' && active_at(s, j + 1) {
            assert(o[0] == '&');
            assert(name[0] != '&');
        } else {
            let rest = neutralized_from(s, j + 1);
            let tail = name.drop_first();
            assert forall|k: int| 0 <= k < tail.len() implies ascii_lower(#[trigger] rest[k])
                == tail[k] by {
                assert(rest[k] == o[k + 1]);
                assert(ascii_lower(o[0 + (k + 1)]) == name[k + 1]);
            }
            assert forall|k: int| 0 <= k < tail.len() implies #[trigger] tail[k] != '&' by {
                assert(tail[k] == name[k + 1]);
            }
            lemma_sanitized_prefix(s, j + 1, tail);
            assert forall|k: int| 0 <= k < name.len() implies ascii_lower(#[trigger] s[j + k])
                == name[k] by {
                if k > 0 {
                    assert(ascii_lower(s[(j + 1) + (k - 1)]) == tail[k - 1]);
                } else {
                    assert(o[0] == s[j]);
                }
            }
        }
    }
}

proof fn lemma_active_prefix(s: Seq<char>, j: int)
    requires
        0 <= j <= s.len(),
        active_at(neutralized_from(s, j), 0),
    ensures
        active_at(s, j),
{
    let o = neutralized_from(s, j);
    if starts_ci(o, 0, name_script()) {
        lemma_sanitized_prefix(s, j, name_script());
    } else if starts_ci(o, 0, name_style()) {
        lemma_sanitized_prefix(s, j, name_style());
    } else if starts_ci(o, 0, name_iframe()) {
        lemma_sanitized_prefix(s, j, name_iframe());
    } else if starts_ci(o, 0, name_object()) {
        lemma_sanitized_prefix(s, j, name_object());
    } else {
        lemma_sanitized_prefix(s, j, name_embed());
    }
}

proof fn lemma_active_shift(a: Seq<char>, b: Seq<char>, p: int)
    requires
        0 <= p,
    ensures
        active_at(b, p) == active_at(a + b, a.len() + p),
{
    let ab = a + b;
    let names = seq![name_script(), name_style(), name_iframe(), name_object(), name_embed()];
    assert forall|n: Seq<char>| #![auto]
        starts_ci(b, p, n) == starts_ci(ab, a.len() + p, n) by {
        if starts_ci(b, p, n) {
            assert forall|k: int| 0 <= k < n.len() implies ascii_lower(#[trigger] ab[a.len() + p + k])
                == n[k] by {
                assert(ab[a.len() + p + k] == b[p + k]);
            }
        }
        if starts_ci(ab, a.len() + p, n) {
            assert forall|k: int| 0 <= k < n.len() implies ascii_lower(#[trigger] b[p + k]) == n[k] by {
                assert(ab[a.len() + p + k] == b[p + k]);
            }
        }
    }
}

proof fn lemma_neutralized_safe(s: Seq<char>, i: int)
    requires
        0 <= i <= s.len(),
    ensures
        opens_no_active_element(neutralized_from(s, i)),
    decreases s.len() - i,
{
    if i < s.len() {
        lemma_neutralized_safe(s, i + 1);
        let piece = neutral_piece(s, i);
        let rest = neutralized_from(s, i + 1);
        let o = neutralized_from(s, i);
        assert(o =~= piece + rest);
        assert forall|p: int| 0 <= p < o.len() && o[p] == '<' implies !active_at(o, p + 1) by {
            if p >= piece.len() {
                assert(o[p] == rest[p - piece.len()]);
                lemma_active_shift(piece, rest, p + 1 - piece.len());
            } else if s[i] == '<' && active_at(s, i + 1) {
                assert(piece[p] != '<');
            } else {
                assert(p == 0);
                lemma_active_shift(piece, rest, 0);
                if active_at(rest, 0) {
                    lemma_active_prefix(s, i + 1);
                }
            }
        }
    }
}

/// A sanitized body opens no `script`, `style`, `iframe`, `object` or
/// `embed` element, whatever the body held.
pub proof fn sanitized_body_opens_no_active_element(body: Seq<char>)
    ensures
        opens_no_active_element(sanitized(body)),
{
    lemma_neutralized_safe(body, 0);
}

/// Whether `<hN>`, with `N` from 1 to 6, starts at `s[i]`.
pub open spec fn heading_open_at(s: Seq<char>, i: int) -> bool {
    &&& 0 <= i
    &&& i + 4 <= s.len()
    &&& s[i] == '<'
    &&& s[i + 1] == 'h'
    &&& '1' <= s[i + 2] <= '6'
    &&& s[i + 3] == '>'
}

/// Whether `</hN>`, with `N` the digit `d`, starts at `s[j]`.
pub open spec fn heading_close_at(s: Seq<char>, j: int, d: char) -> bool {
    &&& 0 <= j
    &&& j + 5 <= s.len()
    &&& s[j] == '<'
    &&& s[j + 1] == '/'
    &&& s[j + 2] == 'h'
    &&& s[j + 3] == d
    &&& s[j + 4] == '>'
}

/// Where the first `</hN>` at or after `j` starts.
pub open spec fn close_from(s: Seq<char>, j: int, d: char) -> Option<int>
    decreases s.len() - j,
{
    if j < 0 || j + 5 > s.len() {
        None
    } else if heading_close_at(s, j, d) {
        Some(j)
    } else {
        close_from(s, j + 1, d)
    }
}

pub open spec fn is_ascii_alnum(c: char) -> bool {
    ('a' <= c <= 'z') || ('A' <= c <= 'Z') || ('0' <= c <= '9')
}

/// What a character of a heading's text adds to its id: a letter or digit
/// in lower case, `-` for a space or a hyphen, `_` for itself, nothing for
/// anything else.
pub open spec fn slug_char(c: char) -> Seq<char> {
    if is_ascii_alnum(c) {
        seq![ascii_lower(c)]
    } else if c == ' ' || c == '-' {
        seq!['-']
    } else if c == '_' {
        seq!['_']
    } else {
        Seq::empty()
    }
}

/// The id made from `t[k..]`, skipping markup between `<` and `>`.
pub open spec fn slug_from(t: Seq<char>, k: int, in_tag: bool) -> Seq<char>
    decreases t.len() - k,
{
    if k < 0 || k >= t.len() {
        Seq::empty()
    } else if in_tag {
        slug_from(t, k + 1, t[k] != '>')
    } else if t[k] == '<' {
        slug_from(t, k + 1, true)
    } else {
        slug_char(t[k]) + slug_from(t, k + 1, false)
    }
}

/// The id of a heading whose HTML content is `t`.
pub open spec fn slug(t: Seq<char>) -> Seq<char> {
    slug_from(t, 0, false)
}

/// The id that the heading opened at `s[i]` gets: made from the text up to
/// its closing tag, when there is one and the id is not empty.
pub open spec fn heading_slug(s: Seq<char>, i: int) -> Option<Seq<char>> {
    if heading_open_at(s, i) {
        match close_from(s, i + 4, s[i + 2]) {
            Some(j) => {
                let id = slug(s.subrange(i + 4, j));
                if id.len() > 0 {
                    Some(id)
                } else {
                    None
                }
            },
            None => None,
        }
    } else {
        None
    }
}

/// `s[i..]` with ids on its headings.
pub open spec fn with_ids_from(s: Seq<char>, i: int) -> Seq<char>
    decreases s.len() - i,
{
    if i < 0 || i >= s.len() {
        Seq::empty()
    } else {
        match heading_slug(s, i) {
            Some(id) => seq!['<', 'h', s[i + 2], ' ', 'i', 'd', '=', '"'] + id + seq!['"', '>']
                + with_ids_from(s, i + 4),
            None => seq![s[i]] + with_ids_from(s, i + 1),
        }
    }
}

/// `s` with an `id` on each `<hN>` heading.
pub open spec fn with_heading_ids(s: Seq<char>) -> Seq<char> {
    with_ids_from(s, 0)
}

fn close_index(s: &[char], from: usize, d: char) -> (r: Option<usize>)
    requires
        from <= s@.len(),
    ensures
        match r {
            Some(j) => close_from(s@, from as int, d) == Some(j as int) && from <= j && j + 5
                <= s@.len(),
            None => close_from(s@, from as int, d) is None,
        },
{
    let mut j: usize = from;
    while s.len() >= 5 && j <= s.len() - 5
        invariant
            from <= j,
            j <= s@.len(),
            close_from(s@, from as int, d) == close_from(s@, j as int, d),
        decreases s@.len() - j,
    {
        if s[j] == '<' && s[j + 1] == '/' && s[j + 2] == 'h' && s[j + 3] == d && s[j + 4] == '>' {
            return Some(j);
        }
        j = j + 1;
    }
    None
}

fn slug_of(t: &[char]) -> (r: Vec<char>)
    ensures
        r@ == slug(t@),
{
    let mut out: Vec<char> = Vec::new();
    let mut in_tag = false;
    let mut k: usize = 0;
    while k < t.len()
        invariant
            k <= t@.len(),
            out@ + slug_from(t@, k as int, in_tag) == slug(t@),
        decreases t@.len() - k,
    {
        let c = t[k];
        let ghost before = out@;
        if in_tag {
            in_tag = c != '>';
        } else if c == '<' {
            in_tag = true;
        } else {
            if ('a' <= c && c <= 'z') || ('A' <= c && c <= 'Z') || ('0' <= c && c <= '9') {
                out.push(to_ascii_lower(c));
            } else if c == ' ' || c == '-' {
                out.push('-');
            } else if c == '_' {
                out.push('_');
            }
            assert(out@ =~= before + slug_char(c));
        }
        k = k + 1;
    }
    out
}

/// Gives each `<hN>` heading of `body` an `id` made from its text: ASCII
/// letters and digits in lower case, spaces and hyphens as `-`, `_` kept,
/// markup and other characters left out. A heading whose id would be
/// empty, or that is never closed, is left as it is.
pub fn add_heading_ids(body: &str) -> (r: String)
    ensures
        r@ == with_heading_ids(body@),
{
    let s = chars_of(body);
    let mut out: Vec<char> = Vec::new();
    let mut i: usize = 0;
    while i < s.len()
        invariant
            i <= s@.len(),
            s@ == body@,
            out@ + with_ids_from(s@, i as int) == with_heading_ids(s@),
        decreases s@.len() - i,
    {
        let ghost before = out@;
        let mut id: Option<Vec<char>> = None;
        if s.len() >= 4 && i <= s.len() - 4 && s[i] == '<' && s[i + 1] == 'h' && '1' <= s[i + 2] && s[i + 2]
            <= '6' && s[i + 3] == '>' {
            match close_index(s.as_slice(), i + 4, s[i + 2]) {
                Some(j) => {
                    let mut t: Vec<char> = Vec::new();
                    let mut k: usize = i + 4;
                    assert(t@ =~= s@.subrange(i + 4, k as int));
                    while k < j
                        invariant
                            i + 4 <= k <= j,
                            j + 5 <= s@.len(),
                            t@ == s@.subrange(i + 4, k as int),
                        decreases j - k,
                    {
                        t.push(s[k]);
                        k = k + 1;
                        assert(t@ =~= s@.subrange(i + 4, k as int));
                    }
                    let candidate = slug_of(t.as_slice());
                    if candidate.len() > 0 {
                        id = Some(candidate);
                    }
                },
                None => {},
            }
        }
        match id {
            Some(v) => {
                let d = s[i + 2];
                push_str(&mut out, "<h");
                out.push(d);
                push_str(&mut out, " id=\"");
                push_all(&mut out, v.as_slice());
                push_str(&mut out, "\">");
                proof {
                    reveal_strlit("<h");
                    reveal_strlit(" id=\"");
                    reveal_strlit("\">");
                }
                assert(out@ =~= before + seq!['<', 'h', s@[i + 2], ' ', 'i', 'd', '=', '"'] + v@
                    + seq!['"', '>']);
                i = i + 4;
            },
            None => {
                out.push(s[i]);
                i = i + 1;
            },
        }
    }
    assert(out@ =~= with_heading_ids(s@));
    string_from_chars(out.as_slice())
}

/// How the served page writes a character: non-ASCII characters as `&#N;`.
pub open spec fn ascii_ref(c: char) -> Seq<char> {
    if (c as u32) >= 128 {
        seq!['&', '#'] + decimal((c as u32) as nat) + seq![';']
    } else {
        seq![c]
    }
}

pub open spec fn ascii_refs(s: Seq<char>) -> Seq<char>
    decreases s.len(),
{
    if s.len() == 0 {
        Seq::empty()
    } else {
        ascii_refs(s.drop_last()) + ascii_ref(s.last())
    }
}

/// Writes every non-ASCII character of an HTML page as a numeric character
/// reference, leaving the markup as it is.
pub fn ascii_html(page: &str) -> (r: String)
    ensures
        r@ == ascii_refs(page@),
{
    let c = chars_of(page);
    let mut out: Vec<char> = Vec::new();
    let mut i: usize = 0;
    while i < c.len()
        invariant
            i <= c@.len(),
            c@ == page@,
            out@ == ascii_refs(c@.take(i as int)),
        decreases c@.len() - i,
    {
        let ch = c[i];
        let ghost before = out@;
        if (ch as u32) >= 128 {
            out.push('&');
            out.push('#');
            let digits = decimal_chars((ch as u32) as u128);
            push_all(&mut out, digits.as_slice());
            out.push(';');
        } else {
            out.push(ch);
        }
        assert(out@ =~= before + ascii_ref(ch));
        assert(c@.take(i + 1).drop_last() == c@.take(i as int));
        i = i + 1;
    }
    assert(c@.take(c@.len() as int) == c@);
    string_from_chars(out.as_slice())
}


/// Whether a `<` at `s[i]` opens a `script`, `style`, `iframe`, `object`
/// or `embed` element, in any case.
pub open spec fn opens_active_element(s: Seq<char>, i: int) -> bool {
    &&& s[i] == '<'
    &&& {
        ||| starts_ci(s, i + 1, seq!['s', 'c', 'r', 'i', 'p', 't'])
        ||| starts_ci(s, i + 1, seq!['s', 't', 'y', 'l', 'e'])
        ||| starts_ci(s, i + 1, seq!['i', 'f', 'r', 'a', 'm', 'e'])
        ||| starts_ci(s, i + 1, seq!['o', 'b', 'j', 'e', 'c', 't'])
        ||| starts_ci(s, i + 1, seq!['e', 'm', 'b', 'e', 'd'])
    }
}

proof fn lemma_neutral_identity(s: Seq<char>, i: int)
    requires
        0 <= i <= s.len(),
        forall|j: int| 0 <= j < s.len() ==> !opens_active_element(s, j),
    ensures
        neutralized_from(s, i) == s.skip(i),
    decreases s.len() - i,
{
    if i < s.len() {
        lemma_neutral_identity(s, i + 1);
        assert(!opens_active_element(s, i));
        assert(name_script() =~= seq!['s', 'c', 'r', 'i', 'p', 't']);
        assert(name_style() =~= seq!['s', 't', 'y', 'l', 'e']);
        assert(name_iframe() =~= seq!['i', 'f', 'r', 'a', 'm', 'e']);
        assert(name_object() =~= seq!['o', 'b', 'j', 'e', 'c', 't']);
        assert(name_embed() =~= seq!['e', 'm', 'b', 'e', 'd']);
        assert(neutral_piece(s, i) =~= seq![s[i]]);
        assert(s.skip(i) =~= seq![s[i]] + s.skip(i + 1));
    } else {
        assert(s.skip(i) =~= Seq::<char>::empty());
    }
}

proof fn lemma_neutral_grows(s: Seq<char>, i: int)
    requires
        0 <= i <= s.len(),
    ensures
        neutralized_from(s, i).len() >= s.len() - i,
        (exists|j: int| i <= j < s.len() && opens_active_element(s, j)) ==> neutralized_from(
            s,
            i,
        ).len() > s.len() - i,
    decreases s.len() - i,
{
    if i < s.len() {
        lemma_neutral_grows(s, i + 1);
        assert(name_script() =~= seq!['s', 'c', 'r', 'i', 'p', 't']);
        assert(name_style() =~= seq!['s', 't', 'y', 'l', 'e']);
        assert(name_iframe() =~= seq!['i', 'f', 'r', 'a', 'm', 'e']);
        assert(name_object() =~= seq!['o', 'b', 'j', 'e', 'c', 't']);
        assert(name_embed() =~= seq!['e', 'm', 'b', 'e', 'd']);
        if exists|j: int| i <= j < s.len() && opens_active_element(s, j) {
            let j = choose|j: int| i <= j < s.len() && opens_active_element(s, j);
            if j == i {
                assert(neutral_piece(s, i).len() == 4);
            } else {
                assert(exists|j2: int| i + 1 <= j2 < s.len() && opens_active_element(s, j2));
            }
        }
    }
}

/// Sanitizing changes exactly the markup that opens a `script`, `style`,
/// `iframe`, `object` or `embed` element: a text in which no `<` opens one
/// comes back unchanged (an `<img>`, `<a>` or `<em>` survives), and a text
/// in which one does is changed.
pub proof fn sanitizing_touches_only_active_elements(s: Seq<char>)
    ensures
        (forall|j: int| 0 <= j < s.len() ==> !opens_active_element(s, j)) ==> sanitized(s) == s,
        (exists|j: int| 0 <= j < s.len() && opens_active_element(s, j)) ==> sanitized(s) != s,
{
    if forall|j: int| 0 <= j < s.len() ==> !opens_active_element(s, j) {
        lemma_neutral_identity(s, 0);
        assert(s.skip(0) =~= s);
    }
    lemma_neutral_grows(s, 0);
}

} // verus!
