//! Rewriting the local links of a served Markdown document so that they
//! point at the server's routes. Code fences, indented code and inline code
//! spans are left as written; external and absolute references too.
//!
//! Where a link leads depends on the file system, which this module does
//! not see. The rewriter therefore runs against a list of answers: the
//! route found for each local path it asked about, in the order it asked.
//! When it meets a path beyond the answers given it stops and names that
//! path; the caller looks it up, appends the answer and runs it again.
use vstd::prelude::*;

use crate::serve::{external_or_absolute, percent_decode, percent_decoded, title_split};
use crate::text::{chars_of, is_whitespace, is_ws, push_all, starts_with, string_from_chars};

verus! {

/// The first index of `c` in `s`, or its length.
pub open spec fn index_of(s: Seq<char>, c: char) -> int
    decreases s.len(),
{
    if s.len() == 0 {
        0
    } else if s[0] == c {
        0
    } else {
        1 + index_of(s.drop_first(), c)
    }
}

proof fn lemma_index_of(s: Seq<char>, c: char, k: int)
    requires
        0 <= k <= s.len(),
        forall|j: int| 0 <= j < k ==> s[j] != c,
        k == s.len() || s[k] == c,
    ensures
        index_of(s, c) == k,
    decreases k,
{
    if k > 0 {
        lemma_index_of(s.drop_first(), c, k - 1);
    }
}

/// How the server reads a link reference: `None` for one that it leaves as
/// written (external or absolute, a bare fragment, one with a query, or one
/// whose percent escapes do not decode); otherwise the decoded path to look
/// up and the fragment (with its `#`, or empty) to keep after the route.
pub open spec fn reference_plan(r: Seq<char>) -> Option<(Seq<char>, Seq<char>)> {
    if external_or_absolute(r) || (r.len() > 0 && r[0] == '#') || r.contains('?') {
        None
    } else {
        let h = index_of(r, '#');
        match percent_decoded(r.take(h)) {
            Some(d) => Some((d, r.skip(h))),
            None => None,
        }
    }
}

/// The answers as plain text.
pub open spec fn answers_view(a: Seq<Option<String>>) -> Seq<Option<Seq<char>>> {
    a.map_values(
        |o: Option<String>|
            match o {
                Some(s) => Some(s@),
                None => None,
            },
    )
}

/// What becomes of the reference `dest` when `k` answers have been used:
/// `Err` with the path to ask about when no answer is left for it; else the
/// new reference (`None` to keep it as written) and the answers used.
pub open spec fn resolve(dest: Seq<char>, ans: Seq<Option<Seq<char>>>, k: int) -> Result<
    (Option<Seq<char>>, int),
    Seq<char>,
> {
    match reference_plan(dest) {
        None => Ok((None, k)),
        Some((path, fragment)) => if k < 0 || k >= ans.len() {
            Err(path)
        } else {
            match ans[k] {
                Some(route) => Ok((Some(route + fragment), k + 1)),
                None => Ok((None, k + 1)),
            }
        },
    }
}

/// Where the destination of an inline link ends: the first `)` at or after
/// index `i` that is neither escaped by a backslash nor inside a quoted
/// title.
pub open spec fn dest_end(l: Seq<char>, i: int, escaped: bool, quote: Option<char>) -> Option<int>
    decreases l.len() - i,
{
    if i < 0 || i >= l.len() {
        None
    } else if escaped {
        dest_end(l, i + 1, false, quote)
    } else if l[i] == '\\' {
        dest_end(l, i + 1, true, quote)
    } else if quote is Some {
        dest_end(
            l,
            i + 1,
            false,
            if l[i] == quote->0 {
                None
            } else {
                quote
            },
        )
    } else if l[i] == '"' || l[i] == '\'' {
        dest_end(l, i + 1, false, Some(l[i]))
    } else if l[i] == ')' {
        Some(i)
    } else {
        dest_end(l, i + 1, false, None)
    }
}

pub proof fn lemma_dest_end_range(l: Seq<char>, i: int, escaped: bool, quote: Option<char>)
    ensures
        dest_end(l, i, escaped, quote) matches Some(e) ==> i <= e < l.len() && l[e] == ')',
    decreases l.len() - i,
{
    if 0 <= i < l.len() {
        if escaped {
            lemma_dest_end_range(l, i + 1, false, quote);
        } else if l[i] == '\\' {
            lemma_dest_end_range(l, i + 1, true, quote);
        } else if quote is Some {
            lemma_dest_end_range(
                l,
                i + 1,
                false,
                if l[i] == quote->0 {
                    None
                } else {
                    quote
                },
            );
        } else if l[i] == '"' || l[i] == '\'' {
            lemma_dest_end_range(l, i + 1, false, Some(l[i]));
        } else if l[i] != ')' {
            lemma_dest_end_range(l, i + 1, false, None);
        }
    }
}

/// `out` followed by what `r` produced.
pub open spec fn after(out: Seq<char>, r: Result<(Seq<char>, int), Seq<char>>) -> Result<
    (Seq<char>, int),
    Seq<char>,
> {
    match r {
        Ok((t, k)) => Ok((out + t, k)),
        Err(p) => Err(p),
    }
}

proof fn lemma_after_after(a: Seq<char>, b: Seq<char>, r: Result<(Seq<char>, int), Seq<char>>)
    ensures
        after(a, after(b, r)) == after(a + b, r),
{
    if let Ok((t, k)) = r {
        assert(a + (b + t) =~= (a + b) + t);
    }
}

/// The inline links of one line from index `i` on, with `in_code` telling
/// whether a code span is open: the rewritten text and the answers used.
pub open spec fn inline_from(
    l: Seq<char>,
    i: int,
    in_code: bool,
    ans: Seq<Option<Seq<char>>>,
    k: int,
) -> Result<(Seq<char>, int), Seq<char>>
    decreases l.len() - i,
{
    if i < 0 || i >= l.len() {
        Ok((Seq::empty(), k))
    } else if l[i] == '`' {
        after(seq!['`'], inline_from(l, i + 1, !in_code, ans, k))
    } else if in_code || l[i] != ']' || i + 1 >= l.len() || l[i + 1] != '(' {
        after(seq![l[i]], inline_from(l, i + 1, in_code, ans, k))
    } else {
        match dest_end(l, i + 2, false, None) {
            None => after(seq![l[i]], inline_from(l, i + 1, in_code, ans, k)),
            Some(e) => {
                proof {
                    lemma_dest_end_range(l, i + 2, false, None);
                }
                let content = l.subrange(i + 2, e);
                let cut = title_split(content, 0, false);
                let dest = content.take(cut);
                let title = content.skip(cut);
                match resolve(dest, ans, k) {
                    Err(p) => Err(p),
                    Ok((target, k2)) => {
                        let shown = match target {
                            Some(t) => t,
                            None => dest,
                        };
                        after(
                            seq![']', '('] + shown + title + seq![')'],
                            inline_from(l, e + 1, in_code, ans, k2),
                        )
                    },
                }
            },
        }
    }
}

/// The index of the `)` that ends a link destination starting at `start`.
fn destination_close(l: &[char], start: usize) -> (e: Option<usize>)
    ensures
        match e {
            Some(x) => dest_end(l@, start as int, false, None) == Some(x as int),
            None => dest_end(l@, start as int, false, None) is None,
        },
{
    let mut escaped = false;
    let mut quote: Option<char> = None;
    let mut i = start;
    while i < l.len()
        invariant
            start <= i,
            dest_end(l@, start as int, false, None) == dest_end(l@, i as int, escaped, quote),
        decreases l@.len() - i,
    {
        let c = l[i];
        if escaped {
            escaped = false;
        } else if c == '\\' {
            escaped = true;
        } else if quote.is_some() {
            if quote == Some(c) {
                quote = None;
            }
        } else if c == '"' || c == '\'' {
            quote = Some(c);
        } else if c == ')' {
            return Some(i);
        }
        i = i + 1;
    }
    None
}

/// Whether `s` holds the character `c`.
fn has_char(s: &[char], c: char) -> (b: bool)
    ensures
        b == s@.contains(c),
{
    let mut i: usize = 0;
    while i < s.len()
        invariant
            i <= s@.len(),
            forall|j: int| 0 <= j < i ==> s@[j] != c,
        decreases s@.len() - i,
    {
        if s[i] == c {
            assert(s@[i as int] == c);
            return true;
        }
        i = i + 1;
    }
    false
}

/// The first index of `c` in `s`, or its length.
pub(crate) fn find_char(s: &[char], c: char) -> (k: usize)
    ensures
        k == index_of(s@, c),
        k <= s@.len(),
{
    let mut k: usize = 0;
    while k < s.len() && s[k] != c
        invariant
            k <= s@.len(),
            forall|j: int| 0 <= j < k ==> s@[j] != c,
        decreases s@.len() - k,
    {
        k = k + 1;
    }
    proof {
        lemma_index_of(s@, c, k as int);
    }
    k
}

/// The characters of `s` from `from` up to `to`.
pub(crate) fn slice_chars(s: &[char], from: usize, to: usize) -> (r: Vec<char>)
    requires
        from <= to <= s@.len(),
    ensures
        r@ == s@.subrange(from as int, to as int),
{
    let mut r: Vec<char> = Vec::new();
    let mut i = from;
    while i < to
        invariant
            from <= i <= to <= s@.len(),
            r@ == s@.subrange(from as int, i as int),
        decreases to - i,
    {
        r.push(s[i]);
        i = i + 1;
        assert(r@ =~= s@.subrange(from as int, i as int));
    }
    r
}

/// How the server reads the link reference `r`; see `reference_plan`.
fn plan_reference(r: &[char]) -> (plan: Option<(Vec<char>, Vec<char>)>)
    ensures
        match plan {
            Some((path, fragment)) => reference_plan(r@) == Some((path@, fragment@)),
            None => reference_plan(r@) is None,
        },
{
    let text = string_from_chars(r);
    if crate::serve::is_external_or_absolute(text.as_str()) || (r.len() > 0 && r[0] == '#')
        || has_char(r, '?') {
        return None;
    }
    let h = find_char(r, '#');
    let path_part = slice_chars(r, 0, h);
    let fragment = slice_chars(r, h, r.len());
    assert(path_part@ =~= r@.take(h as int));
    assert(fragment@ =~= r@.skip(h as int));
    let path_text = string_from_chars(path_part.as_slice());
    match percent_decode(path_text.as_str()) {
        Some(d) => Some((chars_of(d.as_str()), fragment)),
        None => None,
    }
}

/// The answers as plain text, `Ok` for a reference decided without a new
/// answer; see `resolve`.
fn resolve_reference(dest: &[char], answers: &[Option<String>], k: usize) -> (r: Result<
    (Option<Vec<char>>, usize),
    Vec<char>,
>)
    ensures
        match r {
            Ok((target, k2)) => resolve(dest@, answers_view(answers@), k as int) == Ok::<
                (Option<Seq<char>>, int),
                Seq<char>,
            >(
                (
                    match target {
                        Some(t) => Some(t@),
                        None => None,
                    },
                    k2 as int,
                ),
            ),
            Err(p) => resolve(dest@, answers_view(answers@), k as int) == Err::<
                (Option<Seq<char>>, int),
                Seq<char>,
            >(p@),
        },
{
    match plan_reference(dest) {
        None => Ok((None, k)),
        Some((path, fragment)) => {
            if k >= answers.len() {
                Err(path)
            } else {
                match &answers[k] {
                    Some(route) => {
                        let mut t = chars_of(route.as_str());
                        push_all(&mut t, fragment.as_slice());
                        Ok((Some(t), k + 1))
                    },
                    None => Ok((None, k + 1)),
                }
            }
        },
    }
}

/// A partial result as plain text.
pub open spec fn step_view(r: Result<(Vec<char>, usize), Vec<char>>) -> Result<
    (Seq<char>, int),
    Seq<char>,
> {
    match r {
        Ok((t, k)) => Ok((t@, k as int)),
        Err(p) => Err(p@),
    }
}

/// Rewrites the inline links `](destination title)` of one line.
fn rewrite_inline(l: &[char], answers: &[Option<String>], k0: usize) -> (r: Result<
    (Vec<char>, usize),
    Vec<char>,
>)
    ensures
        step_view(r) == inline_from(l@, 0, false, answers_view(answers@), k0 as int),
{
    let ghost a = answers_view(answers@);
    let mut out: Vec<char> = Vec::new();
    let mut i: usize = 0;
    let mut in_code = false;
    let mut k = k0;
    assert(out@ + Seq::<char>::empty() =~= out@);
    while i < l.len()
        invariant
            i <= l@.len(),
            a == answers_view(answers@),
            inline_from(l@, 0, false, a, k0 as int) == after(
                out@,
                inline_from(l@, i as int, in_code, a, k as int),
            ),
        decreases l@.len() - i,
    {
        let c = l[i];
        if c == '`' {
            proof {
                lemma_after_after(out@, seq!['`'], inline_from(l@, i + 1, !in_code, a, k as int));
            }
            let ghost prev = out@;
            out.push('`');
            assert(out@ =~= prev + seq!['`']);
            in_code = !in_code;
            i = i + 1;
        } else if in_code || c != ']' || i + 1 >= l.len() || l[i + 1] != '(' {
            proof {
                lemma_after_after(out@, seq![c], inline_from(l@, i + 1, in_code, a, k as int));
            }
            let ghost prev = out@;
            out.push(c);
            assert(out@ =~= prev + seq![c]);
            i = i + 1;
        } else {
            match destination_close(l, i + 2) {
                None => {
                    proof {
                        lemma_after_after(
                            out@,
                            seq![c],
                            inline_from(l@, i + 1, in_code, a, k as int),
                        );
                    }
                    let ghost prev = out@;
                    out.push(c);
                    assert(out@ =~= prev + seq![c]);
                    i = i + 1;
                },
                Some(e) => {
                    proof {
                        lemma_dest_end_range(l@, i + 2, false, None);
                    }
                    let content = slice_chars(l, i + 2, e);
                    let content_text = string_from_chars(content.as_slice());
                    let (dest, title) = crate::serve::split_destination_and_title(
                        content_text.as_str(),
                    );
                    let dest_chars = chars_of(dest.as_str());
                    match resolve_reference(dest_chars.as_slice(), answers, k) {
                        Err(p) => {
                            return Err(p);
                        },
                        Ok((target, k2)) => {
                            let mut piece = vec![']', '('];
                            match &target {
                                Some(t) => push_all(&mut piece, t.as_slice()),
                                None => push_all(&mut piece, dest_chars.as_slice()),
                            }
                            push_all(&mut piece, chars_of(title.as_str()).as_slice());
                            piece.push(')');
                            proof {
                                let ghost content_s = l@.subrange(i + 2, e as int);
                                assert(content_text@ == content_s);
                                let ghost cut = title_split(content_s, 0, false);
                                let ghost shown = match target {
                                    Some(t) => t@,
                                    None => dest@,
                                };
                                assert(dest@ == content_s.take(cut));
                                assert(piece@ =~= seq![']', '('] + shown + content_s.skip(cut)
                                    + seq![')']);
                                lemma_after_after(
                                    out@,
                                    piece@,
                                    inline_from(l@, e + 1, in_code, a, k2 as int),
                                );
                            }
                            push_all(&mut out, piece.as_slice());
                            i = e + 1;
                            k = k2;
                                        },
                    }
                },
            }
        }
    }
    Ok((out, k))
}

/// The first index `p` at or after `i` where `l` holds `]:`.
pub open spec fn def_sep(l: Seq<char>, i: int) -> Option<int>
    decreases l.len() - i,
{
    if i < 0 || i + 1 >= l.len() {
        None
    } else if l[i] == ']' && l[i + 1] == ':' {
        Some(i)
    } else {
        def_sep(l, i + 1)
    }
}

proof fn lemma_def_sep_range(l: Seq<char>, i: int)
    requires
        0 <= i,
    ensures
        def_sep(l, i) matches Some(p) ==> i <= p && p + 1 < l.len(),
    decreases l.len() - i,
{
    if i + 1 < l.len() && !(l[i] == ']' && l[i + 1] == ':') {
        lemma_def_sep_range(l, i + 1);
    }
}

/// The number of whitespace characters at the start of `s`.
pub open spec fn ws_prefix(s: Seq<char>) -> nat
    decreases s.len(),
{
    if s.len() > 0 && is_ws(s[0]) {
        1 + ws_prefix(s.drop_first())
    } else {
        0
    }
}

/// The index of the first whitespace character of `s`, or its length.
pub open spec fn ws_index(s: Seq<char>) -> int
    decreases s.len(),
{
    if s.len() == 0 {
        0
    } else if is_ws(s[0]) {
        0
    } else {
        1 + ws_index(s.drop_first())
    }
}

/// The number of bytes that UTF-8 takes for `c`.
pub open spec fn char_width(c: char) -> nat {
    if (c as u32) < 0x80 {
        1
    } else if (c as u32) < 0x800 {
        2
    } else if (c as u32) < 0x10000 {
        3
    } else {
        4
    }
}

/// The number of bytes that UTF-8 takes for `s` (`str::len`).
pub open spec fn byte_len(s: Seq<char>) -> nat
    decreases s.len(),
{
    if s.len() == 0 {
        0
    } else {
        byte_len(s.drop_last()) + char_width(s.last())
    }
}

/// One space for each byte of `s`.
pub open spec fn pad(s: Seq<char>) -> Seq<char> {
    Seq::new(byte_len(s), |_j: int| ' ')
}

/// A reference definition `[label]: destination rest` on one line, with
/// its destination rewritten; the line as it is when it is none, when the
/// label is a footnote's, or when its destination stays as written.
pub open spec fn definition_of(l: Seq<char>, ans: Seq<Option<Seq<char>>>, k: int) -> Result<
    (Seq<char>, int),
    Seq<char>,
> {
    match def_sep(l, 0) {
        None => Ok((l, k)),
        Some(p) => {
            let label = l.take(p);
            let rest = l.skip(p + 2);
            if !(label.len() > 0 && label[0] == '[') || (label.len() > 1 && label[1] == '^') {
                Ok((l, k))
            } else {
                let w = ws_prefix(rest) as int;
                let trimmed = rest.skip(w);
                let de = ws_index(trimmed);
                let dest = trimmed.take(de);
                match resolve(dest, ans, k) {
                    Err(x) => Err(x),
                    Ok((None, k2)) => Ok((l, k2)),
                    Ok((Some(t), k2)) => Ok(
                        (label + seq![']', ':'] + pad(rest.take(w)) + t + trimmed.skip(de), k2),
                    ),
                }
            }
        },
    }
}

proof fn lemma_ws_prefix(s: Seq<char>, k: int)
    requires
        0 <= k <= s.len(),
        forall|j: int| 0 <= j < k ==> is_ws(s[j]),
        k == s.len() || !is_ws(s[k]),
    ensures
        ws_prefix(s) == k,
    decreases k,
{
    if k > 0 {
        lemma_ws_prefix(s.drop_first(), k - 1);
    }
}

proof fn lemma_ws_index(s: Seq<char>, k: int)
    requires
        0 <= k <= s.len(),
        forall|j: int| 0 <= j < k ==> !is_ws(s[j]),
        k == s.len() || is_ws(s[k]),
    ensures
        ws_index(s) == k,
    decreases k,
{
    if k > 0 {
        lemma_ws_index(s.drop_first(), k - 1);
    }
}

fn width_of(c: char) -> (w: usize)
    ensures
        w == char_width(c),
{
    if (c as u32) < 0x80 {
        1
    } else if (c as u32) < 0x800 {
        2
    } else if (c as u32) < 0x10000 {
        3
    } else {
        4
    }
}

/// Rewrites the destination of a reference definition on one line.
fn rewrite_definition(l: &[char], answers: &[Option<String>], k: usize) -> (r: Result<
    (Vec<char>, usize),
    Vec<char>,
>)
    ensures
        step_view(r) == definition_of(l@, answers_view(answers@), k as int),
{
    let mut p: usize = 0;
    let mut found = false;
    while p < l.len() && l.len() - p > 1 && !found
        invariant
            p <= l@.len(),
            def_sep(l@, 0) == if found {
                Some(p as int)
            } else {
                def_sep(l@, p as int)
            },
            found ==> p + 1 < l@.len(),
        decreases l@.len() - p, if found {
            0int
        } else {
            1int
        },
    {
        if l[p] == ']' && l[p + 1] == ':' {
            found = true;
        } else {
            p = p + 1;
        }
    }
    if !found {
        let whole = slice_chars(l, 0, l.len());
        assert(whole@ =~= l@);
        return Ok((whole, k));
    }
    let ghost label = l@.take(p as int);
    let ghost rest = l@.skip(p + 2);
    if !(p > 0 && l[0] == '[') || (p > 1 && l[1] == '^') {
        let whole = slice_chars(l, 0, l.len());
        assert(whole@ =~= l@);
        return Ok((whole, k));
    }
    // leading whitespace of the rest, one space per byte
    let mut spaces: Vec<char> = Vec::new();
    let mut w = p + 2;
    while w < l.len() && is_whitespace(l[w])
        invariant
            p + 2 <= w <= l@.len(),
            forall|j: int| p + 2 <= j < w ==> is_ws(l@[j]),
            spaces@ == pad(l@.subrange(p + 2, w as int)),
        decreases l@.len() - w,
    {
        let n = width_of(l[w]);
        let ghost before = l@.subrange(p + 2, w as int);
        let mut m: usize = 0;
        while m < n
            invariant
                m <= n,
                n == char_width(l@[w as int]),
                spaces@ == pad(before) + Seq::new(m as nat, |_j: int| ' '),
            decreases n - m,
        {
            spaces.push(' ');
            m = m + 1;
            assert(spaces@ =~= pad(before) + Seq::new(m as nat, |_j: int| ' '));
        }
        w = w + 1;
        proof {
            let now = l@.subrange(p + 2, w as int);
            assert(now.drop_last() =~= before);
            assert(now.last() == l@[w - 1]);
            assert(spaces@ =~= pad(now));
        }
    }
    proof {
        lemma_ws_prefix(rest, w - (p + 2));
        assert(rest.take(w - (p + 2)) =~= l@.subrange(p + 2, w as int));
    }
    let mut de = w;
    while de < l.len() && !is_whitespace(l[de])
        invariant
            w <= de <= l@.len(),
            forall|j: int| w <= j < de ==> !is_ws(l@[j]),
        decreases l@.len() - de,
    {
        de = de + 1;
    }
    proof {
        let trimmed = rest.skip(w - (p + 2));
        assert(trimmed =~= l@.skip(w as int));
        lemma_ws_index(trimmed, de - w);
    }
    let dest = slice_chars(l, w, de);
    assert(dest@ =~= rest.skip(w - (p + 2)).take(de - w));
    match resolve_reference(dest.as_slice(), answers, k) {
        Err(x) => Err(x),
        Ok((None, k2)) => {
            let whole = slice_chars(l, 0, l.len());
            assert(whole@ =~= l@);
            Ok((whole, k2))
        },
        Ok((Some(t), k2)) => {
            let mut out = slice_chars(l, 0, p);
            out.push(']');
            out.push(':');
            push_all(&mut out, spaces.as_slice());
            push_all(&mut out, t.as_slice());
            let tail = slice_chars(l, de, l.len());
            push_all(&mut out, tail.as_slice());
            proof {
                let trimmed = rest.skip(w - (p + 2));
                assert(tail@ =~= trimmed.skip(de - w));
                assert(out@ =~= label + seq![']', ':'] + pad(rest.take(w - (p + 2))) + t@
                    + trimmed.skip(de - w));
            }
            Ok((out, k2))
        },
    }
}

pub proof fn lemma_index_of_range(s: Seq<char>, c: char)
    ensures
        0 <= index_of(s, c) <= s.len(),
        index_of(s, c) < s.len() ==> s[index_of(s, c)] == c,
    decreases s.len(),
{
    if s.len() > 0 && s[0] != c {
        lemma_index_of_range(s.drop_first(), c);
    }
}

/// The length of the first line of `s`, its newline included
/// (`str::split_inclusive('\n')`).
pub open spec fn line_len(s: Seq<char>) -> int {
    let n = index_of(s, '\n');
    if n < s.len() {
        n + 1
    } else {
        n
    }
}

/// The length of `line` without the carriage returns and newlines at its
/// end (`str::trim_end_matches(['\r', '\n'])`).
pub open spec fn body_len(line: Seq<char>) -> int
    decreases line.len(),
{
    if line.len() > 0 && (line.last() == '\n' || line.last() == '\r') {
        body_len(line.drop_last())
    } else {
        line.len() as int
    }
}

proof fn lemma_body_len(line: Seq<char>, m: int)
    requires
        0 <= m <= line.len(),
        forall|j: int| m <= j < line.len() ==> (line[j] == '\n' || line[j] == '\r'),
        m == 0 || !(line[m - 1] == '\n' || line[m - 1] == '\r'),
    ensures
        body_len(line) == m,
    decreases line.len() - m,
{
    if line.len() > m {
        lemma_body_len(line.drop_last(), m);
    }
}

/// `head` followed by what `r` produced.
pub open spec fn then(head: Seq<char>, r: Result<Seq<char>, Seq<char>>) -> Result<
    Seq<char>,
    Seq<char>,
> {
    match r {
        Ok(t) => Ok(head + t),
        Err(p) => Err(p),
    }
}

proof fn lemma_then_then(a: Seq<char>, b: Seq<char>, r: Result<Seq<char>, Seq<char>>)
    ensures
        then(a, then(b, r)) == then(a + b, r),
{
    if let Ok(t) = r {
        assert(a + (b + t) =~= (a + b) + t);
    }
}

/// The fence left open after a fence line `m` when `fence` was open before:
/// a fence closes on a line of its own character with a run at least as
/// long; a fence line of another kind inside it changes nothing.
pub open spec fn next_fence(fence: Option<(char, nat)>, m: (char, nat)) -> Option<(char, nat)> {
    match fence {
        Some(f) => if m.0 == f.0 && m.1 >= f.1 {
            None
        } else {
            fence
        },
        None => Some(m),
    }
}

/// The links of the document `s` rewritten line by line, with `fence` the
/// code fence open before it and `k` answers used.
pub open spec fn doc_from(
    s: Seq<char>,
    fence: Option<(char, nat)>,
    ans: Seq<Option<Seq<char>>>,
    k: int,
) -> Result<Seq<char>, Seq<char>>
    decreases s.len(),
{
    if s.len() == 0 {
        Ok(Seq::empty())
    } else {
        proof {
            lemma_index_of_range(s, '\n');
        }
        let n = line_len(s);
        let line = s.take(n);
        let rest = s.skip(n);
        let body = line.take(body_len(line));
        let newline = line.skip(body_len(line));
        let trimmed = body.skip(ws_prefix(body) as int);
        match crate::serve::fence_of(trimmed) {
            Some(m) => then(line, doc_from(rest, next_fence(fence, m), ans, k)),
            None => if fence is Some || starts_with(body, seq![' ', ' ', ' ', ' ']) {
                then(line, doc_from(rest, fence, ans, k))
            } else {
                match inline_from(body, 0, false, ans, k) {
                    Err(p) => Err(p),
                    Ok((inline, k1)) => match definition_of(inline, ans, k1) {
                        Err(p) => Err(p),
                        Ok((defined, k2)) => then(defined + newline, doc_from(rest, fence, ans, k2)),
                    },
                }
            },
        }
    }
}

/// The local links of the Markdown text `s` pointed at the server's routes,
/// given the routes found so far: `Ok` with the new text, or `Err` with the
/// decoded path that needs an answer next.
pub open spec fn rewritten_links(s: Seq<char>, ans: Seq<Option<Seq<char>>>) -> Result<
    Seq<char>,
    Seq<char>,
> {
    doc_from(s, None, ans, 0)
}

/// What the rewriter made of a document: the text with its links rewritten,
/// or the decoded local path whose route it needs next.
#[derive(Debug, Clone, PartialEq, Eq)]
pub enum LinkRewrite {
    Done(String),
    Need(String),
}

impl View for LinkRewrite {
    type V = Result<Seq<char>, Seq<char>>;

    open spec fn view(&self) -> Result<Seq<char>, Seq<char>> {
        match self {
            LinkRewrite::Done(t) => Ok(t@),
            LinkRewrite::Need(p) => Err(p@),
        }
    }
}

pub open spec fn fence_view(f: Option<(char, usize)>) -> Option<(char, nat)> {
    match f {
        Some((c, n)) => Some((c, n as nat)),
        None => None,
    }
}

/// Rewrites the line of `s` that starts at `pos`: the text it becomes, the
/// fence open after it, the answers used, and where the next line starts.
#[verifier::rlimit(40)]
#[verifier::spinoff_prover]
fn rewrite_line(
    s: &[char],
    pos: usize,
    fence: Option<(char, usize)>,
    answers: &[Option<String>],
    k: usize,
) -> (r: Result<(Vec<char>, Option<(char, usize)>, usize, usize), Vec<char>>)
    requires
        pos < s@.len(),
    ensures
        match r {
            Ok((piece, next, k2, end)) => pos < end <= s@.len() && doc_from(
                s@.skip(pos as int),
                fence_view(fence),
                answers_view(answers@),
                k as int,
            ) == then(
                piece@,
                doc_from(s@.skip(end as int), fence_view(next), answers_view(answers@), k2 as int),
            ),
            Err(p) => doc_from(
                s@.skip(pos as int),
                fence_view(fence),
                answers_view(answers@),
                k as int,
            ) == Err::<Seq<char>, Seq<char>>(p@),
        },
{
    let ghost a = answers_view(answers@);
    let ghost cur = s@.skip(pos as int);
    let mut j = pos;
    while j < s.len() && s[j] != '\n'
        invariant
            pos <= j <= s@.len(),
            forall|x: int| pos <= x < j ==> s@[x] != '\n',
        decreases s@.len() - j,
    {
        j = j + 1;
    }
    proof {
        lemma_index_of(cur, '\n', j - pos);
    }
    let end = if j < s.len() {
        j + 1
    } else {
        j
    };
    let ghost line = cur.take(end - pos);
    assert(line =~= s@.subrange(pos as int, end as int));
    let mut b = end;
    while b > pos && (s[b - 1] == '\n' || s[b - 1] == '\r')
        invariant
            pos <= b <= end <= s@.len(),
            forall|x: int| b <= x < end ==> (s@[x] == '\n' || s@[x] == '\r'),
        decreases b,
    {
        b = b - 1;
    }
    proof {
        lemma_body_len(line, b - pos);
    }
    let mut t = pos;
    while t < b && is_whitespace(s[t])
        invariant
            pos <= t <= b,
            b <= s@.len(),
            forall|x: int| pos <= x < t ==> is_ws(s@[x]),
        decreases b - t,
    {
        t = t + 1;
    }
    let ghost body = line.take(b - pos);
    proof {
        assert(body =~= s@.subrange(pos as int, b as int));
        lemma_ws_prefix(body, t - pos);
    }
    let trimmed = slice_chars(s, t, b);
    assert(trimmed@ =~= body.skip(t - pos));
    let trimmed_text = string_from_chars(trimmed.as_slice());
    let marker = crate::serve::fence_marker(trimmed_text.as_str());
    let ghost rest = cur.skip(end - pos);
    assert(rest =~= s@.skip(end as int));
    let line_chars = slice_chars(s, pos, end);
    match marker {
        Some(m) => {
            let next = match fence {
                Some(f) => if m.0 == f.0 && m.1 >= f.1 {
                    None
                } else {
                    fence
                },
                None => Some(m),
            };
            Ok((line_chars, next, k, end))
        },
        None => {
            let indented = b - pos >= 4 && s[pos] == ' ' && s[pos + 1] == ' ' && s[pos + 2]
                == ' ' && s[pos + 3] == ' ';
            proof {
                if b - pos >= 4 {
                    assert(body.subrange(0, 4) =~= seq![
                        s@[pos as int],
                        s@[pos + 1],
                        s@[pos + 2],
                        s@[pos + 3],
                    ]);
                }
                assert(indented == starts_with(body, seq![' ', ' ', ' ', ' ']));
            }
            if fence.is_some() || indented {
                Ok((line_chars, fence, k, end))
            } else {
                let body_chars = slice_chars(s, pos, b);
                match rewrite_inline(body_chars.as_slice(), answers, k) {
                    Err(p) => Err(p),
                    Ok((inline, k1)) => match rewrite_definition(inline.as_slice(), answers, k1) {
                        Err(p) => Err(p),
                        Ok((defined, k2)) => {
                            let newline = slice_chars(s, b, end);
                            assert(newline@ =~= line.skip(b - pos));
                            let mut piece = defined;
                            push_all(&mut piece, newline.as_slice());
                            Ok((piece, fence, k2, end))
                        },
                    },
                }
            }
        },
    }
}

/// Points the local links of a served Markdown document at the server's
/// routes. `answers` holds, in order, the route found for each decoded path
/// that earlier runs asked about (`None` where there is none); the result is
/// the rewritten text, or the next path to look up.
pub fn rewrite_markdown_links(markdown: &str, answers: &[Option<String>]) -> (r: LinkRewrite)
    ensures
        r@ == rewritten_links(markdown@, answers_view(answers@)),
{
    let s = chars_of(markdown);
    let ghost a = answers_view(answers@);
    let mut out: Vec<char> = Vec::new();
    let mut pos: usize = 0;
    let mut fence: Option<(char, usize)> = None;
    let mut k: usize = 0;
    assert(s@.skip(0) =~= s@);
    assert(out@ + Seq::<char>::empty() =~= out@);
    while pos < s.len()
        invariant
            pos <= s@.len(),
            s@ == markdown@,
            a == answers_view(answers@),
            rewritten_links(s@, a) == then(
                out@,
                doc_from(s@.skip(pos as int), fence_view(fence), a, k as int),
            ),
        decreases s@.len() - pos,
    {
        match rewrite_line(s.as_slice(), pos, fence, answers, k) {
            Err(p) => {
                return LinkRewrite::Need(string_from_chars(p.as_slice()));
            },
            Ok((piece, next, k2, end)) => {
                proof {
                    lemma_then_then(
                        out@,
                        piece@,
                        doc_from(s@.skip(end as int), fence_view(next), a, k2 as int),
                    );
                }
                push_all(&mut out, piece.as_slice());
                fence = next;
                k = k2;
                pos = end;
            },
        }
    }
    assert(s@.skip(pos as int) =~= Seq::<char>::empty());
    LinkRewrite::Done(string_from_chars(out.as_slice()))
}

proof fn lemma_inline_as_written(
    l: Seq<char>,
    i: int,
    in_code: bool,
    ans: Seq<Option<Seq<char>>>,
    k: int,
)
    requires
        0 <= i <= l.len(),
        forall|j: int| 0 <= j < ans.len() ==> ans[j] is None,
    ensures
        inline_from(l, i, in_code, ans, k) matches Ok((t, _)) ==> t == l.skip(i),
    decreases l.len() - i,
{
    if i < l.len() {
        if l[i] == '`' {
            lemma_inline_as_written(l, i + 1, !in_code, ans, k);
            assert(l.skip(i) =~= seq!['`'] + l.skip(i + 1));
        } else if in_code || l[i] != ']' || i + 1 >= l.len() || l[i + 1] != '(' {
            lemma_inline_as_written(l, i + 1, in_code, ans, k);
            assert(l.skip(i) =~= seq![l[i]] + l.skip(i + 1));
        } else {
            lemma_dest_end_range(l, i + 2, false, None);
            match dest_end(l, i + 2, false, None) {
                None => {
                    lemma_inline_as_written(l, i + 1, in_code, ans, k);
                    assert(l.skip(i) =~= seq![l[i]] + l.skip(i + 1));
                },
                Some(e) => {
                    let content = l.subrange(i + 2, e);
                    let cut = title_split(content, 0, false);
                    let dest = content.take(cut);
                    let title = content.skip(cut);
                    crate::serve::lemma_title_split_bounds(content, 0, false);
                    if let Ok((target, k2)) = resolve(dest, ans, k) {
                        assert(target is None);
                        lemma_inline_as_written(l, e + 1, in_code, ans, k2);
                        assert(dest + title =~= content);
                        assert(l.skip(i) =~= seq![']', '('] + dest + title + seq![')'] + l.skip(
                            e + 1,
                        ));
                    }
                },
            }
        }
    }
}

#[verifier::rlimit(60)]
#[verifier::spinoff_prover]
proof fn lemma_doc_as_written(
    s: Seq<char>,
    fence: Option<(char, nat)>,
    ans: Seq<Option<Seq<char>>>,
    k: int,
)
    requires
        forall|j: int| 0 <= j < ans.len() ==> ans[j] is None,
    ensures
        doc_from(s, fence, ans, k) matches Ok(t) ==> t == s,
    decreases s.len(),
{
    if s.len() > 0 {
        lemma_index_of_range(s, '\n');
        let n = line_len(s);
        let line = s.take(n);
        let rest = s.skip(n);
        let bl = body_len(line);
        let body = line.take(bl);
        let newline = line.skip(bl);
        let trimmed = body.skip(ws_prefix(body) as int);
        assert(line + rest =~= s);
        match crate::serve::fence_of(trimmed) {
            Some(m) => {
                lemma_doc_as_written(rest, next_fence(fence, m), ans, k);
            },
            None => {
                if fence is Some || starts_with(body, seq![' ', ' ', ' ', ' ']) {
                    lemma_doc_as_written(rest, fence, ans, k);
                } else {
                    lemma_body_len_range(line);
                    lemma_inline_as_written(body, 0, false, ans, k);
                    assert(body.skip(0) =~= body);
                    if let Ok((inline, k1)) = inline_from(body, 0, false, ans, k) {
                        if let Ok((defined, k2)) = definition_of(inline, ans, k1) {
                            lemma_doc_as_written(rest, fence, ans, k2);
                            assert(body + newline =~= line);
                        }
                    }
                }
            },
        }
    }
}

proof fn lemma_body_len_range(line: Seq<char>)
    ensures
        0 <= body_len(line) <= line.len(),
    decreases line.len(),
{
    if line.len() > 0 && (line.last() == '\n' || line.last() == '\r') {
        lemma_body_len_range(line.drop_last());
    }
}

/// A document whose local links all lead nowhere comes back as it was
/// written: when no answer names a route, the rewriter either asks for one
/// more path or returns the text unchanged.
pub proof fn links_without_routes_stay_as_written(s: Seq<char>, ans: Seq<Option<Seq<char>>>)
    requires
        forall|j: int| 0 <= j < ans.len() ==> ans[j] is None,
    ensures
        rewritten_links(s, ans) matches Ok(t) ==> t == s,
{
    lemma_doc_as_written(s, None, ans, 0);
}

/// The code-fence marker of a line, read after its leading whitespace and
/// without its line break.
pub open spec fn line_marker(line: Seq<char>) -> Option<(char, nat)> {
    let body = line.take(body_len(line));
    crate::serve::fence_of(body.skip(ws_prefix(body) as int))
}

/// Whether some line of `s` closes the code fence `f`: a fence line of the
/// same character with a run at least as long.
pub open spec fn closes_fence(s: Seq<char>, f: (char, nat)) -> bool
    decreases s.len(),
{
    if s.len() == 0 {
        false
    } else {
        proof {
            lemma_index_of_range(s, '\n');
        }
        let n = line_len(s);
        (line_marker(s.take(n)) matches Some(m) && m.0 == f.0 && m.1 >= f.1) || closes_fence(
            s.skip(n),
            f,
        )
    }
}

proof fn lemma_fence_as_written(
    s: Seq<char>,
    f: (char, nat),
    ans: Seq<Option<Seq<char>>>,
    k: int,
)
    requires
        !closes_fence(s, f),
    ensures
        doc_from(s, Some(f), ans, k) == Ok::<Seq<char>, Seq<char>>(s),
    decreases s.len(),
{
    if s.len() == 0 {
        assert(s =~= Seq::<char>::empty());
    } else {
        lemma_index_of_range(s, '\n');
        let n = line_len(s);
        lemma_fence_as_written(s.skip(n), f, ans, k);
        assert(s.take(n) + s.skip(n) =~= s);
        if let Some(m) = line_marker(s.take(n)) {
            assert(next_fence(Some(f), m) == Some(f));
        }
    }
}

/// Code inside a fence is never rewritten: a document that opens a code
/// fence on its first line, and never closes it, comes back as written
/// without a single lookup.
pub proof fn fenced_code_stays_as_written(
    open: Seq<char>,
    code: Seq<char>,
    ans: Seq<Option<Seq<char>>>,
)
    requires
        open.len() > 0,
        open.last() == '\n',
        !open.drop_last().contains('\n'),
        line_marker(open) is Some,
        !closes_fence(code, line_marker(open)->0),
    ensures
        rewritten_links(open + code, ans) == Ok::<Seq<char>, Seq<char>>(open + code),
{
    let s = open + code;
    let m = line_marker(open)->0;
    assert forall|j: int| 0 <= j < open.len() - 1 implies s[j] != '\n' by {
        assert(open.drop_last()[j] == s[j]);
    }
    lemma_index_of(s, '\n', open.len() - 1);
    assert(s.take(open.len() as int) =~= open);
    assert(s.skip(open.len() as int) =~= code);
    lemma_fence_as_written(code, m, ans, 0);
}


/// An indented code line (four spaces before its text, not a fence line)
/// is copied as written, line break included, and the rest of the document
/// is rewritten as it would be on its own.
pub proof fn indented_code_stays_as_written(
    line: Seq<char>,
    rest: Seq<char>,
    ans: Seq<Option<Seq<char>>>,
)
    requires
        line.len() > 0,
        line.last() == '\n',
        !line.drop_last().contains('\n'),
        starts_with(line.take(body_len(line)), seq![' ', ' ', ' ', ' ']),
        line_marker(line) is None,
    ensures
        rewritten_links(line + rest, ans) == then(line, rewritten_links(rest, ans)),
{
    let s = line + rest;
    assert forall|j: int| 0 <= j < line.len() - 1 implies s[j] != '\n' by {
        assert(line.drop_last()[j] == s[j]);
    }
    lemma_index_of(s, '\n', line.len() - 1);
    assert(s.take(line.len() as int) =~= line);
    assert(s.skip(line.len() as int) =~= rest);
}


/// A line of a document: it ends with its newline and holds no other.
pub open spec fn is_line(l: Seq<char>) -> bool {
    l.len() > 0 && l.last() == '\n' && !l.drop_last().contains('\n')
}

/// The lines `ls` one after another.
pub open spec fn joined(ls: Seq<Seq<char>>) -> Seq<char>
    decreases ls.len(),
{
    if ls.len() == 0 {
        Seq::empty()
    } else {
        ls[0] + joined(ls.drop_first())
    }
}

/// Whether the line `l` would close the fence `f`.
pub open spec fn closes(l: Seq<char>, f: (char, nat)) -> bool {
    line_marker(l) matches Some(m) && m.0 == f.0 && m.1 >= f.1
}

proof fn lemma_line_step(
    line: Seq<char>,
    rest: Seq<char>,
    fence: Option<(char, nat)>,
    ans: Seq<Option<Seq<char>>>,
    k: int,
)
    requires
        is_line(line),
    ensures
        line_marker(line) matches Some(m) ==> doc_from(line + rest, fence, ans, k) == then(
            line,
            doc_from(rest, next_fence(fence, m), ans, k),
        ),
        line_marker(line) is None && fence is Some ==> doc_from(line + rest, fence, ans, k) == then(
            line,
            doc_from(rest, fence, ans, k),
        ),
{
    let s = line + rest;
    assert forall|j: int| 0 <= j < line.len() - 1 implies s[j] != '\n' by {
        assert(line.drop_last()[j] == s[j]);
    }
    lemma_index_of(s, '\n', line.len() - 1);
    assert(s.take(line.len() as int) =~= line);
    assert(s.skip(line.len() as int) =~= rest);
}

proof fn lemma_inside_fence(
    ls: Seq<Seq<char>>,
    rest: Seq<char>,
    f: (char, nat),
    ans: Seq<Option<Seq<char>>>,
    k: int,
)
    requires
        forall|i: int| 0 <= i < ls.len() ==> is_line(#[trigger] ls[i]) && !closes(ls[i], f),
    ensures
        doc_from(joined(ls) + rest, Some(f), ans, k) == then(
            joined(ls),
            doc_from(rest, Some(f), ans, k),
        ),
    decreases ls.len(),
{
    if ls.len() == 0 {
        assert(joined(ls) + rest =~= rest);
        if let Ok(t) = doc_from(rest, Some(f), ans, k) {
            assert(joined(ls) + t =~= t);
        }
    } else {
        let tail = ls.drop_first();
        assert forall|i: int| 0 <= i < tail.len() implies is_line(#[trigger] tail[i]) && !closes(
            tail[i],
            f,
        ) by {
            assert(tail[i] == ls[i + 1]);
        }
        lemma_inside_fence(tail, rest, f, ans, k);
        assert(is_line(ls[0]) && !closes(ls[0], f));
        lemma_line_step(ls[0], joined(tail) + rest, Some(f), ans, k);
        assert(joined(ls) + rest =~= ls[0] + (joined(tail) + rest));
        if let Some(m) = line_marker(ls[0]) {
            assert(next_fence(Some(f), m) == Some(f));
        }
        lemma_then_then(ls[0], joined(tail), doc_from(rest, Some(f), ans, k));
    }
}

/// A fenced code block is never rewritten: from the line that opens a
/// fence to the line that closes it, the text is copied as written, and
/// the rest of the document is rewritten as it would be on its own.
pub proof fn closed_fences_stay_as_written(
    open: Seq<char>,
    code: Seq<Seq<char>>,
    close: Seq<char>,
    rest: Seq<char>,
    ans: Seq<Option<Seq<char>>>,
)
    requires
        is_line(open),
        line_marker(open) is Some,
        forall|i: int|
            0 <= i < code.len() ==> is_line(#[trigger] code[i]) && !closes(
                code[i],
                line_marker(open)->0,
            ),
        is_line(close),
        closes(close, line_marker(open)->0),
    ensures
        rewritten_links(open + joined(code) + close + rest, ans) == then(
            open + joined(code) + close,
            rewritten_links(rest, ans),
        ),
{
    let f = line_marker(open)->0;
    let m = line_marker(close)->0;
    lemma_line_step(close, rest, Some(f), ans, 0);
    assert(next_fence(Some(f), m) == None::<(char, nat)>);
    lemma_inside_fence(code, close + rest, f, ans, 0);
    lemma_line_step(open, joined(code) + (close + rest), None, ans, 0);
    assert(next_fence(None, f) == Some(f));
    assert(open + joined(code) + close + rest =~= open + (joined(code) + (close + rest)));
    lemma_then_then(joined(code), close, doc_from(rest, None, ans, 0));
    lemma_then_then(open, joined(code) + close, doc_from(rest, None, ans, 0));
    assert(open + (joined(code) + close) =~= open + joined(code) + close);
}

} // verus!
