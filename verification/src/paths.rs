//! Paths written as `/`-separated text: their file name, extension, and
//! whether they name a Markdown file, as `std::path::Path` reads them.
use vstd::prelude::*;

use crate::text::{ascii_lower, lower, to_ascii_lower};

verus! {

/// The index just past the last `/` before `end`, or 0 when there is none.
pub open spec fn segment_start(p: Seq<char>, end: int) -> int
    decreases end,
{
    if end <= 0 {
        0
    } else if p[end - 1] == '/' {
        end
    } else {
        segment_start(p, end - 1)
    }
}

/// The last component of `p[..end]` that is neither empty nor `.`, unless it
/// is `..` (`Path::file_name`).
pub proof fn lemma_segment_start_le(p: Seq<char>, end: int)
    ensures
        end > 0 ==> 0 <= segment_start(p, end) <= end,
        end <= 0 ==> segment_start(p, end) == 0,
    decreases end,
{
    if end > 0 && p[end - 1] != '/' {
        lemma_segment_start_le(p, end - 1);
    }
}

pub open spec fn file_name_upto(p: Seq<char>, end: int) -> Option<Seq<char>>
    decreases end,
{
    if end <= 0 {
        None
    } else {
        let st = segment_start(p, end);
        proof {
            lemma_segment_start_le(p, end);
        }
        let seg = p.subrange(st, end);
        if seg.len() == 0 || seg == seq!['.'] {
            if st == 0 {
                None
            } else {
                file_name_upto(p, st - 1)
            }
        } else if seg == seq!['.', '.'] {
            None
        } else {
            Some(seg)
        }
    }
}

pub open spec fn file_name(p: Seq<char>) -> Option<Seq<char>> {
    file_name_upto(p, p.len() as int)
}

/// The index of the last `.` in `name[..end]`, or -1.
pub open spec fn last_dot(name: Seq<char>, end: int) -> int
    decreases end,
{
    if end <= 0 {
        -1
    } else if name[end - 1] == '.' {
        end - 1
    } else {
        last_dot(name, end - 1)
    }
}

/// What follows the last `.` of a file name, when something precedes that
/// `.` (`Path::extension`).
pub open spec fn name_extension(name: Seq<char>) -> Option<Seq<char>> {
    let d = last_dot(name, name.len() as int);
    if d >= 1 {
        Some(name.subrange(d + 1, name.len() as int))
    } else {
        None
    }
}

pub open spec fn extension(p: Seq<char>) -> Option<Seq<char>> {
    match file_name(p) {
        Some(name) => name_extension(name),
        None => None,
    }
}

/// `md`, `markdown` and `mdown`, in any letter case.
pub open spec fn is_markdown_extension(ext: Seq<char>) -> bool {
    let e = lower(ext);
    e == seq!['m', 'd'] || e == seq!['m', 'a', 'r', 'k', 'd', 'o', 'w', 'n'] || e == seq![
        'm',
        'd',
        'o',
        'w',
        'n',
    ]
}

pub open spec fn markdown_path(p: Seq<char>) -> bool {
    match extension(p) {
        Some(ext) => is_markdown_extension(ext),
        None => false,
    }
}

proof fn lemma_segment_start_bounds(p: Seq<char>, end: int)
    requires
        0 <= end <= p.len(),
    ensures
        0 <= segment_start(p, end) <= end,
        segment_start(p, end) > 0 ==> p[segment_start(p, end) - 1] == '/',
        forall|i: int| segment_start(p, end) <= i < end ==> p[i] != '/',
    decreases end,
{
    if end > 0 && p[end - 1] != '/' {
        lemma_segment_start_bounds(p, end - 1);
    }
}

fn find_segment_start(p: &[char], end: usize) -> (st: usize)
    requires
        end <= p@.len(),
    ensures
        st == segment_start(p@, end as int),
{
    let mut i = end;
    while i > 0 && p[i - 1] != '/'
        invariant
            i <= end,
            end <= p@.len(),
            segment_start(p@, end as int) == segment_start(p@, i as int),
        decreases i,
    {
        i = i - 1;
    }
    i
}

fn copy_range(p: &[char], from: usize, to: usize) -> (v: Vec<char>)
    requires
        from <= to <= p@.len(),
    ensures
        v@ == p@.subrange(from as int, to as int),
{
    let mut v: Vec<char> = Vec::new();
    let mut i = from;
    while i < to
        invariant
            from <= i <= to,
            to <= p@.len(),
            v@ == p@.subrange(from as int, i as int),
        decreases to - i,
    {
        v.push(p[i]);
        i = i + 1;
        assert(v@ =~= p@.subrange(from as int, i as int));
    }
    v
}

/// The file name of a path, as `Path::file_name` gives it.
pub fn path_file_name(p: &[char]) -> (name: Option<Vec<char>>)
    ensures
        match name {
            Some(n) => file_name(p@) == Some(n@),
            None => file_name(p@) is None,
        },
{
    let mut end: usize = p.len();
    loop
        invariant
            end <= p@.len(),
            file_name(p@) == file_name_upto(p@, end as int),
        decreases end,
    {
        if end == 0 {
            return None;
        }
        let st = find_segment_start(p, end);
        proof {
            lemma_segment_start_bounds(p@, end as int);
        }
        let seg = copy_range(p, st, end);
        let len = end - st;
        proof {
            if len == 1 {
                assert(seg@ =~= seq![p@[st as int]]);
            }
            if seg@ == seq!['.'] {
                assert(seg@[0] == '.');
            }
        }
        if len == 0 || (len == 1 && p[st] == '.') {
            if st == 0 {
                return None;
            }
            end = st - 1;
        } else {
            let dots = len == 2 && p[st] == '.' && p[st + 1] == '.';
            assert(len == 2 ==> seg@ =~= seq![p@[st as int], p@[st + 1]]);
            proof {
                if seg@ == seq!['.'] {
                    assert(seg@[0] == p@[st as int]);
                }
                if seg@ == seq!['.', '.'] {
                    assert(seg@[0] == p@[st as int] && seg@[1] == p@[st + 1]);
                }
            }
            if dots {
                return None;
            }
            proof {
                lemma_segment_start_le(p@, end as int);
                assert(seg@ != seq!['.']);
                assert(seg@ != seq!['.', '.']);
                assert(file_name_upto(p@, end as int) == Some(seg@));
            }
            return Some(seg);
        }
    }
}

/// The extension of a file name, as `Path::extension` gives it.
pub fn name_extension_of(name: &[char]) -> (ext: Option<Vec<char>>)
    ensures
        match ext {
            Some(e) => name_extension(name@) == Some(e@),
            None => name_extension(name@) is None,
        },
{
    let mut end: usize = name.len();
    while end > 0 && name[end - 1] != '.'
        invariant
            end <= name@.len(),
            last_dot(name@, name@.len() as int) == last_dot(name@, end as int),
        decreases end,
    {
        end = end - 1;
    }
    if end >= 2 {
        Some(copy_range(name, end, name.len()))
    } else {
        None
    }
}

/// Whether the lowercase form of `ext` is `md`, `markdown` or `mdown`.
pub fn markdown_extension(ext: &[char]) -> (b: bool)
    ensures
        b == is_markdown_extension(ext@),
{
    let mut e: Vec<char> = Vec::new();
    let mut i: usize = 0;
    while i < ext.len()
        invariant
            i <= ext@.len(),
            e@ == lower(ext@.take(i as int)),
        decreases ext@.len() - i,
    {
        e.push(to_ascii_lower(ext[i]));
        i = i + 1;
        assert(lower(ext@.take(i as int)) =~= lower(ext@.take((i - 1) as int)).push(
            ascii_lower(ext@[i - 1]),
        ));
    }
    assert(ext@.take(ext@.len() as int) == ext@);
    let md = vec!['m', 'd'];
    let markdown = vec!['m', 'a', 'r', 'k', 'd', 'o', 'w', 'n'];
    let mdown = vec!['m', 'd', 'o', 'w', 'n'];
    assert(md@ =~= seq!['m', 'd']);
    assert(markdown@ =~= seq!['m', 'a', 'r', 'k', 'd', 'o', 'w', 'n']);
    assert(mdown@ =~= seq!['m', 'd', 'o', 'w', 'n']);
    chars_equal(e.as_slice(), md.as_slice()) || chars_equal(e.as_slice(), markdown.as_slice())
        || chars_equal(e.as_slice(), mdown.as_slice())
}

/// Whether two character slices are equal.
pub fn chars_equal(a: &[char], b: &[char]) -> (r: bool)
    ensures
        r == (a@ == b@),
{
    if a.len() != b.len() {
        return false;
    }
    let mut i: usize = 0;
    while i < a.len()
        invariant
            a@.len() == b@.len(),
            i <= a@.len(),
            forall|j: int| 0 <= j < i ==> a@[j] == b@[j],
        decreases a@.len() - i,
    {
        if a[i] != b[i] {
            return false;
        }
        i = i + 1;
    }
    assert(a@ =~= b@);
    true
}

/// Whether a path names a Markdown file: its extension is `md`, `markdown`
/// or `mdown`, in any letter case.
pub fn is_markdown_path(path: &str) -> (b: bool)
    ensures
        b == markdown_path(path@),
{
    let p = crate::text::chars_of(path);
    match path_file_name(p.as_slice()) {
        Some(name) => match name_extension_of(name.as_slice()) {
            Some(ext) => markdown_extension(ext.as_slice()),
            None => false,
        },
        None => false,
    }
}

} // verus!
