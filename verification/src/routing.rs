//! The served tree: which Markdown files the local preview server serves,
//! under which routes, and how it answers a request. The file system stays
//! with the caller, who hands in what it found (canonical paths, file
//! contents, directory entries) and gets the decisions back.
//!
//! Paths are absolute and `/`-separated, as `Path::canonicalize` returns
//! them; they are compared, shortened and extended by their components, as
//! `Path::starts_with`, `Path::parent` and `PathBuf::pop` do.
use vstd::prelude::*;
use vstd::utf8::encode_utf8;

use crate::document::path_title;
use crate::markdown::{markdown_events, parse_events, MdEvent, TagData, TagKind};
use crate::paths::{chars_equal, extension, file_name, markdown_path};
use crate::serve::{heading_title, ServeMode};
use crate::serve::{
    content_type_for, decode_repeated, encode_byte, encode_bytes, hex_upper, hex_val, unescape_bytes,
    unreserved, decode_rounds, external_or_absolute,
    is_external_or_absolute, percent_decode, percent_decoded, reference_path,
    reference_without_suffix, safe_content_type, suffix_start,
    component_scan, is_normal, join_slash, keep_normal, normal_components,
    percent_encode_route_segment, route_segment,
};
use crate::terminal::{decimal, decimal_chars};
use crate::text::{chars_of, push_all, push_str, split_words, string_from_chars, words};

verus! {

/// Whether the components `a` are the first components of `b`.
pub open spec fn is_prefix(a: Seq<Seq<char>>, b: Seq<Seq<char>>) -> bool {
    a.len() <= b.len() && b.take(a.len() as int) == a
}

/// The path that the components `cs` name under the file-system root.
pub open spec fn path_text(cs: Seq<Seq<char>>) -> Seq<char> {
    seq!['/'] + join_slash(cs)
}

/// The route of the components `cs` below the served root: `/`, then each
/// component percent-encoded, joined with `/`.
pub open spec fn route_parts(cs: Seq<Seq<char>>) -> Seq<char> {
    seq!['/'] + join_slash(cs.map_values(|c: Seq<char>| route_segment(c)))
}

/// The components of the parent directory of `p`; `None` for the root.
pub open spec fn parent_parts(p: Seq<char>) -> Option<Seq<Seq<char>>> {
    let cs = normal_components(p);
    if cs.len() == 0 {
        None
    } else {
        Some(cs.drop_last())
    }
}

/// The route of `path` below `root`, `None` when `path` is not under it
/// (`Path::strip_prefix`, then one percent-encoded segment per component).
pub open spec fn route_below(root: Seq<Seq<char>>, path: Seq<char>) -> Option<Seq<char>> {
    let cs = normal_components(path);
    if is_prefix(root, cs) {
        Some(route_parts(cs.skip(root.len() as int)))
    } else {
        None
    }
}

/// The named components of a path.
pub fn path_parts(p: &str) -> (parts: Vec<Vec<char>>)
    ensures
        parts@.len() == normal_components(p@).len(),
        forall|k: int| 0 <= k < parts@.len() ==> #[trigger] parts@[k]@ == normal_components(p@)[k],
{
    let c = chars_of(p);
    let mut done: Vec<Vec<char>> = Vec::new();
    let mut cur: Vec<char> = Vec::new();
    let mut i: usize = 0;
    while i < c.len()
        invariant
            i <= c@.len(),
            c@ == p@,
            done@.len() == component_scan(c@.take(i as int)).0.len(),
            forall|k: int|
                0 <= k < done@.len() ==> #[trigger] done@[k]@ == component_scan(
                    c@.take(i as int),
                ).0[k],
            cur@ == component_scan(c@.take(i as int)).1,
        decreases c@.len() - i,
    {
        assert(c@.take(i + 1).drop_last() == c@.take(i as int));
        if c[i] == '/' {
            let piece = cur;
            done.push(piece);
            cur = Vec::new();
        } else {
            cur.push(c[i]);
        }
        i = i + 1;
    }
    assert(c@.take(c@.len() as int) == c@);
    done.push(cur);
    let ghost all = component_scan(c@).0.push(component_scan(c@).1);
    let mut kept: Vec<Vec<char>> = Vec::new();
    let mut j: usize = 0;
    while j < done.len()
        invariant
            j <= done@.len(),
            done@.len() == all.len(),
            forall|k: int| 0 <= k < done@.len() ==> #[trigger] done@[k]@ == all[k],
            kept@.len() == keep_normal(all.take(j as int)).len(),
            forall|k: int|
                0 <= k < kept@.len() ==> #[trigger] kept@[k]@ == keep_normal(all.take(j as int))[k],
        decreases done@.len() - j,
    {
        assert(all.take(j + 1).drop_last() == all.take(j as int));
        let piece = &done[j];
        let named = piece.len() > 0 && !(piece.len() == 1 && piece[0] == '.') && !(piece.len() == 2
            && piece[0] == '.' && piece[1] == '.');
        proof {
            let c0 = all[j as int];
            assert(c0 == piece@);
            if piece@.len() == 1 && piece@[0] == '.' {
                assert(c0 =~= seq!['.']);
            }
            if piece@.len() == 2 && piece@[0] == '.' && piece@[1] == '.' {
                assert(c0 =~= seq!['.', '.']);
            }
            if c0 == seq!['.'] {
                assert(c0[0] == '.');
            }
            if c0 == seq!['.', '.'] {
                assert(c0[0] == '.' && c0[1] == '.');
            }
            assert(named == is_normal(c0));
        }
        if named {
            kept.push(piece.clone());
        }
        j = j + 1;
    }
    assert(all.take(all.len() as int) == all);
    kept
}

/// The components `cs` joined with `/`, after `lead`.
fn join_parts(lead: Vec<char>, cs: &[Vec<char>]) -> (t: Vec<char>)
    ensures
        t@ == lead@ + join_slash(cs@.map_values(|c: Vec<char>| c@)),
{
    let mut t = lead;
    let mut i: usize = 0;
    let ghost all = cs@.map_values(|c: Vec<char>| c@);
    while i < cs.len()
        invariant
            i <= cs@.len(),
            all == cs@.map_values(|c: Vec<char>| c@),
            t@ == lead@ + join_slash(all.take(i as int)),
        decreases cs@.len() - i,
    {
        assert(all.take(i + 1).drop_last() =~= all.take(i as int));
        if i > 0 {
            t.push('/');
        }
        push_all(&mut t, cs[i].as_slice());
        i = i + 1;
        assert(t@ =~= lead@ + join_slash(all.take(i as int)));
    }
    assert(all.take(cs@.len() as int) =~= all);
    t
}

/// The route of the components `cs`.
fn route_of_parts(cs: &[Vec<char>]) -> (route: Vec<char>)
    ensures
        route@ == route_parts(cs@.map_values(|c: Vec<char>| c@)),
{
    let mut encoded: Vec<Vec<char>> = Vec::new();
    let mut i: usize = 0;
    let ghost all = cs@.map_values(|c: Vec<char>| c@);
    while i < cs.len()
        invariant
            i <= cs@.len(),
            all == cs@.map_values(|c: Vec<char>| c@),
            encoded@.len() == i,
            forall|k: int|
                0 <= k < i ==> #[trigger] encoded@[k]@ == route_segment(all[k]),
        decreases cs@.len() - i,
    {
        let name = string_from_chars(cs[i].as_slice());
        let e = percent_encode_route_segment(name.as_str());
        encoded.push(chars_of(e.as_str()));
        i = i + 1;
    }
    let r = join_parts(vec!['/'], encoded.as_slice());
    assert(encoded@.map_values(|c: Vec<char>| c@) =~= all.map_values(
        |c: Seq<char>| route_segment(c),
    ));
    r
}

/// Whether the components `a` begin the components `b`.
fn parts_prefix(a: &[Vec<char>], b: &[Vec<char>]) -> (r: bool)
    ensures
        r == is_prefix(a@.map_values(|c: Vec<char>| c@), b@.map_values(|c: Vec<char>| c@)),
{
    let ghost av = a@.map_values(|c: Vec<char>| c@);
    let ghost bv = b@.map_values(|c: Vec<char>| c@);
    if a.len() > b.len() {
        return false;
    }
    let mut i: usize = 0;
    while i < a.len()
        invariant
            i <= a@.len() <= b@.len(),
            av == a@.map_values(|c: Vec<char>| c@),
            bv == b@.map_values(|c: Vec<char>| c@),
            forall|k: int| 0 <= k < i ==> av[k] == bv[k],
        decreases a@.len() - i,
    {
        if !chars_equal(a[i].as_slice(), b[i].as_slice()) {
            assert(bv.take(av.len() as int)[i as int] == bv[i as int]);
            return false;
        }
        i = i + 1;
    }
    assert(bv.take(av.len() as int) =~= av);
    true
}

/// The components of `p` as plain text.
pub open spec fn parts_view(p: Seq<Vec<char>>) -> Seq<Seq<char>> {
    p.map_values(|c: Vec<char>| c@)
}

/// The route of the components of `cs` after the first `n`.
fn route_after(cs: &[Vec<char>], n: usize) -> (route: Vec<char>)
    requires
        n <= cs@.len(),
    ensures
        route@ == route_parts(parts_view(cs@).skip(n as int)),
{
    let mut rest: Vec<Vec<char>> = Vec::new();
    let mut i = n;
    while i < cs.len()
        invariant
            n <= i <= cs@.len(),
            rest@.len() == i - n,
            forall|k: int| 0 <= k < rest@.len() ==> #[trigger] rest@[k]@ == cs@[n + k]@,
        decreases cs@.len() - i,
    {
        rest.push(cs[i].clone());
        i = i + 1;
    }
    let r = route_of_parts(rest.as_slice());
    assert(parts_view(rest@) =~= parts_view(cs@).skip(n as int));
    r
}

/// The route of `path` below the directory `root`; `None` when `path` is
/// not under it.
pub fn route_from_root(root: &str, path: &str) -> (route: Option<String>)
    ensures
        match route {
            Some(r) => route_below(normal_components(root@), path@) == Some(r@),
            None => route_below(normal_components(root@), path@) is None,
        },
{
    let rp = path_parts(root);
    let pp = path_parts(path);
    assert(parts_view(rp@) =~= normal_components(root@));
    assert(parts_view(pp@) =~= normal_components(path@));
    if !parts_prefix(rp.as_slice(), pp.as_slice()) {
        return None;
    }
    let r = route_after(pp.as_slice(), rp.len());
    Some(string_from_chars(r.as_slice()))
}

/// `root` with components taken off its end until it holds `dir`
/// (`PathBuf::pop` until `Path::starts_with`).
pub open spec fn shrink_to(root: Seq<Seq<char>>, dir: Seq<Seq<char>>) -> Seq<Seq<char>>
    decreases root.len(),
{
    if is_prefix(root, dir) || root.len() == 0 {
        root
    } else {
        shrink_to(root.drop_last(), dir)
    }
}

/// The deepest directory holding the parents of `paths[i..]`, starting
/// from `root`; `None` when one of them has no parent.
pub open spec fn ancestor_from(paths: Seq<Seq<char>>, i: int, root: Seq<Seq<char>>) -> Option<
    Seq<Seq<char>>,
>
    decreases paths.len() - i,
{
    if i < 0 || i >= paths.len() {
        Some(root)
    } else {
        match parent_parts(paths[i]) {
            None => None,
            Some(dir) => ancestor_from(paths, i + 1, shrink_to(root, dir)),
        }
    }
}

/// The deepest directory that holds every one of `paths`, as components;
/// `None` for no paths or for one without a parent.
pub open spec fn common_ancestor(paths: Seq<Seq<char>>) -> Option<Seq<Seq<char>>> {
    if paths.len() == 0 {
        None
    } else {
        match parent_parts(paths[0]) {
            None => None,
            Some(dir) => ancestor_from(paths, 1, dir),
        }
    }
}

/// The deepest directory that holds every one of `paths`.
pub fn deepest_common_ancestor(paths: &[String]) -> (root: Option<String>)
    ensures
        match root {
            Some(r) => common_ancestor(paths@.map_values(|p: String| p@)) matches Some(cs) && r@
                == path_text(cs),
            None => common_ancestor(paths@.map_values(|p: String| p@)) is None,
        },
{
    match common_parts(paths) {
        Some(cs) => {
            let t = join_parts(vec!['/'], cs.as_slice());
            Some(string_from_chars(t.as_slice()))
        },
        None => None,
    }
}

fn parent_of(p: &str) -> (d: Option<Vec<Vec<char>>>)
    ensures
        match d {
            Some(cs) => parent_parts(p@) == Some(parts_view(cs@)),
            None => parent_parts(p@) is None,
        },
{
    let mut cs = path_parts(p);
    assert(parts_view(cs@) =~= normal_components(p@));
    if cs.len() == 0 {
        return None;
    }
    cs.pop();
    assert(parts_view(cs@) =~= normal_components(p@).drop_last());
    Some(cs)
}

fn common_parts(paths: &[String]) -> (root: Option<Vec<Vec<char>>>)
    ensures
        match root {
            Some(cs) => common_ancestor(paths@.map_values(|p: String| p@)) == Some(
                parts_view(cs@),
            ),
            None => common_ancestor(paths@.map_values(|p: String| p@)) is None,
        },
{
    let ghost ps = paths@.map_values(|p: String| p@);
    if paths.len() == 0 {
        return None;
    }
    let mut root = match parent_of(paths[0].as_str()) {
        Some(d) => d,
        None => {
            return None;
        },
    };
    let mut i: usize = 1;
    while i < paths.len()
        invariant
            1 <= i <= paths@.len(),
            ps == paths@.map_values(|p: String| p@),
            common_ancestor(ps) == ancestor_from(ps, i as int, parts_view(root@)),
        decreases paths@.len() - i,
    {
        let dir = match parent_of(paths[i].as_str()) {
            Some(d) => d,
            None => {
                return None;
            },
        };
        let ghost start_root = parts_view(root@);
        assert(ps[i as int] == paths@[i as int]@);
        while !parts_prefix(root.as_slice(), dir.as_slice()) && root.len() > 0
            invariant
                shrink_to(parts_view(root@), parts_view(dir@)) == shrink_to(
                    start_root,
                    parts_view(dir@),
                ),
            decreases root@.len(),
        {
            let ghost before = parts_view(root@);
            root.pop();
            assert(parts_view(root@) =~= before.drop_last());
        }
        i = i + 1;
    }
    Some(root)
}

/// Why the server refused what it was asked to serve.
#[derive(Debug, Clone, PartialEq, Eq)]
pub enum ServeError {
    /// No input was named.
    NoInput,
    /// A directory was named together with other inputs.
    MixedInputs,
    /// `--recurse` was given without exactly one directory.
    RecurseNeedsDirectory,
    /// The file system refused an operation; its message.
    Io(String),
    /// A named input is not a file; the input as given.
    NotAFile(String),
    /// A named input is not a Markdown file; the input as given.
    NotMarkdown(String),
    /// Two named inputs are the same file.
    DuplicateFiles,
    /// A named file has no parent directory.
    NoParent,
    /// The named files have no directory in common.
    NoCommonAncestor,
    /// The named files have only the file-system root in common.
    RootAncestor,
    /// A named file is not under the served root.
    OutsideRoot,
    /// Nothing is left to serve.
    NoDocuments,
    /// The served directory is the file-system root.
    RootDirectory,
    /// Two Markdown files differ only in case; the second one's path.
    Colliding(String),
    /// A Markdown file resolves outside the served directory; its path.
    DocumentOutsideRoot(String),
    /// A Markdown file is another one under a second name; its path.
    DuplicateDocument(String),
    /// The directory holds no Markdown file; `true` when it was searched
    /// recursively.
    EmptyDirectory(bool),
}

/// A refusal as plain text.
pub enum ServeFailure {
    NoInput,
    MixedInputs,
    RecurseNeedsDirectory,
    Io(Seq<char>),
    NotAFile(Seq<char>),
    NotMarkdown(Seq<char>),
    DuplicateFiles,
    NoParent,
    NoCommonAncestor,
    RootAncestor,
    OutsideRoot,
    NoDocuments,
    RootDirectory,
    Colliding(Seq<char>),
    DocumentOutsideRoot(Seq<char>),
    DuplicateDocument(Seq<char>),
    EmptyDirectory(bool),
}

impl View for ServeError {
    type V = ServeFailure;

    open spec fn view(&self) -> ServeFailure {
        match self {
            ServeError::NoInput => ServeFailure::NoInput,
            ServeError::MixedInputs => ServeFailure::MixedInputs,
            ServeError::RecurseNeedsDirectory => ServeFailure::RecurseNeedsDirectory,
            ServeError::Io(m) => ServeFailure::Io(m@),
            ServeError::NotAFile(x) => ServeFailure::NotAFile(x@),
            ServeError::NotMarkdown(x) => ServeFailure::NotMarkdown(x@),
            ServeError::DuplicateFiles => ServeFailure::DuplicateFiles,
            ServeError::NoParent => ServeFailure::NoParent,
            ServeError::NoCommonAncestor => ServeFailure::NoCommonAncestor,
            ServeError::RootAncestor => ServeFailure::RootAncestor,
            ServeError::OutsideRoot => ServeFailure::OutsideRoot,
            ServeError::NoDocuments => ServeFailure::NoDocuments,
            ServeError::RootDirectory => ServeFailure::RootDirectory,
            ServeError::Colliding(x) => ServeFailure::Colliding(x@),
            ServeError::DocumentOutsideRoot(x) => ServeFailure::DocumentOutsideRoot(x@),
            ServeError::DuplicateDocument(x) => ServeFailure::DuplicateDocument(x@),
            ServeError::EmptyDirectory(r) => ServeFailure::EmptyDirectory(*r),
        }
    }
}

/// The message that describes a refusal.
pub open spec fn serve_error_text(e: ServeFailure) -> Seq<char> {
    match e {
        ServeFailure::NoInput => "serve requires an input file or directory"@,
        ServeFailure::MixedInputs => "cannot mix a served directory with explicit files"@,
        ServeFailure::RecurseNeedsDirectory => "--recurse requires a single served directory"@,
        ServeFailure::Io(m) => m,
        ServeFailure::NotAFile(x) => "served input is not a file: "@ + x,
        ServeFailure::NotMarkdown(x) => "served input is not Markdown: "@ + x,
        ServeFailure::DuplicateFiles => "explicit served files contain duplicate or aliased paths"@,
        ServeFailure::NoParent => "served file has no parent directory"@,
        ServeFailure::NoCommonAncestor => "explicit served files have no common ancestor"@,
        ServeFailure::RootAncestor => "explicit served files must share a non-root ancestor directory"@,
        ServeFailure::OutsideRoot => "served file resolves outside the serve root"@,
        ServeFailure::NoDocuments => "serve requires at least one Markdown file"@,
        ServeFailure::RootDirectory => "served directory cannot be a filesystem root"@,
        ServeFailure::Colliding(x) => "directory contains colliding Markdown filenames: "@ + x,
        ServeFailure::DocumentOutsideRoot(x) => "served document resolves outside root: "@ + x,
        ServeFailure::DuplicateDocument(x) => "directory contains duplicate or aliased Markdown file: "@
            + x,
        ServeFailure::EmptyDirectory(true) => "served directory has no Markdown files recursively"@,
        ServeFailure::EmptyDirectory(false) => "served directory has no Markdown files at its top level"@,
    }
}

impl ServeError {
    /// The text that describes the refusal.
    pub fn message(&self) -> (m: String)
        ensures
            m@ == serve_error_text(self@),
    {
        let mut out: Vec<char> = Vec::new();
        match self {
            ServeError::NoInput => push_str(&mut out, "serve requires an input file or directory"),
            ServeError::MixedInputs => push_str(
                &mut out,
                "cannot mix a served directory with explicit files",
            ),
            ServeError::RecurseNeedsDirectory => push_str(
                &mut out,
                "--recurse requires a single served directory",
            ),
            ServeError::Io(m) => push_str(&mut out, m.as_str()),
            ServeError::NotAFile(x) => {
                push_str(&mut out, "served input is not a file: ");
                push_str(&mut out, x.as_str());
            },
            ServeError::NotMarkdown(x) => {
                push_str(&mut out, "served input is not Markdown: ");
                push_str(&mut out, x.as_str());
            },
            ServeError::DuplicateFiles => push_str(
                &mut out,
                "explicit served files contain duplicate or aliased paths",
            ),
            ServeError::NoParent => push_str(&mut out, "served file has no parent directory"),
            ServeError::NoCommonAncestor => push_str(
                &mut out,
                "explicit served files have no common ancestor",
            ),
            ServeError::RootAncestor => push_str(
                &mut out,
                "explicit served files must share a non-root ancestor directory",
            ),
            ServeError::OutsideRoot => push_str(
                &mut out,
                "served file resolves outside the serve root",
            ),
            ServeError::NoDocuments => push_str(
                &mut out,
                "serve requires at least one Markdown file",
            ),
            ServeError::RootDirectory => push_str(
                &mut out,
                "served directory cannot be a filesystem root",
            ),
            ServeError::Colliding(x) => {
                push_str(&mut out, "directory contains colliding Markdown filenames: ");
                push_str(&mut out, x.as_str());
            },
            ServeError::DocumentOutsideRoot(x) => {
                push_str(&mut out, "served document resolves outside root: ");
                push_str(&mut out, x.as_str());
            },
            ServeError::DuplicateDocument(x) => {
                push_str(&mut out, "directory contains duplicate or aliased Markdown file: ");
                push_str(&mut out, x.as_str());
            },
            ServeError::EmptyDirectory(recursive) => {
                if *recursive {
                    push_str(&mut out, "served directory has no Markdown files recursively");
                } else {
                    push_str(&mut out, "served directory has no Markdown files at its top level");
                }
            },
        }
        assert(out@ =~= serve_error_text(self@));
        string_from_chars(out.as_slice())
    }
}

/// A file named on the command line, with what the file system said of it:
/// its canonical path (or the error that `canonicalize` gave), whether that
/// is a file, and its text (or the error that reading it gave).
#[derive(Debug)]
pub struct ServedInput {
    pub shown: String,
    pub canonical: Result<String, String>,
    pub is_file: bool,
    pub source: Result<String, String>,
}

/// A served Markdown file: where it is, its route, and its title.
#[derive(Debug, Clone, PartialEq, Eq)]
pub struct ServedDocument {
    pub source_path: String,
    pub route_path: String,
    pub title: String,
}

/// What the server serves: the root directory, the documents in the order
/// they are listed, the one served for `/`, and how they were chosen.
#[derive(Debug, Clone, PartialEq, Eq)]
pub struct ServePlan {
    pub root: String,
    pub documents: Vec<ServedDocument>,
    pub default_document: String,
    pub mode: ServeMode,
}

/// A served document as plain text.
pub struct DocumentEntry {
    pub source_path: Seq<char>,
    pub route_path: Seq<char>,
    pub title: Seq<char>,
}

/// A serve plan as plain text.
pub struct PlanView {
    pub root: Seq<char>,
    pub documents: Seq<DocumentEntry>,
    pub default_document: Seq<char>,
    pub mode: ServeMode,
}

pub open spec fn entry_view(d: ServedDocument) -> DocumentEntry {
    DocumentEntry { source_path: d.source_path@, route_path: d.route_path@, title: d.title@ }
}

pub open spec fn plan_view(p: ServePlan) -> PlanView {
    PlanView {
        root: p.root@,
        documents: p.documents@.map_values(|d: ServedDocument| entry_view(d)),
        default_document: p.default_document@,
        mode: p.mode,
    }
}

/// The title of a served document: its first heading, else the file name
/// of its path, else `Markdown`.
pub open spec fn document_title(path: Seq<char>, source: Seq<char>) -> Seq<char> {
    match heading_title(markdown_events(source, true)) {
        Some(t) => t,
        None => path_title(path),
    }
}

/// Whether the input `x` resolved to the same path as `c`, component by
/// component.
pub open spec fn names_path(x: ServedInput, c: Seq<char>) -> bool {
    match x.canonical {
        Ok(d) => normal_components(d@) == normal_components(c),
        Err(_) => false,
    }
}

/// Whether an earlier input than the `i`-th names the same path as `c`.
pub open spec fn named_before(ins: Seq<ServedInput>, i: int, c: Seq<char>) -> bool {
    exists|j: int| 0 <= j < i && #[trigger] names_path(ins[j], c)
}

/// The first refusal among the named inputs from the `i`-th on, as the
/// inputs are checked one after another.
pub open spec fn input_refusal(ins: Seq<ServedInput>, i: int) -> Option<ServeFailure>
    decreases ins.len() - i,
{
    if i < 0 || i >= ins.len() {
        None
    } else {
        match ins[i].canonical {
            Err(e) => Some(ServeFailure::Io(e@)),
            Ok(c) => if !ins[i].is_file {
                Some(ServeFailure::NotAFile(ins[i].shown@))
            } else if !markdown_path(c@) {
                Some(ServeFailure::NotMarkdown(ins[i].shown@))
            } else if named_before(ins, i, c@) {
                Some(ServeFailure::DuplicateFiles)
            } else {
                input_refusal(ins, i + 1)
            },
        }
    }
}

/// The canonical path of an input that passed the checks.
pub open spec fn canonical_text(x: ServedInput) -> Seq<char> {
    match x.canonical {
        Ok(c) => c@,
        Err(_) => Seq::empty(),
    }
}

/// `head` followed by the documents that `r` lists.
pub open spec fn prefix_docs(head: Seq<DocumentEntry>, r: Result<Seq<DocumentEntry>, ServeFailure>) -> Result<
    Seq<DocumentEntry>,
    ServeFailure,
> {
    match r {
        Ok(t) => Ok(head + t),
        Err(f) => Err(f),
    }
}

proof fn lemma_prefix_docs(
    a: Seq<DocumentEntry>,
    b: Seq<DocumentEntry>,
    r: Result<Seq<DocumentEntry>, ServeFailure>,
)
    ensures
        prefix_docs(a, prefix_docs(b, r)) == prefix_docs(a + b, r),
{
    if let Ok(t) = r {
        assert(a + (b + t) =~= (a + b) + t);
    }
}

/// The documents for the inputs from the `i`-th on, under `root`; the
/// first refusal when one is outside it or cannot be read.
pub open spec fn documents_from(ins: Seq<ServedInput>, i: int, root: Seq<Seq<char>>) -> Result<
    Seq<DocumentEntry>,
    ServeFailure,
>
    decreases ins.len() - i,
{
    if i < 0 || i >= ins.len() {
        Ok(Seq::empty())
    } else {
        let c = canonical_text(ins[i]);
        let cs = normal_components(c);
        if !is_prefix(root, cs) {
            Err(ServeFailure::OutsideRoot)
        } else {
            match ins[i].source {
                Err(e) => Err(ServeFailure::Io(e@)),
                Ok(src) => prefix_docs(
                    seq![
                        DocumentEntry {
                            source_path: c,
                            route_path: route_parts(cs.skip(root.len() as int)),
                            title: document_title(c, src@),
                        },
                    ],
                    documents_from(ins, i + 1, root),
                ),
            }
        }
    }
}

/// The directory that holds the named files: the parent of a single one,
/// else the deepest directory they share.
pub open spec fn explicit_root(files: Seq<Seq<char>>) -> Result<Seq<Seq<char>>, ServeFailure> {
    if files.len() == 1 {
        match parent_parts(files[0]) {
            Some(d) => Ok(d),
            None => Err(ServeFailure::NoParent),
        }
    } else {
        match common_ancestor(files) {
            Some(d) => Ok(d),
            None => Err(ServeFailure::NoCommonAncestor),
        }
    }
}

/// What the server serves for files named on the command line, or why it
/// refuses them.
pub open spec fn explicit_plan(ins: Seq<ServedInput>) -> Result<PlanView, ServeFailure> {
    match input_refusal(ins, 0) {
        Some(f) => Err(f),
        None => match explicit_root(ins.map_values(|x: ServedInput| canonical_text(x))) {
            Err(f) => Err(f),
            Ok(root) => if root.len() == 0 {
                Err(ServeFailure::RootAncestor)
            } else {
                match documents_from(ins, 0, root) {
                    Err(f) => Err(f),
                    Ok(docs) => if docs.len() == 0 {
                        Err(ServeFailure::NoDocuments)
                    } else {
                        Ok(
                            PlanView {
                                root: path_text(root),
                                documents: docs,
                                default_document: docs[0].source_path,
                                mode: if docs.len() == 1 {
                                    ServeMode::SingleFile
                                } else {
                                    ServeMode::Explicit
                                },
                            },
                        )
                    },
                }
            },
        },
    }
}

/// Whether two component lists are equal.
fn parts_equal(a: &[Vec<char>], b: &[Vec<char>]) -> (r: bool)
    ensures
        r == (parts_view(a@) == parts_view(b@)),
{
    if a.len() != b.len() {
        return false;
    }
    let r = parts_prefix(a, b);
    proof {
        if parts_view(a@) == parts_view(b@) {
            assert(parts_view(b@).take(parts_view(a@).len() as int) =~= parts_view(b@));
        }
        if r {
            assert(parts_view(b@).take(parts_view(a@).len() as int) =~= parts_view(b@));
        }
    }
    r
}

/// The title of a served document; see `document_title`.
pub fn title_of_document(path: &str, source: &str) -> (title: String)
    ensures
        title@ == document_title(path@, source@),
{
    match crate::serve::first_heading_title(source) {
        Some(t) => t,
        None => crate::document::MarkdownDocument::from_path("", path).title().to_owned(),
    }
}

/// Decides what the server serves for files named on the command line:
/// every input must be a Markdown file, named once; they are served from
/// the deepest directory they share, which may not be the file-system root.
/// The first one named is served for `/`.
#[verifier::rlimit(40)]
pub fn plan_explicit_files(inputs: &[ServedInput]) -> (r: Result<ServePlan, ServeError>)
    ensures
        match r {
            Ok(p) => explicit_plan(inputs@) == Ok::<PlanView, ServeFailure>(plan_view(p)),
            Err(e) => explicit_plan(inputs@) == Err::<PlanView, ServeFailure>(e@),
        },
{
    let ghost ins = inputs@;
    let mut seen: Vec<Vec<Vec<char>>> = Vec::new();
    let mut canon: Vec<String> = Vec::new();
    let mut i: usize = 0;
    while i < inputs.len()
        invariant
            i <= ins.len(),
            ins == inputs@,
            seen@.len() == i,
            canon@.len() == i,
            input_refusal(ins, 0) == input_refusal(ins, i as int),
            forall|j: int|
                0 <= j < i ==> #[trigger] ins[j].canonical is Ok && canon@[j]@ == canonical_text(
                    ins[j],
                ) && parts_view(seen@[j]@) == normal_components(canonical_text(ins[j])),
        decreases ins.len() - i,
    {
        let x = &inputs[i];
        match &x.canonical {
            Err(e) => {
                return Err(ServeError::Io(e.clone()));
            },
            Ok(c) => {
                if !x.is_file {
                    return Err(ServeError::NotAFile(x.shown.clone()));
                }
                if !crate::paths::is_markdown_path(c.as_str()) {
                    return Err(ServeError::NotMarkdown(x.shown.clone()));
                }
                let cp = path_parts(c.as_str());
                assert(parts_view(cp@) =~= normal_components(c@));
                let mut j: usize = 0;
                while j < seen.len()
                    invariant
                        j <= seen@.len() == i,
                        i < ins.len(),
                        ins == inputs@,
                        ins[i as int].canonical == Ok::<String, String>(*c),
                        ins[i as int].is_file,
                        markdown_path(c@),
                        canon@.len() == i,
                        input_refusal(ins, 0) == input_refusal(ins, i as int),
                        forall|m: int|
                            0 <= m < i ==> #[trigger] canon@[m]@ == canonical_text(ins[m]),
                        parts_view(cp@) == normal_components(c@),
                        forall|m: int|
                            0 <= m < i ==> #[trigger] ins[m].canonical is Ok && parts_view(
                                seen@[m]@,
                            ) == normal_components(canonical_text(ins[m])),
                        forall|m: int| 0 <= m < j ==> !#[trigger] names_path(ins[m], c@),
                    decreases seen@.len() - j,
                {
                    if parts_equal(seen[j].as_slice(), cp.as_slice()) {
                        assert(names_path(ins[j as int], c@));
                        assert(named_before(ins, i as int, c@));
                        assert(input_refusal(ins, i as int) == Some(ServeFailure::DuplicateFiles));
                        return Err(ServeError::DuplicateFiles);
                    }
                    j = j + 1;
                }
                assert(!named_before(ins, i as int, c@));
                seen.push(cp);
                canon.push(c.clone());
            },
        }
        i = i + 1;
    }
    let ghost files = ins.map_values(|x: ServedInput| canonical_text(x));
    assert(canon@.map_values(|p: String| p@) =~= files);
    let root = if canon.len() == 1 {
        match parent_of(canon[0].as_str()) {
            Some(d) => d,
            None => {
                return Err(ServeError::NoParent);
            },
        }
    } else {
        match common_parts(canon.as_slice()) {
            Some(d) => d,
            None => {
                return Err(ServeError::NoCommonAncestor);
            },
        }
    };
    let ghost rv = parts_view(root@);
    assert(explicit_root(files) == Ok::<Seq<Seq<char>>, ServeFailure>(rv));
    if root.len() == 0 {
        return Err(ServeError::RootAncestor);
    }
    let docs = match documents_for(inputs, root.as_slice()) {
        Ok(d) => d,
        Err(e) => {
            return Err(e);
        },
    };
    if docs.len() == 0 {
        return Err(ServeError::NoDocuments);
    }
    let default_document = docs[0].source_path.clone();
    let mode = if docs.len() == 1 {
        ServeMode::SingleFile
    } else {
        ServeMode::Explicit
    };
    let root_text = join_parts(vec!['/'], root.as_slice());
    let plan = ServePlan {
        root: string_from_chars(root_text.as_slice()),
        documents: docs,
        default_document,
        mode,
    };
    proof {
        let dv = plan.documents@.map_values(|x: ServedDocument| entry_view(x));
        assert(input_refusal(ins, ins.len() as int) is None);
        assert(input_refusal(ins, 0) is None);
        assert(documents_from(ins, 0, rv) == Ok::<Seq<DocumentEntry>, ServeFailure>(dv));
        assert(plan_view(plan).root == path_text(rv));
        assert(plan_view(plan).default_document == dv[0].source_path);
    }
    Ok(plan)
}

/// The documents for the checked inputs under `root`.
fn documents_for(inputs: &[ServedInput], root: &[Vec<char>]) -> (r: Result<
    Vec<ServedDocument>,
    ServeError,
>)
    ensures
        match r {
            Ok(d) => documents_from(inputs@, 0, parts_view(root@)) == Ok::<
                Seq<DocumentEntry>,
                ServeFailure,
            >(d@.map_values(|x: ServedDocument| entry_view(x))),
            Err(e) => documents_from(inputs@, 0, parts_view(root@)) == Err::<
                Seq<DocumentEntry>,
                ServeFailure,
            >(e@),
        },
{
    let ghost rv = parts_view(root@);
    let mut docs: Vec<ServedDocument> = Vec::new();
    let mut i: usize = 0;
    proof {
        let e = docs@.map_values(|x: ServedDocument| entry_view(x));
        assert(e =~= Seq::<DocumentEntry>::empty());
        if let Ok(t) = documents_from(inputs@, 0, rv) {
            assert(e + t =~= t);
        }
    }
    while i < inputs.len()
        invariant
            i <= inputs@.len(),
            rv == parts_view(root@),
            documents_from(inputs@, 0, rv) == prefix_docs(
                docs@.map_values(|x: ServedDocument| entry_view(x)),
                documents_from(inputs@, i as int, rv),
            ),
        decreases inputs@.len() - i,
    {
        let x = &inputs[i];
        let c = match &x.canonical {
            Ok(c) => c.clone(),
            Err(_) => String::new(),
        };
        assert(c@ == canonical_text(inputs@[i as int]));
        let cp = path_parts(c.as_str());
        assert(parts_view(cp@) =~= normal_components(c@));
        if !parts_prefix(root, cp.as_slice()) {
            return Err(ServeError::OutsideRoot);
        }
        match &x.source {
            Err(e) => {
                return Err(ServeError::Io(e.clone()));
            },
            Ok(src) => {
                let route = string_from_chars(route_after(cp.as_slice(), root.len()).as_slice());
                let title = title_of_document(c.as_str(), src.as_str());
                let d = ServedDocument { source_path: c, route_path: route, title };
                let ghost before = docs@.map_values(|x: ServedDocument| entry_view(x));
                proof {
                    lemma_prefix_docs(
                        before,
                        seq![entry_view(d)],
                        documents_from(inputs@, i + 1, rv),
                    );
                }
                docs.push(d);
                proof {
                    assert(docs@.map_values(|x: ServedDocument| entry_view(x)) =~= before + seq![
                        entry_view(d),
                    ]);
                }
            },
        }
        i = i + 1;
    }
    Ok(docs)
}

/// How many of `flags` are set.
pub open spec fn count_set(flags: Seq<bool>) -> nat
    decreases flags.len(),
{
    if flags.len() == 0 {
        0
    } else {
        count_set(flags.drop_last()) + if flags.last() {
            1nat
        } else {
            0nat
        }
    }
}

/// Where the served documents come from.
#[derive(Debug, Clone, Copy, PartialEq, Eq)]
pub enum ServeSource {
    /// The Markdown files of one directory.
    Directory,
    /// The files named on the command line.
    Files,
}

/// Where the documents come from, given which inputs are directories.
pub open spec fn source_of(is_dir: Seq<bool>, recurse: bool) -> Result<ServeSource, ServeFailure> {
    let dirs = count_set(is_dir);
    if is_dir.len() == 0 {
        Err(ServeFailure::NoInput)
    } else if dirs > 0 && is_dir.len() > 1 {
        Err(ServeFailure::MixedInputs)
    } else if recurse && dirs != 1 {
        Err(ServeFailure::RecurseNeedsDirectory)
    } else if dirs == 1 {
        Ok(ServeSource::Directory)
    } else {
        Ok(ServeSource::Files)
    }
}

/// Decides whether the inputs name one directory or a set of files;
/// `is_dir` tells, for each input, whether it is a directory.
pub fn serve_source(is_dir: &[bool], recurse: bool) -> (r: Result<ServeSource, ServeError>)
    ensures
        match r {
            Ok(k) => source_of(is_dir@, recurse) == Ok::<ServeSource, ServeFailure>(k),
            Err(e) => source_of(is_dir@, recurse) == Err::<ServeSource, ServeFailure>(e@),
        },
{
    let mut dirs: usize = 0;
    let mut i: usize = 0;
    while i < is_dir.len()
        invariant
            i <= is_dir@.len(),
            dirs == count_set(is_dir@.take(i as int)),
            dirs <= i,
        decreases is_dir@.len() - i,
    {
        assert(is_dir@.take(i + 1).drop_last() =~= is_dir@.take(i as int));
        if is_dir[i] {
            dirs = dirs + 1;
        }
        i = i + 1;
    }
    assert(is_dir@.take(is_dir@.len() as int) =~= is_dir@);
    if is_dir.len() == 0 {
        Err(ServeError::NoInput)
    } else if dirs > 0 && is_dir.len() > 1 {
        Err(ServeError::MixedInputs)
    } else if recurse && dirs != 1 {
        Err(ServeError::RecurseNeedsDirectory)
    } else if dirs == 1 {
        Ok(ServeSource::Directory)
    } else {
        Ok(ServeSource::Files)
    }
}

/// The text in lower case by Unicode's full case mapping
/// (`str::to_lowercase`).
pub uninterp spec fn unicode_lowercase(s: Seq<char>) -> Seq<char>;

/// Calls `str::to_lowercase`. Claimed: the result is
/// `unicode_lowercase(s)`, a function of `s` alone (the mapping does not
/// depend on a locale); what that mapping is, is not stated.
#[verifier::external_body]
fn to_lowercase(s: &str) -> (l: String)
    ensures
        l@ == unicode_lowercase(s@),
{
    s.to_lowercase()
}

/// A Markdown file found in the served directory: its path relative to the
/// directory as given, its canonical path (or the error that
/// `canonicalize` gave), and its text (or the error that reading it gave).
#[derive(Debug)]
pub struct DirectoryEntry {
    pub relative: String,
    pub canonical: Result<String, String>,
    pub source: Result<String, String>,
}

/// Whether an entry before the `i`-th has the same relative path once both
/// are in lower case.
pub open spec fn collides_before(es: Seq<DirectoryEntry>, i: int) -> bool {
    exists|j: int|
        0 <= j < i && unicode_lowercase(#[trigger] es[j].relative@) == unicode_lowercase(
            es[i].relative@,
        )
}

/// Whether the entry `e` resolved to the same path as `c`.
pub open spec fn entry_is(e: DirectoryEntry, c: Seq<char>) -> bool {
    match e.canonical {
        Ok(d) => normal_components(d@) == normal_components(c),
        Err(_) => false,
    }
}

/// The documents for the entries from the `i`-th on, under `root`; the
/// first refusal as the entries are taken one after another.
pub open spec fn directory_documents(es: Seq<DirectoryEntry>, i: int, root: Seq<Seq<char>>) -> Result<
    Seq<DocumentEntry>,
    ServeFailure,
>
    decreases es.len() - i,
{
    if i < 0 || i >= es.len() {
        Ok(Seq::empty())
    } else if collides_before(es, i) {
        Err(ServeFailure::Colliding(es[i].relative@))
    } else {
        match es[i].canonical {
            Err(x) => Err(ServeFailure::Io(x@)),
            Ok(c) => {
                let cs = normal_components(c@);
                if !is_prefix(root, cs) {
                    Err(ServeFailure::DocumentOutsideRoot(es[i].relative@))
                } else if exists|j: int| 0 <= j < i && #[trigger] entry_is(es[j], c@) {
                    Err(ServeFailure::DuplicateDocument(es[i].relative@))
                } else {
                    match es[i].source {
                        Err(x) => Err(ServeFailure::Io(x@)),
                        Ok(src) => prefix_docs(
                            seq![
                                DocumentEntry {
                                    source_path: c@,
                                    route_path: route_parts(cs.skip(root.len() as int)),
                                    title: document_title(c@, src@),
                                },
                            ],
                            directory_documents(es, i + 1, root),
                        ),
                    }
                }
            },
        }
    }
}

/// The path of the first document, from the `i`-th on, that sits directly
/// in `root` under the file name `name`.
pub open spec fn named_document(docs: Seq<DocumentEntry>, i: int, root: Seq<Seq<char>>, name: Seq<char>) -> Option<Seq<char>>
    decreases docs.len() - i,
{
    if i < 0 || i >= docs.len() {
        None
    } else if parent_parts(docs[i].source_path) == Some(root) && file_name(docs[i].source_path)
        == Some(name) {
        Some(docs[i].source_path)
    } else {
        named_document(docs, i + 1, root, name)
    }
}

/// The document served for `/` of a directory: its `README.md`, else its
/// `index.md`, else the first document.
pub open spec fn directory_default(docs: Seq<DocumentEntry>, root: Seq<Seq<char>>) -> Seq<char> {
    match named_document(docs, 0, root, "README.md"@) {
        Some(p) => p,
        None => match named_document(docs, 0, root, "index.md"@) {
            Some(p) => p,
            None => docs[0].source_path,
        },
    }
}

/// What the server serves for a directory, given its canonical path and
/// the Markdown files found in it in order, or why it refuses.
pub open spec fn directory_plan(
    root: Result<String, String>,
    found: Result<Seq<DirectoryEntry>, Seq<char>>,
    recurse: bool,
) -> Result<PlanView, ServeFailure> {
    match root {
        Err(x) => Err(ServeFailure::Io(x@)),
        Ok(r) => {
            let rp = normal_components(r@);
            if rp.len() == 0 {
                Err(ServeFailure::RootDirectory)
            } else {
                match found {
                    Err(x) => Err(ServeFailure::Io(x)),
                    Ok(es) => match directory_documents(es, 0, rp) {
                        Err(f) => Err(f),
                        Ok(docs) => if docs.len() == 0 {
                            Err(ServeFailure::EmptyDirectory(recurse))
                        } else {
                            Ok(
                                PlanView {
                                    root: r@,
                                    documents: docs,
                                    default_document: directory_default(docs, rp),
                                    mode: ServeMode::Directory,
                                },
                            )
                        },
                    },
                }
            }
        },
    }
}

/// The found entries as a result of plain values.
pub open spec fn found_view(found: Result<Vec<DirectoryEntry>, String>) -> Result<
    Seq<DirectoryEntry>,
    Seq<char>,
> {
    match found {
        Ok(es) => Ok(es@),
        Err(x) => Err(x@),
    }
}

/// The documents for the Markdown files found in a directory.
#[verifier::rlimit(60)]
fn directory_documents_for(es: &[DirectoryEntry], root: &[Vec<char>]) -> (r: Result<
    Vec<ServedDocument>,
    ServeError,
>)
    ensures
        match r {
            Ok(d) => directory_documents(es@, 0, parts_view(root@)) == Ok::<
                Seq<DocumentEntry>,
                ServeFailure,
            >(d@.map_values(|x: ServedDocument| entry_view(x))),
            Err(e) => directory_documents(es@, 0, parts_view(root@)) == Err::<
                Seq<DocumentEntry>,
                ServeFailure,
            >(e@),
        },
{
    let ghost rv = parts_view(root@);
    let mut docs: Vec<ServedDocument> = Vec::new();
    let mut keys: Vec<String> = Vec::new();
    let mut seen: Vec<Vec<Vec<char>>> = Vec::new();
    let mut i: usize = 0;
    proof {
        let e = docs@.map_values(|x: ServedDocument| entry_view(x));
        assert(e =~= Seq::<DocumentEntry>::empty());
        if let Ok(t) = directory_documents(es@, 0, rv) {
            assert(e + t =~= t);
        }
    }
    while i < es.len()
        invariant
            i <= es@.len(),
            rv == parts_view(root@),
            keys@.len() == i,
            seen@.len() == i,
            forall|j: int|
                0 <= j < i ==> #[trigger] keys@[j]@ == unicode_lowercase(es@[j].relative@),
            forall|j: int|
                0 <= j < i ==> (#[trigger] es@[j]).canonical is Ok && parts_view(seen@[j]@)
                    == normal_components(es@[j].canonical->Ok_0@),
            directory_documents(es@, 0, rv) == prefix_docs(
                docs@.map_values(|x: ServedDocument| entry_view(x)),
                directory_documents(es@, i as int, rv),
            ),
        decreases es@.len() - i,
    {
        let e = &es[i];
        let key = to_lowercase(e.relative.as_str());
        let kc = chars_of(key.as_str());
        let mut j: usize = 0;
        while j < keys.len()
            invariant
                j <= keys@.len() == i,
                i < es@.len(),
                kc@ == unicode_lowercase(es@[i as int].relative@),
                *e == es@[i as int],
                rv == parts_view(root@),
                directory_documents(es@, 0, rv) == prefix_docs(
                    docs@.map_values(|x: ServedDocument| entry_view(x)),
                    directory_documents(es@, i as int, rv),
                ),
                forall|m: int|
                    0 <= m < i ==> #[trigger] keys@[m]@ == unicode_lowercase(es@[m].relative@),
                forall|m: int|
                    0 <= m < j ==> unicode_lowercase(#[trigger] es@[m].relative@)
                        != unicode_lowercase(es@[i as int].relative@),
            decreases keys@.len() - j,
        {
            if chars_equal(chars_of(keys[j].as_str()).as_slice(), kc.as_slice()) {
                assert(unicode_lowercase(es@[j as int].relative@) == unicode_lowercase(
                    es@[i as int].relative@,
                ));
                assert(collides_before(es@, i as int));
                return Err(ServeError::Colliding(e.relative.clone()));
            }
            j = j + 1;
        }
        assert(!collides_before(es@, i as int));
        let c = match &e.canonical {
            Err(x) => {
                return Err(ServeError::Io(x.clone()));
            },
            Ok(c) => c.clone(),
        };
        let cp = path_parts(c.as_str());
        assert(parts_view(cp@) =~= normal_components(c@));
        if !parts_prefix(root, cp.as_slice()) {
            return Err(ServeError::DocumentOutsideRoot(e.relative.clone()));
        }
        let mut m: usize = 0;
        while m < seen.len()
            invariant
                m <= seen@.len() == i,
                i < es@.len(),
                es@[i as int].canonical == Ok::<String, String>(c),
                *e == es@[i as int],
                parts_view(cp@) == normal_components(c@),
                !collides_before(es@, i as int),
                is_prefix(rv, normal_components(c@)),
                rv == parts_view(root@),
                directory_documents(es@, 0, rv) == prefix_docs(
                    docs@.map_values(|x: ServedDocument| entry_view(x)),
                    directory_documents(es@, i as int, rv),
                ),
                forall|x: int|
                    0 <= x < i ==> (#[trigger] es@[x]).canonical is Ok && parts_view(seen@[x]@)
                        == normal_components(es@[x].canonical->Ok_0@),
                forall|x: int| 0 <= x < m ==> !#[trigger] entry_is(es@[x], c@),
            decreases seen@.len() - m,
        {
            if parts_equal(seen[m].as_slice(), cp.as_slice()) {
                assert(entry_is(es@[m as int], c@));
                return Err(ServeError::DuplicateDocument(e.relative.clone()));
            }
            m = m + 1;
        }
        let src = match &e.source {
            Err(x) => {
                return Err(ServeError::Io(x.clone()));
            },
            Ok(src) => src,
        };
        let route = string_from_chars(route_after(cp.as_slice(), root.len()).as_slice());
        let title = title_of_document(c.as_str(), src.as_str());
        let d = ServedDocument { source_path: c, route_path: route, title };
        let ghost before = docs@.map_values(|x: ServedDocument| entry_view(x));
        proof {
            lemma_prefix_docs(
                before,
                seq![entry_view(d)],
                directory_documents(es@, i + 1, rv),
            );
        }
        docs.push(d);
        keys.push(key);
        seen.push(cp);
        proof {
            assert(docs@.map_values(|x: ServedDocument| entry_view(x)) =~= before + seq![
                entry_view(d),
            ]);
        }
        i = i + 1;
    }
    Ok(docs)
}

/// The first document that sits directly in `root` under the file name
/// `name`.
fn find_named(docs: &[ServedDocument], root: &[Vec<char>], name: &str) -> (p: Option<String>)
    ensures
        match p {
            Some(x) => named_document(
                docs@.map_values(|d: ServedDocument| entry_view(d)),
                0,
                parts_view(root@),
                name@,
            ) == Some(x@),
            None => named_document(
                docs@.map_values(|d: ServedDocument| entry_view(d)),
                0,
                parts_view(root@),
                name@,
            ) is None,
        },
{
    let ghost dv = docs@.map_values(|d: ServedDocument| entry_view(d));
    let wanted = chars_of(name);
    let mut i: usize = 0;
    while i < docs.len()
        invariant
            i <= docs@.len(),
            dv == docs@.map_values(|d: ServedDocument| entry_view(d)),
            wanted@ == name@,
            named_document(dv, 0, parts_view(root@), name@) == named_document(
                dv,
                i as int,
                parts_view(root@),
                name@,
            ),
        decreases docs@.len() - i,
    {
        let path = &docs[i].source_path;
        let sits_in_root = match parent_of(path.as_str()) {
            Some(d) => parts_equal(d.as_slice(), root),
            None => false,
        };
        let pc = chars_of(path.as_str());
        let named = match crate::paths::path_file_name(pc.as_slice()) {
            Some(n) => chars_equal(n.as_slice(), wanted.as_slice()),
            None => false,
        };
        assert(dv[i as int].source_path == path@);
        if sits_in_root && named {
            return Some(path.clone());
        }
        i = i + 1;
    }
    None
}

/// Decides what the server serves for a directory, given its canonical
/// path (or the error that `canonicalize` gave) and the Markdown files found
/// in it in sorted order (or the error that listing it gave): every file
/// must lie under the directory, once, and no two may differ only in case.
/// `README.md`, else `index.md`, else the first file, is served for `/`.
pub fn plan_directory(
    root: &Result<String, String>,
    found: &Result<Vec<DirectoryEntry>, String>,
    recurse: bool,
) -> (r: Result<ServePlan, ServeError>)
    ensures
        match r {
            Ok(p) => directory_plan(*root, found_view(*found), recurse) == Ok::<
                PlanView,
                ServeFailure,
            >(plan_view(p)),
            Err(e) => directory_plan(*root, found_view(*found), recurse) == Err::<
                PlanView,
                ServeFailure,
            >(e@),
        },
{
    let r = match root {
        Err(x) => {
            return Err(ServeError::Io(x.clone()));
        },
        Ok(r) => r,
    };
    let rp = path_parts(r.as_str());
    let ghost rv = parts_view(rp@);
    assert(rv =~= normal_components(r@));
    if rp.len() == 0 {
        return Err(ServeError::RootDirectory);
    }
    let es = match found {
        Err(x) => {
            return Err(ServeError::Io(x.clone()));
        },
        Ok(es) => es,
    };
    let docs = match directory_documents_for(es.as_slice(), rp.as_slice()) {
        Ok(d) => d,
        Err(e) => {
            return Err(e);
        },
    };
    if docs.len() == 0 {
        return Err(ServeError::EmptyDirectory(recurse));
    }
    let default_document = match find_named(docs.as_slice(), rp.as_slice(), "README.md") {
        Some(p) => p,
        None => match find_named(docs.as_slice(), rp.as_slice(), "index.md") {
            Some(p) => p,
            None => docs[0].source_path.clone(),
        },
    };
    let plan = ServePlan {
        root: r.clone(),
        documents: docs,
        default_document,
        mode: ServeMode::Directory,
    };
    Ok(plan)
}

/// What the directory walk does with one entry.
#[derive(Debug, Clone, Copy, PartialEq, Eq)]
pub enum EntryAction {
    /// Leave it out.
    Skip,
    /// Walk into it.
    Descend,
    /// Serve it.
    Collect,
}

/// What the walk does with an entry: hidden entries (a UTF-8 name that
/// starts with `.`) are left out, directories are walked into when
/// `recurse` is set, and Markdown files are served. `name` is the entry's
/// file name when it is UTF-8; `lossy` is its file name with other bytes
/// replaced, which keeps its extension when that is UTF-8.
pub open spec fn entry_action_of(
    name: Option<Seq<char>>,
    lossy: Seq<char>,
    is_dir: bool,
    recurse: bool,
) -> EntryAction {
    if name matches Some(n) && n.len() > 0 && n[0] == '.' {
        EntryAction::Skip
    } else if recurse && is_dir {
        EntryAction::Descend
    } else if markdown_path(lossy) {
        EntryAction::Collect
    } else {
        EntryAction::Skip
    }
}

/// What the directory walk does with one entry; see `entry_action_of`.
pub fn entry_action(name: Option<&str>, lossy: &str, is_dir: bool, recurse: bool) -> (a: EntryAction)
    ensures
        a == entry_action_of(
            match name {
                Some(n) => Some(n@),
                None => None,
            },
            lossy@,
            is_dir,
            recurse,
        ),
{
    let hidden = match name {
        Some(n) => {
            let c = chars_of(n);
            c.len() > 0 && c[0] == '.'
        },
        None => false,
    };
    if hidden {
        EntryAction::Skip
    } else if recurse && is_dir {
        EntryAction::Descend
    } else if crate::paths::is_markdown_path(lossy) {
        EntryAction::Collect
    } else {
        EntryAction::Skip
    }
}

/// Whether `a` comes no later than `b` in the order of `str`: character by
/// character, by code point, a prefix first.
pub open spec fn text_le(a: Seq<char>, b: Seq<char>) -> bool
    decreases a.len(),
{
    if a.len() == 0 {
        true
    } else if b.len() == 0 {
        false
    } else if a[0] != b[0] {
        a[0] < b[0]
    } else {
        text_le(a.drop_first(), b.drop_first())
    }
}

proof fn lemma_text_le_total(a: Seq<char>, b: Seq<char>)
    ensures
        text_le(a, b) || text_le(b, a),
    decreases a.len(),
{
    if a.len() > 0 && b.len() > 0 && a[0] == b[0] {
        lemma_text_le_total(a.drop_first(), b.drop_first());
    }
}

proof fn lemma_text_le_antisymmetric(a: Seq<char>, b: Seq<char>)
    requires
        text_le(a, b),
        text_le(b, a),
    ensures
        a == b,
    decreases a.len(),
{
    if a.len() == 0 {
        assert(b.len() == 0);
        assert(a =~= b);
    } else {
        assert(b.len() > 0);
        assert(a[0] == b[0]);
        lemma_text_le_antisymmetric(a.drop_first(), b.drop_first());
        assert(a =~= seq![a[0]] + a.drop_first());
        assert(b =~= seq![b[0]] + b.drop_first());
    }
}

proof fn lemma_text_le_transitive(a: Seq<char>, b: Seq<char>, c: Seq<char>)
    requires
        text_le(a, b),
        text_le(b, c),
    ensures
        text_le(a, c),
    decreases a.len(),
{
    if a.len() > 0 && b.len() > 0 && c.len() > 0 && a[0] == b[0] && b[0] == c[0] {
        lemma_text_le_transitive(a.drop_first(), b.drop_first(), c.drop_first());
    }
}

proof fn lemma_text_le_reflexive(a: Seq<char>)
    ensures
        text_le(a, a),
    decreases a.len(),
{
    if a.len() > 0 {
        lemma_text_le_reflexive(a.drop_first());
    }
}

fn text_le_exec(a: &[char], b: &[char]) -> (r: bool)
    ensures
        r == text_le(a@, b@),
{
    let mut i: usize = 0;
    assert(a@.skip(0) =~= a@);
    assert(b@.skip(0) =~= b@);
    while i < a.len() && i < b.len() && a[i] == b[i]
        invariant
            i <= a@.len(),
            i <= b@.len(),
            text_le(a@, b@) == text_le(a@.skip(i as int), b@.skip(i as int)),
        decreases a@.len() - i,
    {
        assert(a@.skip(i as int).drop_first() =~= a@.skip(i + 1));
        assert(b@.skip(i as int).drop_first() =~= b@.skip(i + 1));
        i = i + 1;
    }
    if i == a.len() {
        true
    } else if i == b.len() {
        false
    } else {
        a[i] < b[i]
    }
}

/// `order` lists the indices of `keys` so that the keys come in the order
/// of `str`, equal keys in the order they were given: a stable sort.
pub open spec fn stably_sorted(order: Seq<usize>, keys: Seq<Seq<char>>) -> bool {
    sorted_upto(order, keys, keys.len() as int)
}

/// `order` holds each of the indices below `n` once, sorted stably by
/// `keys`.
pub open spec fn sorted_upto(order: Seq<usize>, keys: Seq<Seq<char>>, n: int) -> bool {
    &&& order.len() == n
    &&& forall|i: int| 0 <= i < order.len() ==> #[trigger] order[i] < n
    &&& forall|i: int, j: int| 0 <= i < j < order.len() ==> order[i] != order[j]
    &&& forall|i: int, j: int|
        0 <= i < j < order.len() ==> text_le(
            #[trigger] keys[order[i] as int],
            #[trigger] keys[order[j] as int],
        )
    &&& forall|i: int, j: int|
        0 <= i < j < order.len() && #[trigger] keys[order[i] as int] == #[trigger] keys[order[j] as int]
            ==> order[i] < order[j]
}

proof fn lemma_insert_sorted(old: Seq<usize>, kv: Seq<Seq<char>>, n: int, p: int)
    requires
        0 <= n < kv.len(),
        n < usize::MAX,
        sorted_upto(old, kv, n),
        0 <= p <= n,
        forall|a: int| 0 <= a < p ==> text_le(kv[#[trigger] old[a] as int], kv[n]),
        p < n ==> !text_le(kv[old[p] as int], kv[n]),
    ensures
        sorted_upto(old.insert(p, n as usize), kv, n + 1),
{
    let o = old.insert(p, n as usize);
    assert forall|a: int| 0 <= a < o.len() implies #[trigger] o[a] < n + 1 by {
        if a < p {
            assert(o[a] == old[a]);
        } else if a > p {
            assert(o[a] == old[a - 1]);
        }
    }
    if p < n {
        lemma_text_le_total(kv[old[p] as int], kv[n]);
    }
    assert forall|a: int, b: int| 0 <= a < b < o.len() implies o[a] != o[b] && text_le(
        kv[o[a] as int],
        kv[o[b] as int],
    ) && (kv[o[a] as int] == kv[o[b] as int] ==> o[a] < o[b]) by {
        if b < p {
            assert(o[a] == old[a] && o[b] == old[b]);
        } else if b == p {
            assert(o[a] == old[a]);
            assert(o[b] == n);
        } else if a < p {
            assert(o[a] == old[a] && o[b] == old[b - 1]);
        } else if a == p {
            assert(o[a] == n);
            assert(o[b] == old[b - 1]);
            if b - 1 > p {
                lemma_text_le_transitive(kv[n], kv[old[p] as int], kv[old[b - 1] as int]);
            }
            if kv[o[a] as int] == kv[o[b] as int] {
                if b - 1 > p {
                    assert(text_le(kv[old[p] as int], kv[old[b - 1] as int]));
                } else {
                    lemma_text_le_reflexive(kv[n]);
                }
                assert(false);
            }
        } else {
            assert(o[a] == old[a - 1] && o[b] == old[b - 1]);
        }
    }
}

/// The order in which the found Markdown files are served: sorted by their
/// relative path, as `str` compares them; ties keep the order found.
pub fn sorted_order(keys: &[String]) -> (order: Vec<usize>)
    ensures
        stably_sorted(order@, keys@.map_values(|k: String| k@)),
{
    let ghost kv = keys@.map_values(|k: String| k@);
    let mut order: Vec<usize> = Vec::new();
    let mut n: usize = 0;
    while n < keys.len()
        invariant
            n <= keys@.len(),
            kv == keys@.map_values(|k: String| k@),
            sorted_upto(order@, kv, n as int),
        decreases keys@.len() - n,
    {
        let kn = chars_of(keys[n].as_str());
        let mut p: usize = 0;
        while p < order.len() && text_le_exec(
            chars_of(keys[order[p]].as_str()).as_slice(),
            kn.as_slice(),
        )
            invariant
                p <= order@.len() == n,
                n < keys@.len(),
                kv == keys@.map_values(|k: String| k@),
                kn@ == kv[n as int],
                sorted_upto(order@, kv, n as int),
                forall|a: int|
                    0 <= a < p ==> text_le(kv[#[trigger] order@[a] as int], kv[n as int]),
            decreases n - p,
        {
            p = p + 1;
        }
        proof {
            lemma_insert_sorted(order@, kv, n as int, p as int);
        }
        order.insert(p, n);
        n = n + 1;
    }
    order
}

/// A control character (`char::is_control`: Unicode's `Cc`).
pub open spec fn is_cc(c: char) -> bool {
    (c as u32) < 0x20 || (0x7f <= (c as u32) && (c as u32) < 0xa0)
}

/// Whether `s` holds a control character.
pub open spec fn has_cc(s: Seq<char>) -> bool {
    exists|i: int| 0 <= i < s.len() && is_cc(#[trigger] s[i])
}

/// The number of `/` at the start of `s`.
pub open spec fn slash_prefix(s: Seq<char>) -> nat
    decreases s.len(),
{
    if s.len() > 0 && s[0] == '/' {
        1 + slash_prefix(s.drop_first())
    } else {
        0
    }
}

/// `s` without the `/` at its start (`str::trim_start_matches('/')`).
pub open spec fn without_leading_slashes(s: Seq<char>) -> Seq<char> {
    s.skip(slash_prefix(s) as int)
}

/// What a request path asks for.
#[derive(Debug, Clone, PartialEq, Eq)]
pub enum RequestRoute {
    /// The stream of reload events.
    Events,
    /// Nothing the server has: answered with 404.
    Refused,
    /// A path to find under the served root. It is refused when `guard`
    /// (the path decoded until it no longer changes, without its leading
    /// `/`) is not empty and resolves outside the root. Otherwise `target`
    /// (the path decoded once, without its leading `/`) is looked up: `None`
    /// is the root itself, `/`.
    Resolve { guard: String, target: Option<String> },
}

/// A request route as plain text.
pub enum RouteView {
    Events,
    Refused,
    Resolve { guard: Seq<char>, target: Option<Seq<char>> },
}

impl View for RequestRoute {
    type V = RouteView;

    open spec fn view(&self) -> RouteView {
        match self {
            RequestRoute::Events => RouteView::Events,
            RequestRoute::Refused => RouteView::Refused,
            RequestRoute::Resolve { guard, target } => RouteView::Resolve {
                guard: guard@,
                target: match target {
                    Some(t) => Some(t@),
                    None => None,
                },
            },
        }
    }
}

/// What the request path `request` asks for: its query and fragment are
/// dropped; `/events` is the event stream; a path that does not decode, or
/// that holds a control character once decoded, is refused.
pub open spec fn request_route(request: Seq<char>) -> RouteView {
    let p = request.take(suffix_start(request));
    if p == "/events"@ {
        RouteView::Events
    } else {
        match percent_decoded(p) {
            None => RouteView::Refused,
            Some(d) => if has_cc(d) {
                RouteView::Refused
            } else {
                match decode_rounds(p, 4) {
                    None => RouteView::Refused,
                    Some(r) => if has_cc(r) {
                        RouteView::Refused
                    } else {
                        let t = without_leading_slashes(d);
                        RouteView::Resolve {
                            guard: without_leading_slashes(r),
                            target: if t.len() == 0 {
                                None
                            } else {
                                Some(t)
                            },
                        }
                    },
                }
            },
        }
    }
}

fn holds_control(s: &[char]) -> (b: bool)
    ensures
        b == has_cc(s@),
{
    let mut i: usize = 0;
    while i < s.len()
        invariant
            i <= s@.len(),
            forall|j: int| 0 <= j < i ==> !is_cc(#[trigger] s@[j]),
        decreases s@.len() - i,
    {
        let c = s[i] as u32;
        if c < 0x20 || (0x7f <= c && c < 0xa0) {
            assert(is_cc(s@[i as int]));
            return true;
        }
        i = i + 1;
    }
    false
}

fn strip_leading_slashes(s: &[char]) -> (t: Vec<char>)
    ensures
        t@ == without_leading_slashes(s@),
{
    let mut k: usize = 0;
    while k < s.len() && s[k] == '/'
        invariant
            k <= s@.len(),
            forall|j: int| 0 <= j < k ==> s@[j] == '/',
        decreases s@.len() - k,
    {
        k = k + 1;
    }
    proof {
        lemma_slash_prefix(s@, k as int);
    }
    let mut t: Vec<char> = Vec::new();
    let mut i = k;
    while i < s.len()
        invariant
            k <= i <= s@.len(),
            t@ == s@.subrange(k as int, i as int),
        decreases s@.len() - i,
    {
        t.push(s[i]);
        i = i + 1;
        assert(t@ =~= s@.subrange(k as int, i as int));
    }
    assert(t@ =~= s@.skip(k as int));
    t
}

proof fn lemma_slash_prefix(s: Seq<char>, k: int)
    requires
        0 <= k <= s.len(),
        forall|j: int| 0 <= j < k ==> s[j] == '/',
        k == s.len() || s[k] != '/',
    ensures
        slash_prefix(s) == k,
    decreases k,
{
    if k > 0 {
        lemma_slash_prefix(s.drop_first(), k - 1);
    }
}

/// What the request path `request_path` asks for; see `request_route`.
pub fn route_for_request(request_path: &str) -> (r: RequestRoute)
    ensures
        r@ == request_route(request_path@),
{
    let p = path_before_suffix(request_path);
    let ptext = string_from_chars(p.as_slice());
    let events = chars_of("/events");
    if chars_equal(p.as_slice(), events.as_slice()) {
        return RequestRoute::Events;
    }
    let decoded = match percent_decode(ptext.as_str()) {
        Some(d) => chars_of(d.as_str()),
        None => {
            return RequestRoute::Refused;
        },
    };
    if holds_control(decoded.as_slice()) {
        return RequestRoute::Refused;
    }
    let repeated = match decode_repeated(ptext.as_str()) {
        Some(d) => chars_of(d.as_str()),
        None => {
            return RequestRoute::Refused;
        },
    };
    if holds_control(repeated.as_slice()) {
        return RequestRoute::Refused;
    }
    let guard = strip_leading_slashes(repeated.as_slice());
    let t = strip_leading_slashes(decoded.as_slice());
    let target = if t.len() == 0 {
        None
    } else {
        Some(string_from_chars(t.as_slice()))
    };
    RequestRoute::Resolve { guard: string_from_chars(guard.as_slice()), target }
}

/// The characters of `s` before its first `?` or `#`.
fn path_before_suffix(s: &str) -> (p: Vec<char>)
    ensures
        p@ == s@.take(suffix_start(s@)),
{
    let c = chars_of(s);
    let mut k: usize = 0;
    while k < c.len() && c[k] != '?' && c[k] != '#'
        invariant
            k <= c@.len(),
            forall|j: int| 0 <= j < k ==> c@[j] != '?' && c@[j] != '#',
        decreases c@.len() - k,
    {
        k = k + 1;
    }
    proof {
        crate::serve::lemma_suffix_start(c@, k as int);
    }
    let mut p: Vec<char> = Vec::new();
    let mut i: usize = 0;
    while i < k
        invariant
            i <= k <= c@.len(),
            p@ == c@.take(i as int),
        decreases k - i,
    {
        p.push(c[i]);
        i = i + 1;
        assert(p@ =~= c@.take(i as int));
    }
    p
}

/// How the server treats a request line.
#[derive(Debug, Clone, PartialEq, Eq)]
pub enum Request {
    /// A method other than `GET` and `HEAD`: answered with 405.
    NotAllowed,
    /// A `GET`, or a `HEAD` when `head_only`, for `path`.
    Get { head_only: bool, path: String },
}

/// A request as plain text.
pub enum RequestView {
    NotAllowed,
    Get { head_only: bool, path: Seq<char> },
}

impl View for Request {
    type V = RequestView;

    open spec fn view(&self) -> RequestView {
        match self {
            Request::NotAllowed => RequestView::NotAllowed,
            Request::Get { head_only, path } => RequestView::Get { head_only: *head_only, path: path@ },
        }
    }
}

/// How the server reads the first line of a request: its first word is
/// the method (empty when there is none), its second the path (`/` when
/// there is none).
pub open spec fn request_of(line: Seq<char>) -> RequestView {
    let ws = words(line);
    let method = if ws.len() > 0 {
        ws[0]
    } else {
        Seq::empty()
    };
    let path = if ws.len() > 1 {
        ws[1]
    } else {
        seq!['/']
    };
    if method == "GET"@ || method == "HEAD"@ {
        RequestView::Get { head_only: method == "HEAD"@, path }
    } else {
        RequestView::NotAllowed
    }
}

/// Reads the first line of a request; see `request_of`.
pub fn classify_request(line: &str) -> (r: Request)
    ensures
        r@ == request_of(line@),
{
    let c = chars_of(line);
    let ws = split_words(c.as_slice());
    let method: Vec<char> = if ws.len() > 0 {
        ws[0].clone()
    } else {
        Vec::new()
    };
    let path: Vec<char> = if ws.len() > 1 {
        ws[1].clone()
    } else {
        vec!['/']
    };
    assert(path@ =~= (if words(line@).len() > 1 {
        words(line@)[1]
    } else {
        seq!['/']
    }));
    assert(method@ =~= (if words(line@).len() > 0 {
        words(line@)[0]
    } else {
        Seq::<char>::empty()
    }));
    let get = chars_of("GET");
    let head = chars_of("HEAD");
    let is_head = chars_equal(method.as_slice(), head.as_slice());
    if chars_equal(method.as_slice(), get.as_slice()) || is_head {
        Request::Get { head_only: is_head, path: string_from_chars(path.as_slice()) }
    } else {
        Request::NotAllowed
    }
}

/// What the server sends back for a request, once its route is known.
#[derive(Debug, Clone, Copy, PartialEq, Eq)]
pub enum Reply {
    /// The served document at this index.
    Document(usize),
    /// The headers of the event stream, for a `HEAD` request.
    EventsHead,
    /// The event stream.
    Events,
    /// No document has the route: look among the referenced assets.
    Asset,
    /// 404.
    NotFound,
}

/// The index of the first document, from the `i`-th on, whose path is
/// `path`, component by component.
pub open spec fn document_at(docs: Seq<DocumentEntry>, i: int, path: Seq<char>) -> Option<int>
    decreases docs.len() - i,
{
    if i < 0 || i >= docs.len() {
        None
    } else if normal_components(docs[i].source_path) == normal_components(path) {
        Some(i)
    } else {
        document_at(docs, i + 1, path)
    }
}

/// The index of the first document, from the `i`-th on, whose route is
/// `route`.
pub open spec fn document_routed(docs: Seq<DocumentEntry>, i: int, route: Seq<char>) -> Option<int>
    decreases docs.len() - i,
{
    if i < 0 || i >= docs.len() {
        None
    } else if docs[i].route_path == route {
        Some(i)
    } else {
        document_routed(docs, i + 1, route)
    }
}

/// The reply for a request that resolved to `route` (`None` when it did
/// not resolve): `/` serves the default document, `/events` the event
/// stream, a document's route that document, anything else an asset if
/// one has that route.
pub open spec fn reply_for(
    route: Option<Seq<char>>,
    head_only: bool,
    docs: Seq<DocumentEntry>,
    default_document: Seq<char>,
) -> Reply {
    let r = match route {
        Some(r) => r,
        None => Seq::empty(),
    };
    if r == "/"@ {
        match document_at(docs, 0, default_document) {
            Some(i) => Reply::Document(i as usize),
            None => Reply::NotFound,
        }
    } else if r == "/events"@ {
        if head_only {
            Reply::EventsHead
        } else {
            Reply::Events
        }
    } else {
        match document_routed(docs, 0, r) {
            Some(i) => Reply::Document(i as usize),
            None => Reply::Asset,
        }
    }
}

/// The documents as plain text.
pub open spec fn docs_view(docs: Seq<ServedDocument>) -> Seq<DocumentEntry> {
    docs.map_values(|d: ServedDocument| entry_view(d))
}

/// The reply for a request that resolved to `route`; see `reply_for`.
pub fn dispatch(
    route: Option<&str>,
    head_only: bool,
    documents: &[ServedDocument],
    default_document: &str,
) -> (r: Reply)
    ensures
        r == reply_for(
            match route {
                Some(x) => Some(x@),
                None => None,
            },
            head_only,
            docs_view(documents@),
            default_document@,
        ),
{
    let ghost dv = docs_view(documents@);
    let r = match route {
        Some(x) => chars_of(x),
        None => Vec::new(),
    };
    if chars_equal(r.as_slice(), chars_of("/").as_slice()) {
        let want = path_parts(default_document);
        assert(parts_view(want@) =~= normal_components(default_document@));
        let mut i: usize = 0;
        while i < documents.len()
            invariant
                i <= documents@.len(),
                dv == docs_view(documents@),
                parts_view(want@) == normal_components(default_document@),
                r@ == "/"@,
                r@ == (match route {
                    Some(x) => x@,
                    None => Seq::<char>::empty(),
                }),
                document_at(dv, 0, default_document@) == document_at(dv, i as int, default_document@),
            decreases documents@.len() - i,
        {
            let have = path_parts(documents[i].source_path.as_str());
            assert(parts_view(have@) =~= normal_components(dv[i as int].source_path));
            if parts_equal(have.as_slice(), want.as_slice()) {
                return Reply::Document(i);
            }
            i = i + 1;
        }
        Reply::NotFound
    } else if chars_equal(r.as_slice(), chars_of("/events").as_slice()) {
        if head_only {
            Reply::EventsHead
        } else {
            Reply::Events
        }
    } else {
        let mut i: usize = 0;
        while i < documents.len()
            invariant
                i <= documents@.len(),
                dv == docs_view(documents@),
                r@ != "/"@,
                r@ != "/events"@,
                r@ == (match route {
                    Some(x) => x@,
                    None => Seq::<char>::empty(),
                }),
                document_routed(dv, 0, r@) == document_routed(dv, i as int, r@),
            decreases documents@.len() - i,
        {
            if chars_equal(chars_of(documents[i].route_path.as_str()).as_slice(), r.as_slice()) {
                return Reply::Document(i);
            }
            i = i + 1;
        }
        Reply::Asset
    }
}

/// The headers of a response whose body has `length` bytes.
pub open spec fn response_head(status: Seq<char>, content_type: Seq<char>, length: nat) -> Seq<char> {
    "HTTP/1.1 "@ + status + "\r\nContent-Type: "@ + content_type
        + "\r\nX-Content-Type-Options: nosniff\r\nContent-Length: "@ + decimal(length)
        + "\r\nConnection: close\r\n\r\n"@
}

/// The bytes of a response: its headers, then its body unless the request
/// was a `HEAD`.
pub fn response_bytes(status: &str, content_type: &str, body: &[u8], head_only: bool) -> (r: Vec<
    u8,
>)
    ensures
        r@ == encode_utf8(response_head(status@, content_type@, body@.len())) + if head_only {
            Seq::<u8>::empty()
        } else {
            body@
        },
{
    let mut head: Vec<char> = Vec::new();
    push_str(&mut head, "HTTP/1.1 ");
    push_str(&mut head, status);
    push_str(&mut head, "\r\nContent-Type: ");
    push_str(&mut head, content_type);
    push_str(&mut head, "\r\nX-Content-Type-Options: nosniff\r\nContent-Length: ");
    push_all(&mut head, decimal_chars(body.len() as u128).as_slice());
    push_str(&mut head, "\r\nConnection: close\r\n\r\n");
    assert(head@ =~= response_head(status@, content_type@, body@.len()));
    let text = string_from_chars(head.as_slice());
    let bytes = text.as_str().as_bytes();
    let mut out: Vec<u8> = Vec::new();
    let mut i: usize = 0;
    while i < bytes.len()
        invariant
            i <= bytes@.len(),
            out@ == bytes@.take(i as int),
        decreases bytes@.len() - i,
    {
        out.push(bytes[i]);
        i = i + 1;
        assert(out@ =~= bytes@.take(i as int));
    }
    assert(bytes@.take(bytes@.len() as int) =~= bytes@);
    if !head_only {
        let mut j: usize = 0;
        let ghost h = out@;
        while j < body.len()
            invariant
                j <= body@.len(),
                out@ == h + body@.take(j as int),
            decreases body@.len() - j,
        {
            out.push(body[j]);
            j = j + 1;
            assert(out@ =~= h + body@.take(j as int));
        }
        assert(body@.take(body@.len() as int) =~= body@);
    } else {
        assert(out@ =~= out@ + Seq::<u8>::empty());
    }
    out
}

/// What the server answers a request with, once it knows.
#[derive(Debug)]
pub enum Answer {
    /// A method other than `GET` or `HEAD`.
    MethodNotAllowed,
    /// No document or asset has the route, or it no longer resolves.
    NotFound,
    /// The headers of the event stream, for `HEAD /events`.
    EventsHead,
    /// A rendered document page.
    Page(String),
    /// An asset: its content type and its bytes.
    File(&'static str, Vec<u8>),
    /// A document that could not be rendered, with the reason.
    RenderFailed(String),
}

/// The status line of an answer, after `HTTP/1.1 `.
pub open spec fn answer_status(a: Answer) -> Seq<char> {
    match a {
        Answer::MethodNotAllowed => "405 Method Not Allowed"@,
        Answer::NotFound => "404 Not Found"@,
        Answer::RenderFailed(_) => "500 Internal Server Error"@,
        _ => "200 OK"@,
    }
}

/// The content type of an answer.
pub open spec fn answer_type(a: Answer) -> Seq<char> {
    match a {
        Answer::EventsHead => "text/event-stream"@,
        Answer::Page(_) => "text/html; charset=utf-8"@,
        Answer::File(t, _) => t@,
        _ => "text/plain; charset=utf-8"@,
    }
}

/// The body of an answer, as bytes.
pub open spec fn answer_body(a: Answer) -> Seq<u8> {
    match a {
        Answer::MethodNotAllowed => encode_utf8("Method not allowed"@),
        Answer::NotFound => encode_utf8("Not found"@),
        Answer::EventsHead => Seq::empty(),
        Answer::Page(html) => encode_utf8(html@),
        Answer::File(_, bytes) => bytes@,
        Answer::RenderFailed(reason) => encode_utf8("Failed to render document: "@ + reason@),
    }
}

/// The bytes sent for an answer: its headers, then its body unless the
/// request was a `HEAD`.
pub open spec fn answer_response(a: Answer, head_only: bool) -> Seq<u8> {
    encode_utf8(response_head(answer_status(a), answer_type(a), answer_body(a).len()))
        + if head_only {
        Seq::<u8>::empty()
    } else {
        answer_body(a)
    }
}

/// The answer for a reply that needs nothing more from the server: `None`
/// for a document, an asset or the event stream, which need a file read
/// or a stream.
pub open spec fn fixed_answer(reply: Reply) -> Option<Answer> {
    match reply {
        Reply::NotFound => Some(Answer::NotFound),
        Reply::EventsHead => Some(Answer::EventsHead),
        _ => None,
    }
}

/// The answer for a reply that needs nothing more; see `fixed_answer`.
pub fn answer_for(reply: &Reply) -> (a: Option<Answer>)
    ensures
        a == fixed_answer(*reply),
{
    match reply {
        Reply::NotFound => Some(Answer::NotFound),
        Reply::EventsHead => Some(Answer::EventsHead),
        _ => None,
    }
}

/// The bytes of an answer; see `answer_response`.
pub fn answer_bytes(a: &Answer, head_only: bool) -> (r: Vec<u8>)
    ensures
        r@ == answer_response(*a, head_only),
{
    match a {
        Answer::MethodNotAllowed => response_bytes(
            "405 Method Not Allowed",
            "text/plain; charset=utf-8",
            "Method not allowed".as_bytes(),
            head_only,
        ),
        Answer::NotFound => response_bytes(
            "404 Not Found",
            "text/plain; charset=utf-8",
            "Not found".as_bytes(),
            head_only,
        ),
        Answer::EventsHead => {
            let empty: Vec<u8> = Vec::new();
            response_bytes("200 OK", "text/event-stream", empty.as_slice(), head_only)
        },
        Answer::Page(html) => response_bytes(
            "200 OK",
            "text/html; charset=utf-8",
            html.as_str().as_bytes(),
            head_only,
        ),
        Answer::File(t, bytes) => response_bytes("200 OK", t, bytes.as_slice(), head_only),
        Answer::RenderFailed(reason) => {
            let mut text: Vec<char> = Vec::new();
            push_str(&mut text, "Failed to render document: ");
            push_str(&mut text, reason.as_str());
            let message = string_from_chars(text.as_slice());
            response_bytes(
                "500 Internal Server Error",
                "text/plain; charset=utf-8",
                message.as_str().as_bytes(),
                head_only,
            )
        },
    }
}

/// The headers that open the event stream.
pub const EVENTS_HEAD: &'static str = "HTTP/1.1 200 OK\r\nContent-Type: text/event-stream\r\nX-Content-Type-Options: nosniff\r\nCache-Control: no-cache\r\nConnection: keep-alive\r\n\r\n";

/// The event that tells a page to reload.
pub const RELOAD_EVENT: &'static str = "data: reload\n\n";

/// The comment that keeps an idle event stream open.
pub const KEEPALIVE_EVENT: &'static str = ": keepalive\n\n";

/// The destinations of the links and images among `events`, in order.
pub open spec fn references_in(events: Seq<MdEvent>) -> Seq<Seq<char>>
    decreases events.len(),
{
    if events.len() == 0 {
        Seq::empty()
    } else {
        let rest = references_in(events.drop_last());
        match events.last() {
            MdEvent::Start(TagKind::Link, TagData::Text(d)) => rest.push(d@),
            MdEvent::Start(TagKind::Image, TagData::TextPair(d, _)) => rest.push(d@),
            _ => rest,
        }
    }
}

/// The destinations of the links and images of a Markdown source, parsed
/// with every extension enabled.
pub fn markdown_references(source: &str) -> (refs: Vec<String>)
    ensures
        refs@.map_values(|r: String| r@) == references_in(markdown_events(source@, true)),
{
    let events = parse_events(source, true);
    let mut refs: Vec<String> = Vec::new();
    let mut i: usize = 0;
    while i < events.len()
        invariant
            i <= events@.len(),
            refs@.map_values(|r: String| r@) == references_in(events@.take(i as int)),
        decreases events@.len() - i,
    {
        assert(events@.take(i + 1).drop_last() =~= events@.take(i as int));
        let ghost before = refs@.map_values(|r: String| r@);
        match &events[i] {
            MdEvent::Start(TagKind::Link, TagData::Text(d)) => {
                refs.push(d.clone());
                assert(refs@.map_values(|r: String| r@) =~= before.push(d@));
            },
            MdEvent::Start(TagKind::Image, TagData::TextPair(d, _)) => {
                refs.push(d.clone());
                assert(refs@.map_values(|r: String| r@) =~= before.push(d@));
            },
            _ => {},
        }
        i = i + 1;
    }
    assert(events@.take(events@.len() as int) =~= events@);
    refs
}

/// A file that a document references and the server may hand out: the
/// reference's path decoded, and the content type its extension calls for.
#[derive(Debug, Clone, PartialEq, Eq)]
pub struct AssetRequest {
    pub decoded: String,
    pub content_type: &'static str,
}

/// How the server reads a reference when it looks for assets: `None` for
/// one it leaves alone (external or absolute, a bare fragment, a control
/// character before its query, no path, a Markdown file, or escapes that do
/// not decode); otherwise the decoded path and its content type.
pub open spec fn asset_request_of(reference: Seq<char>) -> Option<(Seq<char>, Seq<char>)> {
    if external_or_absolute(reference) || (reference.len() > 0 && reference[0] == '#') {
        None
    } else {
        match reference_path(reference) {
            None => None,
            Some(clean) => if clean.len() == 0 || markdown_path(clean) {
                None
            } else {
                match percent_decoded(clean) {
                    None => None,
                    Some(d) => Some((d, content_type_for(extension(clean)))),
                }
            },
        }
    }
}

/// The asset requests among `refs`, in order.
pub open spec fn asset_requests_in(refs: Seq<Seq<char>>) -> Seq<(Seq<char>, Seq<char>)>
    decreases refs.len(),
{
    if refs.len() == 0 {
        Seq::empty()
    } else {
        let rest = asset_requests_in(refs.drop_last());
        match asset_request_of(refs.last()) {
            Some(a) => rest.push(a),
            None => rest,
        }
    }
}

/// The files that a Markdown source references and that the server may
/// hand out, in the order they are referenced.
pub fn asset_requests(source: &str) -> (reqs: Vec<AssetRequest>)
    ensures
        reqs@.map_values(|a: AssetRequest| (a.decoded@, a.content_type@)) == asset_requests_in(
            references_in(markdown_events(source@, true)),
        ),
{
    let refs = markdown_references(source);
    let ghost rv = refs@.map_values(|r: String| r@);
    let mut reqs: Vec<AssetRequest> = Vec::new();
    let mut i: usize = 0;
    while i < refs.len()
        invariant
            i <= refs@.len(),
            rv == refs@.map_values(|r: String| r@),
            reqs@.map_values(|a: AssetRequest| (a.decoded@, a.content_type@)) == asset_requests_in(
                rv.take(i as int),
            ),
        decreases refs@.len() - i,
    {
        assert(rv.take(i + 1).drop_last() =~= rv.take(i as int));
        assert(rv.take(i + 1).last() == refs@[i as int]@);
        let ghost before = reqs@.map_values(|a: AssetRequest| (a.decoded@, a.content_type@));
        let r = refs[i].as_str();
        let rc = chars_of(r);
        if !(is_external_or_absolute(r) || (rc.len() > 0 && rc[0] == '#')) {
            if let Some(clean) = reference_without_suffix(r) {
                let cc = chars_of(clean.as_str());
                if !(cc.len() == 0 || crate::paths::is_markdown_path(clean.as_str())) {
                    if let Some(d) = percent_decode(clean.as_str()) {
                        let a = AssetRequest {
                            decoded: d,
                            content_type: safe_content_type(clean.as_str()),
                        };
                        reqs.push(a);
                        assert(reqs@.map_values(|a: AssetRequest| (a.decoded@, a.content_type@))
                            =~= before.push((a.decoded@, a.content_type@)));
                    }
                }
            }
        }
        i = i + 1;
    }
    assert(rv.take(refs@.len() as int) =~= rv);
    reqs
}

/// A file the server hands out: where it is, its route, and its content
/// type.
#[derive(Debug, Clone, PartialEq, Eq)]
pub struct ServedAsset {
    pub source_path: String,
    pub route_path: String,
    pub content_type: &'static str,
}

/// The route under which a referenced file is handed out, given where it
/// resolved and whether it is a file; `None` when it is not a file under
/// the root, when it is a Markdown file that is not served, or when an
/// earlier asset is the same file.
pub open spec fn admitted_route(
    assets: Seq<ServedAsset>,
    docs: Seq<DocumentEntry>,
    root: Seq<char>,
    canonical: Seq<char>,
    is_file: bool,
) -> Option<Seq<char>> {
    let cs = normal_components(canonical);
    let rp = normal_components(root);
    if !is_prefix(rp, cs) || !is_file {
        None
    } else if markdown_path(canonical) && !(exists|i: int|
        0 <= i < docs.len() && normal_components(#[trigger] docs[i].source_path) == cs) {
        None
    } else if exists|i: int|
        0 <= i < assets.len() && normal_components(#[trigger] assets[i].source_path@) == cs {
        None
    } else {
        Some(route_parts(cs.skip(rp.len() as int)))
    }
}

/// Decides whether a referenced file that resolved to `canonical` is
/// handed out, and under which route; see `admitted_route`.
pub fn admit_asset(
    assets: &[ServedAsset],
    documents: &[ServedDocument],
    root: &str,
    canonical: &str,
    is_file: bool,
) -> (route: Option<String>)
    ensures
        match route {
            Some(r) => admitted_route(assets@, docs_view(documents@), root@, canonical@, is_file)
                == Some(r@),
            None => admitted_route(assets@, docs_view(documents@), root@, canonical@, is_file) is None,
        },
{
    let ghost dv = docs_view(documents@);
    let cp = path_parts(canonical);
    let rp = path_parts(root);
    assert(parts_view(cp@) =~= normal_components(canonical@));
    assert(parts_view(rp@) =~= normal_components(root@));
    if !parts_prefix(rp.as_slice(), cp.as_slice()) || !is_file {
        return None;
    }
    if crate::paths::is_markdown_path(canonical) {
        let mut served = false;
        let mut i: usize = 0;
        while i < documents.len() && !served
            invariant
                i <= documents@.len(),
                dv == docs_view(documents@),
                parts_view(cp@) == normal_components(canonical@),
                served ==> exists|j: int|
                    0 <= j < dv.len() && normal_components(#[trigger] dv[j].source_path)
                        == normal_components(canonical@),
                !served ==> forall|j: int|
                    0 <= j < i ==> normal_components(#[trigger] dv[j].source_path)
                        != normal_components(canonical@),
            decreases documents@.len() - i, if served {
                0int
            } else {
                1int
            },
        {
            let have = path_parts(documents[i].source_path.as_str());
            assert(parts_view(have@) =~= normal_components(dv[i as int].source_path));
            if parts_equal(have.as_slice(), cp.as_slice()) {
                served = true;
            } else {
                i = i + 1;
            }
        }
        if !served {
            return None;
        }
    }
    let mut j: usize = 0;
    while j < assets.len()
        invariant
            j <= assets@.len(),
            parts_view(cp@) == normal_components(canonical@),
            forall|k: int|
                0 <= k < j ==> normal_components(#[trigger] assets@[k].source_path@)
                    != normal_components(canonical@),
        decreases assets@.len() - j,
    {
        let have = path_parts(assets[j].source_path.as_str());
        assert(parts_view(have@) =~= normal_components(assets@[j as int].source_path@));
        if parts_equal(have.as_slice(), cp.as_slice()) {
            return None;
        }
        j = j + 1;
    }
    let r = route_after(cp.as_slice(), rp.len());
    Some(string_from_chars(r.as_slice()))
}

/// The index of the first asset, from the `i`-th on, whose route is
/// `route`.
pub open spec fn asset_routed(assets: Seq<ServedAsset>, i: int, route: Seq<char>) -> Option<int>
    decreases assets.len() - i,
{
    if i < 0 || i >= assets.len() {
        None
    } else if assets[i].route_path@ == route {
        Some(i)
    } else {
        asset_routed(assets, i + 1, route)
    }
}

/// The index of the first asset whose route is `route`.
pub fn asset_by_route(assets: &[ServedAsset], route: &str) -> (i: Option<usize>)
    ensures
        match i {
            Some(k) => asset_routed(assets@, 0, route@) == Some(k as int) && k < assets@.len(),
            None => asset_routed(assets@, 0, route@) is None,
        },
{
    let r = chars_of(route);
    let mut i: usize = 0;
    while i < assets.len()
        invariant
            i <= assets@.len(),
            r@ == route@,
            asset_routed(assets@, 0, route@) == asset_routed(assets@, i as int, route@),
        decreases assets@.len() - i,
    {
        if chars_equal(chars_of(assets[i].route_path.as_str()).as_slice(), r.as_slice()) {
            return Some(i);
        }
        i = i + 1;
    }
    None
}

/// The index of the first asset, from the `i`-th on, that is the file
/// `path`, component by component.
pub open spec fn asset_at(assets: Seq<ServedAsset>, i: int, path: Seq<char>) -> Option<int>
    decreases assets.len() - i,
{
    if i < 0 || i >= assets.len() {
        None
    } else if normal_components(assets[i].source_path@) == normal_components(path) {
        Some(i)
    } else {
        asset_at(assets, i + 1, path)
    }
}

/// The index of the first asset that is the file `path`.
pub fn asset_for_path(assets: &[ServedAsset], path: &str) -> (i: Option<usize>)
    ensures
        match i {
            Some(k) => asset_at(assets@, 0, path@) == Some(k as int) && k < assets@.len(),
            None => asset_at(assets@, 0, path@) is None,
        },
{
    let want = path_parts(path);
    assert(parts_view(want@) =~= normal_components(path@));
    let mut i: usize = 0;
    while i < assets.len()
        invariant
            i <= assets@.len(),
            parts_view(want@) == normal_components(path@),
            asset_at(assets@, 0, path@) == asset_at(assets@, i as int, path@),
        decreases assets@.len() - i,
    {
        let have = path_parts(assets[i].source_path.as_str());
        assert(parts_view(have@) =~= normal_components(assets@[i as int].source_path@));
        if parts_equal(have.as_slice(), want.as_slice()) {
            return Some(i);
        }
        i = i + 1;
    }
    None
}

/// The index of the first served document that is the file `path`.
pub fn document_for_path(documents: &[ServedDocument], path: &str) -> (i: Option<usize>)
    ensures
        match i {
            Some(k) => document_at(docs_view(documents@), 0, path@) == Some(k as int) && k
                < documents@.len(),
            None => document_at(docs_view(documents@), 0, path@) is None,
        },
{
    let ghost dv = docs_view(documents@);
    let want = path_parts(path);
    assert(parts_view(want@) =~= normal_components(path@));
    let mut i: usize = 0;
    while i < documents.len()
        invariant
            i <= documents@.len(),
            dv == docs_view(documents@),
            parts_view(want@) == normal_components(path@),
            document_at(dv, 0, path@) == document_at(dv, i as int, path@),
        decreases documents@.len() - i,
    {
        let have = path_parts(documents[i].source_path.as_str());
        assert(parts_view(have@) =~= normal_components(dv[i as int].source_path));
        if parts_equal(have.as_slice(), want.as_slice()) {
            return Some(i);
        }
        i = i + 1;
    }
    None
}

/// The byte of an uppercase hexadecimal digit.
spec fn hex_byte(d: nat) -> u8 {
    if d < 10 {
        (48 + d) as u8
    } else {
        (55 + d) as u8
    }
}

/// The UTF-8 bytes of one byte's route form.
spec fn escaped_byte(x: u8) -> Seq<u8> {
    if unreserved(x) {
        seq![x]
    } else {
        seq![37u8, hex_byte((x / 16) as nat), hex_byte((x % 16) as nat)]
    }
}

/// The UTF-8 bytes of the route form of `b`.
spec fn escaped(b: Seq<u8>) -> Seq<u8>
    decreases b.len(),
{
    if b.len() == 0 {
        Seq::empty()
    } else {
        escaped_byte(b[0]) + escaped(b.drop_first())
    }
}

proof fn lemma_utf8_concat(a: Seq<char>, b: Seq<char>)
    ensures
        encode_utf8(a + b) == encode_utf8(a) + encode_utf8(b),
    decreases a.len(),
{
    if a.len() == 0 {
        assert(a + b =~= b);
        assert(encode_utf8(a) =~= Seq::<u8>::empty());
        assert(Seq::<u8>::empty() + encode_utf8(b) =~= encode_utf8(b));
    } else {
        assert((a + b).drop_first() =~= a.drop_first() + b);
        assert((a + b)[0] == a[0]);
        lemma_utf8_concat(a.drop_first(), b);
        let e = vstd::utf8::encode_scalar(a[0] as u32);
        assert(e + (encode_utf8(a.drop_first()) + encode_utf8(b)) =~= (e + encode_utf8(
            a.drop_first(),
        )) + encode_utf8(b));
    }
}

proof fn lemma_utf8_ascii(c: char)
    requires
        (c as u32) < 0x80,
    ensures
        encode_utf8(seq![c]) == seq![(c as u32) as u8],
{
    let v = c as u32;
    assert(v < 0x80 ==> (v & 0x7F) as u8 == v as u8) by (bit_vector);
    assert(seq![c].drop_first() =~= Seq::<char>::empty());
    assert(encode_utf8(seq![c]) =~= vstd::utf8::encode_scalar(v) + encode_utf8(
        Seq::<char>::empty(),
    ));
}

proof fn lemma_hex_upper(d: nat)
    requires
        d < 16,
    ensures
        (hex_upper(d) as u32) < 0x80,
        (hex_upper(d) as u32) as u8 == hex_byte(d),
        hex_val(hex_byte(d)) == Some(d as u8),
{
}

proof fn lemma_encode_byte(x: u8)
    ensures
        encode_utf8(encode_byte(x)) == escaped_byte(x),
{
    if unreserved(x) {
        lemma_utf8_ascii(x as char);
    } else {
        let hi = hex_upper((x / 16) as nat);
        let lo = hex_upper((x % 16) as nat);
        lemma_hex_upper((x / 16) as nat);
        lemma_hex_upper((x % 16) as nat);
        lemma_utf8_ascii('%');
        lemma_utf8_ascii(hi);
        lemma_utf8_ascii(lo);
        assert(encode_byte(x) =~= seq!['%'] + seq![hi] + seq![lo]);
        lemma_utf8_concat(seq!['%'] + seq![hi], seq![lo]);
        lemma_utf8_concat(seq!['%'], seq![hi]);
        assert(escaped_byte(x) =~= seq![37u8] + seq![hex_byte((x / 16) as nat)] + seq![
            hex_byte((x % 16) as nat),
        ]);
    }
}

proof fn lemma_escaped_push(b: Seq<u8>, x: u8)
    ensures
        escaped(b.push(x)) == escaped(b) + escaped_byte(x),
    decreases b.len(),
{
    if b.len() == 0 {
        assert(b.push(x).drop_first() =~= Seq::<u8>::empty());
        assert(b.push(x)[0] == x);
        assert(escaped(Seq::<u8>::empty()) =~= Seq::<u8>::empty());
        assert(escaped(b.push(x)) =~= escaped_byte(x) + Seq::<u8>::empty());
        assert(escaped(b) + escaped_byte(x) =~= escaped_byte(x));
    } else {
        assert(b.push(x).drop_first() =~= b.drop_first().push(x));
        lemma_escaped_push(b.drop_first(), x);
        assert(escaped_byte(b[0]) + (escaped(b.drop_first()) + escaped_byte(x)) =~= (
        escaped_byte(b[0]) + escaped(b.drop_first())) + escaped_byte(x));
    }
}

proof fn lemma_encode_bytes(b: Seq<u8>)
    ensures
        encode_utf8(encode_bytes(b)) == escaped(b),
    decreases b.len(),
{
    if b.len() == 0 {
        assert(encode_bytes(b) =~= Seq::<char>::empty());
        assert(escaped(b) =~= Seq::<u8>::empty());
    } else {
        lemma_encode_bytes(b.drop_last());
        lemma_encode_byte(b.last());
        lemma_utf8_concat(encode_bytes(b.drop_last()), encode_byte(b.last()));
        lemma_escaped_push(b.drop_last(), b.last());
        assert(b.drop_last().push(b.last()) =~= b);
    }
}

proof fn lemma_unescape_escaped(b: Seq<u8>, rest: Seq<u8>)
    ensures
        unescape_bytes(escaped(b) + rest) == crate::serve::prepend(b, unescape_bytes(rest)),
    decreases b.len(),
{
    if b.len() == 0 {
        assert(escaped(b) + rest =~= rest);
        if let Some(t) = unescape_bytes(rest) {
            assert(b + t =~= t);
        }
    } else {
        let x = b[0];
        lemma_unescape_escaped(b.drop_first(), rest);
        let tail = escaped(b.drop_first()) + rest;
        let all = escaped(b) + rest;
        if unreserved(x) {
            assert(all =~= seq![x] + tail);
            assert(all.skip(1) =~= tail);
        } else {
            lemma_hex_upper((x / 16) as nat);
            lemma_hex_upper((x % 16) as nat);
            assert(all =~= seq![37u8, hex_byte((x / 16) as nat), hex_byte((x % 16) as nat)]
                + tail);
            assert(all.skip(3) =~= tail);
            assert(((x / 16) as u8 * 16 + (x % 16) as u8) as u8 == x);
        }
        if let Some(t) = unescape_bytes(rest) {
            assert(seq![x] + (b.drop_first() + t) =~= b + t);
        }
    }
}

/// What the server sends as a route comes back as the path it stands for:
/// decoding a route made of the components `cs` gives `/` and the
/// components joined with `/`, whatever characters they hold.
pub proof fn routes_decode_to_their_paths(cs: Seq<Seq<char>>)
    ensures
        percent_decoded(route_parts(cs)) == Some(path_text(cs)),
{
    lemma_route_bytes(cs);
    let plain = encode_utf8(path_text(cs));
    assert(escaped_path(cs) + Seq::<u8>::empty() =~= escaped_path(cs));
    lemma_unescape_path_rest(cs, Seq::empty());
    assert(unescape_bytes(Seq::<u8>::empty()) == Some(Seq::<u8>::empty()));
    assert(plain + Seq::<u8>::empty() =~= plain);
    vstd::utf8::encode_utf8_valid_utf8(path_text(cs));
    vstd::utf8::encode_utf8_decode_utf8(path_text(cs));
}

/// The UTF-8 bytes of a route of the components `cs`.
spec fn escaped_path(cs: Seq<Seq<char>>) -> Seq<u8>
    decreases cs.len(),
{
    if cs.len() == 0 {
        seq![47u8]
    } else if cs.len() == 1 {
        seq![47u8] + escaped(encode_utf8(cs[0]))
    } else {
        escaped_path(cs.drop_last()) + seq![47u8] + escaped(encode_utf8(cs.last()))
    }
}

proof fn lemma_route_bytes(cs: Seq<Seq<char>>)
    ensures
        encode_utf8(route_parts(cs)) == escaped_path(cs),
    decreases cs.len(),
{
    let m = cs.map_values(|c: Seq<char>| route_segment(c));
    lemma_utf8_ascii('/');
    if cs.len() == 0 {
        assert(route_parts(cs) =~= seq!['/']);
    } else if cs.len() == 1 {
        assert(route_parts(cs) =~= seq!['/'] + route_segment(cs[0]));
        lemma_utf8_concat(seq!['/'], route_segment(cs[0]));
        lemma_encode_bytes(encode_utf8(cs[0]));
    } else {
        lemma_route_bytes(cs.drop_last());
        assert(m.drop_last() =~= cs.drop_last().map_values(|c: Seq<char>| route_segment(c)));
        assert(route_parts(cs) =~= route_parts(cs.drop_last()) + seq!['/'] + route_segment(
            cs.last(),
        ));
        lemma_utf8_concat(route_parts(cs.drop_last()) + seq!['/'], route_segment(cs.last()));
        lemma_utf8_concat(route_parts(cs.drop_last()), seq!['/']);
        lemma_encode_bytes(encode_utf8(cs.last()));
    }
}

proof fn lemma_prepend_prepend(a: Seq<u8>, b: Seq<u8>, r: Option<Seq<u8>>)
    ensures
        crate::serve::prepend(a, crate::serve::prepend(b, r)) == crate::serve::prepend(a + b, r),
{
    if let Some(t) = r {
        assert(a + (b + t) =~= (a + b) + t);
    }
}

proof fn lemma_unescape_slash(rest: Seq<u8>)
    ensures
        unescape_bytes(seq![47u8] + rest) == crate::serve::prepend(seq![47u8], unescape_bytes(rest)),
{
    assert((seq![47u8] + rest).skip(1) =~= rest);
    assert((seq![47u8] + rest)[0] == 47u8);
}

proof fn lemma_unescape_path_rest(cs: Seq<Seq<char>>, rest: Seq<u8>)
    ensures
        unescape_bytes(escaped_path(cs) + rest) == crate::serve::prepend(
            encode_utf8(path_text(cs)),
            unescape_bytes(rest),
        ),
    decreases cs.len(),
{
    lemma_utf8_ascii('/');
    if cs.len() == 0 {
        assert(path_text(cs) =~= seq!['/']);
        lemma_unescape_slash(rest);
    } else if cs.len() == 1 {
        let b = encode_utf8(cs[0]);
        assert(escaped_path(cs) + rest =~= seq![47u8] + (escaped(b) + rest));
        lemma_unescape_slash(escaped(b) + rest);
        lemma_unescape_escaped(b, rest);
        lemma_prepend_prepend(seq![47u8], b, unescape_bytes(rest));
        assert(path_text(cs) =~= seq!['/'] + cs[0]);
        lemma_utf8_concat(seq!['/'], cs[0]);
    } else {
        let init = cs.drop_last();
        let b = encode_utf8(cs.last());
        let tail = seq![47u8] + (escaped(b) + rest);
        assert(escaped_path(cs) + rest =~= escaped_path(init) + tail);
        lemma_unescape_path_rest(init, tail);
        lemma_unescape_slash(escaped(b) + rest);
        lemma_unescape_escaped(b, rest);
        lemma_prepend_prepend(seq![47u8], b, unescape_bytes(rest));
        lemma_prepend_prepend(encode_utf8(path_text(init)), seq![47u8] + b, unescape_bytes(rest));
        assert(path_text(cs) =~= path_text(init) + seq!['/'] + cs.last());
        lemma_utf8_concat(path_text(init) + seq!['/'], cs.last());
        lemma_utf8_concat(path_text(init), seq!['/']);
        assert(encode_utf8(path_text(init)) + (seq![47u8] + b) =~= encode_utf8(path_text(init))
            + seq![47u8] + b);
    }
}

/// Whether the directory `r` begins the parent directory of `p`.
pub open spec fn holds_parent(r: Seq<Seq<char>>, p: Seq<char>) -> bool {
    match parent_parts(p) {
        Some(d) => is_prefix(r, d),
        None => false,
    }
}

proof fn lemma_prefix_trans(a: Seq<Seq<char>>, b: Seq<Seq<char>>, c: Seq<Seq<char>>)
    requires
        is_prefix(a, b),
        is_prefix(b, c),
    ensures
        is_prefix(a, c),
{
    assert forall|k: int| 0 <= k < a.len() implies c.take(a.len() as int)[k] == a[k] by {
        assert(c.take(b.len() as int)[k] == c[k]);
        assert(b.take(a.len() as int)[k] == b[k]);
    }
    assert(c.take(a.len() as int) =~= a);
}

proof fn lemma_shrink_to(root: Seq<Seq<char>>, dir: Seq<Seq<char>>)
    ensures
        is_prefix(shrink_to(root, dir), dir),
        is_prefix(shrink_to(root, dir), root),
    decreases root.len(),
{
    if is_prefix(root, dir) {
        assert(root.take(root.len() as int) =~= root);
    } else if root.len() == 0 {
        assert(dir.take(0) =~= root);
        assert(root.take(0) =~= root);
    } else {
        lemma_shrink_to(root.drop_last(), dir);
        let r = shrink_to(root.drop_last(), dir);
        assert(root.take(root.drop_last().len() as int) =~= root.drop_last());
        lemma_prefix_trans(r, root.drop_last(), root);
    }
}

proof fn lemma_ancestor_from(paths: Seq<Seq<char>>, i: int, root: Seq<Seq<char>>)
    requires
        0 <= i <= paths.len(),
    ensures
        ancestor_from(paths, i, root) matches Some(r) ==> is_prefix(r, root) && forall|j: int|
            i <= j < paths.len() ==> holds_parent(r, #[trigger] paths[j]),
    decreases paths.len() - i,
{
    if i == paths.len() {
        assert(root.take(root.len() as int) =~= root);
    } else if let Some(dir) = parent_parts(paths[i]) {
        let next = shrink_to(root, dir);
        lemma_shrink_to(root, dir);
        lemma_ancestor_from(paths, i + 1, next);
        if let Some(r) = ancestor_from(paths, i + 1, next) {
            lemma_prefix_trans(r, next, root);
            lemma_prefix_trans(r, next, dir);
        }
    }
}

/// The root that several served files share holds every one of them: it
/// begins the parent directory of each.
pub proof fn shared_root_holds_every_file(paths: Seq<Seq<char>>)
    ensures
        common_ancestor(paths) matches Some(r) ==> forall|j: int|
            0 <= j < paths.len() ==> holds_parent(r, #[trigger] paths[j]),
{
    if paths.len() > 0 {
        if let Some(dir) = parent_parts(paths[0]) {
            lemma_ancestor_from(paths, 1, dir);
        }
    }
}

/// Whether `path` is the file-system root, which has no parent.
pub fn is_filesystem_root(path: &str) -> (b: bool)
    ensures
        b == (parent_parts(path@) is None),
{
    let cs = path_parts(path);
    cs.len() == 0
}

/// The first check on a served directory, made before it is searched: its
/// canonical path must be known and must not be the file-system root. The
/// refusals are those with which `directory_plan` begins.
pub fn check_directory_root(root: &Result<String, String>) -> (r: Result<(), ServeError>)
    ensures
        match r {
            Ok(_) => root matches Ok(p) && normal_components(p@).len() > 0,
            Err(e) => match root {
                Err(x) => e@ == ServeFailure::Io(x@),
                Ok(p) => normal_components(p@).len() == 0 && e@ == ServeFailure::RootDirectory,
            },
        },
{
    match root {
        Err(x) => Err(ServeError::Io(x.clone())),
        Ok(p) => {
            let cs = path_parts(p.as_str());
            if cs.len() == 0 {
                Err(ServeError::RootDirectory)
            } else {
                Ok(())
            }
        },
    }
}

/// Whether the file at `path` is still served as it was planned: its
/// canonical path is `path` itself, under the root.
pub open spec fn still_served(root: Seq<char>, path: Seq<char>, canonical: Seq<char>) -> bool {
    normal_components(canonical) == normal_components(path) && is_prefix(
        normal_components(root),
        normal_components(canonical),
    )
}

/// Whether the file at `path`, which now resolves to `canonical`, is still
/// served; see `still_served`.
pub fn is_still_served(root: &str, path: &str, canonical: &str) -> (b: bool)
    ensures
        b == still_served(root@, path@, canonical@),
{
    let rp = path_parts(root);
    let pp = path_parts(path);
    let cp = path_parts(canonical);
    assert(parts_view(rp@) =~= normal_components(root@));
    assert(parts_view(pp@) =~= normal_components(path@));
    assert(parts_view(cp@) =~= normal_components(canonical@));
    parts_equal(cp.as_slice(), pp.as_slice()) && parts_prefix(rp.as_slice(), cp.as_slice())
}

/// The route that a link leads to once its path resolved to `canonical`:
/// none outside the root; a served document's route for a Markdown file;
/// else the route of the asset that is that file, if any.
pub open spec fn link_route(
    docs: Seq<DocumentEntry>,
    assets: Seq<ServedAsset>,
    root: Seq<char>,
    canonical: Seq<char>,
) -> Option<Seq<char>> {
    if !is_prefix(normal_components(root), normal_components(canonical)) {
        None
    } else if markdown_path(canonical) {
        match document_at(docs, 0, canonical) {
            Some(i) => Some(docs[i].route_path),
            None => None,
        }
    } else {
        match asset_at(assets, 0, canonical) {
            Some(i) => Some(assets[i].route_path@),
            None => None,
        }
    }
}

/// The route that a link leads to once its path resolved to `canonical`;
/// see `link_route`.
pub fn resolved_route(
    documents: &[ServedDocument],
    assets: &[ServedAsset],
    root: &str,
    canonical: &str,
) -> (route: Option<String>)
    ensures
        match route {
            Some(r) => link_route(docs_view(documents@), assets@, root@, canonical@) == Some(r@),
            None => link_route(docs_view(documents@), assets@, root@, canonical@) is None,
        },
{
    let rp = path_parts(root);
    let cp = path_parts(canonical);
    assert(parts_view(rp@) =~= normal_components(root@));
    assert(parts_view(cp@) =~= normal_components(canonical@));
    if !parts_prefix(rp.as_slice(), cp.as_slice()) {
        return None;
    }
    if crate::paths::is_markdown_path(canonical) {
        match document_for_path(documents, canonical) {
            Some(i) => Some(documents[i].route_path.clone()),
            None => None,
        }
    } else {
        match asset_for_path(assets, canonical) {
            Some(i) => Some(assets[i].route_path.clone()),
            None => None,
        }
    }
}

/// The server hands out no file outside its root, nothing that is not a
/// file, and no Markdown file that it does not serve as a document; a file
/// is admitted once, under the route of its path below the root, which
/// decodes back to that path.
pub proof fn assets_are_served_files_only(
    assets: Seq<ServedAsset>,
    docs: Seq<DocumentEntry>,
    root: Seq<char>,
    canonical: Seq<char>,
    is_file: bool,
)
    ensures
        admitted_route(assets, docs, root, canonical, is_file) is Some ==> {
            let below = normal_components(canonical).skip(normal_components(root).len() as int);
            &&& is_file
            &&& is_prefix(normal_components(root), normal_components(canonical))
            &&& markdown_path(canonical) ==> exists|i: int|
                0 <= i < docs.len() && normal_components(#[trigger] docs[i].source_path)
                    == normal_components(canonical)
            &&& forall|i: int|
                0 <= i < assets.len() ==> normal_components(#[trigger] assets[i].source_path@)
                    != normal_components(canonical)
            &&& admitted_route(assets, docs, root, canonical, is_file) == Some(route_parts(below))
            &&& percent_decoded(route_parts(below)) == Some(path_text(below))
        },
{
    let below = normal_components(canonical).skip(normal_components(root).len() as int);
    routes_decode_to_their_paths(below);
}


/// One percent-encoded route segment decodes to the text it was made from,
/// whatever characters that text holds.
pub proof fn segments_decode_to_their_text(x: Seq<char>)
    ensures
        percent_decoded(route_segment(x)) == Some(x),
{
    let b = encode_utf8(x);
    lemma_encode_bytes(b);
    lemma_unescape_escaped(b, Seq::empty());
    assert(escaped(b) + Seq::<u8>::empty() =~= escaped(b));
    assert(unescape_bytes(Seq::<u8>::empty()) == Some(Seq::<u8>::empty()));
    assert(b + Seq::<u8>::empty() =~= b);
    vstd::utf8::encode_utf8_valid_utf8(x);
    vstd::utf8::encode_utf8_decode_utf8(x);
}

/// Only `GET` and `HEAD` requests are served, `HEAD` without a body; every
/// other method is refused.
pub proof fn only_get_and_head_are_served(line: Seq<char>)
    ensures
        (request_of(line) is Get) <==> (words(line).len() > 0 && (words(line)[0] == "GET"@
            || words(line)[0] == "HEAD"@)),
        request_of(line) matches RequestView::Get { head_only, .. } ==> (head_only <==> words(
            line,
        )[0] == "HEAD"@),
{
    reveal_strlit("GET");
    reveal_strlit("HEAD");
    if words(line).len() == 0 {
        assert(Seq::<char>::empty() != "GET"@);
        assert(Seq::<char>::empty() != "HEAD"@);
    }
}

/// How a resolved route is answered: `/events` is the event stream (its
/// headers alone for `HEAD`), `/` the default document when it is served,
/// and a document's route that document.
pub proof fn routes_answer_as_documented(
    head_only: bool,
    docs: Seq<DocumentEntry>,
    default_document: Seq<char>,
    r: Seq<char>,
)
    ensures
        reply_for(Some("/events"@), head_only, docs, default_document) == if head_only {
            Reply::EventsHead
        } else {
            Reply::Events
        },
        document_at(docs, 0, default_document) matches Some(i) ==> reply_for(
            Some("/"@),
            head_only,
            docs,
            default_document,
        ) == Reply::Document(i as usize),
        r != "/"@ && r != "/events"@ ==> (document_routed(docs, 0, r) matches Some(i) ==> reply_for(
            Some(r),
            head_only,
            docs,
            default_document,
        ) == Reply::Document(i as usize)),
{
    reveal_strlit("/");
    reveal_strlit("/events");
    assert("/events"@.len() == 7);
    assert("/"@.len() == 1);
}

proof fn lemma_documents_from_shape(ins: Seq<ServedInput>, i: int, root: Seq<Seq<char>>)
    requires
        0 <= i <= ins.len(),
    ensures
        documents_from(ins, i, root) matches Ok(docs) ==> docs.len() == ins.len() - i && (forall|
            k: int,
        |
            0 <= k < docs.len() ==> #[trigger] docs[k].source_path == canonical_text(ins[i + k])),
        documents_from(ins, i, root) matches Err(f) ==> (f is OutsideRoot || f is Io),
    decreases ins.len() - i,
{
    if i < ins.len() {
        lemma_documents_from_shape(ins, i + 1, root);
        let c = canonical_text(ins[i]);
        let cs = normal_components(c);
        if is_prefix(root, cs) {
            if let Ok(src) = ins[i].source {
                let head = seq![
                    DocumentEntry {
                        source_path: c,
                        route_path: route_parts(cs.skip(root.len() as int)),
                        title: document_title(c, src@),
                    },
                ];
                if let Ok(rest) = documents_from(ins, i + 1, root) {
                    let docs = head + rest;
                    assert forall|k: int| 0 <= k < docs.len() implies #[trigger] docs[k].source_path
                        == canonical_text(ins[i + k]) by {
                        if k > 0 {
                            assert(docs[k] == rest[k - 1]);
                            assert(rest[k - 1].source_path == canonical_text(ins[(i + 1) + (k - 1)]));
                        }
                    }
                }
            }
        }
    }
}

/// Files named on the command line that pass the checks (each an existing,
/// readable Markdown file, none named twice) are refused for sharing only
/// the file-system root exactly when the directory that holds them is the
/// root; otherwise, when every file lies under that directory, they are
/// served in the order given, the first being the default document.
pub proof fn explicit_files_keep_their_order(ins: Seq<ServedInput>, root: Seq<Seq<char>>)
    requires
        input_refusal(ins, 0) is None,
        explicit_root(ins.map_values(|x: ServedInput| canonical_text(x))) == Ok::<
            Seq<Seq<char>>,
            ServeFailure,
        >(root),
    ensures
        (explicit_plan(ins) == Err::<PlanView, ServeFailure>(ServeFailure::RootAncestor)) <==> root.len()
            == 0,
        root.len() > 0 && ins.len() > 0 && documents_from(ins, 0, root) is Ok ==> (explicit_plan(
            ins,
        ) matches Ok(plan) && plan.documents.len() == ins.len() && plan.default_document
            == canonical_text(ins[0]) && (forall|k: int|
            0 <= k < ins.len() ==> #[trigger] plan.documents[k].source_path == canonical_text(
                ins[k],
            )) && plan.mode == if ins.len() == 1 {
            ServeMode::SingleFile
        } else {
            ServeMode::Explicit
        }),
{
    lemma_documents_from_shape(ins, 0, root);
    if root.len() > 0 && ins.len() > 0 && documents_from(ins, 0, root) is Ok {
        let docs = documents_from(ins, 0, root)->Ok_0;
        assert forall|k: int| 0 <= k < ins.len() implies #[trigger] docs[k].source_path
            == canonical_text(ins[k]) by {
            assert(docs[k].source_path == canonical_text(ins[0 + k]));
        }
    }
}

/// The document served for `/` of a directory is its `README.md`, else its
/// `index.md`, else the first document found.
pub proof fn directory_default_prefers_readme(
    root: Result<String, String>,
    found: Result<Seq<DirectoryEntry>, Seq<char>>,
    recurse: bool,
)
    ensures
        directory_plan(root, found, recurse) matches Ok(plan) ==> plan.documents.len() > 0 && plan.mode
            == ServeMode::Directory && plan.default_document == match named_document(
            plan.documents,
            0,
            normal_components(plan.root),
            "README.md"@,
        ) {
            Some(p) => p,
            None => match named_document(plan.documents, 0, normal_components(plan.root), "index.md"@) {
                Some(p) => p,
                None => plan.documents[0].source_path,
            },
        },
{
}


/// The canonical path of a directory entry that resolved.
pub open spec fn entry_canonical(e: DirectoryEntry) -> Seq<char> {
    match e.canonical {
        Ok(d) => d@,
        Err(_) => Seq::empty(),
    }
}

proof fn lemma_directory_documents_shape(es: Seq<DirectoryEntry>, i: int, root: Seq<Seq<char>>)
    requires
        0 <= i <= es.len(),
    ensures
        directory_documents(es, i, root) matches Ok(docs) ==> {
            &&& docs.len() == es.len() - i
            &&& forall|k: int|
                0 <= k < docs.len() ==> #[trigger] docs[k].source_path == entry_canonical(es[i + k])
                    && is_prefix(root, normal_components(docs[k].source_path))
            &&& forall|k: int, j: int|
                0 <= k < docs.len() && 0 <= j < i + k ==> !entry_is(
                    #[trigger] es[j],
                    #[trigger] docs[k].source_path,
                )
        },
    decreases es.len() - i,
{
    if i < es.len() {
        lemma_directory_documents_shape(es, i + 1, root);
        if !collides_before(es, i) {
            if let Ok(c) = es[i].canonical {
                let cs = normal_components(c@);
                if is_prefix(root, cs) && !(exists|j: int| 0 <= j < i && #[trigger] entry_is(es[j], c@)) {
                    if let Ok(src) = es[i].source {
                        let head = seq![
                            DocumentEntry {
                                source_path: c@,
                                route_path: route_parts(cs.skip(root.len() as int)),
                                title: document_title(c@, src@),
                            },
                        ];
                        if let Ok(rest) = directory_documents(es, i + 1, root) {
                            let docs = head + rest;
                            assert forall|k: int|
                                0 <= k < docs.len() implies #[trigger] docs[k].source_path
                                == entry_canonical(es[i + k]) && is_prefix(
                                root,
                                normal_components(docs[k].source_path),
                            ) by {
                                if k > 0 {
                                    assert(docs[k] == rest[k - 1]);
                                    assert(rest[k - 1].source_path == entry_canonical(
                                        es[(i + 1) + (k - 1)],
                                    ));
                                }
                            }
                            assert forall|k: int, j: int|
                                0 <= k < docs.len() && 0 <= j < i + k implies !entry_is(
                                #[trigger] es[j],
                                #[trigger] docs[k].source_path,
                            ) by {
                                if k > 0 {
                                    assert(docs[k] == rest[k - 1]);
                                    assert(!entry_is(es[j], rest[k - 1].source_path));
                                }
                            }
                        }
                    }
                }
            }
        }
    }
}

/// A served directory lists each Markdown file it was given once, in the
/// order given (the walk gives them sorted by their path relative to the
/// directory), every one under the directory and no two the same file.
pub proof fn directory_serves_each_file_once(
    root: Result<String, String>,
    found: Seq<DirectoryEntry>,
    recurse: bool,
)
    ensures
        directory_plan(root, Ok(found), recurse) matches Ok(plan) ==> {
            &&& plan.documents.len() == found.len()
            &&& forall|k: int|
                0 <= k < found.len() ==> #[trigger] plan.documents[k].source_path == entry_canonical(
                    found[k],
                ) && is_prefix(
                    normal_components(plan.root),
                    normal_components(plan.documents[k].source_path),
                )
            &&& forall|k1: int, k2: int|
                0 <= k1 < k2 < found.len() ==> normal_components(
                    #[trigger] plan.documents[k1].source_path,
                ) != normal_components(#[trigger] plan.documents[k2].source_path)
        },
{
    if let Ok(r) = root {
        let rp = normal_components(r@);
        lemma_directory_documents_shape(found, 0, rp);
        if let Ok(docs) = directory_documents(found, 0, rp) {
            assert forall|k: int| 0 <= k < docs.len() implies #[trigger] docs[k].source_path
                == entry_canonical(found[k]) && is_prefix(rp, normal_components(docs[k].source_path)) by {
                assert(docs[k].source_path == entry_canonical(found[0 + k]));
            }
            assert forall|k1: int, k2: int| 0 <= k1 < k2 < docs.len() implies normal_components(
                #[trigger] docs[k1].source_path,
            ) != normal_components(#[trigger] docs[k2].source_path) by {
                assert(!entry_is(found[k1], docs[k2].source_path));
                assert(docs[k1].source_path == entry_canonical(found[0 + k1]));
                assert(found[k1].canonical is Ok) by {
                    if found[k1].canonical is Err {
                        lemma_directory_entry_ok(found, 0, rp, k1);
                    }
                }
            }
        }
    }
}

proof fn lemma_directory_entry_ok(es: Seq<DirectoryEntry>, i: int, root: Seq<Seq<char>>, k: int)
    requires
        0 <= i <= k < es.len(),
        directory_documents(es, i, root) is Ok,
    ensures
        es[k].canonical is Ok,
    decreases k - i,
{
    if k > i {
        if let Ok(c) = es[i].canonical {
            if let Ok(src) = es[i].source {
                lemma_directory_entry_ok(es, i + 1, root, k);
            }
        }
    }
}


proof fn lemma_without_slashes(s: Seq<char>)
    ensures
        slash_prefix(s) <= s.len(),
        without_leading_slashes(s).len() == 0 || without_leading_slashes(s)[0] != '/',
        !has_cc(s) ==> !has_cc(without_leading_slashes(s)),
    decreases s.len(),
{
    if s.len() > 0 && s[0] == '/' {
        lemma_without_slashes(s.drop_first());
        assert(s.skip(slash_prefix(s) as int) =~= s.drop_first().skip(
            slash_prefix(s.drop_first()) as int,
        ));
    } else {
        assert(s.skip(0) =~= s);
    }
    if !has_cc(s) {
        let t = without_leading_slashes(s);
        assert forall|i: int| 0 <= i < t.len() implies !is_cc(#[trigger] t[i]) by {
            assert(t[i] == s[slash_prefix(s) + i]);
        }
    }
}

/// A request path resolves to a path relative to the served root: what is
/// looked up, and what is checked against the root, never starts with `/`
/// and holds no control character.
pub proof fn requests_resolve_relative_to_the_root(request: Seq<char>)
    ensures
        request_route(request) matches RouteView::Resolve { guard, target } ==> {
            &&& (guard.len() == 0 || guard[0] != '/')
            &&& !has_cc(guard)
            &&& target matches Some(t) ==> t.len() > 0 && t[0] != '/' && !has_cc(t)
        },
{
    let p = request.take(suffix_start(request));
    if let Some(d) = percent_decoded(p) {
        lemma_without_slashes(d);
        if let Some(r) = decode_rounds(p, 4) {
            lemma_without_slashes(r);
        }
    }
}


proof fn lemma_ascii_len(s: Seq<char>)
    requires
        forall|i: int| 0 <= i < s.len() ==> (#[trigger] s[i] as u32) < 0x80,
    ensures
        encode_utf8(s).len() == s.len(),
    decreases s.len(),
{
    if s.len() == 0 {
        assert(encode_utf8(s) =~= Seq::<u8>::empty());
    } else {
        lemma_ascii_len(s.drop_last());
        lemma_utf8_ascii(s.last());
        lemma_utf8_concat(s.drop_last(), seq![s.last()]);
        assert(s.drop_last() + seq![s.last()] =~= s);
    }
}

/// How the server answers what it refuses or has not got: a method other
/// than `GET` or `HEAD` gets `405 Method Not Allowed` with the body `Method
/// not allowed`; a route that nothing is served under gets `404 Not Found`
/// with the body `Not found` (nine bytes, left out for `HEAD`); `HEAD
/// /events` gets `200 OK` with the event stream's content type and no body.
pub proof fn refusals_are_answered(
    line: Seq<char>,
    head_only: bool,
    docs: Seq<DocumentEntry>,
    default_document: Seq<char>,
)
    ensures
        answer_response(Answer::MethodNotAllowed, false) == encode_utf8(
            response_head("405 Method Not Allowed"@, "text/plain; charset=utf-8"@, 18),
        ) + encode_utf8("Method not allowed"@),
        answer_response(Answer::NotFound, head_only) == encode_utf8(
            response_head("404 Not Found"@, "text/plain; charset=utf-8"@, 9),
        ) + if head_only {
            Seq::<u8>::empty()
        } else {
            encode_utf8("Not found"@)
        },
        fixed_answer(reply_for(Some("/events"@), true, docs, default_document)) == Some(
            Answer::EventsHead,
        ),
        answer_response(Answer::EventsHead, true) == encode_utf8(
            response_head("200 OK"@, "text/event-stream"@, 0),
        ),
        fixed_answer(Reply::NotFound) == Some(Answer::NotFound),
{
    reveal_strlit("Method not allowed");
    reveal_strlit("Not found");
    reveal_strlit("/events");
    reveal_strlit("/");
    lemma_ascii_len("Method not allowed"@);
    lemma_ascii_len("Not found"@);
    assert("/events"@.len() == 7);
    assert("/"@.len() == 1);
    assert(encode_utf8("Not found"@).len() == 9);
    assert(encode_utf8("Method not allowed"@).len() == 18);
    let h = encode_utf8(response_head("200 OK"@, "text/event-stream"@, 0));
    assert(h + Seq::<u8>::empty() =~= h);
    if head_only {
        let n = encode_utf8(response_head("404 Not Found"@, "text/plain; charset=utf-8"@, 9));
        assert(n + Seq::<u8>::empty() =~= n);
    }
}


/// A rendered page is sent as HTML (`200 OK`, `text/html; charset=utf-8`)
/// with the page as its body, and a file with its own content type and its
/// bytes; a `HEAD` request gets the same headers and no body.
pub proof fn pages_are_sent_as_html(html: String, t: &'static str, bytes: Vec<u8>, head_only: bool)
    ensures
        answer_response(Answer::Page(html), head_only) == encode_utf8(
            response_head("200 OK"@, "text/html; charset=utf-8"@, encode_utf8(html@).len()),
        ) + if head_only {
            Seq::<u8>::empty()
        } else {
            encode_utf8(html@)
        },
        answer_response(Answer::File(t, bytes), head_only) == encode_utf8(
            response_head("200 OK"@, t@, bytes@.len()),
        ) + if head_only {
            Seq::<u8>::empty()
        } else {
            bytes@
        },
{
}

} // verus!
