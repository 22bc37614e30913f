//! Documents and the renderers that turn them into terminal text or a
//! standalone HTML page.
use vstd::prelude::*;

use crate::markdown::{html_body, markdown_events, markdown_html, parse_events};
use crate::paths::{file_name, path_file_name};
use crate::sanitize::{add_heading_ids, ascii_html, ascii_refs, sanitize_html, sanitized, with_heading_ids};
use crate::serve::{repair_rounds, repair_utf8_mojibake};
use crate::terminal::{render_events, render_spec, RenderOptions};
use crate::text::{chars_of, push_str, string_from_chars};

verus! {

/// A Markdown source together with the title it is shown under.
#[derive(Debug, Clone, PartialEq, Eq)]
pub struct MarkdownDocument {
    source: String,
    title: String,
}

/// The contents of a document as text.
pub struct DocumentView {
    pub source: Seq<char>,
    pub title: Seq<char>,
}

impl View for MarkdownDocument {
    type V = DocumentView;

    closed spec fn view(&self) -> DocumentView {
        DocumentView { source: self.source@, title: self.title@ }
    }
}

/// The title of a document made without one.
pub open spec fn untitled() -> Seq<char> {
    seq!['U', 'n', 't', 'i', 't', 'l', 'e', 'd', ' ', 'M', 'a', 'r', 'k', 'd', 'o', 'w', 'n']
}

/// The title used when a path has no file name.
pub open spec fn fallback_title() -> Seq<char> {
    seq!['M', 'a', 'r', 'k', 'd', 'o', 'w', 'n']
}

/// The title of a document read from `path`: the path's file name, or
/// `Markdown` when it has none.
pub open spec fn path_title(path: Seq<char>) -> Seq<char> {
    match file_name(path) {
        Some(name) => name,
        None => fallback_title(),
    }
}

impl MarkdownDocument {
    /// A document titled `Untitled Markdown`.
    pub fn new(source: &str) -> (d: Self)
        ensures
            d@.source == source@,
            d@.title == untitled(),
    {
        let t = vec!['U', 'n', 't', 'i', 't', 'l', 'e', 'd', ' ', 'M', 'a', 'r', 'k', 'd', 'o', 'w', 'n'];
        assert(t@ =~= untitled());
        MarkdownDocument { source: source.to_owned(), title: string_from_chars(t.as_slice()) }
    }

    pub fn with_title(source: &str, title: &str) -> (d: Self)
        ensures
            d@.source == source@,
            d@.title == title@,
    {
        MarkdownDocument { source: source.to_owned(), title: title.to_owned() }
    }

    /// A document titled by the file name of `path` (`Markdown` when the
    /// path has none).
    pub fn from_path(source: &str, path: &str) -> (d: Self)
        ensures
            d@.source == source@,
            d@.title == path_title(path@),
    {
        let p = chars_of(path);
        let title = match path_file_name(p.as_slice()) {
            Some(name) => string_from_chars(name.as_slice()),
            None => {
                let t = vec!['M', 'a', 'r', 'k', 'd', 'o', 'w', 'n'];
                assert(t@ =~= fallback_title());
                string_from_chars(t.as_slice())
            },
        };
        MarkdownDocument { source: source.to_owned(), title }
    }

    pub fn source(&self) -> (s: &str)
        ensures
            s@ == self@.source,
    {
        self.source.as_str()
    }

    pub fn title(&self) -> (t: &str)
        ensures
            t@ == self@.title,
    {
        self.title.as_str()
    }
}

/// A frontend that turns a document into its own kind of output.
pub trait FrontendRenderer {
    type Output;

    fn render_document(&self, document: &MarkdownDocument) -> Self::Output;
}

/// Renders documents as terminal text.
#[derive(Debug, Clone, Copy, PartialEq, Eq)]
pub struct TerminalRenderer {
    options: RenderOptions,
}

impl View for TerminalRenderer {
    type V = RenderOptions;

    closed spec fn view(&self) -> RenderOptions {
        self.options
    }
}

impl TerminalRenderer {
    pub fn new(options: RenderOptions) -> (r: Self)
        ensures
            r@ == options,
    {
        TerminalRenderer { options }
    }
}

impl FrontendRenderer for TerminalRenderer {
    type Output = String;

    fn render_document(&self, document: &MarkdownDocument) -> (text: String)
        ensures
            text@ == render_spec(self@, markdown_events(document@.source, false)),
    {
        render(document.source(), self.options)
    }
}

/// Renders documents as standalone HTML pages.
#[derive(Debug, Clone, Copy, PartialEq, Eq)]
pub struct HtmlRenderer;

impl Default for HtmlRenderer {
    fn default() -> (r: Self)
        ensures
            r == HtmlRenderer,
    {
        HtmlRenderer
    }
}

impl FrontendRenderer for HtmlRenderer {
    type Output = String;

    fn render_document(&self, document: &MarkdownDocument) -> (page: String)
        ensures
            page@ == html_page(escape(document@.title), sanitized(markdown_html(document@.source))),
    {
        render_html_document(document)
    }
}

/// The terminal text for `markdown`: the events that `pulldown_cmark`
/// parses from it, rendered as `render_events` does.
pub fn render(markdown: &str, options: RenderOptions) -> (text: String)
    ensures
        text@ == render_spec(options, markdown_events(markdown@, false)),
{
    let events = parse_events(markdown, false);
    render_events(events.as_slice(), options)
}

/// A standalone HTML page for `markdown`, titled `Untitled Markdown`.
pub fn render_html(markdown: &str) -> (page: String)
    ensures
        page@ == html_page(escape(untitled()), sanitized(markdown_html(markdown@))),
{
    let document = MarkdownDocument::new(markdown);
    HtmlRenderer.render_document(&document)
}

/// The page's text up to the title.
pub const PAGE_HEAD: &'static str = r#"<!doctype html>
<html lang="en">
<head>
<meta charset="utf-8">
<meta name="viewport" content="width=device-width, initial-scale=1">
<title>"#;

/// The page's text from the end of the title to the start of the body: the
/// stylesheet and the opening of `<main>`.
pub const PAGE_STYLE: &'static str = r#"</title>
<style>
:root {
  color-scheme: light dark;
  --bg: #f8f7f4;
  --fg: #242220;
  --muted: #68625c;
  --rule: #d8d2ca;
  --accent: #0f766e;
  --code-bg: #ebe6de;
  --quote-bg: #f1ede7;
}
@media (prefers-color-scheme: dark) {
  :root {
    --bg: #181715;
    --fg: #eeeae4;
    --muted: #aaa39a;
    --rule: #39342f;
    --accent: #5eead4;
    --code-bg: #25221f;
    --quote-bg: #211f1c;
  }
}
* { box-sizing: border-box; }
body {
  margin: 0;
  background: var(--bg);
  color: var(--fg);
  font: 16px/1.65 -apple-system, BlinkMacSystemFont, "Segoe UI", sans-serif;
}
main {
  width: min(860px, calc(100vw - 48px));
  margin: 0 auto;
  padding: 40px 0 64px;
}
h1, h2, h3, h4, h5, h6 {
  line-height: 1.2;
  letter-spacing: 0;
  margin: 1.7em 0 0.55em;
}
h1 { font-size: 2.35rem; margin-top: 0; }
h2 { font-size: 1.7rem; padding-bottom: 0.25rem; border-bottom: 1px solid var(--rule); }
h3 { font-size: 1.28rem; }
p, ul, ol, blockquote, pre, table { margin: 0 0 1.05rem; }
a { color: var(--accent); text-underline-offset: 0.18em; }
blockquote {
  border-left: 4px solid var(--accent);
  background: var(--quote-bg);
  margin-left: 0;
  padding: 0.75rem 1rem;
  color: var(--muted);
}
code {
  font-family: ui-monospace, SFMono-Regular, Menlo, Consolas, monospace;
  font-size: 0.92em;
  background: var(--code-bg);
  border-radius: 5px;
  padding: 0.12em 0.35em;
}
pre {
  overflow: auto;
  background: var(--code-bg);
  border: 1px solid var(--rule);
  border-radius: 8px;
  padding: 1rem;
}
pre code { background: transparent; padding: 0; }
table {
  width: 100%;
  border-collapse: collapse;
  display: block;
  overflow-x: auto;
}
th, td {
  border: 1px solid var(--rule);
  padding: 0.45rem 0.65rem;
  text-align: left;
}
th { background: var(--code-bg); }
img { max-width: 100%; height: auto; }
hr { border: 0; border-top: 1px solid var(--rule); margin: 2rem 0; }
</style>
</head>
<body>
<main>
"#;

/// The page's text after the body.
pub const PAGE_TAIL: &'static str = r#"
</main>
</body>
</html>
"#;

/// A complete HTML page with the given (escaped) title and body.
pub open spec fn html_page(title: Seq<char>, body: Seq<char>) -> Seq<char> {
    PAGE_HEAD@ + title + PAGE_STYLE@ + body + PAGE_TAIL@
}

/// The HTML-escaped form of one character.
pub open spec fn escape_char(c: char) -> Seq<char> {
    if c == '&' {
        seq!['&', 'a', 'm', 'p', ';']
    } else if c == '<' {
        seq!['&', 'l', 't', ';']
    } else if c == '>' {
        seq!['&', 'g', 't', ';']
    } else if c == '"' {
        seq!['&', 'q', 'u', 'o', 't', ';']
    } else if c == '\'' {
        seq!['&', '#', '3', '9', ';']
    } else {
        seq![c]
    }
}

/// `s` with `&`, `<`, `>`, `"` and `'` replaced by HTML character references.
pub open spec fn escape(s: Seq<char>) -> Seq<char>
    decreases s.len(),
{
    if s.len() == 0 {
        Seq::empty()
    } else {
        escape(s.drop_last()) + escape_char(s.last())
    }
}

/// Replaces `&`, `<`, `>`, `"` and `'` by HTML character references.
pub fn escape_html(value: &str) -> (escaped: String)
    ensures
        escaped@ == escape(value@),
{
    let chars = chars_of(value);
    let mut out: Vec<char> = Vec::new();
    let mut i: usize = 0;
    while i < chars.len()
        invariant
            i <= chars@.len(),
            chars@ == value@,
            out@ == escape(chars@.take(i as int)),
        decreases chars@.len() - i,
    {
        let c = chars[i];
        let ghost before = out@;
        if c == '&' {
            push_str(&mut out, "&amp;");
            proof { reveal_strlit("&amp;"); }
        } else if c == '<' {
            push_str(&mut out, "&lt;");
            proof { reveal_strlit("&lt;"); }
        } else if c == '>' {
            push_str(&mut out, "&gt;");
            proof { reveal_strlit("&gt;"); }
        } else if c == '"' {
            push_str(&mut out, "&quot;");
            proof { reveal_strlit("&quot;"); }
        } else if c == '\'' {
            push_str(&mut out, "&#39;");
            proof { reveal_strlit("&#39;"); }
        } else {
            out.push(c);
        }
        assert(out@ =~= before + escape_char(c));
        assert(chars@.take(i + 1).drop_last() == chars@.take(i as int));
        i = i + 1;
    }
    assert(chars@.take(chars@.len() as int) == chars@);
    string_from_chars(out.as_slice())
}

/// The body that `pulldown_cmark` makes for `source`, sanitized.
pub open spec fn safe_body(source: Seq<char>) -> Seq<char> {
    sanitized(markdown_html(source))
}

/// The exported body: sanitized, with ids on its headings.
pub open spec fn export_body(source: Seq<char>) -> Seq<char> {
    with_heading_ids(safe_body(source))
}

/// The page that the preview server sends: the exported body with
/// misdecoded UTF-8 repaired, and every non-ASCII character written as a
/// numeric reference.
pub open spec fn served_page(d: DocumentView) -> Seq<char> {
    ascii_refs(html_page(escape(d.title), repair_rounds(export_body(d.source), 3)))
}

fn page_of(title: &str, body: &str) -> (page: String)
    ensures
        page@ == html_page(escape(title@), body@),
{
    let escaped = escape_html(title);
    let mut out: Vec<char> = Vec::new();
    push_str(&mut out, PAGE_HEAD);
    push_str(&mut out, escaped.as_str());
    push_str(&mut out, PAGE_STYLE);
    push_str(&mut out, body);
    push_str(&mut out, PAGE_TAIL);
    assert(out@ =~= html_page(escape(title@), body@));
    string_from_chars(out.as_slice())
}

fn render_html_document(document: &MarkdownDocument) -> (page: String)
    ensures
        page@ == html_page(escape(document@.title), safe_body(document@.source)),
{
    let body = sanitize_html(html_body(document.source()).as_str());
    page_of(document.title(), body.as_str())
}

/// A standalone HTML page for a document, as `markview --html` prints it:
/// the sanitized body, with an id on each heading.
pub fn export_html(document: &MarkdownDocument) -> (page: String)
    ensures
        page@ == html_page(escape(document@.title), export_body(document@.source)),
{
    let body = sanitize_html(html_body(document.source()).as_str());
    let body = add_heading_ids(body.as_str());
    page_of(document.title(), body.as_str())
}

/// The page for a served document, before the server's shell goes round
/// it: the exported body with misdecoded UTF-8 repaired, every non-ASCII
/// character written as `&#N;`.
pub fn served_html(document: &MarkdownDocument) -> (page: String)
    ensures
        page@ == served_page(document@),
{
    let body = sanitize_html(html_body(document.source()).as_str());
    let body = add_heading_ids(body.as_str());
    let body = repair_utf8_mojibake(body.as_str());
    let page = page_of(document.title(), body.as_str());
    ascii_html(page.as_str())
}

} // verus!
