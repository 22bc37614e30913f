//! The terminal renderer: a single pass over Markdown events that wraps
//! words to a width, indents quotes and nested lists, numbers ordered lists,
//! prints code blocks verbatim, and adds ANSI styling when color is on.
use vstd::prelude::*;

use crate::markdown::{MdEvent, TagData, TagKind};
use crate::text::{
    all_ws, chars_of, ends_with, is_blank, lemma_ends_with_char, string_from_chars, push_all, repeat, split_words, trim_end, trimmed_end, words,
};

verus! {

/// How the terminal renderer lays out text.
#[derive(Debug, Clone, Copy, PartialEq, Eq, Structural)]
pub struct RenderOptions {
    /// Whether ANSI styling is emitted.
    pub color: bool,
    /// The target line width in columns.
    pub width: usize,
}

impl Default for RenderOptions {
    fn default() -> (o: Self)
        ensures
            o.color,
            o.width == 88,
    {
        RenderOptions { color: true, width: 88 }
    }
}

/// The ANSI attributes that the renderer emits.
#[derive(Debug, Clone, Copy, PartialEq, Eq, Structural)]
pub enum Style {
    Reset,
    Bold,
    Dim,
    Italic,
    Underline,
    Cyan,
    Green,
}

/// The escape sequence of a style.
pub open spec fn style_code(st: Style) -> Seq<char> {
    match st {
        Style::Reset => seq!['\x1b', '[', '0', 'm'],
        Style::Bold => seq!['\x1b', '[', '1', 'm'],
        Style::Dim => seq!['\x1b', '[', '2', 'm'],
        Style::Italic => seq!['\x1b', '[', '3', 'm'],
        Style::Underline => seq!['\x1b', '[', '4', 'm'],
        Style::Cyan => seq!['\x1b', '[', '3', '6', 'm'],
        Style::Green => seq!['\x1b', '[', '3', '2', 'm'],
    }
}

pub fn style_chars(st: Style) -> (v: Vec<char>)
    ensures
        v@ == style_code(st),
{
    let v = match st {
        Style::Reset => vec!['\x1b', '[', '0', 'm'],
        Style::Bold => vec!['\x1b', '[', '1', 'm'],
        Style::Dim => vec!['\x1b', '[', '2', 'm'],
        Style::Italic => vec!['\x1b', '[', '3', 'm'],
        Style::Underline => vec!['\x1b', '[', '4', 'm'],
        Style::Cyan => vec!['\x1b', '[', '3', '6', 'm'],
        Style::Green => vec!['\x1b', '[', '3', '2', 'm'],
    };
    assert(v@ =~= style_code(st));
    v
}

/// The state of the terminal renderer, as mathematical values.
pub struct TermState {
    /// Finished output.
    pub out: Seq<char>,
    /// The line being filled, style codes included.
    pub line: Seq<char>,
    /// What the line shows: the line without its style codes. Breaks and
    /// spacing are decided on it, so styling never changes the layout.
    pub text: Seq<char>,
    pub color: bool,
    pub width: nat,
    pub quote_depth: nat,
    /// One entry per open list: the next number of an ordered list, or
    /// `None` for a bullet list.
    pub lists: Seq<Option<int>>,
    pub code_block: bool,
    pub table_depth: nat,
    /// The destination of the link being rendered, shown after its text.
    pub pending_link: Option<Seq<char>>,
}

pub open spec fn initial_state(options: RenderOptions) -> TermState {
    TermState {
        out: Seq::empty(),
        line: Seq::empty(),
        text: Seq::empty(),
        color: options.color,
        width: options.width as nat,
        quote_depth: 0,
        lists: Seq::empty(),
        code_block: false,
        table_depth: 0,
        pending_link: None,
    }
}

/// The prefix of every line: `"> "` per enclosing quote, then two spaces per
/// list level beyond the first.
pub open spec fn indent(s: TermState) -> Seq<char> {
    repeat(seq!['>', ' '], s.quote_depth) + repeat(
        seq![' ', ' '],
        if s.lists.len() > 0 {
            (s.lists.len() - 1) as nat
        } else {
            0
        },
    )
}

/// Moves a non-blank line, without trailing whitespace, to the output, and
/// starts an empty line.
#[verifier::opaque]
pub open spec fn flush_line(s: TermState) -> TermState {
    TermState {
        out: if all_ws(s.text) {
            s.out
        } else {
            s.out + trim_end(s.line) + seq!['\n']
        },
        line: Seq::empty(),
        text: Seq::empty(),
        ..s
    }
}

/// Flushes the line and makes sure the output ends with an empty line.
#[verifier::opaque]
pub open spec fn blank(s: TermState) -> TermState {
    let t = flush_line(s);
    if ends_with(t.out, seq!['\n', '\n']) {
        t
    } else {
        TermState { out: t.out.push('\n'), ..t }
    }
}

/// Punctuation that is glued to the previous word.
pub open spec fn attaches(w: Seq<char>) -> bool {
    ||| w == seq!['.']
    ||| w == seq![',']
    ||| w == seq![':']
    ||| w == seq![';']
    ||| w == seq!['!']
    ||| w == seq!['?']
    ||| w == seq![')']
    ||| w == seq![']']
    ||| w == seq!['}']
    ||| w == seq!['\'']
    ||| w == seq!['"']
}

/// The widest a line may grow before the next word goes to a new line.
pub open spec fn line_limit(s: TermState) -> int {
    let lim: int = indent(s).len() as int + 20;
    if s.width >= lim {
        s.width as int
    } else {
        lim
    }
}

/// Adds a word, first breaking the line when the word would overflow it;
/// widths and spacing are measured on what the line shows.
#[verifier::opaque]
pub open spec fn push_word(s: TermState, w: Seq<char>) -> TermState {
    let projected = s.text.len() + w.len() + if s.text.len() > 0 {
        1int
    } else {
        0int
    };
    let t = if projected > line_limit(s) && !all_ws(s.text) {
        flush_line(s)
    } else {
        s
    };
    let gap = if t.text.len() == 0 {
        indent(s)
    } else if !ends_with(t.text, seq![' ']) && !attaches(w) {
        seq![' ']
    } else {
        Seq::empty()
    };
    TermState { line: t.line + gap + w, text: t.text + gap + w, ..t }
}

pub open spec fn push_words(s: TermState, ws: Seq<Seq<char>>) -> TermState
    decreases ws.len(),
{
    if ws.len() == 0 {
        s
    } else {
        push_word(push_words(s, ws.drop_last()), ws.last())
    }
}

/// Adds the words of a text; a text that ends with a newline also ends the line.
#[verifier::opaque]
pub open spec fn push_text(s: TermState, text: Seq<char>) -> TermState {
    let t = push_words(s, words(text));
    if ends_with(text, seq!['\n']) {
        flush_line(t)
    } else {
        t
    }
}

#[verifier::opaque]
pub open spec fn push_style(s: TermState, st: Style) -> TermState {
    if s.color {
        TermState { line: s.line + style_code(st), ..s }
    } else {
        s
    }
}

#[verifier::opaque]
pub open spec fn push_styled(s: TermState, text: Seq<char>, st: Style) -> TermState {
    push_style(push_text(push_style(s, st), text), Style::Reset)
}

pub open spec fn strip_cr(l: Seq<char>) -> Seq<char> {
    if l.len() > 0 && l.last() == '\r' {
        l.drop_last()
    } else {
        l
    }
}

/// Lines read so far and the line still being read: the state behind `str::lines`.
pub open spec fn line_scan(s: Seq<char>) -> (Seq<Seq<char>>, Seq<char>)
    decreases s.len(),
{
    if s.len() == 0 {
        (Seq::empty(), Seq::empty())
    } else {
        let (done, cur) = line_scan(s.drop_last());
        if s.last() == '\n' {
            (done.push(strip_cr(cur)), Seq::empty())
        } else {
            (done, cur.push(s.last()))
        }
    }
}

/// The lines of `s` without their `\n` or `\r\n` endings (`str::lines`).
pub open spec fn lines(s: Seq<char>) -> Seq<Seq<char>> {
    let (done, cur) = line_scan(s);
    if cur.len() > 0 {
        done.push(cur)
    } else {
        done
    }
}

/// One line of a code block as printed: indented by four more columns, dim
/// when color is on.
pub open spec fn code_line(s: TermState, l: Seq<char>) -> Seq<char> {
    (if s.color {
        style_code(Style::Dim)
    } else {
        Seq::empty()
    }) + indent(s) + seq![' ', ' ', ' ', ' '] + l + (if s.color {
        style_code(Style::Reset)
    } else {
        Seq::empty()
    }) + seq!['\n']
}

pub open spec fn code_lines(s: TermState, ls: Seq<Seq<char>>) -> Seq<char>
    decreases ls.len(),
{
    if ls.len() == 0 {
        Seq::empty()
    } else {
        code_lines(s, ls.drop_last()) + code_line(s, ls.last())
    }
}

#[verifier::opaque]
pub open spec fn write_code(s: TermState, code: Seq<char>) -> TermState {
    TermState { out: s.out + code_lines(s, lines(code)), ..s }
}

/// Removes trailing newlines until the text no longer ends with an empty line.
pub open spec fn strip_blank_tail(o: Seq<char>) -> Seq<char>
    decreases o.len(),
{
    if ends_with(o, seq!['\n', '\n']) {
        strip_blank_tail(o.drop_last())
    } else {
        o
    }
}

/// The final text: the last line flushed, trailing empty lines removed, and
/// a final newline after any text.
pub open spec fn finish(s: TermState) -> Seq<char> {
    let o = strip_blank_tail(flush_line(s).out);
    if o.len() > 0 && !ends_with(o, seq!['\n']) {
        o.push('\n')
    } else {
        o
    }
}

pub open spec fn digit_char(d: nat) -> char {
    (('0' as u8) + d) as char
}

/// The decimal digits of `n`.
pub open spec fn decimal(n: nat) -> Seq<char>
    decreases n,
{
    if n < 10 {
        seq![digit_char(n)]
    } else {
        decimal(n / 10).push(digit_char(n % 10))
    }
}

pub open spec fn data_text(data: TagData) -> Seq<char> {
    match data {
        TagData::Text(t) => t@,
        TagData::TextPair(a, _) => a@,
        _ => Seq::empty(),
    }
}

pub open spec fn data_number(data: TagData) -> Option<int> {
    match data {
        TagData::Number(Some(n)) => Some(n as int),
        _ => None,
    }
}

pub open spec fn image_label(dest: Seq<char>, title: Seq<char>) -> Seq<char> {
    if title.len() == 0 {
        seq!['[', 'i', 'm', 'a', 'g', 'e', ':', ' '] + dest + seq![']']
    } else {
        seq!['[', 'i', 'm', 'a', 'g', 'e', ':', ' '] + title + seq![' ', '-', ' '] + dest + seq![']']
    }
}

pub open spec fn image_title(data: TagData) -> Seq<char> {
    match data {
        TagData::TextPair(_, t) => t@,
        _ => Seq::empty(),
    }
}

/// The marker of the next list item, and the lists after it is taken.
pub open spec fn item_marker(lists: Seq<Option<int>>) -> (Seq<char>, Seq<Option<int>>) {
    if lists.len() > 0 && lists.last() is Some {
        let n = lists.last()->0;
        (decimal(n as nat) + seq!['.', ' '], lists.drop_last().push(Some(n + 1)))
    } else {
        (seq!['-', ' '], lists)
    }
}

/// What the start of an element does to the state.
pub open spec fn start(s: TermState, kind: TagKind, data: TagData) -> TermState {
    match kind {
        TagKind::Heading(level) => push_styled(
            blank(s),
            repeat(seq!['#'], level as nat) + seq![' '],
            Style::Cyan,
        ),
        TagKind::BlockQuote => TermState { quote_depth: s.quote_depth + 1, ..flush_line(s) },
        TagKind::CodeBlock => {
            let t = blank(s);
            let lang = data_text(data);
            let u = if lang.len() > 0 {
                flush_line(push_styled(t, lang, Style::Dim))
            } else {
                t
            };
            TermState { code_block: true, ..u }
        },
        TagKind::List(_) => {
            let t = flush_line(s);
            TermState { lists: t.lists.push(data_number(data)), ..t }
        },
        TagKind::Item => {
            let t = flush_line(s);
            let (marker, lists) = item_marker(t.lists);
            push_text(TermState { lists: lists, ..t }, marker)
        },
        TagKind::Emphasis => push_style(s, Style::Italic),
        TagKind::Strong => push_style(s, Style::Bold),
        TagKind::Strikethrough => push_text(s, seq!['~']),
        TagKind::Link => TermState { pending_link: Some(data_text(data)), ..s },
        TagKind::Image => push_styled(
            s,
            image_label(data_text(data), image_title(data)),
            Style::Underline,
        ),
        TagKind::Table => {
            let t = blank(s);
            TermState { table_depth: t.table_depth + 1, ..t }
        },
        TagKind::FootnoteDefinition => push_text(
            blank(s),
            seq!['[', '^'] + data_text(data) + seq![']', ':', ' '],
        ),
        _ => s,
    }
}

/// What the end of an element does to the state.
pub open spec fn end(s: TermState, kind: TagKind) -> TermState {
    match kind {
        TagKind::Paragraph => blank(flush_line(s)),
        TagKind::Heading(_) => blank(flush_line(s)),
        TagKind::BlockQuote => {
            let t = flush_line(s);
            TermState {
                quote_depth: if t.quote_depth > 0 {
                    (t.quote_depth - 1) as nat
                } else {
                    0
                },
                ..t
            }
        },
        TagKind::CodeBlock => blank(TermState { code_block: false, ..s }),
        TagKind::List(_) => {
            let t = flush_line(s);
            blank(
                TermState {
                    lists: if t.lists.len() > 0 {
                        t.lists.drop_last()
                    } else {
                        t.lists
                    },
                    ..t
                },
            )
        },
        TagKind::Item => flush_line(s),
        TagKind::Emphasis => push_style(s, Style::Reset),
        TagKind::Strong => push_style(s, Style::Reset),
        TagKind::Strikethrough => push_text(s, seq!['~']),
        TagKind::Link => match s.pending_link {
            Some(dest) => push_styled(
                TermState { pending_link: None, ..s },
                seq![' ', '('] + dest + seq![')'],
                Style::Dim,
            ),
            None => s,
        },
        TagKind::Table => blank(
            TermState {
                table_depth: if s.table_depth > 0 {
                    (s.table_depth - 1) as nat
                } else {
                    0
                },
                ..s
            },
        ),
        TagKind::TableHead => flush_line(s),
        TagKind::TableRow => flush_line(s),
        TagKind::TableCell => push_text(s, seq![' ', '|', ' ']),
        TagKind::FootnoteDefinition => blank(s),
        TagKind::DefinitionList => flush_line(s),
        TagKind::DefinitionListTitle => flush_line(s),
        TagKind::DefinitionListDefinition => flush_line(s),
        _ => s,
    }
}

/// A horizontal rule: `─` repeated up to the width, at most 80 times.
pub open spec fn rule_line(s: TermState) -> Seq<char> {
    repeat(
        seq!['\u{2500}'],
        if s.width < 80 {
            s.width
        } else {
            80
        },
    ) + seq!['\n']
}

/// What one event does to the state.
pub open spec fn step(s: TermState, e: MdEvent) -> TermState {
    match e {
        MdEvent::Start(kind, data) => start(s, kind, data),
        MdEvent::End(kind) => end(s, kind),
        MdEvent::Text(t) => if s.code_block {
            write_code(flush_line(s), t@)
        } else {
            push_text(s, t@)
        },
        MdEvent::Code(c) => push_styled(s, seq!['`'] + c@ + seq!['`'], Style::Green),
        MdEvent::Html(h) => push_text(s, h@),
        MdEvent::InlineHtml(h) => push_text(s, h@),
        MdEvent::SoftBreak => push_text(s, seq![' ']),
        MdEvent::HardBreak => flush_line(s),
        MdEvent::Rule => {
            let t = blank(s);
            blank(TermState { out: t.out + rule_line(t), ..t })
        },
        MdEvent::InlineMath(m) => push_styled(s, seq!['$'] + m@ + seq!['$'], Style::Green),
        MdEvent::DisplayMath(m) => blank(
            push_styled(blank(s), seq!['$', '$', '\n'] + m@ + seq!['\n', '$', '$'], Style::Green),
        ),
        MdEvent::FootnoteReference(r) => push_text(s, seq!['[', '^'] + r@ + seq![']']),
        MdEvent::TaskListMarker(checked) => push_text(
            s,
            if checked {
                seq!['[', 'x', ']', ' ']
            } else {
                seq!['[', ' ', ']', ' ']
            },
        ),
    }
}

/// The state after a sequence of events.
pub open spec fn run(s: TermState, events: Seq<MdEvent>) -> TermState
    decreases events.len(),
{
    if events.len() == 0 {
        s
    } else {
        step(run(s, events.drop_last()), events.last())
    }
}

/// The terminal text for a sequence of events.
pub open spec fn render_spec(options: RenderOptions, events: Seq<MdEvent>) -> Seq<char> {
    finish(run(initial_state(options), events))
}

/// The decimal digits of `n`.
pub fn decimal_chars(n: u128) -> (v: Vec<char>)
    ensures
        v@ == decimal(n as nat),
    decreases n,
{
    if n < 10 {
        let c = (('0' as u8) + (n as u8)) as char;
        vec![c]
    } else {
        let mut v = decimal_chars(n / 10);
        let d = (n % 10) as u8;
        v.push((('0' as u8) + d) as char);
        v
    }
}

/// The lines of `s`, without their `\n` or `\r\n` endings.
pub fn split_lines(s: &[char]) -> (ls: Vec<Vec<char>>)
    ensures
        ls@.len() == lines(s@).len(),
        forall|k: int| 0 <= k < ls@.len() ==> #[trigger] ls@[k]@ == lines(s@)[k],
{
    let mut done: Vec<Vec<char>> = Vec::new();
    let mut cur: Vec<char> = Vec::new();
    let mut i: usize = 0;
    while i < s.len()
        invariant
            i <= s@.len(),
            done@.len() == line_scan(s@.take(i as int)).0.len(),
            forall|k: int|
                0 <= k < done@.len() ==> #[trigger] done@[k]@ == line_scan(s@.take(i as int)).0[k],
            cur@ == line_scan(s@.take(i as int)).1,
        decreases s@.len() - i,
    {
        let c = s[i];
        assert(s@.take(i + 1).drop_last() == s@.take(i as int));
        if c == '\n' {
            let mut l = cur;
            if l.len() > 0 && l[l.len() - 1] == '\r' {
                l.pop();
            }
            done.push(l);
            cur = Vec::new();
        } else {
            cur.push(c);
        }
        i = i + 1;
    }
    assert(s@.take(s@.len() as int) == s@);
    if cur.len() > 0 {
        done.push(cur);
    }
    done
}

/// Whether `w` is punctuation that is glued to the previous word.
pub fn attaches_to_previous(w: &[char]) -> (b: bool)
    ensures
        b == attaches(w@),
{
    if w.len() != 1 {
        return false;
    }
    let c = w[0];
    assert(w@ =~= seq![c]);
    c == '.' || c == ',' || c == ':' || c == ';' || c == '!' || c == '?' || c == ')' || c == ']'
        || c == '}' || c == '\'' || c == '"'
}

/// Whether `v` ends with an empty line (`"\n\n"`).
pub fn ends_with_empty_line(v: &[char]) -> (b: bool)
    ensures
        b == ends_with(v@, seq!['\n', '\n']),
{
    let n = v.len();
    if n < 2 {
        return false;
    }
    assert(v@.subrange(n - 2, n as int) =~= seq![v@[n - 2], v@[n - 1]]);
    v[n - 2] == '\n' && v[n - 1] == '\n'
}

pub open spec fn list_view(l: Seq<Option<u128>>) -> Seq<Option<int>> {
    l.map_values(|o: Option<u128>| match o {
        Some(n) => Some(n as int),
        None => None,
    })
}

pub open spec fn link_view(l: Option<Vec<char>>) -> Option<Seq<char>> {
    match l {
        Some(v) => Some(v@),
        None => None,
    }
}

/// The terminal renderer's working state.
struct Renderer {
    out: Vec<char>,
    options: RenderOptions,
    line: Vec<char>,
    text: Vec<char>,
    quote_depth: usize,
    list_stack: Vec<Option<u128>>,
    code_block: bool,
    table_depth: usize,
    pending_link: Option<Vec<char>>,
}

impl Renderer {
    spec fn state(&self) -> TermState {
        TermState {
            out: self.out@,
            line: self.line@,
            text: self.text@,
            color: self.options.color,
            width: self.options.width as nat,
            quote_depth: self.quote_depth as nat,
            lists: list_view(self.list_stack@),
            code_block: self.code_block,
            table_depth: self.table_depth as nat,
            pending_link: link_view(self.pending_link),
        }
    }

    /// After `k` events no depth exceeds `k`, and no list number exceeds
    /// `u64::MAX + k`.
    spec fn within(&self, k: int) -> bool {
        &&& self.quote_depth <= k
        &&& self.table_depth <= k
        &&& forall|i: int|
            0 <= i < self.list_stack@.len() ==> (#[trigger] self.list_stack@[i] matches Some(n)
                ==> n <= u64::MAX + k)
    }

    /// The fields that only element starts and ends change.
    spec fn same_frame(&self, other: &Self) -> bool {
        &&& self.options == other.options
        &&& self.quote_depth == other.quote_depth
        &&& self.list_stack@ == other.list_stack@
        &&& self.code_block == other.code_block
        &&& self.table_depth == other.table_depth
        &&& self.pending_link == other.pending_link
    }

    fn new(options: RenderOptions) -> (r: Self)
        ensures
            r.state() == initial_state(options),
            r.within(0),
    {
        let r = Renderer {
            out: Vec::new(),
            options,
            line: Vec::new(),
            text: Vec::new(),
            quote_depth: 0,
            list_stack: Vec::new(),
            code_block: false,
            table_depth: 0,
            pending_link: None,
        };
        assert(list_view(r.list_stack@) =~= Seq::<Option<int>>::empty());
        r
    }

    fn indent(&self) -> (v: Vec<char>)
        ensures
            v@ == indent(self.state()),
    {
        let mut v: Vec<char> = Vec::new();
        let mut i: usize = 0;
        while i < self.quote_depth
            invariant
                i <= self.quote_depth,
                v@ == repeat(seq!['>', ' '], i as nat),
            decreases self.quote_depth - i,
        {
            v.push('>');
            v.push(' ');
            i = i + 1;
            assert(v@ =~= repeat(seq!['>', ' '], (i - 1) as nat) + seq!['>', ' ']);
        }
        let levels: usize = if self.list_stack.len() > 0 {
            self.list_stack.len() - 1
        } else {
            0
        };
        let ghost quotes = v@;
        let mut j: usize = 0;
        while j < levels
            invariant
                j <= levels,
                v@ == quotes + repeat(seq![' ', ' '], j as nat),
            decreases levels - j,
        {
            v.push(' ');
            v.push(' ');
            j = j + 1;
            assert(v@ =~= quotes + (repeat(seq![' ', ' '], (j - 1) as nat) + seq![' ', ' ']));
        }
        v
    }

    fn flush_line(&mut self)
        ensures
            final(self).state() == flush_line(old(self).state()),
            final(self).same_frame(old(self)),
    {
        reveal(flush_line);
        let ghost s0 = self.state();
        if !is_blank(self.text.as_slice()) {
            let t = trimmed_end(self.line.as_slice());
            push_all(&mut self.out, t.as_slice());
            self.out.push('\n');
            assert(self.out@ =~= s0.out + trim_end(s0.line) + seq!['\n']);
        }
        self.line = Vec::new();
        self.text = Vec::new();
        assert(self.state() =~= flush_line(s0));
    }

    fn blank(&mut self)
        ensures
            final(self).state() == blank(old(self).state()),
            final(self).same_frame(old(self)),
    {
        reveal(blank);
        self.flush_line();
        if !ends_with_empty_line(self.out.as_slice()) {
            self.out.push('\n');
        }
    }

    fn push_word(&mut self, w: &[char])
        ensures
            final(self).state() == push_word(old(self).state(), w@),
            final(self).same_frame(old(self)),
    {
        reveal(push_word);
        reveal(flush_line);
        let ind = self.indent();
        let floor: u128 = ind.len() as u128 + 20;
        let limit: u128 = if self.options.width as u128 >= floor {
            self.options.width as u128
        } else {
            floor
        };
        let sep: u128 = if self.text.len() > 0 {
            1
        } else {
            0
        };
        let projected: u128 = self.text.len() as u128 + w.len() as u128 + sep;
        let ghost s0 = self.state();
        assert(limit == line_limit(s0));
        if projected > limit && !is_blank(self.text.as_slice()) {
            self.flush_line();
        }
        let ghost t = self.state();
        assert(t == (if s0.text.len() + w@.len() + (if s0.text.len() > 0 {
            1int
        } else {
            0int
        }) > line_limit(s0) && !all_ws(s0.text) {
            flush_line(s0)
        } else {
            s0
        }));
        let mut gap: Vec<char> = Vec::new();
        if self.text.len() == 0 {
            gap = ind;
        } else if self.text[self.text.len() - 1] != ' ' && !attaches_to_previous(w) {
            gap.push(' ');
        }
        proof {
            lemma_ends_with_char(t.text, ' ');
        }
        let ghost g = if t.text.len() == 0 {
            indent(s0)
        } else if !ends_with(t.text, seq![' ']) && !attaches(w@) {
            seq![' ']
        } else {
            Seq::empty()
        };
        assert(gap@ =~= g);
        push_all(&mut self.line, gap.as_slice());
        push_all(&mut self.line, w);
        push_all(&mut self.text, gap.as_slice());
        push_all(&mut self.text, w);
        assert(self.state() =~= push_word(s0, w@));
    }

    fn push_text(&mut self, text: &[char])
        ensures
            final(self).state() == push_text(old(self).state(), text@),
            final(self).same_frame(old(self)),
    {
        reveal(push_text);
        let ws = split_words(text);
        let ghost all = words(text@);
        let mut i: usize = 0;
        while i < ws.len()
            invariant
                i <= ws@.len(),
                ws@.len() == all.len(),
                forall|k: int| 0 <= k < ws@.len() ==> #[trigger] ws@[k]@ == all[k],
                self.state() == push_words(old(self).state(), all.take(i as int)),
                self.same_frame(old(self)),
            decreases ws@.len() - i,
        {
            assert(all.take(i + 1).drop_last() == all.take(i as int));
            self.push_word(ws[i].as_slice());
            i = i + 1;
        }
        assert(all.take(all.len() as int) == all);
        let n = text.len();
        proof {
            lemma_ends_with_char(text@, '\n');
        }
        if n > 0 && text[n - 1] == '\n' {
            self.flush_line();
        }
    }

    fn push_style(&mut self, st: Style)
        ensures
            final(self).state() == push_style(old(self).state(), st),
            final(self).same_frame(old(self)),
    {
        reveal(push_style);
        if self.options.color {
            let code = style_chars(st);
            push_all(&mut self.line, code.as_slice());
        }
    }

    fn push_styled(&mut self, text: &[char], st: Style)
        ensures
            final(self).state() == push_styled(old(self).state(), text@, st),
            final(self).same_frame(old(self)),
    {
        reveal(push_styled);
        self.push_style(st);
        self.push_text(text);
        self.push_style(Style::Reset);
    }

    fn write_code(&mut self, code: &[char])
        ensures
            final(self).state() == write_code(old(self).state(), code@),
            final(self).same_frame(old(self)),
    {
        reveal(write_code);
        let ls = split_lines(code);
        let ghost all = lines(code@);
        let ghost s0 = old(self).state();
        let ind = self.indent();
        let mut i: usize = 0;
        while i < ls.len()
            invariant
                i <= ls@.len(),
                ls@.len() == all.len(),
                forall|k: int| 0 <= k < ls@.len() ==> #[trigger] ls@[k]@ == all[k],
                ind@ == indent(s0),
                s0 == old(self).state(),
                self.state() == (TermState {
                    out: s0.out + code_lines(s0, all.take(i as int)),
                    ..s0
                }),
                self.same_frame(old(self)),
            decreases ls@.len() - i,
        {
            let ghost before = self.out@;
            if self.options.color {
                let dim = style_chars(Style::Dim);
                push_all(&mut self.out, dim.as_slice());
            }
            push_all(&mut self.out, ind.as_slice());
            push_all(&mut self.out, &['\u{20}', '\u{20}', '\u{20}', '\u{20}']);
            push_all(&mut self.out, ls[i].as_slice());
            if self.options.color {
                let reset = style_chars(Style::Reset);
                push_all(&mut self.out, reset.as_slice());
            }
            self.out.push('\n');
            assert(self.out@ =~= before + code_line(s0, all[i as int]));
            assert(all.take(i + 1).drop_last() == all.take(i as int));
            assert(all.take(i + 1).last() == all[i as int]);
            assert(code_lines(s0, all.take(i + 1)) == code_lines(s0, all.take(i as int))
                + code_line(s0, all[i as int]));
            assert(self.out@ =~= s0.out + code_lines(s0, all.take(i + 1)));
            i = i + 1;
        }
        assert(all.take(all.len() as int) == all);
    }

    fn finish(self) -> (text: Vec<char>)
        ensures
            text@ == finish(self.state()),
    {
        reveal(flush_line);
        let mut r = self;
        r.flush_line();
        let ghost flushed = r.out@;
        while ends_with_empty_line(r.out.as_slice())
            invariant
                strip_blank_tail(r.out@) == strip_blank_tail(flushed),
            decreases r.out@.len(),
        {
            assert(strip_blank_tail(r.out@) == strip_blank_tail(r.out@.drop_last()));
            r.out.pop();
        }
        assert(strip_blank_tail(r.out@) == r.out@);
        let n = r.out.len();
        if n > 0 && r.out[n - 1] != '\n' {
            r.out.push('\n');
        }
        proof {
            lemma_ends_with_char(strip_blank_tail(flushed), '\n');
        }
        r.out
    }

    #[verifier::rlimit(60)]
    #[verifier::spinoff_prover]
    fn start(&mut self, kind: &TagKind, data: &TagData, Ghost(k): Ghost<int>)
        requires
            old(self).within(k),
            0 <= k < usize::MAX,
        ensures
            final(self).state() == start(old(self).state(), *kind, *data),
            final(self).within(k + 1),
            final(self).options == old(self).options,
    {
        let ghost s0 = self.state();
        match kind {
            TagKind::Heading(level) => {
                self.blank();
                let prefix = heading_prefix(*level);
                self.push_styled(prefix.as_slice(), Style::Cyan);
            },
            TagKind::BlockQuote => {
                self.flush_line();
                self.quote_depth = self.quote_depth + 1;
            },
            TagKind::CodeBlock => {
                self.blank();
                let lang = data_text_chars(data);
                if lang.len() > 0 {
                    self.push_styled(lang.as_slice(), Style::Dim);
                    self.flush_line();
                }
                self.code_block = true;
            },
            TagKind::List(_) => {
                self.flush_line();
                let first: Option<u128> = match data {
                    TagData::Number(Some(n)) => Some(*n as u128),
                    _ => None,
                };
                let ghost before = self.list_stack@;
                self.list_stack.push(first);
                assert(list_view(self.list_stack@) =~= list_view(before).push(data_number(*data)));
            },
            TagKind::Item => {
                self.flush_line();
                let ghost t = self.state();
                let n = self.list_stack.len();
                let mut marker: Vec<char>;
                if n > 0 && self.list_stack[n - 1].is_some() {
                    let next: u128 = match self.list_stack[n - 1] {
                        Some(v) => v,
                        None => 0,
                    };
                    marker = decimal_chars(next);
                    marker.push('.');
                    marker.push(' ');
                    let ghost before = self.list_stack@;
                    self.list_stack.set(n - 1, Some(next + 1));
                    assert(list_view(self.list_stack@) =~= list_view(before).drop_last().push(
                        Some(next + 1),
                    ));
                } else {
                    marker = vec!['-', ' '];
                }
                assert(marker@ =~= item_marker(t.lists).0);
                assert(self.state() == (TermState { lists: item_marker(t.lists).1, ..t }));
                self.push_text(marker.as_slice());
            },
            TagKind::Emphasis => self.push_style(Style::Italic),
            TagKind::Strong => self.push_style(Style::Bold),
            TagKind::Strikethrough => {
                let t = vec!['~'];
                assert(t@ =~= seq!['~']);
                self.push_text(t.as_slice());
            },
            TagKind::Link => {
                self.pending_link = Some(data_text_chars(data));
            },
            TagKind::Image => {
                let label = image_label_chars(data);
                self.push_styled(label.as_slice(), Style::Underline);
            },
            TagKind::Table => {
                self.blank();
                self.table_depth = self.table_depth + 1;
            },
            TagKind::FootnoteDefinition => {
                self.blank();
                let mut label: Vec<char> = vec!['[', '^'];
                let name = data_text_chars(data);
                push_all(&mut label, name.as_slice());
                let tail = vec![']', ':', ' '];
                push_all(&mut label, tail.as_slice());
                self.push_text(label.as_slice());
            },
            _ => {},
        }
        assert(self.state() == start(s0, *kind, *data));
    }

    #[verifier::rlimit(60)]
    #[verifier::spinoff_prover]
    fn end(&mut self, kind: &TagKind, Ghost(k): Ghost<int>)
        requires
            old(self).within(k),
        ensures
            final(self).state() == end(old(self).state(), *kind),
            final(self).within(k),
            final(self).options == old(self).options,
    {
        match kind {
            TagKind::Paragraph | TagKind::Heading(_) => {
                self.flush_line();
                self.blank();
            },
            TagKind::BlockQuote => {
                self.flush_line();
                self.quote_depth = if self.quote_depth > 0 {
                    self.quote_depth - 1
                } else {
                    0
                };
            },
            TagKind::CodeBlock => {
                self.code_block = false;
                self.blank();
            },
            TagKind::List(_) => {
                self.flush_line();
                let ghost before = self.list_stack@;
                self.list_stack.pop();
                proof {
                    if before.len() > 0 {
                        assert(list_view(self.list_stack@) =~= list_view(before).drop_last());
                    }
                }
                self.blank();
            },
            TagKind::Item => self.flush_line(),
            TagKind::Emphasis | TagKind::Strong => self.push_style(Style::Reset),
            TagKind::Strikethrough => {
                let t = vec!['~'];
                assert(t@ =~= seq!['~']);
                self.push_text(t.as_slice());
            },
            TagKind::Link => {
                let pending = self.pending_link.take();
                match pending {
                    Some(dest) => {
                        let mut label: Vec<char> = vec![' ', '('];
                        push_all(&mut label, dest.as_slice());
                        label.push(')');
                        assert(label@ =~= seq![' ', '('] + dest@ + seq![')']);
                        self.push_styled(label.as_slice(), Style::Dim);
                    },
                    None => {},
                }
            },
            TagKind::Table => {
                self.table_depth = if self.table_depth > 0 {
                    self.table_depth - 1
                } else {
                    0
                };
                self.blank();
            },
            TagKind::TableHead | TagKind::TableRow => self.flush_line(),
            TagKind::TableCell => {
                let t = vec![' ', '|', ' '];
                assert(t@ =~= seq![' ', '|', ' ']);
                self.push_text(t.as_slice());
            },
            TagKind::FootnoteDefinition => self.blank(),
            TagKind::DefinitionList | TagKind::DefinitionListTitle
            | TagKind::DefinitionListDefinition => self.flush_line(),
            _ => {},
        }
    }

    #[verifier::rlimit(60)]
    #[verifier::spinoff_prover]
    fn event(&mut self, e: &MdEvent, Ghost(k): Ghost<int>)
        requires
            old(self).within(k),
            0 <= k < usize::MAX,
        ensures
            final(self).state() == step(old(self).state(), *e),
            final(self).within(k + 1),
            final(self).options == old(self).options,
    {
        match e {
            MdEvent::Start(kind, data) => self.start(kind, data, Ghost(k)),
            MdEvent::End(kind) => self.end(kind, Ghost(k)),
            MdEvent::Text(t) => {
                let text = chars_of(t.as_str());
                if self.code_block {
                    self.flush_line();
                    self.write_code(text.as_slice());
                } else {
                    self.push_text(text.as_slice());
                }
            },
            MdEvent::Code(c) => {
                let text = {
                    let open = vec!['`'];
                    let close = vec!['`'];
                    assert(open@ =~= seq!['`']);
                    assert(close@ =~= seq!['`']);
                    enclosed(open.as_slice(), c.as_str(), close.as_slice())
                };
                self.push_styled(text.as_slice(), Style::Green);
            },
            MdEvent::Html(h) | MdEvent::InlineHtml(h) => {
                let text = chars_of(h.as_str());
                self.push_text(text.as_slice());
            },
            MdEvent::SoftBreak => {
                let t = vec![' '];
                assert(t@ =~= seq![' ']);
                self.push_text(t.as_slice());
            },
            MdEvent::HardBreak => self.flush_line(),
            MdEvent::Rule => {
                self.blank();
                let count: usize = if self.options.width < 80 {
                    self.options.width
                } else {
                    80
                };
                let ghost t = self.state();
                let ghost before = self.out@;
                let mut i: usize = 0;
                while i < count
                    invariant
                        i <= count,
                        self.out@ == before + repeat(seq!['\u{2500}'], i as nat),
                        self.same_frame(old(self)),
                        self.line@ == t.line,
                        self.text@ == t.text,
                    decreases count - i,
                {
                    self.out.push('\u{2500}');
                    i = i + 1;
                    assert(self.out@ =~= before + (repeat(seq!['\u{2500}'], (i - 1) as nat) + seq![
                        '\u{2500}',
                    ]));
                }
                self.out.push('\n');
                assert(self.out@ =~= t.out + rule_line(t));
                self.blank();
            },
            MdEvent::InlineMath(m) => {
                let text = {
                    let open = vec!['$'];
                    let close = vec!['$'];
                    assert(open@ =~= seq!['$']);
                    assert(close@ =~= seq!['$']);
                    enclosed(open.as_slice(), m.as_str(), close.as_slice())
                };
                self.push_styled(text.as_slice(), Style::Green);
            },
            MdEvent::DisplayMath(m) => {
                self.blank();
                let text = {
                    let open = vec!['$', '$', '\n'];
                    let close = vec!['\n', '$', '$'];
                    assert(open@ =~= seq!['$', '$', '\n']);
                    assert(close@ =~= seq!['\n', '$', '$']);
                    enclosed(open.as_slice(), m.as_str(), close.as_slice())
                };
                self.push_styled(text.as_slice(), Style::Green);
                self.blank();
            },
            MdEvent::FootnoteReference(r) => {
                let open = vec!['[', '^'];
                let close = vec![']'];
                assert(open@ =~= seq!['[', '^']);
                assert(close@ =~= seq![']']);
                let text = enclosed(open.as_slice(), r.as_str(), close.as_slice());
                self.push_text(text.as_slice());
            },
            MdEvent::TaskListMarker(checked) => {
                if *checked {
                    {
                let t = vec!['[', 'x', ']', ' '];
                assert(t@ =~= seq!['[', 'x', ']', ' ']);
                self.push_text(t.as_slice());
            };
                } else {
                    {
                let t = vec!['[', ' ', ']', ' '];
                assert(t@ =~= seq!['[', ' ', ']', ' ']);
                self.push_text(t.as_slice());
            };
                }
            },
        }
    }
}

/// `open`, then the characters of `mid`, then `close`.
fn enclosed(open: &[char], mid: &str, close: &[char]) -> (v: Vec<char>)
    ensures
        v@ == open@ + mid@ + close@,
{
    let mut v: Vec<char> = Vec::new();
    push_all(&mut v, open);
    let m = chars_of(mid);
    push_all(&mut v, m.as_slice());
    push_all(&mut v, close);
    v
}

/// `#` repeated `level` times, then a space.
fn heading_prefix(level: u8) -> (v: Vec<char>)
    ensures
        v@ == repeat(seq!['#'], level as nat) + seq![' '],
{
    let mut v: Vec<char> = Vec::new();
    let mut i: u8 = 0;
    while i < level
        invariant
            i <= level,
            v@ == repeat(seq!['#'], i as nat),
        decreases level - i,
    {
        v.push('#');
        i = i + 1;
        assert(v@ =~= repeat(seq!['#'], (i - 1) as nat) + seq!['#']);
    }
    v.push(' ');
    v
}

fn data_text_chars(data: &TagData) -> (v: Vec<char>)
    ensures
        v@ == data_text(*data),
{
    match data {
        TagData::Text(t) => chars_of(t.as_str()),
        TagData::TextPair(a, _) => chars_of(a.as_str()),
        _ => Vec::new(),
    }
}

fn image_label_chars(data: &TagData) -> (v: Vec<char>)
    ensures
        v@ == image_label(data_text(*data), image_title(*data)),
{
    let dest = data_text_chars(data);
    let title: Vec<char> = match data {
        TagData::TextPair(_, t) => chars_of(t.as_str()),
        _ => Vec::new(),
    };
    let mut v: Vec<char> = vec!['[', 'i', 'm', 'a', 'g', 'e', ':', ' '];
    if title.len() > 0 {
        push_all(&mut v, title.as_slice());
        push_all(&mut v, &[' ', '-', ' ']);
    }
    push_all(&mut v, dest.as_slice());
    v.push(']');
    v
}

/// Renders Markdown events as terminal text: words wrapped to
/// `options.width` (or wider where indentation needs it), quotes and nested
/// lists indented, ordered lists numbered, code blocks printed verbatim,
/// and ANSI styling when `options.color` is set.
pub fn render_events(events: &[MdEvent], options: RenderOptions) -> (text: String)
    ensures
        text@ == render_spec(options, events@),
{
    let mut r = Renderer::new(options);
    let mut i: usize = 0;
    while i < events.len()
        invariant
            i <= events@.len(),
            r.state() == run(initial_state(options), events@.take(i as int)),
            r.within(i as int),
            r.options == options,
        decreases events@.len() - i,
    {
        assert(events@.take(i + 1).drop_last() == events@.take(i as int));
        r.event(&events[i], Ghost(i as int));
        i = i + 1;
    }
    assert(events@.take(events@.len() as int) == events@);
    let out = r.finish();
    string_from_chars(out.as_slice())
}

} // verus!
