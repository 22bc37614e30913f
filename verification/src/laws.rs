//! Properties that hold of every input, proved over the functions' own
//! specifications.
use vstd::prelude::*;

use crate::cli::{
    flag_help, flag_no_color, flag_short_help, flag_short_width, flag_width, flag_width_eq,
    parse_args, port_value, flag_port_eq, CliFailure, CliOutcome, flag_html, flag_serve, flag_port, flag_recurse, strip_prefixes, width_value, CliSpec,
};
use crate::document::{escape, escape_char};
use crate::gui::{gui_parse, GuiOutcome};
use crate::gui::{hex_lower, js_char, js_chars, js_literal};
use crate::markdown::{MdEvent, TagData, TagKind};
use crate::terminal::{
    blank, code_line, code_lines, data_text, decimal, digit_char, end, finish, flush_line,
    image_label, image_title, indent, initial_state, item_marker, line_scan, lines, push_style,
    push_styled, push_text, push_word, push_words, render_spec, rule_line, run, start, step,
    strip_blank_tail, strip_cr, style_code, write_code, RenderOptions, Style, TermState,
};
use crate::text::{
    ends_with, lemma_ends_with_char, repeat, starts_with, trim_end, word_scan, words,
};

verus! {

proof fn lemma_strip_blank_tail(o: Seq<char>)
    ensures
        !ends_with(strip_blank_tail(o), seq!['\n', '\n']),
    decreases o.len(),
{
    if ends_with(o, seq!['\n', '\n']) {
        lemma_strip_blank_tail(o.drop_last());
    }
}

/// Terminal output never ends with an empty line, and any non-empty output
/// ends with a newline.
pub proof fn terminal_output_ends_with_one_newline(options: RenderOptions, events: Seq<MdEvent>)
    ensures
        !ends_with(render_spec(options, events), seq!['\n', '\n']),
        render_spec(options, events).len() > 0 ==> render_spec(options, events).last() == '\n',
{
    let s = crate::terminal::run(crate::terminal::initial_state(options), events);
    let o = strip_blank_tail(flush_line(s).out);
    lemma_strip_blank_tail(flush_line(s).out);
    lemma_ends_with_char(o, '\n');
    let r = finish(s);
    if o.len() > 0 && !ends_with(o, seq!['\n']) {
        assert(r == o.push('\n'));
        assert(r.subrange(r.len() - 2, r.len() as int) =~= seq![o.last(), '\n']);
        lemma_ends_with_char(r, '\n');
    } else {
        assert(r == o);
    }
    lemma_ends_with_char(r, '\n');
}

/// No escape character (`\x1b`, which starts every ANSI sequence) occurs in `s`.
pub open spec fn no_escape(s: Seq<char>) -> bool {
    forall|i: int| 0 <= i < s.len() ==> #[trigger] s[i] != '\x1b'
}

/// No text that an event carries holds an escape character.
pub open spec fn event_is_plain(e: MdEvent) -> bool {
    match e {
        MdEvent::Start(_, data) => match data {
            TagData::Text(t) => no_escape(t@),
            TagData::TextPair(a, b) => no_escape(a@) && no_escape(b@),
            _ => true,
        },
        MdEvent::Text(t) => no_escape(t@),
        MdEvent::Code(t) => no_escape(t@),
        MdEvent::InlineMath(t) => no_escape(t@),
        MdEvent::DisplayMath(t) => no_escape(t@),
        MdEvent::Html(t) => no_escape(t@),
        MdEvent::InlineHtml(t) => no_escape(t@),
        MdEvent::FootnoteReference(t) => no_escape(t@),
        _ => true,
    }
}

pub open spec fn plain_state(s: TermState) -> bool {
    &&& !s.color
    &&& no_escape(s.out)
    &&& no_escape(s.line)
    &&& (s.pending_link matches Some(d) ==> no_escape(d))
}

proof fn lemma_concat(a: Seq<char>, b: Seq<char>)
    ensures
        no_escape(a + b) == (no_escape(a) && no_escape(b)),
{
    if no_escape(a) && no_escape(b) {
        assert forall|i: int| 0 <= i < (a + b).len() implies #[trigger] (a + b)[i] != '\x1b' by {
            if i < a.len() {
                assert((a + b)[i] == a[i]);
            } else {
                assert((a + b)[i] == b[i - a.len()]);
            }
        }
    }
    if no_escape(a + b) {
        assert forall|i: int| 0 <= i < a.len() implies #[trigger] a[i] != '\x1b' by {
            assert((a + b)[i] == a[i]);
        }
        assert forall|i: int| 0 <= i < b.len() implies #[trigger] b[i] != '\x1b' by {
            assert((a + b)[a.len() + i] == b[i]);
        }
    }
}

proof fn lemma_push(a: Seq<char>, c: char)
    ensures
        no_escape(a.push(c)) == (no_escape(a) && c != '\x1b'),
{
    assert(a.push(c) =~= a + seq![c]);
    lemma_concat(a, seq![c]);
    if no_escape(seq![c]) {
        assert(seq![c][0] == c);
    }
    if c != '\x1b' {
        assert forall|i: int| 0 <= i < seq![c].len() implies #[trigger] seq![c][i] != '\x1b' by {
            assert(seq![c][i] == c);
        }
    }
}

proof fn lemma_repeat(s: Seq<char>, n: nat)
    requires
        no_escape(s),
    ensures
        no_escape(repeat(s, n)),
    decreases n,
{
    if n > 0 {
        lemma_repeat(s, (n - 1) as nat);
        lemma_concat(repeat(s, (n - 1) as nat), s);
    }
}

proof fn lemma_prefix(s: Seq<char>, k: int)
    requires
        no_escape(s),
        0 <= k <= s.len(),
    ensures
        no_escape(s.take(k)),
{
    assert forall|i: int| 0 <= i < s.take(k).len() implies #[trigger] s.take(k)[i] != '\x1b' by {
        assert(s.take(k)[i] == s[i]);
    }
}

proof fn lemma_trim_end(s: Seq<char>)
    requires
        no_escape(s),
    ensures
        no_escape(trim_end(s)),
    decreases s.len(),
{
    if s.len() > 0 && crate::text::is_ws(s.last()) {
        lemma_prefix(s, s.len() - 1);
        assert(s.drop_last() == s.take(s.len() - 1));
        lemma_trim_end(s.drop_last());
    }
}

proof fn lemma_indent(s: TermState)
    ensures
        no_escape(indent(s)),
{
    lemma_repeat(seq!['>', ' '], s.quote_depth);
    lemma_repeat(
        seq![' ', ' '],
        if s.lists.len() > 0 {
            (s.lists.len() - 1) as nat
        } else {
            0
        },
    );
    lemma_concat(
        repeat(seq!['>', ' '], s.quote_depth),
        repeat(
            seq![' ', ' '],
            if s.lists.len() > 0 {
                (s.lists.len() - 1) as nat
            } else {
                0
            },
        ),
    );
}

proof fn lemma_flush(s: TermState)
    requires
        plain_state(s),
    ensures
        plain_state(flush_line(s)),
        flush_line(s).lists == s.lists,
        flush_line(s).quote_depth == s.quote_depth,
{
    reveal(flush_line);
    lemma_trim_end(s.line);
    lemma_concat(s.out, trim_end(s.line));
    lemma_push(s.out + trim_end(s.line), '\n');
    assert(s.out + trim_end(s.line) + seq!['\n'] == (s.out + trim_end(s.line)).push('\n'));
}

proof fn lemma_blank(s: TermState)
    requires
        plain_state(s),
    ensures
        plain_state(blank(s)),
        blank(s).lists == s.lists,
        blank(s).quote_depth == s.quote_depth,
{
    reveal(blank);
    lemma_flush(s);
    lemma_push(flush_line(s).out, '\n');
}

proof fn lemma_push_word(s: TermState, w: Seq<char>)
    requires
        plain_state(s),
        no_escape(w),
    ensures
        plain_state(push_word(s, w)),
        push_word(s, w).lists == s.lists,
        push_word(s, w).quote_depth == s.quote_depth,
{
    reveal(push_word);
    lemma_flush(s);
    lemma_indent(s);
    let projected = s.line.len() + w.len() + if s.line.len() > 0 {
        1int
    } else {
        0int
    };
    let t = if projected > crate::terminal::line_limit(s) && !crate::text::all_ws(s.line) {
        flush_line(s)
    } else {
        s
    };
    lemma_push(t.line, ' ');
    let line = if t.line.len() == 0 {
        indent(s)
    } else if !ends_with(t.line, seq![' ']) && !crate::terminal::attaches(w) {
        t.line.push(' ')
    } else {
        t.line
    };
    lemma_concat(line, w);
}

proof fn lemma_push_words(s: TermState, ws: Seq<Seq<char>>)
    requires
        plain_state(s),
        forall|k: int| 0 <= k < ws.len() ==> no_escape(#[trigger] ws[k]),
    ensures
        plain_state(push_words(s, ws)),
        push_words(s, ws).lists == s.lists,
        push_words(s, ws).quote_depth == s.quote_depth,
    decreases ws.len(),
{
    if ws.len() > 0 {
        assert forall|k: int| 0 <= k < ws.drop_last().len() implies no_escape(
            #[trigger] ws.drop_last()[k],
        ) by {
            assert(ws.drop_last()[k] == ws[k]);
        }
        lemma_push_words(s, ws.drop_last());
        assert(no_escape(ws[ws.len() - 1]));
        lemma_push_word(push_words(s, ws.drop_last()), ws.last());
    }
}

proof fn lemma_word_scan(text: Seq<char>)
    requires
        no_escape(text),
    ensures
        forall|k: int| 0 <= k < word_scan(text).0.len() ==> no_escape(#[trigger] word_scan(text).0[k]),
        no_escape(word_scan(text).1),
    decreases text.len(),
{
    if text.len() > 0 {
        lemma_prefix(text, text.len() - 1);
        assert(text.drop_last() == text.take(text.len() - 1));
        lemma_word_scan(text.drop_last());
        let (done, cur) = word_scan(text.drop_last());
        assert(text.last() == text[text.len() - 1]);
        lemma_push(cur, text.last());
        assert forall|k: int| 0 <= k < done.push(cur).len() implies no_escape(
            #[trigger] done.push(cur)[k],
        ) by {
            if k < done.len() {
                assert(done.push(cur)[k] == done[k]);
            }
        }
        assert(no_escape(Seq::<char>::empty()));
    }
}

proof fn lemma_words(text: Seq<char>)
    requires
        no_escape(text),
    ensures
        forall|k: int| 0 <= k < words(text).len() ==> no_escape(#[trigger] words(text)[k]),
{
    lemma_word_scan(text);
    let (done, cur) = word_scan(text);
    assert forall|k: int| 0 <= k < done.push(cur).len() implies no_escape(
        #[trigger] done.push(cur)[k],
    ) by {
        if k < done.len() {
            assert(done.push(cur)[k] == done[k]);
        }
    }
}

proof fn lemma_push_text(s: TermState, text: Seq<char>)
    requires
        plain_state(s),
        no_escape(text),
    ensures
        plain_state(push_text(s, text)),
        push_text(s, text).lists == s.lists,
        push_text(s, text).quote_depth == s.quote_depth,
{
    reveal(push_text);
    lemma_words(text);
    lemma_push_words(s, words(text));
    lemma_flush(push_words(s, words(text)));
}

proof fn lemma_push_styled(s: TermState, text: Seq<char>, st: crate::terminal::Style)
    requires
        plain_state(s),
        no_escape(text),
    ensures
        plain_state(push_styled(s, text, st)),
        push_styled(s, text, st).lists == s.lists,
        push_styled(s, text, st).quote_depth == s.quote_depth,
{
    reveal(push_styled);
    reveal(push_style);
    lemma_push_text(s, text);
}

proof fn lemma_line_scan(code: Seq<char>)
    requires
        no_escape(code),
    ensures
        forall|k: int| 0 <= k < line_scan(code).0.len() ==> no_escape(#[trigger] line_scan(code).0[k]),
        no_escape(line_scan(code).1),
    decreases code.len(),
{
    if code.len() > 0 {
        lemma_prefix(code, code.len() - 1);
        assert(code.drop_last() == code.take(code.len() - 1));
        lemma_line_scan(code.drop_last());
        let (done, cur) = line_scan(code.drop_last());
        assert(code.last() == code[code.len() - 1]);
        lemma_push(cur, code.last());
        if cur.len() > 0 {
            lemma_prefix(cur, cur.len() - 1);
            assert(cur.drop_last() == cur.take(cur.len() - 1));
        }
        assert forall|k: int| 0 <= k < done.push(strip_cr(cur)).len() implies no_escape(
            #[trigger] done.push(strip_cr(cur))[k],
        ) by {
            if k < done.len() {
                assert(done.push(strip_cr(cur))[k] == done[k]);
            }
        }
        assert(no_escape(Seq::<char>::empty()));
    }
}

proof fn lemma_code_lines(s: TermState, ls: Seq<Seq<char>>)
    requires
        !s.color,
        forall|k: int| 0 <= k < ls.len() ==> no_escape(#[trigger] ls[k]),
    ensures
        no_escape(code_lines(s, ls)),
    decreases ls.len(),
{
    if ls.len() > 0 {
        assert forall|k: int| 0 <= k < ls.drop_last().len() implies no_escape(
            #[trigger] ls.drop_last()[k],
        ) by {
            assert(ls.drop_last()[k] == ls[k]);
        }
        lemma_code_lines(s, ls.drop_last());
        assert(no_escape(ls[ls.len() - 1]));
        let l = ls.last();
        lemma_indent(s);
        let e = Seq::<char>::empty();
        assert(no_escape(e));
        assert(no_escape(seq![' ', ' ', ' ', ' ']));
        lemma_concat(e, indent(s));
        lemma_concat(e + indent(s), seq![' ', ' ', ' ', ' ']);
        lemma_concat(e + indent(s) + seq![' ', ' ', ' ', ' '], l);
        lemma_concat(e + indent(s) + seq![' ', ' ', ' ', ' '] + l, e);
        lemma_push(e + indent(s) + seq![' ', ' ', ' ', ' '] + l + e, '\n');
        assert(code_line(s, l) == (e + indent(s) + seq![' ', ' ', ' ', ' '] + l + e).push('\n'));
        lemma_concat(code_lines(s, ls.drop_last()), code_line(s, l));
    }
}

proof fn lemma_write_code(s: TermState, code: Seq<char>)
    requires
        plain_state(s),
        no_escape(code),
    ensures
        plain_state(write_code(s, code)),
        write_code(s, code).lists == s.lists,
        write_code(s, code).quote_depth == s.quote_depth,
{
    reveal(write_code);
    lemma_line_scan(code);
    let (done, cur) = line_scan(code);
    assert forall|k: int| 0 <= k < lines(code).len() implies no_escape(#[trigger] lines(code)[k]) by {
        if cur.len() > 0 && k == done.len() {
        } else {
            assert(lines(code)[k] == done[k]);
        }
    }
    lemma_code_lines(s, lines(code));
    lemma_concat(s.out, code_lines(s, lines(code)));
}

proof fn lemma_decimal(n: nat)
    ensures
        no_escape(decimal(n)),
    decreases n,
{
    if n >= 10 {
        lemma_decimal(n / 10);
        lemma_push(decimal(n / 10), digit_char(n % 10));
    }
}

proof fn lemma_start(s: TermState, kind: TagKind, data: TagData)
    requires
        plain_state(s),
        event_is_plain(MdEvent::Start(kind, data)),
    ensures
        plain_state(start(s, kind, data)),
{
    let e = Seq::<char>::empty();
    match kind {
        TagKind::Heading(level) => {
            lemma_blank(s);
            lemma_repeat(seq!['#'], level as nat);
            lemma_push(repeat(seq!['#'], level as nat), ' ');
            assert(repeat(seq!['#'], level as nat) + seq![' '] == repeat(seq!['#'], level as nat).push(' '));
            lemma_push_styled(blank(s), repeat(seq!['#'], level as nat) + seq![' '], crate::terminal::Style::Cyan);
        },
        TagKind::BlockQuote => {
            lemma_flush(s);
        },
        TagKind::CodeBlock => {
            lemma_blank(s);
            lemma_push_styled(blank(s), data_text(data), crate::terminal::Style::Dim);
            lemma_flush(push_styled(blank(s), data_text(data), crate::terminal::Style::Dim));
        },
        TagKind::List(_) => {
            lemma_flush(s);
        },
        TagKind::Item => {
            lemma_flush(s);
            let t = flush_line(s);
            let (marker, lists) = item_marker(t.lists);
            if t.lists.len() > 0 && t.lists.last() is Some {
                let n = t.lists.last()->0;
                lemma_decimal(n as nat);
                lemma_concat(decimal(n as nat), seq!['.', ' ']);
            }
            assert(no_escape(seq!['-', ' ']));
            lemma_push_text(TermState { lists: lists, ..t }, marker);
        },
        TagKind::Emphasis => {
            reveal(push_style);
        },
        TagKind::Strong => {
            reveal(push_style);
        },
        TagKind::Strikethrough => {
            assert(no_escape(seq!['~']));
            lemma_push_text(s, seq!['~']);
        },
        TagKind::Link => {
        },
        TagKind::Image => {
            let d = data_text(data);
            let t = image_title(data);
            let pre = seq!['[', 'i', 'm', 'a', 'g', 'e', ':', ' '];
            assert(no_escape(pre));
            assert(no_escape(seq![' ', '-', ' ']));
            lemma_concat(pre, d);
            lemma_concat(pre + d, seq![']']);
            lemma_concat(pre, t);
            lemma_concat(pre + t, seq![' ', '-', ' ']);
            lemma_concat(pre + t + seq![' ', '-', ' '], d);
            lemma_concat(pre + t + seq![' ', '-', ' '] + d, seq![']']);
            lemma_push_styled(s, image_label(d, t), crate::terminal::Style::Underline);
        },
        TagKind::Table => {
            lemma_blank(s);
        },
        TagKind::FootnoteDefinition => {
            lemma_blank(s);
            let d = data_text(data);
            assert(no_escape(seq!['[', '^']));
            assert(no_escape(seq![']', ':', ' ']));
            lemma_concat(seq!['[', '^'], d);
            lemma_concat(seq!['[', '^'] + d, seq![']', ':', ' ']);
            lemma_push_text(blank(s), seq!['[', '^'] + d + seq![']', ':', ' ']);
        },
        _ => {
        },
    }
    assert(no_escape(e));
}

proof fn lemma_end(s: TermState, kind: TagKind)
    requires
        plain_state(s),
    ensures
        plain_state(end(s, kind)),
{
    match kind {
        TagKind::Paragraph => {
            lemma_flush(s);
            lemma_blank(flush_line(s));
        },
        TagKind::Heading(_) => {
            lemma_flush(s);
            lemma_blank(flush_line(s));
        },
        TagKind::BlockQuote => {
            lemma_flush(s);
        },
        TagKind::CodeBlock => {
            lemma_blank(TermState { code_block: false, ..s });
        },
        TagKind::List(_) => {
            lemma_flush(s);
            let t = flush_line(s);
            lemma_blank(
                TermState {
                    lists: if t.lists.len() > 0 {
                        t.lists.drop_last()
                    } else {
                        t.lists
                    },
                    ..t
                },
            );
        },
        TagKind::Item => {
            lemma_flush(s);
        },
        TagKind::Emphasis => {
            reveal(push_style);
        },
        TagKind::Strong => {
            reveal(push_style);
        },
        TagKind::Strikethrough => {
            assert(no_escape(seq!['~']));
            lemma_push_text(s, seq!['~']);
        },
        TagKind::Link => {
            match s.pending_link {
                Some(d) => {
                    assert(no_escape(seq![' ', '(']));
                    lemma_concat(seq![' ', '('], d);
                    lemma_concat(seq![' ', '('] + d, seq![')']);
                    lemma_push_styled(
                        TermState { pending_link: None, ..s },
                        seq![' ', '('] + d + seq![')'],
                        crate::terminal::Style::Dim,
                    );
                },
                None => {},
            }
        },
        TagKind::Table => {
            lemma_blank(
                TermState {
                    table_depth: if s.table_depth > 0 {
                        (s.table_depth - 1) as nat
                    } else {
                        0
                    },
                    ..s
                },
            );
        },
        TagKind::TableHead => {
            lemma_flush(s);
        },
        TagKind::TableRow => {
            lemma_flush(s);
        },
        TagKind::TableCell => {
            assert(no_escape(seq![' ', '|', ' ']));
            lemma_push_text(s, seq![' ', '|', ' ']);
        },
        TagKind::FootnoteDefinition => {
            lemma_blank(s);
        },
        TagKind::DefinitionList => {
            lemma_flush(s);
        },
        TagKind::DefinitionListTitle => {
            lemma_flush(s);
        },
        TagKind::DefinitionListDefinition => {
            lemma_flush(s);
        },
        _ => {},
    }
}

proof fn lemma_enclosed(open: Seq<char>, mid: Seq<char>, close: Seq<char>)
    requires
        no_escape(open),
        no_escape(mid),
        no_escape(close),
    ensures
        no_escape(open + mid + close),
{
    lemma_concat(open, mid);
    lemma_concat(open + mid, close);
}

proof fn lemma_step(s: TermState, e: MdEvent)
    requires
        plain_state(s),
        event_is_plain(e),
    ensures
        plain_state(step(s, e)),
{
    match e {
        MdEvent::Start(kind, data) => lemma_start(s, kind, data),
        MdEvent::End(kind) => lemma_end(s, kind),
        MdEvent::Text(t) => {
            lemma_flush(s);
            lemma_write_code(flush_line(s), t@);
            lemma_push_text(s, t@);
        },
        MdEvent::Code(c) => {
            assert(no_escape(seq!['`']));
            lemma_enclosed(seq!['`'], c@, seq!['`']);
            lemma_push_styled(s, seq!['`'] + c@ + seq!['`'], crate::terminal::Style::Green);
        },
        MdEvent::Html(h) => lemma_push_text(s, h@),
        MdEvent::InlineHtml(h) => lemma_push_text(s, h@),
        MdEvent::SoftBreak => {
            assert(no_escape(seq![' ']));
            lemma_push_text(s, seq![' ']);
        },
        MdEvent::HardBreak => lemma_flush(s),
        MdEvent::Rule => {
            lemma_blank(s);
            let t = blank(s);
            lemma_repeat(
                seq!['\u{2500}'],
                if t.width < 80 {
                    t.width
                } else {
                    80
                },
            );
            lemma_push(
                repeat(
                    seq!['\u{2500}'],
                    if t.width < 80 {
                        t.width
                    } else {
                        80
                    },
                ),
                '\n',
            );
            assert(rule_line(t) == repeat(
                seq!['\u{2500}'],
                if t.width < 80 {
                    t.width
                } else {
                    80
                },
            ).push('\n'));
            lemma_concat(t.out, rule_line(t));
            lemma_blank(TermState { out: t.out + rule_line(t), ..t });
        },
        MdEvent::InlineMath(m) => {
            assert(no_escape(seq!['$']));
            lemma_enclosed(seq!['$'], m@, seq!['$']);
            lemma_push_styled(s, seq!['$'] + m@ + seq!['$'], crate::terminal::Style::Green);
        },
        MdEvent::DisplayMath(m) => {
            lemma_blank(s);
            assert(no_escape(seq!['$', '$', '\n']));
            assert(no_escape(seq!['\n', '$', '$']));
            lemma_enclosed(seq!['$', '$', '\n'], m@, seq!['\n', '$', '$']);
            lemma_push_styled(
                blank(s),
                seq!['$', '$', '\n'] + m@ + seq!['\n', '$', '$'],
                crate::terminal::Style::Green,
            );
            lemma_blank(
                push_styled(
                    blank(s),
                    seq!['$', '$', '\n'] + m@ + seq!['\n', '$', '$'],
                    crate::terminal::Style::Green,
                ),
            );
        },
        MdEvent::FootnoteReference(r) => {
            assert(no_escape(seq!['[', '^']));
            assert(no_escape(seq![']']));
            lemma_enclosed(seq!['[', '^'], r@, seq![']']);
            lemma_push_text(s, seq!['[', '^'] + r@ + seq![']']);
        },
        MdEvent::TaskListMarker(checked) => {
            assert(no_escape(seq!['[', 'x', ']', ' ']));
            assert(no_escape(seq!['[', ' ', ']', ' ']));
            lemma_push_text(
                s,
                if checked {
                    seq!['[', 'x', ']', ' ']
                } else {
                    seq!['[', ' ', ']', ' ']
                },
            );
        },
    }
}

proof fn lemma_run(s: TermState, events: Seq<MdEvent>)
    requires
        plain_state(s),
        forall|k: int| 0 <= k < events.len() ==> event_is_plain(#[trigger] events[k]),
    ensures
        plain_state(run(s, events)),
    decreases events.len(),
{
    if events.len() > 0 {
        assert forall|k: int| 0 <= k < events.drop_last().len() implies event_is_plain(
            #[trigger] events.drop_last()[k],
        ) by {
            assert(events.drop_last()[k] == events[k]);
        }
        lemma_run(s, events.drop_last());
        assert(event_is_plain(events[events.len() - 1]));
        lemma_step(run(s, events.drop_last()), events.last());
    }
}

proof fn lemma_strip_prefix(o: Seq<char>)
    requires
        no_escape(o),
    ensures
        no_escape(strip_blank_tail(o)),
    decreases o.len(),
{
    if ends_with(o, seq!['\n', '\n']) {
        lemma_prefix(o, o.len() - 1);
        assert(o.drop_last() == o.take(o.len() - 1));
        lemma_strip_prefix(o.drop_last());
    }
}

/// With color off, terminal output holds no ANSI escape character unless
/// the document's own text does.
pub proof fn plain_output_has_no_ansi(options: RenderOptions, events: Seq<MdEvent>)
    requires
        !options.color,
        forall|k: int| 0 <= k < events.len() ==> event_is_plain(#[trigger] events[k]),
    ensures
        no_escape(render_spec(options, events)),
{
    let s0 = initial_state(options);
    assert(no_escape(Seq::<char>::empty()));
    lemma_run(s0, events);
    let s = run(s0, events);
    lemma_flush(s);
    lemma_strip_prefix(flush_line(s).out);
    lemma_push(strip_blank_tail(flush_line(s).out), '\n');
}

/// Every line of `o`, as `str::lines` splits it, has at most `w` characters.
pub open spec fn lines_within(o: Seq<char>, w: nat) -> bool {
    forall|k: int| 0 <= k < lines(o).len() ==> (#[trigger] lines(o)[k]).len() <= w
}

pub open spec fn no_newline(s: Seq<char>) -> bool {
    forall|i: int| 0 <= i < s.len() ==> #[trigger] s[i] != '\n'
}

pub open spec fn no_space(s: Seq<char>) -> bool {
    forall|i: int| 0 <= i < s.len() ==> !crate::text::is_ws(#[trigger] s[i])
}

/// Prose: paragraphs of text with line breaks, whose words all fit in `width`.
pub open spec fn prose_event(e: MdEvent, width: nat) -> bool {
    match e {
        MdEvent::Start(TagKind::Paragraph, _) => true,
        MdEvent::End(TagKind::Paragraph) => true,
        MdEvent::SoftBreak => true,
        MdEvent::HardBreak => true,
        MdEvent::Text(t) => forall|k: int|
            0 <= k < words(t@).len() ==> (#[trigger] words(t@)[k]).len() <= width,
        _ => false,
    }
}

/// The state while prose is rendered without color at a width of 20 or more.
pub open spec fn prose_state(s: TermState) -> bool {
    &&& !s.color
    &&& s.quote_depth == 0
    &&& s.lists.len() == 0
    &&& !s.code_block
    &&& s.width >= 20
    &&& (s.out.len() == 0 || s.out.last() == '\n')
    &&& lines_within(s.out, s.width)
    &&& s.text == s.line
    &&& no_newline(s.line)
    &&& s.line.len() <= s.width
    &&& (s.line.len() == 0 || !crate::text::all_ws(s.line))
}

proof fn lemma_scan_no_newline(o: Seq<char>, l: Seq<char>)
    requires
        no_newline(l),
    ensures
        line_scan(o + l) == (line_scan(o).0, line_scan(o).1 + l),
    decreases l.len(),
{
    if l.len() == 0 {
        assert(o + l =~= o);
        assert(line_scan(o).1 + l =~= line_scan(o).1);
    } else {
        let lp = l.drop_last();
        assert forall|i: int| 0 <= i < lp.len() implies #[trigger] lp[i] != '\n' by {
            assert(lp[i] == l[i]);
        }
        lemma_scan_no_newline(o, lp);
        assert((o + l).drop_last() =~= o + lp);
        assert((o + l).last() == l[l.len() - 1]);
        assert(line_scan(o).1 + l =~= (line_scan(o).1 + lp).push(l.last()));
    }
}

proof fn lemma_line_end(o: Seq<char>)
    requires
        o.len() == 0 || o.last() == '\n',
    ensures
        line_scan(o).1.len() == 0,
        lines(o) == line_scan(o).0,
{
}

proof fn lemma_append_line(o: Seq<char>, l: Seq<char>)
    requires
        o.len() == 0 || o.last() == '\n',
        no_newline(l),
    ensures
        lines(o + l + seq!['\n']) == lines(o).push(strip_cr(l)),
{
    lemma_line_end(o);
    lemma_scan_no_newline(o, l);
    let x = o + l + seq!['\n'];
    assert(x.drop_last() =~= o + l);
    assert(x.last() == '\n');
    assert(line_scan(o).1 + l =~= l);
}

proof fn lemma_trim_end_shape(s: Seq<char>)
    ensures
        trim_end(s).len() <= s.len(),
        trim_end(s) == s.take(trim_end(s).len() as int),
        trim_end(s).len() > 0 ==> !crate::text::is_ws(trim_end(s).last()),
    decreases s.len(),
{
    if s.len() > 0 && crate::text::is_ws(s.last()) {
        lemma_trim_end_shape(s.drop_last());
        assert(s.drop_last().take(trim_end(s).len() as int) =~= s.take(trim_end(s).len() as int));
    } else {
        assert(s.take(s.len() as int) =~= s);
    }
}

proof fn lemma_flush_prose(s: TermState)
    requires
        prose_state(s),
    ensures
        prose_state(flush_line(s)),
        flush_line(s).line.len() == 0,
        flush_line(s).width == s.width,
{
    reveal(flush_line);
    if !crate::text::all_ws(s.line) {
        let t = trim_end(s.line);
        lemma_trim_end_shape(s.line);
        assert forall|i: int| 0 <= i < t.len() implies #[trigger] t[i] != '\n' by {
            assert(t[i] == s.line[i]);
        }
        lemma_append_line(s.out, t);
        if t.len() > 0 {
            assert(t.last() != '\r');
        }
        assert(strip_cr(t) == t);
        let o = s.out + t + seq!['\n'];
        assert forall|k: int| 0 <= k < lines(o).len() implies (#[trigger] lines(o)[k]).len()
            <= s.width by {
            if k < lines(s.out).len() {
                assert(lines(o)[k] == lines(s.out)[k]);
            }
        }
        assert(o.last() == '\n');
    }
}

proof fn lemma_blank_prose(s: TermState)
    requires
        prose_state(s),
    ensures
        prose_state(blank(s)),
        blank(s).line.len() == 0,
        blank(s).width == s.width,
{
    reveal(blank);
    lemma_flush_prose(s);
    let t = flush_line(s);
    if !ends_with(t.out, seq!['\n', '\n']) {
        let e = Seq::<char>::empty();
        assert(t.out + e + seq!['\n'] =~= t.out.push('\n'));
        lemma_append_line(t.out, e);
        assert(strip_cr(e) == e);
        let o = t.out.push('\n');
        assert forall|k: int| 0 <= k < lines(o).len() implies (#[trigger] lines(o)[k]).len()
            <= t.width by {
            if k < lines(t.out).len() {
                assert(lines(o)[k] == lines(t.out)[k]);
            }
        }
    }
}

proof fn lemma_push_word_prose(s: TermState, w: Seq<char>)
    requires
        prose_state(s),
        w.len() > 0,
        w.len() <= s.width,
        no_space(w),
    ensures
        prose_state(push_word(s, w)),
        push_word(s, w).width == s.width,
{
    reveal(push_word);
    assert(indent(s) =~= Seq::<char>::empty()) by {
        assert(repeat(seq!['>', ' '], 0) =~= Seq::<char>::empty());
        assert(repeat(seq![' ', ' '], 0) =~= Seq::<char>::empty());
    }
    assert(crate::terminal::line_limit(s) == s.width);
    lemma_flush_prose(s);
    let projected = s.text.len() + w.len() + if s.text.len() > 0 {
        1int
    } else {
        0int
    };
    let t = if projected > crate::terminal::line_limit(s) && !crate::text::all_ws(s.text) {
        flush_line(s)
    } else {
        s
    };
    let gap = if t.text.len() == 0 {
        indent(s)
    } else if !ends_with(t.text, seq![' ']) && !crate::terminal::attaches(w) {
        seq![' ']
    } else {
        Seq::empty()
    };
    let line = t.line + gap;
    assert(push_word(s, w).line =~= line + w);
    assert(push_word(s, w).text =~= line + w);
    let r = line + w;
    assert(r.len() <= s.width);
    assert forall|i: int| 0 <= i < r.len() implies #[trigger] r[i] != '\n' by {
        if i < line.len() {
            if i < t.line.len() {
                assert(r[i] == t.line[i]);
            }
        } else {
            assert(r[i] == w[i - line.len()]);
            assert(!crate::text::is_ws(w[i - line.len()]));
        }
    }
    assert(!crate::text::all_ws(r)) by {
        assert(r[line.len() as int] == w[0]);
        assert(!crate::text::is_ws(w[0]));
    }
}

proof fn lemma_word_scan_shape(text: Seq<char>)
    ensures
        forall|k: int|
            0 <= k < word_scan(text).0.len() ==> (#[trigger] word_scan(text).0[k]).len() > 0 && no_space(
                word_scan(text).0[k],
            ),
        no_space(word_scan(text).1),
    decreases text.len(),
{
    if text.len() > 0 {
        lemma_word_scan_shape(text.drop_last());
        let (done, cur) = word_scan(text.drop_last());
        if !crate::text::is_ws(text.last()) {
            let c2 = cur.push(text.last());
            assert forall|i: int| 0 <= i < c2.len() implies !crate::text::is_ws(#[trigger] c2[i]) by {
                if i < cur.len() {
                    assert(c2[i] == cur[i]);
                }
            }
        } else if cur.len() > 0 {
            assert forall|k: int| 0 <= k < done.push(cur).len() implies (#[trigger] done.push(
                cur,
            )[k]).len() > 0 && no_space(done.push(cur)[k]) by {
                if k < done.len() {
                    assert(done.push(cur)[k] == done[k]);
                }
            }
        }
    }
}

proof fn lemma_words_shape(text: Seq<char>)
    ensures
        forall|k: int|
            0 <= k < words(text).len() ==> (#[trigger] words(text)[k]).len() > 0 && no_space(
                words(text)[k],
            ),
{
    lemma_word_scan_shape(text);
    let (done, cur) = word_scan(text);
    if cur.len() > 0 {
        assert forall|k: int| 0 <= k < done.push(cur).len() implies (#[trigger] done.push(
            cur,
        )[k]).len() > 0 && no_space(done.push(cur)[k]) by {
            if k < done.len() {
                assert(done.push(cur)[k] == done[k]);
            }
        }
    }
}

proof fn lemma_push_words_prose(s: TermState, ws: Seq<Seq<char>>)
    requires
        prose_state(s),
        forall|k: int|
            0 <= k < ws.len() ==> (#[trigger] ws[k]).len() > 0 && ws[k].len() <= s.width
                && no_space(ws[k]),
    ensures
        prose_state(push_words(s, ws)),
        push_words(s, ws).width == s.width,
    decreases ws.len(),
{
    if ws.len() > 0 {
        assert forall|k: int| 0 <= k < ws.drop_last().len() implies (
        #[trigger] ws.drop_last()[k]).len() > 0 && ws.drop_last()[k].len() <= s.width && no_space(
            ws.drop_last()[k],
        ) by {
            assert(ws.drop_last()[k] == ws[k]);
        }
        lemma_push_words_prose(s, ws.drop_last());
        assert(ws[ws.len() - 1] == ws.last());
        reveal(push_word);
        lemma_push_word_prose(push_words(s, ws.drop_last()), ws.last());
    }
}

proof fn lemma_push_text_prose(s: TermState, text: Seq<char>)
    requires
        prose_state(s),
        forall|k: int| 0 <= k < words(text).len() ==> (#[trigger] words(text)[k]).len() <= s.width,
    ensures
        prose_state(push_text(s, text)),
        push_text(s, text).width == s.width,
{
    reveal(push_text);
    lemma_words_shape(text);
    lemma_push_words_prose(s, words(text));
    lemma_flush_prose(push_words(s, words(text)));
}

proof fn lemma_run_prose(s: TermState, events: Seq<MdEvent>)
    requires
        prose_state(s),
        forall|k: int| 0 <= k < events.len() ==> prose_event(#[trigger] events[k], s.width),
    ensures
        prose_state(run(s, events)),
        run(s, events).width == s.width,
    decreases events.len(),
{
    if events.len() > 0 {
        assert forall|k: int| 0 <= k < events.drop_last().len() implies prose_event(
            #[trigger] events.drop_last()[k],
            s.width,
        ) by {
            assert(events.drop_last()[k] == events[k]);
        }
        lemma_run_prose(s, events.drop_last());
        let t = run(s, events.drop_last());
        let e = events.last();
        assert(prose_event(events[events.len() - 1], s.width));
        match e {
            MdEvent::Start(TagKind::Paragraph, _) => {},
            MdEvent::End(TagKind::Paragraph) => {
                lemma_flush_prose(t);
                lemma_blank_prose(flush_line(t));
            },
            MdEvent::SoftBreak => {
                assert(words(seq![' ']).len() == 0) by {
                    let sp = seq![' '];
                    assert(sp.drop_last() =~= Seq::<char>::empty());
                    assert(sp.last() == ' ');
                    assert(word_scan(Seq::<char>::empty()) == (
                        Seq::<Seq<char>>::empty(),
                        Seq::<char>::empty(),
                    ));
                    assert(word_scan(sp) == (Seq::<Seq<char>>::empty(), Seq::<char>::empty()));
                }
                lemma_push_text_prose(t, seq![' ']);
            },
            MdEvent::HardBreak => {
                lemma_flush_prose(t);
            },
            MdEvent::Text(x) => {
                lemma_push_text_prose(t, x@);
            },
            _ => {},
        }
    }
}

/// Plain prose rendered without color at a width of 20 or more comes out
/// with no line wider than the width, as long as each word fits in it.
pub proof fn prose_wraps_to_width(options: RenderOptions, events: Seq<MdEvent>)
    requires
        !options.color,
        options.width >= 20,
        forall|k: int| 0 <= k < events.len() ==> prose_event(#[trigger] events[k], options.width as nat),
    ensures
        lines_within(render_spec(options, events), options.width as nat),
{
    let s0 = initial_state(options);
    assert(lines(Seq::<char>::empty()) =~= Seq::<Seq<char>>::empty());
    assert(prose_state(s0));
    lemma_run_prose(s0, events);
    let s = run(s0, events);
    lemma_flush_prose(s);
    let o = flush_line(s).out;
    lemma_strip_lines(o, options.width as nat);
    let st = strip_blank_tail(o);
    assert(st.len() > 0 ==> ends_with(st, seq!['\n'])) by {
        lemma_ends_with_char(st, '\n');
    }
    assert(render_spec(options, events) == st);
}

proof fn lemma_strip_lines(o: Seq<char>, w: nat)
    requires
        o.len() == 0 || o.last() == '\n',
        lines_within(o, w),
    ensures
        lines_within(strip_blank_tail(o), w),
        strip_blank_tail(o).len() == 0 || strip_blank_tail(o).last() == '\n',
    decreases o.len(),
{
    if ends_with(o, seq!['\n', '\n']) {
        let p = o.drop_last();
        assert(o.subrange(o.len() - 2, o.len() as int)[0] == p.last());
        lemma_line_end(p);
        assert(o.drop_last() == p);
        assert(lines(o) == lines(p).push(Seq::<char>::empty())) by {
            lemma_line_end(o);
        }
        assert forall|k: int| 0 <= k < lines(p).len() implies (#[trigger] lines(p)[k]).len() <= w by {
            assert(lines(o)[k] == lines(p)[k]);
        }
        lemma_strip_lines(p, w);
    }
}

/// None of `<`, `>`, `"` and `'` occurs in `s`.
pub open spec fn markup_free(s: Seq<char>) -> bool {
    forall|i: int|
        0 <= i < s.len() ==> #[trigger] s[i] != '<' && s[i] != '>' && s[i] != '"' && s[i] != '\''
}

/// HTML-escaped text holds no `<`, `>`, `"` or `'`, so it cannot end an
/// element or an attribute value; escaping text piece by piece gives the
/// escaping of the whole.
pub proof fn escaped_text_has_no_markup(a: Seq<char>, b: Seq<char>)
    ensures
        markup_free(escape(a)),
        escape(a + b) == escape(a) + escape(b),
    decreases b.len(),
{
    lemma_escape_markup_free(a);
    if b.len() > 0 {
        escaped_text_has_no_markup(a, b.drop_last());
        assert((a + b).drop_last() =~= a + b.drop_last());
        assert((a + b).last() == b.last());
        assert(escape(b) == escape(b.drop_last()) + escape_char(b.last()));
        assert(escape(a + b) =~= escape(a) + escape(b));
    } else {
        assert(a + b =~= a);
        assert(escape(b) =~= Seq::<char>::empty());
        assert(escape(a) + escape(b) =~= escape(a));
    }
}

proof fn lemma_escape_markup_free(a: Seq<char>)
    ensures
        markup_free(escape(a)),
    decreases a.len(),
{
    if a.len() > 0 {
        lemma_escape_markup_free(a.drop_last());
        let x = escape(a.drop_last());
        let y = escape_char(a.last());
        assert(markup_free(y));
        assert forall|i: int| 0 <= i < (x + y).len() implies #[trigger] (x + y)[i] != '<' && (x
            + y)[i] != '>' && (x + y)[i] != '"' && (x + y)[i] != '\'' by {
            if i < x.len() {
                assert((x + y)[i] == x[i]);
            } else {
                assert((x + y)[i] == y[i - x.len()]);
            }
        }
    }
}

/// No character in `s` can end a script string or a script element, or
/// break a line: no `<`, `>`, `&`, line or paragraph separator, and no
/// control character.
pub open spec fn script_safe(s: Seq<char>) -> bool {
    forall|i: int|
        0 <= i < s.len() ==> #[trigger] s[i] != '<' && s[i] != '>' && s[i] != '&' && s[i]
            != '\u{2028}' && s[i] != '\u{2029}' && (s[i] as u32) >= 0x20
}

proof fn lemma_hex_lower(d: nat)
    requires
        d < 16,
    ensures
        ('0' <= hex_lower(d) <= '9') || ('a' <= hex_lower(d) <= 'f'),
{
}

proof fn lemma_js_chars(s: Seq<char>)
    ensures
        script_safe(js_chars(s)),
    decreases s.len(),
{
    if s.len() > 0 {
        lemma_js_chars(s.drop_last());
        let x = js_chars(s.drop_last());
        let c = s.last();
        let y = js_char(c);
        if (c as u32) < 0x20 {
            lemma_hex_lower((c as u32 / 16) as nat);
            lemma_hex_lower((c as u32 % 16) as nat);
        }
        assert(script_safe(y));
        assert forall|i: int| 0 <= i < (x + y).len() implies #[trigger] (x + y)[i] != '<' && (x
            + y)[i] != '>' && (x + y)[i] != '&' && (x + y)[i] != '\u{2028}' && (x + y)[i]
            != '\u{2029}' && ((x + y)[i] as u32) >= 0x20 by {
            if i < x.len() {
                assert((x + y)[i] == x[i]);
            } else {
                assert((x + y)[i] == y[i - x.len()]);
            }
        }
    }
}

/// A quoted script string starts and ends with `"`, and nothing between
/// can close a script element, start markup, or break the line.
pub proof fn script_strings_are_safe(s: Seq<char>)
    ensures
        js_literal(s)[0] == '"',
        js_literal(s).last() == '"',
        script_safe(js_literal(s).subrange(1, js_literal(s).len() - 1)),
{
    lemma_js_chars(s);
    let l = js_literal(s);
    assert(l.subrange(1, l.len() - 1) =~= js_chars(s));
}

proof fn lemma_parse_same_rest(a1: Seq<Seq<char>>, i1: int, a2: Seq<Seq<char>>, i2: int, st: CliSpec)
    requires
        0 <= i1 <= a1.len(),
        0 <= i2 <= a2.len(),
        a1.skip(i1) == a2.skip(i2),
    ensures
        parse_args(a1, i1, st) == parse_args(a2, i2, st),
    decreases a1.len() - i1,
{
    assert(a1.skip(i1).len() == a1.len() - i1);
    assert(a2.skip(i2).len() == a2.len() - i2);
    assert(a1.len() - i1 == a2.len() - i2);
    if i1 < a1.len() {
        assert(a1[i1] == a1.skip(i1)[0]);
        assert(a2[i2] == a2.skip(i2)[0]);
        if i1 + 1 < a1.len() {
            assert(a1[i1 + 1] == a1.skip(i1)[1]);
            assert(a2[i2 + 1] == a2.skip(i2)[1]);
        }
        assert(a1.skip(i1 + 1) =~= a1.skip(i1).skip(1));
        assert(a2.skip(i2 + 1) =~= a2.skip(i2).skip(1));
        lemma_parse_same_rest(a1, i1 + 1, a2, i2 + 1, CliSpec { help: true, ..st });
        lemma_parse_same_rest(a1, i1 + 1, a2, i2 + 1, CliSpec { color: false, ..st });
        lemma_parse_same_rest(a1, i1 + 1, a2, i2 + 1, CliSpec { html: true, ..st });
        lemma_parse_same_rest(a1, i1 + 1, a2, i2 + 1, CliSpec { serve: true, ..st });
        lemma_parse_same_rest(a1, i1 + 1, a2, i2 + 1, CliSpec { recurse: true, ..st });
        lemma_parse_same_rest(
            a1,
            i1 + 1,
            a2,
            i2 + 1,
            CliSpec { inputs: st.inputs.push(a1[i1]), ..st },
        );
        let v = strip_prefixes(a1[i1], flag_width_eq());
        if let Some(w) = width_value(v) {
            lemma_parse_same_rest(a1, i1 + 1, a2, i2 + 1, CliSpec { width: w, ..st });
        }
        let pv = a1[i1].skip(flag_port_eq().len() as int);
        if let Some(p) = port_value(pv) {
            lemma_parse_same_rest(a1, i1 + 1, a2, i2 + 1, CliSpec { port: p, ..st });
        }
        if i1 + 1 < a1.len() {
            assert(a1.skip(i1 + 2) =~= a1.skip(i1).skip(2));
            assert(a2.skip(i2 + 2) =~= a2.skip(i2).skip(2));
            if let Some(w) = width_value(a1[i1 + 1]) {
                lemma_parse_same_rest(a1, i1 + 2, a2, i2 + 2, CliSpec { width: w, ..st });
            }
            if let Some(p) = port_value(a1[i1 + 1]) {
                lemma_parse_same_rest(a1, i1 + 2, a2, i2 + 2, CliSpec { port: p, ..st });
            }
        }
    }
}

/// The width can be given as `--width COLUMNS` or as `--width=COLUMNS`:
/// both read the same, whatever follows, and refuse the same values.
pub proof fn width_forms_agree(v: Seq<char>, rest: Seq<Seq<char>>, st: CliSpec)
    requires
        !starts_with(v, flag_width_eq()),
    ensures
        parse_args(seq![flag_width(), v] + rest, 0, st) == parse_args(
            seq![flag_width_eq() + v] + rest,
            0,
            st,
        ),
{
    let a1 = seq![flag_width(), v] + rest;
    let a2 = seq![flag_width_eq() + v] + rest;
    let joined = flag_width_eq() + v;
    assert(a1[0] == flag_width());
    assert(a1[1] == v);
    assert(a2[0] == joined);
    assert(joined.subrange(0, flag_width_eq().len() as int) =~= flag_width_eq());
    assert(joined.skip(flag_width_eq().len() as int) =~= v);
    assert(joined.len() > flag_width().len());
    assert(joined[7] == '=');
    assert(joined != flag_short_help() && joined != flag_help() && joined != flag_no_color()
        && joined != flag_short_width() && joined != flag_width()) by {
        if joined == flag_help() {
            assert(joined[7] == flag_help()[7]);
        }
        if joined == flag_no_color() {
            assert(joined[7] == flag_no_color()[7]);
        }
    }
    assert(joined[2] == 'w');
    assert(joined != flag_html() && joined != flag_serve() && joined != flag_port()
        && joined != flag_recurse()) by {
        if joined == flag_html() {
            assert(joined[2] == flag_html()[2]);
        }
        if joined == flag_serve() {
            assert(joined[2] == flag_serve()[2]);
        }
        if joined == flag_port() {
            assert(joined[2] == flag_port()[2]);
        }
        if joined == flag_recurse() {
            assert(joined[2] == flag_recurse()[2]);
        }
    }
    assert(!starts_with(joined, flag_port_eq())) by {
        if starts_with(joined, flag_port_eq()) {
            assert(joined.subrange(0, flag_port_eq().len() as int)[2] == joined[2]);
        }
    }
    assert(flag_width_eq().len() > 0);
    assert(strip_prefixes(v, flag_width_eq()) == v);
    assert(strip_prefixes(joined, flag_width_eq()) == v);
    assert(a1.skip(2) =~= rest);
    assert(a2.skip(1) =~= rest);
    if let Some(w) = width_value(v) {
        lemma_parse_same_rest(a1, 2, a2, 1, CliSpec { width: w, ..st });
    }
}

proof fn lemma_gui_files(args: Seq<Seq<char>>, i: int)
    requires
        0 <= i <= args.len(),
        forall|j: int| 0 <= j < args.len() ==> !starts_with(#[trigger] args[j], seq!['-']),
    ensures
        gui_parse(args, i, args.take(i), false) == GuiOutcome::Parsed(args, false),
    decreases args.len() - i,
{
    if i == args.len() {
        assert(args.take(i) =~= args);
    } else {
        let a = args[i];
        assert(!starts_with(a, seq!['-']));
        if a == seq!['-', 'h'] {
            assert(a.subrange(0, 1) =~= seq!['-']);
        }
        if a == seq!['-', '-', 'h', 'e', 'l', 'p'] {
            assert(a.subrange(0, 1) =~= seq!['-']);
        }
        assert(args.take(i).push(a) =~= args.take(i + 1));
        lemma_gui_files(args, i + 1);
    }
}

/// The desktop shell opens every argument that is not an option, in the
/// order given.
pub proof fn gui_opens_files_in_order(args: Seq<Seq<char>>)
    requires
        forall|j: int| 0 <= j < args.len() ==> !starts_with(#[trigger] args[j], seq!['-']),
    ensures
        gui_parse(args, 0, Seq::empty(), false) == GuiOutcome::Parsed(args, false),
{
    assert(args.take(0) =~= Seq::<Seq<char>>::empty());
    lemma_gui_files(args, 0);
}


/// Whether `s` starts with one of the four-character style codes
/// (`ESC [ 0 m` to `ESC [ 4 m`).
pub open spec fn is_code4(s: Seq<char>) -> bool {
    &&& s.len() >= 4
    &&& s[0] == '\x1b'
    &&& s[1] == '['
    &&& '0' <= s[2] <= '4'
    &&& s[3] == 'm'
}

/// Whether `s` starts with one of the five-character color codes
/// (`ESC [ 3 6 m` or `ESC [ 3 2 m`).
pub open spec fn is_code5(s: Seq<char>) -> bool {
    &&& s.len() >= 5
    &&& s[0] == '\x1b'
    &&& s[1] == '['
    &&& s[2] == '3'
    &&& (s[3] == '6' || s[3] == '2')
    &&& s[4] == 'm'
}

/// The length of the style code that `s` starts with, or 0.
pub open spec fn lead_len(s: Seq<char>) -> int {
    if is_code4(s) {
        4
    } else if is_code5(s) {
        5
    } else {
        0
    }
}

/// `s` with every style code that the renderer writes taken out.
pub open spec fn strip_styles(s: Seq<char>) -> Seq<char>
    decreases s.len(),
{
    if s.len() == 0 {
        Seq::empty()
    } else if lead_len(s) > 0 {
        strip_styles(s.skip(lead_len(s)))
    } else {
        seq![s[0]] + strip_styles(s.drop_first())
    }
}

/// Every escape character in `s` starts a whole style code.
pub open spec fn clean(s: Seq<char>) -> bool
    decreases s.len(),
{
    if s.len() == 0 {
        true
    } else if lead_len(s) > 0 {
        clean(s.skip(lead_len(s)))
    } else {
        s[0] != '\x1b' && clean(s.drop_first())
    }
}

/// How many newlines `s` ends with.
pub open spec fn trailing_newlines(s: Seq<char>) -> nat
    decreases s.len(),
{
    if s.len() > 0 && s.last() == '\n' {
        1 + trailing_newlines(s.drop_last())
    } else {
        0
    }
}

proof fn lemma_lead_concat(a: Seq<char>, b: Seq<char>)
    requires
        lead_len(a) > 0,
    ensures
        lead_len(a + b) == lead_len(a),
{
    let ab = a + b;
    assert(ab[0] == a[0] && ab[1] == a[1] && ab[2] == a[2] && ab[3] == a[3]);
    if is_code5(a) {
        assert(ab[4] == a[4]);
    }
}

proof fn lemma_strip_concat(a: Seq<char>, b: Seq<char>)
    requires
        clean(a),
    ensures
        strip_styles(a + b) == strip_styles(a) + strip_styles(b),
        clean(b) ==> clean(a + b),
    decreases a.len(),
{
    if a.len() == 0 {
        assert(a + b =~= b);
        assert(strip_styles(a) =~= Seq::<char>::empty());
        assert(strip_styles(a) + strip_styles(b) =~= strip_styles(b));
    } else if lead_len(a) > 0 {
        let k = lead_len(a);
        lemma_lead_concat(a, b);
        assert((a + b).skip(k) =~= a.skip(k) + b);
        lemma_strip_concat(a.skip(k), b);
    } else {
        let ab = a + b;
        assert(ab[0] == a[0]);
        assert(lead_len(ab) == 0);
        assert(ab.drop_first() =~= a.drop_first() + b);
        lemma_strip_concat(a.drop_first(), b);
        assert(seq![a[0]] + (strip_styles(a.drop_first()) + strip_styles(b)) =~= (seq![a[0]]
            + strip_styles(a.drop_first())) + strip_styles(b));
    }
}

proof fn lemma_strip_plain(x: Seq<char>)
    requires
        no_escape(x),
    ensures
        strip_styles(x) == x,
        clean(x),
    decreases x.len(),
{
    if x.len() > 0 {
        assert(x[0] != '\x1b');
        assert(lead_len(x) == 0);
        assert forall|i: int| 0 <= i < x.drop_first().len() implies #[trigger] x.drop_first()[i]
            != '\x1b' by {
            assert(x.drop_first()[i] == x[i + 1]);
        }
        lemma_strip_plain(x.drop_first());
        assert(seq![x[0]] + x.drop_first() =~= x);
    }
}

proof fn lemma_strip_code(st: Style)
    ensures
        clean(style_code(st)),
        strip_styles(style_code(st)) == Seq::<char>::empty(),
        style_code(st).len() > 0,
        style_code(st).last() == 'm',
{
    let c = style_code(st);
    assert(clean(Seq::<char>::empty()));
    assert(strip_styles(Seq::<char>::empty()) == Seq::<char>::empty());
    match st {
        Style::Cyan => {
            assert(c.len() == 5);
            assert(is_code5(c));
        },
        Style::Green => {
            assert(c.len() == 5);
            assert(is_code5(c));
        },
        _ => {
            assert(c.len() == 4);
            assert(is_code4(c));
        },
    }
    assert(lead_len(c) == c.len());
    assert(c.skip(lead_len(c)) =~= Seq::<char>::empty());
}

proof fn lemma_tnl_concat(a: Seq<char>, x: Seq<char>)
    ensures
        trailing_newlines(a + x) == if trailing_newlines(x) == x.len() {
            x.len() + trailing_newlines(a)
        } else {
            trailing_newlines(x)
        },
        trailing_newlines(x) <= x.len(),
    decreases x.len(),
{
    if x.len() == 0 {
        assert(a + x =~= a);
    } else {
        assert((a + x).drop_last() =~= a + x.drop_last());
        assert((a + x).last() == x.last());
        lemma_tnl_concat(a, x.drop_last());
    }
}

/// A text that is nothing but newlines holds no escape character.
proof fn lemma_tnl_all(x: Seq<char>)
    requires
        trailing_newlines(x) == x.len(),
    ensures
        no_escape(x),
        forall|i: int| 0 <= i < x.len() ==> #[trigger] x[i] == '\n',
    decreases x.len(),
{
    if x.len() > 0 {
        lemma_tnl_concat(Seq::<char>::empty(), x.drop_last());
        lemma_tnl_all(x.drop_last());
        assert forall|i: int| 0 <= i < x.len() implies #[trigger] x[i] == '\n' by {
            if i < x.len() - 1 {
                assert(x[i] == x.drop_last()[i]);
            }
        }
    }
}

proof fn lemma_ends_two(x: Seq<char>)
    ensures
        ends_with(x, seq!['\n', '\n']) <==> trailing_newlines(x) >= 2,
        ends_with(x, seq!['\n']) <==> trailing_newlines(x) >= 1,
{
    reveal_with_fuel(trailing_newlines, 3);
    if x.len() >= 1 {
        assert(x.drop_last().len() + 1 == x.len());
        if x.len() >= 2 {
            assert(x.drop_last().last() == x[x.len() - 2]);
            if ends_with(x, seq!['\n', '\n']) {
                assert(x.subrange(x.len() - 2, x.len() as int)[0] == x[x.len() - 2]);
                assert(x.subrange(x.len() - 2, x.len() as int)[1] == x[x.len() - 1]);
            }
            if x[x.len() - 2] == '\n' && x[x.len() - 1] == '\n' {
                assert(x.subrange(x.len() - 2, x.len() as int) =~= seq!['\n', '\n']);
            }
        }
        if ends_with(x, seq!['\n']) {
            assert(x.subrange(x.len() - 1, x.len() as int)[0] == x[x.len() - 1]);
        }
        if x[x.len() - 1] == '\n' {
            assert(x.subrange(x.len() - 1, x.len() as int) =~= seq!['\n']);
        }
    }
}

/// A colored output `a` and the plain output `b` it stands for.
pub open spec fn out_pair(a: Seq<char>, b: Seq<char>) -> bool {
    &&& clean(a)
    &&& strip_styles(a) == b
    &&& trailing_newlines(a) == trailing_newlines(b)
    &&& (a.len() == 0 <==> b.len() == 0)
}

proof fn lemma_out_append(a: Seq<char>, b: Seq<char>, x: Seq<char>, y: Seq<char>)
    requires
        out_pair(a, b),
        out_pair(x, y),
        trailing_newlines(y) == y.len() ==> x == y,
    ensures
        out_pair(a + x, b + y),
{
    lemma_strip_concat(a, x);
    lemma_tnl_concat(a, x);
    lemma_tnl_concat(b, y);
    if trailing_newlines(x) == x.len() {
        lemma_tnl_all(x);
        lemma_strip_plain(x);
    }
}

/// A line whose last character shows and is not a space.
pub open spec fn ends_solid(s: Seq<char>) -> bool {
    s.len() == 0 || !crate::text::is_ws(s.last())
}

/// The colored renderer's state `c` and the plain renderer's state `p`
/// after the same events.
pub open spec fn styled_pair(c: TermState, p: TermState) -> bool {
    &&& c.color
    &&& !p.color
    &&& c.width == p.width
    &&& c.quote_depth == p.quote_depth
    &&& c.lists == p.lists
    &&& c.code_block == p.code_block
    &&& c.table_depth == p.table_depth
    &&& c.pending_link == p.pending_link
    &&& (c.pending_link matches Some(d) ==> no_escape(d))
    &&& c.text == p.text
    &&& p.line == p.text
    &&& clean(c.line)
    &&& strip_styles(c.line) == c.text
    &&& ends_solid(c.line)
    &&& ends_solid(c.text)
    &&& out_pair(c.out, p.out)
}

proof fn lemma_trim_solid(s: Seq<char>)
    requires
        ends_solid(s),
    ensures
        trim_end(s) == s,
{
}

proof fn lemma_line_pair(line: Seq<char>, text: Seq<char>)
    requires
        clean(line),
        strip_styles(line) == text,
        ends_solid(line),
        ends_solid(text),
        !crate::text::all_ws(text),
    ensures
        out_pair(line + seq!['\n'], text + seq!['\n']),
        trailing_newlines(text + seq!['\n']) < (text + seq!['\n']).len(),
{
    let nl = seq!['\n'];
    assert(no_escape(nl));
    lemma_strip_plain(nl);
    lemma_strip_concat(line, nl);
    assert(text.len() > 0);
    assert(line.len() > 0);
    assert((line + nl).drop_last() =~= line);
    assert((text + nl).drop_last() =~= text);
    assert(crate::text::is_ws('\n'));
    assert(trailing_newlines(line) == 0);
    assert(trailing_newlines(text) == 0);
}

proof fn lemma_flush_pair(c: TermState, p: TermState)
    requires
        styled_pair(c, p),
    ensures
        styled_pair(flush_line(c), flush_line(p)),
{
    reveal(flush_line);
    assert(clean(Seq::<char>::empty()));
    assert(strip_styles(Seq::<char>::empty()) == Seq::<char>::empty());
    if !crate::text::all_ws(c.text) {
        lemma_trim_solid(c.line);
        lemma_trim_solid(c.text);
        lemma_line_pair(c.line, c.text);
        lemma_out_append(c.out, p.out, c.line + seq!['\n'], p.text + seq!['\n']);
        assert(c.out + trim_end(c.line) + seq!['\n'] =~= c.out + (c.line + seq!['\n']));
        assert(p.out + trim_end(p.line) + seq!['\n'] =~= p.out + (p.text + seq!['\n']));
    }
}

proof fn lemma_blank_pair(c: TermState, p: TermState)
    requires
        styled_pair(c, p),
    ensures
        styled_pair(blank(c), blank(p)),
{
    reveal(blank);
    lemma_flush_pair(c, p);
    let tc = flush_line(c);
    let tp = flush_line(p);
    lemma_ends_two(tc.out);
    lemma_ends_two(tp.out);
    if !ends_with(tc.out, seq!['\n', '\n']) {
        let nl = seq!['\n'];
        assert(no_escape(nl));
        lemma_strip_plain(nl);
        assert(nl.drop_last() =~= Seq::<char>::empty());
        assert(tc.out.push('\n') =~= tc.out + nl);
        assert(tp.out.push('\n') =~= tp.out + nl);
        lemma_out_append(tc.out, tp.out, nl, nl);
    }
}

proof fn lemma_style_pair(c: TermState, p: TermState, st: Style)
    requires
        styled_pair(c, p),
    ensures
        styled_pair(push_style(c, st), push_style(p, st)),
{
    reveal(push_style);
    lemma_strip_code(st);
    lemma_strip_concat(c.line, style_code(st));
    assert(strip_styles(c.line) + Seq::<char>::empty() =~= strip_styles(c.line));
    assert((c.line + style_code(st)).last() == 'm');
}

proof fn lemma_word_pair(c: TermState, p: TermState, w: Seq<char>)
    requires
        styled_pair(c, p),
        w.len() > 0,
        no_space(w),
        no_escape(w),
    ensures
        styled_pair(push_word(c, w), push_word(p, w)),
{
    reveal(push_word);
    lemma_flush_pair(c, p);
    assert(indent(c) == indent(p));
    let projected = c.text.len() + w.len() + if c.text.len() > 0 {
        1int
    } else {
        0int
    };
    let tc = if projected > crate::terminal::line_limit(c) && !crate::text::all_ws(c.text) {
        flush_line(c)
    } else {
        c
    };
    let tp = if projected > crate::terminal::line_limit(p) && !crate::text::all_ws(p.text) {
        flush_line(p)
    } else {
        p
    };
    let gap = if tc.text.len() == 0 {
        indent(c)
    } else if !ends_with(tc.text, seq![' ']) && !crate::terminal::attaches(w) {
        seq![' ']
    } else {
        Seq::empty()
    };
    lemma_indent(c);
    assert(no_escape(seq![' ']));
    assert(no_escape(Seq::<char>::empty()));
    assert(no_escape(gap));
    lemma_concat(gap, w);
    lemma_strip_plain(gap + w);
    lemma_strip_concat(tc.line, gap + w);
    assert(tc.line + gap + w =~= tc.line + (gap + w));
    assert(tc.text + gap + w =~= tc.text + (gap + w));
    assert(tp.line + gap + w =~= tp.text + (gap + w));
    assert((tc.line + (gap + w)).last() == w.last());
    assert((tc.text + (gap + w)).last() == w.last());
    assert(!crate::text::is_ws(w[w.len() - 1]));
}

proof fn lemma_words_pair(c: TermState, p: TermState, ws: Seq<Seq<char>>)
    requires
        styled_pair(c, p),
        forall|k: int|
            0 <= k < ws.len() ==> (#[trigger] ws[k]).len() > 0 && no_space(ws[k]) && no_escape(
                ws[k],
            ),
    ensures
        styled_pair(push_words(c, ws), push_words(p, ws)),
    decreases ws.len(),
{
    if ws.len() > 0 {
        assert forall|k: int| 0 <= k < ws.drop_last().len() implies (
        #[trigger] ws.drop_last()[k]).len() > 0 && no_space(ws.drop_last()[k]) && no_escape(
            ws.drop_last()[k],
        ) by {
            assert(ws.drop_last()[k] == ws[k]);
        }
        lemma_words_pair(c, p, ws.drop_last());
        assert(ws.last() == ws[ws.len() - 1]);
        lemma_word_pair(push_words(c, ws.drop_last()), push_words(p, ws.drop_last()), ws.last());
    }
}

proof fn lemma_text_pair(c: TermState, p: TermState, t: Seq<char>)
    requires
        styled_pair(c, p),
        no_escape(t),
    ensures
        styled_pair(push_text(c, t), push_text(p, t)),
{
    reveal(push_text);
    lemma_words(t);
    lemma_words_shape(t);
    lemma_words_pair(c, p, words(t));
    lemma_flush_pair(push_words(c, words(t)), push_words(p, words(t)));
}

proof fn lemma_styled_text_pair(c: TermState, p: TermState, t: Seq<char>, st: Style)
    requires
        styled_pair(c, p),
        no_escape(t),
    ensures
        styled_pair(push_styled(c, t, st), push_styled(p, t, st)),
{
    reveal(push_styled);
    lemma_style_pair(c, p, st);
    lemma_text_pair(push_style(c, st), push_style(p, st), t);
    lemma_style_pair(push_text(push_style(c, st), t), push_text(push_style(p, st), t), Style::Reset);
}

proof fn lemma_line_scan_newline(code: Seq<char>)
    ensures
        forall|k: int| 0 <= k < line_scan(code).0.len() ==> no_newline(#[trigger] line_scan(code).0[k]),
        no_newline(line_scan(code).1),
    decreases code.len(),
{
    if code.len() > 0 {
        lemma_line_scan_newline(code.drop_last());
        let (done, cur) = line_scan(code.drop_last());
        if code.last() != '\n' {
            assert forall|i: int| 0 <= i < cur.push(code.last()).len() implies #[trigger] cur.push(
                code.last(),
            )[i] != '\n' by {
                if i < cur.len() {
                    assert(cur.push(code.last())[i] == cur[i]);
                }
            }
        } else {
            assert forall|i: int| 0 <= i < strip_cr(cur).len() implies #[trigger] strip_cr(cur)[i]
                != '\n' by {
                assert(strip_cr(cur)[i] == cur[i]);
            }
            assert forall|k: int| 0 <= k < done.push(strip_cr(cur)).len() implies no_newline(
                #[trigger] done.push(strip_cr(cur))[k],
            ) by {
                if k < done.len() {
                    assert(done.push(strip_cr(cur))[k] == done[k]);
                }
            }
            assert(no_newline(Seq::<char>::empty()));
        }
    }
}

proof fn lemma_code_line_pair(c: TermState, p: TermState, l: Seq<char>)
    requires
        styled_pair(c, p),
        no_escape(l),
        no_newline(l),
    ensures
        out_pair(code_line(c, l), code_line(p, l)),
        trailing_newlines(code_line(p, l)) < code_line(p, l).len(),
{
    let i = indent(c);
    let sp = seq![' ', ' ', ' ', ' '];
    let nl = seq!['\n'];
    let body = i + sp + l;
    lemma_indent(c);
    assert(no_escape(sp));
    lemma_concat(i, sp);
    lemma_concat(i + sp, l);
    assert(no_escape(nl));
    lemma_concat(body, nl);
    let plain = body + nl;
    assert(code_line(p, l) =~= plain);
    let dim = style_code(Style::Dim);
    let reset = style_code(Style::Reset);
    let colored = dim + (body + (reset + nl));
    assert(code_line(c, l) =~= colored);
    lemma_strip_code(Style::Dim);
    lemma_strip_code(Style::Reset);
    lemma_strip_plain(nl);
    lemma_strip_plain(body);
    lemma_strip_concat(reset, nl);
    lemma_strip_concat(body, reset + nl);
    lemma_strip_concat(dim, body + (reset + nl));
    assert(Seq::<char>::empty() + (body + (Seq::<char>::empty() + nl)) =~= plain);
    assert(colored.drop_last() =~= dim + body + reset);
    assert(colored.drop_last().last() == 'm');
    assert(plain.drop_last() =~= body);
    assert(body.len() >= 4);
    if l.len() > 0 {
        assert(body.last() == l[l.len() - 1]);
    } else {
        assert(body.last() == ' ');
    }
    assert(trailing_newlines(body) == 0);
    assert(trailing_newlines(colored.drop_last()) == 0);
}

proof fn lemma_code_lines_pair(c: TermState, p: TermState, ls: Seq<Seq<char>>)
    requires
        styled_pair(c, p),
        forall|k: int| 0 <= k < ls.len() ==> no_escape(#[trigger] ls[k]) && no_newline(ls[k]),
    ensures
        out_pair(code_lines(c, ls), code_lines(p, ls)),
    decreases ls.len(),
{
    if ls.len() == 0 {
        assert(clean(Seq::<char>::empty()));
        assert(strip_styles(Seq::<char>::empty()) == Seq::<char>::empty());
    } else {
        assert forall|k: int| 0 <= k < ls.drop_last().len() implies no_escape(
            #[trigger] ls.drop_last()[k],
        ) && no_newline(ls.drop_last()[k]) by {
            assert(ls.drop_last()[k] == ls[k]);
        }
        lemma_code_lines_pair(c, p, ls.drop_last());
        assert(ls.last() == ls[ls.len() - 1]);
        lemma_code_line_pair(c, p, ls.last());
        lemma_out_append(
            code_lines(c, ls.drop_last()),
            code_lines(p, ls.drop_last()),
            code_line(c, ls.last()),
            code_line(p, ls.last()),
        );
    }
}

proof fn lemma_write_code_pair(c: TermState, p: TermState, code: Seq<char>)
    requires
        styled_pair(c, p),
        no_escape(code),
    ensures
        styled_pair(write_code(c, code), write_code(p, code)),
{
    reveal(write_code);
    lemma_line_scan(code);
    lemma_line_scan_newline(code);
    let (done, cur) = line_scan(code);
    assert forall|k: int| 0 <= k < lines(code).len() implies no_escape(#[trigger] lines(code)[k])
        && no_newline(lines(code)[k]) by {
        if cur.len() > 0 && k == done.len() {
        } else {
            assert(lines(code)[k] == done[k]);
        }
    }
    lemma_code_lines_pair(c, p, lines(code));
    let x = code_lines(c, lines(code));
    let y = code_lines(p, lines(code));
    if trailing_newlines(y) == y.len() && y.len() > 0 {
        assert(false) by {
            lemma_code_lines_solid(p, lines(code));
        }
    }
    if y.len() == 0 {
        assert(x.len() == 0);
        assert(x =~= y);
    }
    lemma_out_append(c.out, p.out, x, y);
}

/// Printed code lines never consist of newlines alone.
proof fn lemma_code_lines_solid(p: TermState, ls: Seq<Seq<char>>)
    requires
        ls.len() > 0,
    ensures
        trailing_newlines(code_lines(p, ls)) < code_lines(p, ls).len(),
    decreases ls.len(),
{
    let last = code_line(p, ls.last());
    let i = indent(p);
    let sp = seq![' ', ' ', ' ', ' '];
    let e = if p.color {
        style_code(Style::Dim)
    } else {
        Seq::<char>::empty()
    };
    let idx: int = e.len() as int + i.len() as int;
    assert(last[idx] == ' ');
    lemma_tnl_concat(code_lines(p, ls.drop_last()), last);
    if trailing_newlines(last) == last.len() {
        lemma_tnl_all(last);
        assert(last[idx] == '\n');
    }
}

proof fn lemma_start_pair(c: TermState, p: TermState, kind: TagKind, data: TagData)
    requires
        styled_pair(c, p),
        event_is_plain(MdEvent::Start(kind, data)),
    ensures
        styled_pair(start(c, kind, data), start(p, kind, data)),
{
    match kind {
        TagKind::Heading(level) => {
            lemma_blank_pair(c, p);
            lemma_repeat(seq!['#'], level as nat);
            lemma_push(repeat(seq!['#'], level as nat), ' ');
            assert(repeat(seq!['#'], level as nat) + seq![' '] == repeat(seq!['#'], level as nat).push(' '));
            lemma_styled_text_pair(blank(c), blank(p), repeat(seq!['#'], level as nat) + seq![' '], Style::Cyan);
        },
        TagKind::BlockQuote => {
            lemma_flush_pair(c, p);
        },
        TagKind::CodeBlock => {
            lemma_blank_pair(c, p);
            lemma_styled_text_pair(blank(c), blank(p), data_text(data), Style::Dim);
            lemma_flush_pair(
                push_styled(blank(c), data_text(data), Style::Dim),
                push_styled(blank(p), data_text(data), Style::Dim),
            );
        },
        TagKind::List(_) => {
            lemma_flush_pair(c, p);
        },
        TagKind::Item => {
            lemma_flush_pair(c, p);
            let tc = flush_line(c);
            let tp = flush_line(p);
            let (marker, lists) = item_marker(tc.lists);
            if tc.lists.len() > 0 && tc.lists.last() is Some {
                let n = tc.lists.last()->0;
                lemma_decimal(n as nat);
                lemma_concat(decimal(n as nat), seq!['.', ' ']);
            }
            assert(no_escape(seq!['-', ' ']));
            lemma_text_pair(TermState { lists: lists, ..tc }, TermState { lists: lists, ..tp }, marker);
        },
        TagKind::Emphasis => {
            lemma_style_pair(c, p, Style::Italic);
        },
        TagKind::Strong => {
            lemma_style_pair(c, p, Style::Bold);
        },
        TagKind::Strikethrough => {
            assert(no_escape(seq!['~']));
            lemma_text_pair(c, p, seq!['~']);
        },
        TagKind::Link => {
        },
        TagKind::Image => {
            let d = data_text(data);
            let t = image_title(data);
            let pre = seq!['[', 'i', 'm', 'a', 'g', 'e', ':', ' '];
            assert(no_escape(pre));
            assert(no_escape(seq![' ', '-', ' ']));
            lemma_concat(pre, d);
            lemma_concat(pre + d, seq![']']);
            lemma_concat(pre, t);
            lemma_concat(pre + t, seq![' ', '-', ' ']);
            lemma_concat(pre + t + seq![' ', '-', ' '], d);
            lemma_concat(pre + t + seq![' ', '-', ' '] + d, seq![']']);
            lemma_styled_text_pair(c, p, image_label(d, t), Style::Underline);
        },
        TagKind::Table => {
            lemma_blank_pair(c, p);
        },
        TagKind::FootnoteDefinition => {
            lemma_blank_pair(c, p);
            let d = data_text(data);
            assert(no_escape(seq!['[', '^']));
            assert(no_escape(seq![']', ':', ' ']));
            lemma_concat(seq!['[', '^'], d);
            lemma_concat(seq!['[', '^'] + d, seq![']', ':', ' ']);
            lemma_text_pair(blank(c), blank(p), seq!['[', '^'] + d + seq![']', ':', ' ']);
        },
        _ => {},
    }
}

proof fn lemma_end_pair(c: TermState, p: TermState, kind: TagKind)
    requires
        styled_pair(c, p),
    ensures
        styled_pair(end(c, kind), end(p, kind)),
{
    match kind {
        TagKind::Paragraph => {
            lemma_flush_pair(c, p);
            lemma_blank_pair(flush_line(c), flush_line(p));
        },
        TagKind::Heading(_) => {
            lemma_flush_pair(c, p);
            lemma_blank_pair(flush_line(c), flush_line(p));
        },
        TagKind::BlockQuote => {
            lemma_flush_pair(c, p);
        },
        TagKind::CodeBlock => {
            lemma_blank_pair(TermState { code_block: false, ..c }, TermState { code_block: false, ..p });
        },
        TagKind::List(_) => {
            lemma_flush_pair(c, p);
            let tc = flush_line(c);
            let tp = flush_line(p);
            let ls = if tc.lists.len() > 0 {
                tc.lists.drop_last()
            } else {
                tc.lists
            };
            lemma_blank_pair(TermState { lists: ls, ..tc }, TermState { lists: ls, ..tp });
        },
        TagKind::Item => {
            lemma_flush_pair(c, p);
        },
        TagKind::Emphasis => {
            lemma_style_pair(c, p, Style::Reset);
        },
        TagKind::Strong => {
            lemma_style_pair(c, p, Style::Reset);
        },
        TagKind::Strikethrough => {
            assert(no_escape(seq!['~']));
            lemma_text_pair(c, p, seq!['~']);
        },
        TagKind::Link => {
            match c.pending_link {
                Some(d) => {
                    assert(no_escape(seq![' ', '(']));
                    lemma_concat(seq![' ', '('], d);
                    lemma_concat(seq![' ', '('] + d, seq![')']);
                    lemma_styled_text_pair(
                        TermState { pending_link: None, ..c },
                        TermState { pending_link: None, ..p },
                        seq![' ', '('] + d + seq![')'],
                        Style::Dim,
                    );
                },
                None => {},
            }
        },
        TagKind::Table => {
            let depth: nat = if c.table_depth > 0 {
                (c.table_depth - 1) as nat
            } else {
                0
            };
            lemma_blank_pair(TermState { table_depth: depth, ..c }, TermState { table_depth: depth, ..p });
        },
        TagKind::TableHead => {
            lemma_flush_pair(c, p);
        },
        TagKind::TableRow => {
            lemma_flush_pair(c, p);
        },
        TagKind::TableCell => {
            assert(no_escape(seq![' ', '|', ' ']));
            lemma_text_pair(c, p, seq![' ', '|', ' ']);
        },
        TagKind::FootnoteDefinition => {
            lemma_blank_pair(c, p);
        },
        TagKind::DefinitionList => {
            lemma_flush_pair(c, p);
        },
        TagKind::DefinitionListTitle => {
            lemma_flush_pair(c, p);
        },
        TagKind::DefinitionListDefinition => {
            lemma_flush_pair(c, p);
        },
        _ => {},
    }
}

proof fn lemma_step_pair(c: TermState, p: TermState, e: MdEvent)
    requires
        styled_pair(c, p),
        event_is_plain(e),
    ensures
        styled_pair(step(c, e), step(p, e)),
{
    match e {
        MdEvent::Start(kind, data) => lemma_start_pair(c, p, kind, data),
        MdEvent::End(kind) => lemma_end_pair(c, p, kind),
        MdEvent::Text(t) => {
            lemma_flush_pair(c, p);
            lemma_write_code_pair(flush_line(c), flush_line(p), t@);
            lemma_text_pair(c, p, t@);
        },
        MdEvent::Code(x) => {
            assert(no_escape(seq!['`']));
            lemma_enclosed(seq!['`'], x@, seq!['`']);
            lemma_styled_text_pair(c, p, seq!['`'] + x@ + seq!['`'], Style::Green);
        },
        MdEvent::Html(h) => lemma_text_pair(c, p, h@),
        MdEvent::InlineHtml(h) => lemma_text_pair(c, p, h@),
        MdEvent::SoftBreak => {
            assert(no_escape(seq![' ']));
            lemma_text_pair(c, p, seq![' ']);
        },
        MdEvent::HardBreak => lemma_flush_pair(c, p),
        MdEvent::Rule => {
            lemma_blank_pair(c, p);
            let tc = blank(c);
            let tp = blank(p);
            let n: nat = if tc.width < 80 {
                tc.width
            } else {
                80
            };
            lemma_repeat(seq!['\u{2500}'], n);
            lemma_push(repeat(seq!['\u{2500}'], n), '\n');
            assert(rule_line(tc) == repeat(seq!['\u{2500}'], n).push('\n'));
            assert(rule_line(tp) == rule_line(tc));
            lemma_strip_plain(rule_line(tc));
            let r = rule_line(tc);
            assert(r.drop_last() =~= repeat(seq!['\u{2500}'], n));
            lemma_out_append(tc.out, tp.out, r, r);
            lemma_blank_pair(TermState { out: tc.out + r, ..tc }, TermState { out: tp.out + r, ..tp });
        },
        MdEvent::InlineMath(m) => {
            assert(no_escape(seq!['$']));
            lemma_enclosed(seq!['$'], m@, seq!['$']);
            lemma_styled_text_pair(c, p, seq!['$'] + m@ + seq!['$'], Style::Green);
        },
        MdEvent::DisplayMath(m) => {
            lemma_blank_pair(c, p);
            assert(no_escape(seq!['$', '$', '\n']));
            assert(no_escape(seq!['\n', '$', '$']));
            lemma_enclosed(seq!['$', '$', '\n'], m@, seq!['\n', '$', '$']);
            let t = seq!['$', '$', '\n'] + m@ + seq!['\n', '$', '$'];
            lemma_styled_text_pair(blank(c), blank(p), t, Style::Green);
            lemma_blank_pair(push_styled(blank(c), t, Style::Green), push_styled(blank(p), t, Style::Green));
        },
        MdEvent::FootnoteReference(r) => {
            assert(no_escape(seq!['[', '^']));
            assert(no_escape(seq![']']));
            lemma_enclosed(seq!['[', '^'], r@, seq![']']);
            lemma_text_pair(c, p, seq!['[', '^'] + r@ + seq![']']);
        },
        MdEvent::TaskListMarker(checked) => {
            assert(no_escape(seq!['[', 'x', ']', ' ']));
            assert(no_escape(seq!['[', ' ', ']', ' ']));
            lemma_text_pair(
                c,
                p,
                if checked {
                    seq!['[', 'x', ']', ' ']
                } else {
                    seq!['[', ' ', ']', ' ']
                },
            );
        },
    }
}

proof fn lemma_run_pair(c: TermState, p: TermState, events: Seq<MdEvent>)
    requires
        styled_pair(c, p),
        forall|k: int| 0 <= k < events.len() ==> event_is_plain(#[trigger] events[k]),
    ensures
        styled_pair(run(c, events), run(p, events)),
    decreases events.len(),
{
    if events.len() > 0 {
        assert forall|k: int| 0 <= k < events.drop_last().len() implies event_is_plain(
            #[trigger] events.drop_last()[k],
        ) by {
            assert(events.drop_last()[k] == events[k]);
        }
        lemma_run_pair(c, p, events.drop_last());
        assert(event_is_plain(events[events.len() - 1]));
        lemma_step_pair(run(c, events.drop_last()), run(p, events.drop_last()), events.last());
    }
}

proof fn lemma_blank_tail_shape(o: Seq<char>)
    ensures
        strip_blank_tail(o) == if trailing_newlines(o) >= 2 {
            o.take(o.len() - trailing_newlines(o) + 1)
        } else {
            o
        },
    decreases o.len(),
{
    lemma_ends_two(o);
    if ends_with(o, seq!['\n', '\n']) {
        lemma_blank_tail_shape(o.drop_last());
        lemma_tnl_concat(Seq::<char>::empty(), o);
        assert(o.drop_last().len() + 1 == o.len());
        assert(o.last() == '\n');
        assert(trailing_newlines(o.drop_last()) + 1 == trailing_newlines(o));
        if trailing_newlines(o.drop_last()) >= 2 {
            assert(o.drop_last().take(o.drop_last().len() - trailing_newlines(o.drop_last()) + 1)
                =~= o.take(o.len() - trailing_newlines(o) + 1));
        } else {
            assert(o.drop_last() =~= o.take(o.len() - trailing_newlines(o) + 1));
        }
    }
}

/// The last `trailing_newlines(o)` characters of `o` are newlines.
proof fn lemma_tail_split(o: Seq<char>, k: int)
    requires
        0 <= k <= trailing_newlines(o),
    ensures
        k <= o.len(),
        trailing_newlines(o.skip(o.len() - k)) == k,
        o.take(o.len() - k) + o.skip(o.len() - k) == o,
    decreases k,
{
    lemma_tnl_concat(Seq::<char>::empty(), o);
    assert(Seq::<char>::empty() + o =~= o);
    if k > 0 {
        assert(o.last() == '\n');
        lemma_tail_split(o.drop_last(), k - 1);
        let t = o.skip(o.len() - k);
        assert(t.drop_last() =~= o.drop_last().skip(o.drop_last().len() - (k - 1)));
        assert(t.last() == o.last());
    } else {
        assert(o.skip(o.len() as int) =~= Seq::<char>::empty());
    }
    assert(o.take(o.len() - k) + o.skip(o.len() - k) =~= o);
}

proof fn lemma_clean_prefix(y: Seq<char>, z: Seq<char>)
    requires
        clean(y + z),
        forall|i: int| 0 <= i < z.len() ==> #[trigger] z[i] == '\n',
    ensures
        clean(y),
    decreases y.len(),
{
    if y.len() > 0 {
        let yz = y + z;
        assert(yz[0] == y[0]);
        if lead_len(yz) > 0 {
            let k = lead_len(yz);
            assert forall|i: int| 0 <= i < k implies #[trigger] yz[i] != '\n' by {
            }
            if y.len() < k {
                assert(yz[y.len() as int] == z[0]);
                assert(false);
            }
            assert(y[1] == yz[1] && y[2] == yz[2] && y[3] == yz[3]);
            if k == 5 {
                assert(y[4] == yz[4]);
            }
            assert(lead_len(y) == k);
            assert(yz.skip(k) =~= y.skip(k) + z);
            lemma_clean_prefix(y.skip(k), z);
        } else {
            assert(lead_len(y) == 0) by {
                if lead_len(y) > 0 {
                    lemma_lead_concat(y, z);
                }
            }
            assert(yz.drop_first() =~= y.drop_first() + z);
            lemma_clean_prefix(y.drop_first(), z);
        }
    }
}

/// Removing `k` trailing newlines from both sides of an output pair keeps it one.
proof fn lemma_pair_drop(a: Seq<char>, b: Seq<char>, k: int)
    requires
        out_pair(a, b),
        0 <= k <= trailing_newlines(a),
    ensures
        strip_styles(a.take(a.len() - k)) == b.take(b.len() - k),
        a.len() - k >= 0,
        b.len() - k >= 0,
{
    lemma_tail_split(a, k);
    lemma_tail_split(b, k);
    let y = a.take(a.len() - k);
    let z = a.skip(a.len() - k);
    let zb = b.skip(b.len() - k);
    lemma_tnl_all(z);
    lemma_tnl_all(zb);
    assert(z =~= zb);
    lemma_clean_prefix(y, z);
    lemma_strip_concat(y, z);
    lemma_strip_plain(z);
    assert(strip_styles(y) + z == b.take(b.len() - k) + z);
    assert(strip_styles(y) =~= (strip_styles(y) + z).take(strip_styles(y).len() as int));
    assert(b.take(b.len() - k) =~= (b.take(b.len() - k) + z).take(b.len() - k));
}

proof fn lemma_finish_pair(c: TermState, p: TermState)
    requires
        styled_pair(c, p),
    ensures
        strip_styles(finish(c)) == finish(p),
{
    lemma_flush_pair(c, p);
    let a = flush_line(c).out;
    let b = flush_line(p).out;
    lemma_blank_tail_shape(a);
    lemma_blank_tail_shape(b);
    let k = trailing_newlines(a);
    let d: int = if k >= 2 {
        k - 1
    } else {
        0
    };
    lemma_pair_drop(a, b, d);
    let oa = strip_blank_tail(a);
    let ob = strip_blank_tail(b);
    assert(oa == a.take(a.len() - d));
    assert(ob == b.take(b.len() - d));
    assert(strip_styles(oa) == ob);
    lemma_ends_two(oa);
    lemma_ends_two(ob);
    lemma_tail_split(a, d);
    lemma_tail_split(b, d);
    lemma_tnl_concat(oa, a.skip(a.len() - d));
    lemma_tnl_concat(ob, b.skip(b.len() - d));
    assert(trailing_newlines(oa) == trailing_newlines(ob));
    if k == 0 {
        assert(oa.len() == 0 <==> ob.len() == 0);
    }
    if oa.len() > 0 && !ends_with(oa, seq!['\n']) {
        let nl = seq!['\n'];
        assert(no_escape(nl));
        lemma_strip_plain(nl);
        lemma_clean_prefix(oa, a.skip(a.len() - d));
        lemma_strip_concat(oa, nl);
        assert(oa.push('\n') =~= oa + nl);
        assert(ob.push('\n') =~= ob + nl);
    }
}

/// Color only adds styling: with color on, the output with its style codes
/// taken out is the output with color off, for any document whose text
/// holds no escape character.
pub proof fn color_only_adds_styling(options: RenderOptions, events: Seq<MdEvent>)
    requires
        forall|k: int| 0 <= k < events.len() ==> event_is_plain(#[trigger] events[k]),
    ensures
        strip_styles(render_spec(RenderOptions { color: true, ..options }, events)) == render_spec(
            RenderOptions { color: false, ..options },
            events,
        ),
{
    let c0 = initial_state(RenderOptions { color: true, ..options });
    let p0 = initial_state(RenderOptions { color: false, ..options });
    assert(clean(Seq::<char>::empty()));
    assert(strip_styles(Seq::<char>::empty()) == Seq::<char>::empty());
    assert(trailing_newlines(Seq::<char>::empty()) == 0);
    assert(styled_pair(c0, p0));
    lemma_run_pair(c0, p0, events);
    lemma_finish_pair(run(c0, events), run(p0, events));
}


/// `--width COLUMNS` reads its value as a width of at least 20 columns and
/// refuses every other value as an invalid width; `--port PORT` reads a
/// port from 1 to 65535 and refuses every other value as an invalid port.
pub proof fn flag_values_are_checked(v: Seq<char>, rest: Seq<Seq<char>>, st: CliSpec)
    ensures
        parse_args(seq![flag_width(), v] + rest, 0, st) == match width_value(v) {
            Some(w) => parse_args(seq![flag_width(), v] + rest, 2, CliSpec { width: w, ..st }),
            None => CliOutcome::Failed(CliFailure::InvalidWidth(v)),
        },
        parse_args(seq![flag_port(), v] + rest, 0, st) == match port_value(v) {
            Some(n) => parse_args(seq![flag_port(), v] + rest, 2, CliSpec { port: n, ..st }),
            None => CliOutcome::Failed(CliFailure::InvalidPort(v)),
        },
{
    let a = seq![flag_width(), v] + rest;
    let b = seq![flag_port(), v] + rest;
    assert(a[0] == flag_width() && a[1] == v);
    assert(b[0] == flag_port() && b[1] == v);
    let pf = flag_port();
    assert(pf != flag_short_help() && pf != flag_help() && pf != flag_no_color() && pf
        != flag_short_width() && pf != flag_width() && pf != flag_html() && pf != flag_serve()) by {
        if pf == flag_help() {
            assert(pf[2] == flag_help()[2]);
        }
        if pf == flag_html() {
            assert(pf[2] == flag_html()[2]);
        }
    }
    assert(!starts_with(pf, flag_width_eq()));
    let wf = flag_width();
    assert(wf != flag_short_help() && wf != flag_help() && wf != flag_no_color());
}

/// The lines `ls`, each followed by a newline.
pub open spec fn joined_lines(ls: Seq<Seq<char>>) -> Seq<char>
    decreases ls.len(),
{
    if ls.len() == 0 {
        Seq::empty()
    } else {
        joined_lines(ls.drop_last()) + ls.last() + seq!['\n']
    }
}

/// The lines `ls` as a code block prints them without color at the top
/// level: each indented by four columns.
pub open spec fn indented_lines(ls: Seq<Seq<char>>) -> Seq<char>
    decreases ls.len(),
{
    if ls.len() == 0 {
        Seq::empty()
    } else {
        indented_lines(ls.drop_last()) + seq![' ', ' ', ' ', ' '] + ls.last() + seq!['\n']
    }
}

/// A line that `str::lines` gives back as it is.
pub open spec fn plain_line(l: Seq<char>) -> bool {
    no_newline(l) && (l.len() > 0 ==> l.last() != '\r')
}

proof fn lemma_joined_lines(ls: Seq<Seq<char>>)
    requires
        forall|k: int| 0 <= k < ls.len() ==> plain_line(#[trigger] ls[k]),
    ensures
        lines(joined_lines(ls)) == ls,
        joined_lines(ls).len() == 0 || joined_lines(ls).last() == '\n',
    decreases ls.len(),
{
    if ls.len() == 0 {
        assert(line_scan(Seq::<char>::empty()) == (Seq::<Seq<char>>::empty(), Seq::<char>::empty()));
        assert(lines(Seq::<char>::empty()) =~= Seq::<Seq<char>>::empty());
    } else {
        assert forall|k: int| 0 <= k < ls.drop_last().len() implies plain_line(
            #[trigger] ls.drop_last()[k],
        ) by {
            assert(ls.drop_last()[k] == ls[k]);
        }
        lemma_joined_lines(ls.drop_last());
        assert(plain_line(ls[ls.len() - 1]));
        lemma_append_line(joined_lines(ls.drop_last()), ls.last());
        assert(strip_cr(ls.last()) == ls.last());
        assert(ls.drop_last().push(ls.last()) =~= ls);
    }
}

proof fn lemma_indented_lines(f: TermState, ls: Seq<Seq<char>>)
    requires
        !f.color,
        indent(f) == Seq::<char>::empty(),
    ensures
        code_lines(f, ls) == indented_lines(ls),
    decreases ls.len(),
{
    if ls.len() > 0 {
        lemma_indented_lines(f, ls.drop_last());
        assert(code_line(f, ls.last()) =~= seq![' ', ' ', ' ', ' '] + ls.last() + seq!['\n']);
        assert(indented_lines(ls.drop_last()) + (seq![' ', ' ', ' ', ' '] + ls.last() + seq!['\n'])
            =~= indented_lines(ls));
    }
}

/// A code block with no language is printed as it is written, each line
/// indented by four columns and none wrapped, split or trimmed, however
/// long its lines and whatever the width.
pub proof fn code_is_printed_verbatim(
    options: RenderOptions,
    data: TagData,
    t: String,
    ls: Seq<Seq<char>>,
)
    requires
        !options.color,
        data_text(data).len() == 0,
        ls.len() > 0,
        t@ == joined_lines(ls),
        forall|k: int| 0 <= k < ls.len() ==> plain_line(#[trigger] ls[k]),
    ensures
        render_spec(
            options,
            seq![
                MdEvent::Start(TagKind::CodeBlock, data),
                MdEvent::Text(t),
                MdEvent::End(TagKind::CodeBlock),
            ],
        ) == seq!['\n'] + indented_lines(ls),
{
    reveal(flush_line);
    reveal(blank);
    reveal(write_code);
    let events = seq![
        MdEvent::Start(TagKind::CodeBlock, data),
        MdEvent::Text(t),
        MdEvent::End(TagKind::CodeBlock),
    ];
    let s0 = initial_state(options);
    assert(crate::text::all_ws(Seq::<char>::empty()));
    assert(!ends_with(Seq::<char>::empty(), seq!['\n', '\n']));
    let e0 = MdEvent::Start(TagKind::CodeBlock, data);
    let e1 = MdEvent::Text(t);
    assert(run(s0, Seq::<MdEvent>::empty()) == s0);
    assert(run(s0, seq![e0]) == step(run(s0, seq![e0].drop_last()), e0));
    assert(seq![e0].drop_last() =~= Seq::<MdEvent>::empty());
    let s1 = run(s0, seq![e0]);
    assert(s1 == TermState { code_block: true, ..blank(s0) });
    assert(s1.out =~= seq!['\n']);
    assert(s1.text.len() == 0 && s1.quote_depth == 0 && s1.lists.len() == 0);
    let f = flush_line(s1);
    assert(f.out == s1.out);
    assert(indent(f) =~= Seq::<char>::empty()) by {
        assert(repeat(seq!['>', ' '], 0) =~= Seq::<char>::empty());
        assert(repeat(seq![' ', ' '], 0) =~= Seq::<char>::empty());
    }
    lemma_joined_lines(ls);
    lemma_indented_lines(f, ls);
    assert(seq![e0, e1].drop_last() =~= seq![e0]);
    assert(run(s0, seq![e0, e1]) == step(s1, e1));
    assert(events.drop_last() =~= seq![e0, e1]);
    let s2 = run(s0, events.drop_last());
    let body = ls.last();
    let o2 = s2.out;
    assert(o2 =~= seq!['\n'] + indented_lines(ls));
    assert(indented_lines(ls) =~= indented_lines(ls.drop_last()) + seq![' ', ' ', ' ', ' '] + body
        + seq!['\n']);
    assert(s2.text.len() == 0);
    assert(o2.len() >= 2);
    assert(o2[o2.len() - 2] != '\n') by {
        assert(plain_line(ls[ls.len() - 1]));
        if body.len() > 0 {
            assert(o2[o2.len() - 2] == body[body.len() - 1]);
        } else {
            assert(o2[o2.len() - 2] == ' ');
        }
    }
    lemma_ends_two(o2);
    reveal_with_fuel(trailing_newlines, 3);
    assert(o2.drop_last().last() == o2[o2.len() - 2]);
    assert(trailing_newlines(o2) == 1);
    let s3 = run(s0, events);
    assert(s3.out =~= o2.push('\n'));
    assert(flush_line(s3).out == s3.out);
    let o3 = s3.out;
    assert(o3.drop_last() =~= o2);
    assert(trailing_newlines(o3) == 2);
    lemma_blank_tail_shape(o3);
    assert(o3.take(o3.len() - 2 + 1) =~= o2);
    lemma_ends_two(o2);
}


/// The words that an event's text contributes.
pub open spec fn event_words(e: MdEvent) -> Seq<Seq<char>> {
    match e {
        MdEvent::Text(t) => words(t@),
        _ => Seq::empty(),
    }
}

/// The words of all the texts of `events`, in order.
pub open spec fn text_words(events: Seq<MdEvent>) -> Seq<Seq<char>>
    decreases events.len(),
{
    if events.len() == 0 {
        Seq::empty()
    } else {
        text_words(events.drop_last()) + event_words(events.last())
    }
}

/// A prose event none of whose words is punctuation that the renderer
/// glues to the word before it.
pub open spec fn plain_prose_event(e: MdEvent, width: nat) -> bool {
    &&& prose_event(e, width)
    &&& forall|j: int|
        0 <= j < event_words(e).len() ==> !crate::terminal::attaches(#[trigger] event_words(e)[j])
}

proof fn lemma_scan_concat(x: Seq<char>, y: Seq<char>)
    requires
        word_scan(x).1.len() == 0,
    ensures
        word_scan(x + y) == (word_scan(x).0 + word_scan(y).0, word_scan(y).1),
    decreases y.len(),
{
    if y.len() == 0 {
        assert(x + y =~= x);
        assert(word_scan(x).0 + Seq::<Seq<char>>::empty() =~= word_scan(x).0);
    } else {
        lemma_scan_concat(x, y.drop_last());
        assert((x + y).drop_last() =~= x + y.drop_last());
        assert((x + y).last() == y.last());
        let (d, c) = word_scan(y.drop_last());
        assert((word_scan(x).0 + d).push(c) =~= word_scan(x).0 + d.push(c));
    }
}

proof fn lemma_words_concat(x: Seq<char>, y: Seq<char>)
    requires
        x.len() == 0 || crate::text::is_ws(x.last()),
    ensures
        words(x + y) == words(x) + words(y),
{
    if x.len() > 0 {
        assert(word_scan(x).1.len() == 0);
    }
    lemma_scan_concat(x, y);
    let (d, c) = word_scan(y);
    assert((word_scan(x).0 + d).push(c) =~= word_scan(x).0 + d.push(c));
    assert(word_scan(x).0 + d =~= word_scan(x).0 + d);
}

proof fn lemma_words_space(a: Seq<char>, c: char)
    requires
        crate::text::is_ws(c),
    ensures
        words(a.push(c)) == words(a),
{
    assert(a.push(c).drop_last() =~= a);
}

proof fn lemma_words_single(w: Seq<char>)
    requires
        w.len() > 0,
        no_space(w),
    ensures
        words(w) == seq![w],
{
    lemma_word_scan_word(w);
}

proof fn lemma_word_scan_word(w: Seq<char>)
    requires
        no_space(w),
    ensures
        word_scan(w) == (Seq::<Seq<char>>::empty(), w),
    decreases w.len(),
{
    if w.len() > 0 {
        assert forall|i: int| 0 <= i < w.drop_last().len() implies !crate::text::is_ws(
            #[trigger] w.drop_last()[i],
        ) by {
            assert(w.drop_last()[i] == w[i]);
        }
        lemma_word_scan_word(w.drop_last());
        assert(!crate::text::is_ws(w[w.len() - 1]));
        assert(w.drop_last().push(w.last()) =~= w);
    } else {
        assert(w =~= Seq::<char>::empty());
    }
}

/// Prose as rendered so far: its words are `ws`.
pub open spec fn prose_words(s: TermState, ws: Seq<Seq<char>>) -> bool {
    &&& prose_state(s)
    &&& ends_solid(s.line)
    &&& words(s.out + s.line) == ws
}

proof fn lemma_flush_words(s: TermState, ws: Seq<Seq<char>>)
    requires
        prose_words(s, ws),
    ensures
        prose_words(flush_line(s), ws),
{
    reveal(flush_line);
    lemma_flush_prose(s);
    assert(s.out + s.line + Seq::<char>::empty() =~= s.out + s.line);
    if crate::text::all_ws(s.line) {
        assert(s.line.len() == 0);
        assert(s.out + s.line =~= s.out);
    } else {
        lemma_trim_solid(s.line);
        assert(crate::text::is_ws('\n'));
        lemma_words_space(s.out + s.line, '\n');
        assert((s.out + s.line).push('\n') =~= s.out + s.line + seq!['\n']);
    }
    assert(flush_line(s).out + Seq::<char>::empty() =~= flush_line(s).out);
}

proof fn lemma_blank_words(s: TermState, ws: Seq<Seq<char>>)
    requires
        prose_words(s, ws),
    ensures
        prose_words(blank(s), ws),
{
    reveal(blank);
    lemma_flush_words(s, ws);
    lemma_blank_prose(s);
    let t = flush_line(s);
    assert(t.out + t.line =~= t.out);
    assert(crate::text::is_ws('\n'));
    lemma_words_space(t.out, '\n');
    assert(t.out.push('\n') + Seq::<char>::empty() =~= t.out.push('\n'));
}

proof fn lemma_push_word_words(s: TermState, ws: Seq<Seq<char>>, w: Seq<char>)
    requires
        prose_words(s, ws),
        w.len() > 0,
        w.len() <= s.width,
        no_space(w),
        !crate::terminal::attaches(w),
    ensures
        prose_words(push_word(s, w), ws.push(w)),
{
    reveal(push_word);
    lemma_push_word_prose(s, w);
    lemma_flush_words(s, ws);
    lemma_words_single(w);
    assert(indent(s) =~= Seq::<char>::empty()) by {
        assert(repeat(seq!['>', ' '], 0) =~= Seq::<char>::empty());
        assert(repeat(seq![' ', ' '], 0) =~= Seq::<char>::empty());
    }
    let projected = s.text.len() + w.len() + if s.text.len() > 0 {
        1int
    } else {
        0int
    };
    let t = if projected > crate::terminal::line_limit(s) && !crate::text::all_ws(s.text) {
        flush_line(s)
    } else {
        s
    };
    assert(prose_words(t, ws));
    let r = push_word(s, w);
    assert(r.out == t.out);
    assert(ws + seq![w] =~= ws.push(w));
    assert(crate::text::is_ws(' '));
    assert(crate::text::is_ws('\n'));
    if t.line.len() == 0 {
        assert(r.line =~= w);
        assert(t.out + t.line =~= t.out);
        assert(t.out.len() == 0 || crate::text::is_ws(t.out.last()));
        lemma_words_concat(t.out, w);
    } else {
        lemma_ends_with_char(t.line, ' ');
        assert(!ends_with(t.line, seq![' ']));
        assert(r.line =~= t.line.push(' ') + w);
        lemma_words_space(t.out + t.line, ' ');
        assert((t.out + t.line).push(' ') =~= t.out + t.line.push(' '));
        lemma_words_concat(t.out + t.line.push(' '), w);
        assert(t.out + r.line =~= t.out + t.line.push(' ') + w);
    }
    assert(r.line.last() == w[w.len() - 1]);
}

proof fn lemma_push_words_words(s: TermState, ws: Seq<Seq<char>>, more: Seq<Seq<char>>)
    requires
        prose_words(s, ws),
        forall|k: int|
            0 <= k < more.len() ==> (#[trigger] more[k]).len() > 0 && more[k].len() <= s.width
                && no_space(more[k]) && !crate::terminal::attaches(more[k]),
    ensures
        prose_words(push_words(s, more), ws + more),
        push_words(s, more).width == s.width,
    decreases more.len(),
{
    lemma_push_words_prose(s, more);
    if more.len() == 0 {
        assert(ws + more =~= ws);
    } else {
        assert forall|k: int| 0 <= k < more.drop_last().len() implies (
        #[trigger] more.drop_last()[k]).len() > 0 && more.drop_last()[k].len() <= s.width
            && no_space(more.drop_last()[k]) && !crate::terminal::attaches(more.drop_last()[k]) by {
            assert(more.drop_last()[k] == more[k]);
        }
        lemma_push_words_words(s, ws, more.drop_last());
        lemma_push_words_prose(s, more.drop_last());
        assert(more.last() == more[more.len() - 1]);
        lemma_push_word_words(push_words(s, more.drop_last()), ws + more.drop_last(), more.last());
        assert((ws + more.drop_last()).push(more.last()) =~= ws + more);
    }
}

proof fn lemma_push_text_words(s: TermState, ws: Seq<Seq<char>>, text: Seq<char>)
    requires
        prose_words(s, ws),
        forall|k: int| 0 <= k < words(text).len() ==> (#[trigger] words(text)[k]).len() <= s.width,
        forall|k: int| 0 <= k < words(text).len() ==> !crate::terminal::attaches(#[trigger] words(text)[k]),
    ensures
        prose_words(push_text(s, text), ws + words(text)),
{
    reveal(push_text);
    lemma_words_shape(text);
    lemma_push_words_words(s, ws, words(text));
    lemma_flush_words(push_words(s, words(text)), ws + words(text));
}

proof fn lemma_run_words(s: TermState, events: Seq<MdEvent>)
    requires
        prose_words(s, words(s.out + s.line)),
        s.out.len() == 0,
        s.line.len() == 0,
        forall|k: int| 0 <= k < events.len() ==> plain_prose_event(#[trigger] events[k], s.width),
    ensures
        prose_words(run(s, events), text_words(events)),
        run(s, events).width == s.width,
    decreases events.len(),
{
    if events.len() == 0 {
        assert(s.out + s.line =~= Seq::<char>::empty());
        assert(word_scan(Seq::<char>::empty()) == (Seq::<Seq<char>>::empty(), Seq::<char>::empty()));
        assert(words(Seq::<char>::empty()) =~= Seq::<Seq<char>>::empty());
    } else {
        assert forall|k: int| 0 <= k < events.drop_last().len() implies plain_prose_event(
            #[trigger] events.drop_last()[k],
            s.width,
        ) by {
            assert(events.drop_last()[k] == events[k]);
        }
        lemma_run_words(s, events.drop_last());
        let r = run(s, events.drop_last());
        let e = events.last();
        let ws = text_words(events.drop_last());
        assert(plain_prose_event(events[events.len() - 1], s.width));
        match e {
            MdEvent::Start(TagKind::Paragraph, _) => {
                assert(ws + event_words(e) =~= ws);
            },
            MdEvent::End(TagKind::Paragraph) => {
                lemma_flush_words(r, ws);
                lemma_flush_prose(r);
                lemma_blank_words(flush_line(r), ws);
                lemma_blank_prose(flush_line(r));
                assert(ws + event_words(e) =~= ws);
            },
            MdEvent::SoftBreak => {
                assert(words(seq![' ']) =~= Seq::<Seq<char>>::empty()) by {
                    assert(seq![' '].drop_last() =~= Seq::<char>::empty());
                    assert(word_scan(Seq::<char>::empty()) == (Seq::<Seq<char>>::empty(), Seq::<char>::empty()));
                    assert(crate::text::is_ws(' '));
                }
                lemma_push_text_words(r, ws, seq![' ']);
                lemma_push_text_prose(r, seq![' ']);
                assert(ws + words(seq![' ']) =~= ws);
                assert(ws + event_words(e) =~= ws);
            },
            MdEvent::HardBreak => {
                lemma_flush_words(r, ws);
                lemma_flush_prose(r);
                assert(ws + event_words(e) =~= ws);
            },
            MdEvent::Text(t) => {
                assert(event_words(e) == words(t@));
                assert forall|k: int| 0 <= k < words(t@).len() implies !crate::terminal::attaches(
                    #[trigger] words(t@)[k],
                ) by {
                    assert(event_words(e)[k] == words(t@)[k]);
                }
                lemma_push_text_words(r, ws, t@);
                lemma_push_text_prose(r, t@);
            },
            _ => {},
        }
    }
}

proof fn lemma_blank_tail_words(o: Seq<char>)
    ensures
        words(strip_blank_tail(o)) == words(o),
    decreases o.len(),
{
    if ends_with(o, seq!['\n', '\n']) {
        lemma_blank_tail_words(o.drop_last());
        lemma_ends_two(o);
        reveal_with_fuel(trailing_newlines, 2);
        assert(o.last() == '\n');
        assert(crate::text::is_ws('\n'));
        lemma_words_space(o.drop_last(), '\n');
        assert(o.drop_last().push('\n') =~= o);
    }
}

/// Prose keeps its words: rendered without color at a width of 20 or
/// more, the output holds the words of the document's texts, in order,
/// when each fits in the width and none is punctuation glued to the word
/// before it.
pub proof fn prose_keeps_its_words(options: RenderOptions, events: Seq<MdEvent>)
    requires
        !options.color,
        options.width >= 20,
        forall|k: int|
            0 <= k < events.len() ==> plain_prose_event(#[trigger] events[k], options.width as nat),
    ensures
        words(render_spec(options, events)) == text_words(events),
{
    let s0 = initial_state(options);
    assert(s0.out + s0.line =~= Seq::<char>::empty());
    assert(word_scan(Seq::<char>::empty()) == (Seq::<Seq<char>>::empty(), Seq::<char>::empty()));
    assert(lines(Seq::<char>::empty()) =~= Seq::<Seq<char>>::empty()) by {
        assert(line_scan(Seq::<char>::empty()) == (Seq::<Seq<char>>::empty(), Seq::<char>::empty()));
    }
    assert(prose_state(s0));
    lemma_run_words(s0, events);
    let s = run(s0, events);
    lemma_flush_words(s, text_words(events));
    let f = flush_line(s);
    lemma_flush_prose(s);
    assert(f.out + f.line =~= f.out);
    lemma_blank_tail_words(f.out);
    let o = strip_blank_tail(f.out);
    if o.len() > 0 && !ends_with(o, seq!['\n']) {
        assert(crate::text::is_ws('\n'));
        lemma_words_space(o, '\n');
    }
}


/// The value of a hexadecimal digit, in either case.
pub open spec fn hex_value(c: char) -> Option<nat> {
    if '0' <= c <= '9' {
        Some(((c as u32) - ('0' as u32)) as nat)
    } else if 'a' <= c <= 'f' {
        Some(((c as u32) - ('a' as u32) + 10) as nat)
    } else if 'A' <= c <= 'F' {
        Some(((c as u32) - ('A' as u32) + 10) as nat)
    } else {
        None
    }
}

/// The character that a JSON escape `\x` stands for, other than `\u`.
pub open spec fn json_escape(x: char) -> Option<char> {
    if x == '"' {
        Some('"')
    } else if x == '\\' {
        Some('\\')
    } else if x == '/' {
        Some('/')
    } else if x == 'b' {
        Some('\u{8}')
    } else if x == 'f' {
        Some('\u{c}')
    } else if x == 'n' {
        Some('\n')
    } else if x == 'r' {
        Some('\r')
    } else if x == 't' {
        Some('\t')
    } else {
        None
    }
}

/// The character that the four hexadecimal digits of a `\uXXXX` escape
/// stand for; `None` for anything else, and for one half of a surrogate
/// pair.
pub open spec fn json_unicode(d: Seq<char>) -> Option<char> {
    if d.len() == 4 && hex_value(d[0]) is Some && hex_value(d[1]) is Some && hex_value(d[2]) is Some
        && hex_value(d[3]) is Some {
        let v = hex_value(d[0])->0 * 4096 + hex_value(d[1])->0 * 256 + hex_value(d[2])->0 * 16
            + hex_value(d[3])->0;
        if 0xD800 <= v < 0xE000 {
            None
        } else {
            Some(v as char)
        }
    } else {
        None
    }
}

pub open spec fn prepend_char(c: char, r: Option<Seq<char>>) -> Option<Seq<char>> {
    match r {
        Some(t) => Some(seq![c] + t),
        None => None,
    }
}

/// What the inside of a JSON string literal stands for, as a JSON reader
/// reads it (RFC 8259; escaped surrogate pairs aside): `None` when it holds
/// an unescaped quote, backslash or control character, or a malformed
/// escape.
pub open spec fn json_string_chars(s: Seq<char>) -> Option<Seq<char>>
    decreases s.len(),
{
    if s.len() == 0 {
        Some(Seq::empty())
    } else if s[0] == '\\' {
        if s.len() >= 6 && s[1] == 'u' {
            match json_unicode(s.subrange(2, 6)) {
                Some(c) => prepend_char(c, json_string_chars(s.skip(6))),
                None => None,
            }
        } else if s.len() >= 2 && s[1] != 'u' {
            match json_escape(s[1]) {
                Some(c) => prepend_char(c, json_string_chars(s.skip(2))),
                None => None,
            }
        } else {
            None
        }
    } else if s[0] == '"' || (s[0] as u32) < 0x20 {
        None
    } else {
        prepend_char(s[0], json_string_chars(s.drop_first()))
    }
}

/// What a JSON string literal, quotes included, stands for.
pub open spec fn json_string(s: Seq<char>) -> Option<Seq<char>> {
    if s.len() >= 2 && s[0] == '"' && s.last() == '"' {
        json_string_chars(s.subrange(1, s.len() - 1))
    } else {
        None
    }
}

proof fn lemma_hex_lower_value(d: nat)
    requires
        d < 16,
    ensures
        hex_value(hex_lower(d)) == Some(d),
{
}

proof fn lemma_js_char_reads_back(c: char, rest: Seq<char>)
    ensures
        json_string_chars(js_char(c) + rest) == prepend_char(c, json_string_chars(rest)),
{
    let e = js_char(c);
    let s = e + rest;
    if e.len() == 6 {
        assert(s.subrange(2, 6) =~= e.subrange(2, 6));
        assert(s.skip(6) =~= rest);
        assert(s[0] == e[0] && s[1] == e[1]);
        let d = e.subrange(2, 6);
        assert(d[0] == e[2] && d[1] == e[3] && d[2] == e[4] && d[3] == e[5]);
        if (c as u32) < 0x20 && c != '\n' && c != '\r' && c != '\t' {
            let hi = (c as u32 / 16) as nat;
            let lo = (c as u32 % 16) as nat;
            lemma_hex_lower_value(hi);
            lemma_hex_lower_value(lo);
            assert(hi * 16 + lo == c as u32);
            assert(((c as u32) as char) == c);
        }
    } else if e.len() == 2 {
        assert(s.skip(2) =~= rest);
        assert(s[0] == e[0] && s[1] == e[1]);
    } else {
        assert(e =~= seq![c]);
        assert(s.drop_first() =~= rest);
        assert(s[0] == c);
    }
}

proof fn lemma_js_chars_front(s: Seq<char>)
    requires
        s.len() > 0,
    ensures
        js_chars(s) == js_char(s[0]) + js_chars(s.drop_first()),
    decreases s.len(),
{
    if s.len() == 1 {
        assert(s.drop_last() =~= Seq::<char>::empty());
        assert(s.drop_first() =~= Seq::<char>::empty());
        assert(js_chars(Seq::<char>::empty()) =~= Seq::<char>::empty());
        assert(js_char(s[0]) + Seq::<char>::empty() =~= js_char(s[0]));
    } else {
        lemma_js_chars_front(s.drop_last());
        assert(s.drop_last().drop_first() =~= s.drop_first().drop_last());
        assert(s.drop_first().last() == s.last());
        assert(s.drop_last()[0] == s[0]);
        assert(js_char(s[0]) + js_chars(s.drop_first().drop_last()) + js_char(s.last())
            =~= js_char(s[0]) + (js_chars(s.drop_first().drop_last()) + js_char(s.last())));
    }
}

proof fn lemma_js_chars_read_back(s: Seq<char>)
    ensures
        json_string_chars(js_chars(s)) == Some(s),
    decreases s.len(),
{
    if s.len() == 0 {
        assert(js_chars(s) =~= Seq::<char>::empty());
    } else {
        lemma_js_chars_front(s);
        lemma_js_chars_read_back(s.drop_first());
        lemma_js_char_reads_back(s[0], js_chars(s.drop_first()));
        assert(seq![s[0]] + s.drop_first() =~= s);
    }
}

/// A script string reads back as JSON: a JSON reader gives back exactly the
/// text that was quoted.
pub proof fn script_strings_read_back_as_json(s: Seq<char>)
    ensures
        json_string(js_literal(s)) == Some(s),
{
    let l = js_literal(s);
    assert(l.subrange(1, l.len() - 1) =~= js_chars(s));
    lemma_js_chars_read_back(s);
}


/// Whether an event opens or closes a block quote.
pub open spec fn touches_quotes(e: MdEvent) -> bool {
    (e matches MdEvent::Start(TagKind::BlockQuote, _)) || (e matches MdEvent::End(
        TagKind::BlockQuote,
    ))
}

proof fn lemma_depth_flush(s: TermState)
    ensures
        flush_line(s).quote_depth == s.quote_depth,
        blank(s).quote_depth == s.quote_depth,
{
    reveal(flush_line);
    reveal(blank);
}

proof fn lemma_depth_words(s: TermState, ws: Seq<Seq<char>>)
    ensures
        push_words(s, ws).quote_depth == s.quote_depth,
    decreases ws.len(),
{
    if ws.len() > 0 {
        lemma_depth_words(s, ws.drop_last());
        reveal(push_word);
        lemma_depth_flush(push_words(s, ws.drop_last()));
    }
}

proof fn lemma_depth_text(s: TermState, t: Seq<char>, st: Style)
    ensures
        push_text(s, t).quote_depth == s.quote_depth,
        push_style(s, st).quote_depth == s.quote_depth,
        push_styled(s, t, st).quote_depth == s.quote_depth,
{
    reveal(push_text);
    reveal(push_style);
    reveal(push_styled);
    lemma_depth_words(s, words(t));
    lemma_depth_flush(push_words(s, words(t)));
    let a = push_style(s, st);
    lemma_depth_words(a, words(t));
    lemma_depth_flush(push_words(a, words(t)));
}

proof fn lemma_depth_step(s: TermState, e: MdEvent)
    requires
        !touches_quotes(e),
    ensures
        step(s, e).quote_depth == s.quote_depth,
{
    reveal(write_code);
    lemma_depth_flush(s);
    match e {
        MdEvent::Start(kind, data) => {
            lemma_depth_flush(blank(s));
            lemma_depth_text(blank(s), data_text(data), Style::Dim);
            lemma_depth_flush(push_styled(blank(s), data_text(data), Style::Dim));
            match kind {
                TagKind::Heading(level) => {
                    lemma_depth_text(blank(s), repeat(seq!['#'], level as nat) + seq![' '], Style::Cyan);
                },
                TagKind::Item => {
                    let t = flush_line(s);
                    let (marker, lists) = item_marker(t.lists);
                    lemma_depth_text(TermState { lists: lists, ..t }, marker, Style::Reset);
                },
                TagKind::Image => {
                    lemma_depth_text(s, image_label(data_text(data), image_title(data)), Style::Underline);
                },
                TagKind::FootnoteDefinition => {
                    lemma_depth_text(blank(s), seq!['[', '^'] + data_text(data) + seq![']', ':', ' '], Style::Reset);
                },
                _ => {
                    lemma_depth_text(s, seq!['~'], Style::Italic);
                    lemma_depth_text(s, seq!['~'], Style::Bold);
                },
            }
        },
        MdEvent::End(kind) => {
            lemma_depth_flush(flush_line(s));
            lemma_depth_text(s, seq!['~'], Style::Reset);
            lemma_depth_text(s, seq![' ', '|', ' '], Style::Reset);
            let t = flush_line(s);
            lemma_depth_flush(TermState { lists: if t.lists.len() > 0 { t.lists.drop_last() } else { t.lists }, ..t });
            lemma_depth_flush(TermState { code_block: false, ..s });
            let depth: nat = if s.table_depth > 0 { (s.table_depth - 1) as nat } else { 0 };
            lemma_depth_flush(TermState { table_depth: depth, ..s });
            if let Some(d) = s.pending_link {
                lemma_depth_text(TermState { pending_link: None, ..s }, seq![' ', '('] + d + seq![')'], Style::Dim);
            }
        },
        MdEvent::Text(t) => {
            lemma_depth_text(s, t@, Style::Reset);
        },
        MdEvent::Code(x) => {
            lemma_depth_text(s, seq!['`'] + x@ + seq!['`'], Style::Green);
        },
        MdEvent::Html(h) => lemma_depth_text(s, h@, Style::Reset),
        MdEvent::InlineHtml(h) => lemma_depth_text(s, h@, Style::Reset),
        MdEvent::SoftBreak => lemma_depth_text(s, seq![' '], Style::Reset),
        MdEvent::HardBreak => {},
        MdEvent::Rule => {
            let t = blank(s);
            lemma_depth_flush(TermState { out: t.out + rule_line(t), ..t });
        },
        MdEvent::InlineMath(m) => lemma_depth_text(s, seq!['$'] + m@ + seq!['$'], Style::Green),
        MdEvent::DisplayMath(m) => {
            let t = seq!['$', '$', '\n'] + m@ + seq!['\n', '$', '$'];
            lemma_depth_flush(s);
            lemma_depth_text(blank(s), t, Style::Green);
            lemma_depth_flush(push_styled(blank(s), t, Style::Green));
        },
        MdEvent::FootnoteReference(r) => lemma_depth_text(s, seq!['[', '^'] + r@ + seq![']'], Style::Reset),
        MdEvent::TaskListMarker(checked) => {
            lemma_depth_text(s, seq!['[', 'x', ']', ' '], Style::Reset);
            lemma_depth_text(s, seq!['[', ' ', ']', ' '], Style::Reset);
        },
    }
}

proof fn lemma_run_concat(s: TermState, a: Seq<MdEvent>, b: Seq<MdEvent>)
    ensures
        run(s, a + b) == run(run(s, a), b),
    decreases b.len(),
{
    if b.len() == 0 {
        assert(a + b =~= a);
    } else {
        lemma_run_concat(s, a, b.drop_last());
        assert((a + b).drop_last() =~= a + b.drop_last());
        assert((a + b).last() == b.last());
    }
}

proof fn lemma_depth_run(s: TermState, inner: Seq<MdEvent>)
    requires
        forall|k: int| 0 <= k < inner.len() ==> !touches_quotes(#[trigger] inner[k]),
    ensures
        run(s, inner).quote_depth == s.quote_depth,
    decreases inner.len(),
{
    if inner.len() > 0 {
        assert forall|k: int| 0 <= k < inner.drop_last().len() implies !touches_quotes(
            #[trigger] inner.drop_last()[k],
        ) by {
            assert(inner.drop_last()[k] == inner[k]);
        }
        lemma_depth_run(s, inner.drop_last());
        assert(!touches_quotes(inner[inner.len() - 1]));
        lemma_depth_step(run(s, inner.drop_last()), inner.last());
    }
}

/// The end of a block quote undoes what its start did to the quote prefix:
/// after a quote that holds no other quote closes, lines are prefixed with
/// `> ` exactly as many times as before it opened, so text after the quote
/// is not quoted.
pub proof fn closing_a_quote_restores_the_prefix(s: TermState, d: TagData, inner: Seq<MdEvent>)
    requires
        forall|k: int| 0 <= k < inner.len() ==> !touches_quotes(#[trigger] inner[k]),
    ensures
        run(
            s,
            seq![MdEvent::Start(TagKind::BlockQuote, d)] + inner + seq![
                MdEvent::End(TagKind::BlockQuote),
            ],
        ).quote_depth == s.quote_depth,
        run(s, seq![MdEvent::Start(TagKind::BlockQuote, d)] + inner).quote_depth
            == s.quote_depth + 1,
{
    let open = seq![MdEvent::Start(TagKind::BlockQuote, d)];
    let close = seq![MdEvent::End(TagKind::BlockQuote)];
    lemma_run_concat(s, open, inner);
    lemma_run_concat(s, open + inner, close);
    assert(open.drop_last() =~= Seq::<MdEvent>::empty());
    assert(close.drop_last() =~= Seq::<MdEvent>::empty());
    assert(run(s, Seq::<MdEvent>::empty()) == s);
    assert(run(s, open) == step(run(s, open.drop_last()), open.last()));
    let s1 = run(s, open);
    assert(s1 == step(s, open[0]));
    lemma_depth_flush(s);
    lemma_depth_run(s1, inner);
    let s2 = run(s1, inner);
    assert(run(s2, Seq::<MdEvent>::empty()) == s2);
    assert(run(s2, close) == step(run(s2, close.drop_last()), close.last()));
    assert(run(s2, close) == step(s2, close[0]));
    lemma_depth_flush(s2);
}

} // verus!
