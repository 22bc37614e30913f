use markview::markdown::{MdEvent, TagData, TagKind};
use markview::terminal::render_events;
use markview::{escape_html, help, render, render_html, Cli, CliError, MarkdownDocument, RenderOptions};

fn plain(width: usize) -> RenderOptions {
    RenderOptions { color: false, width }
}

fn start(kind: TagKind) -> MdEvent {
    MdEvent::Start(kind, TagData::Empty)
}

fn text(t: &str) -> MdEvent {
    MdEvent::Text(t.to_owned())
}

fn paragraph(mut inner: Vec<MdEvent>) -> Vec<MdEvent> {
    let mut events = vec![start(TagKind::Paragraph)];
    events.append(&mut inner);
    events.push(MdEvent::End(TagKind::Paragraph));
    events
}

fn heading_and_paragraph() -> Vec<MdEvent> {
    let mut events = vec![
        start(TagKind::Heading(1)),
        text("Hello"),
        MdEvent::End(TagKind::Heading(1)),
    ];
    events.append(&mut paragraph(vec![
        text("A "),
        start(TagKind::Strong),
        text("bold"),
        MdEvent::End(TagKind::Strong),
        text(" word."),
    ]));
    events
}

#[test]
fn renders_a_heading_and_a_paragraph_exactly() {
    assert_eq!(
        render_events(&heading_and_paragraph(), plain(40)),
        "\n# Hello\n\nA bold word.\n"
    );
}

#[test]
fn colors_headings_and_strong_text() {
    assert_eq!(
        render_events(&heading_and_paragraph(), RenderOptions { color: true, width: 40 }),
        "\n\u{1b}[36m#\u{1b}[0m Hello\n\nA\u{1b}[1m bold\u{1b}[0m word.\n"
    );
}

/// Removes the `ESC [ digits m` codes that the renderer writes.
fn strip_codes(s: &str) -> String {
    let mut out = String::new();
    let mut chars = s.chars().peekable();
    while let Some(c) = chars.next() {
        if c == '\u{1b}' {
            while let Some(d) = chars.next() {
                if d == 'm' {
                    break;
                }
            }
        } else {
            out.push(c);
        }
    }
    out
}

#[test]
fn color_changes_nothing_but_the_codes() {
    let markdown = "# Title\n\nSome **bold** and *slanted* text with `code` and a [link](https://example.com) \
                    that runs long enough to wrap over several lines of the output.\n\n\
                    > quoted **words** here\n\n- item **one**\n- item two\n\n```rust\nfn main() {}\n```\n";
    for width in [20, 33, 60] {
        let colored = render(markdown, RenderOptions { color: true, width });
        let plain = render(markdown, RenderOptions { color: false, width });
        assert_eq!(strip_codes(&colored), plain);
    }
}

#[test]
fn renders_lists_with_markers() {
    let unordered = vec![
        MdEvent::Start(TagKind::List(false), TagData::Number(None)),
        start(TagKind::Item),
        text("alpha"),
        MdEvent::End(TagKind::Item),
        start(TagKind::Item),
        MdEvent::TaskListMarker(true),
        text("beta"),
        MdEvent::End(TagKind::Item),
        MdEvent::End(TagKind::List(false)),
    ];
    assert_eq!(render_events(&unordered, plain(40)), "- alpha\n- [x] beta\n");

    let ordered = vec![
        MdEvent::Start(TagKind::List(true), TagData::Number(Some(3))),
        start(TagKind::Item),
        text("third"),
        MdEvent::End(TagKind::Item),
        start(TagKind::Item),
        text("fourth"),
        MdEvent::End(TagKind::Item),
        MdEvent::End(TagKind::List(true)),
    ];
    assert_eq!(render_events(&ordered, plain(40)), "3. third\n4. fourth\n");
}

#[test]
fn indents_code_blocks_under_their_language() {
    let events = vec![
        MdEvent::Start(TagKind::CodeBlock, TagData::Text("rust".to_owned())),
        text("fn main() {}\nlet x = 1;\n"),
        MdEvent::End(TagKind::CodeBlock),
    ];
    assert_eq!(
        render_events(&events, plain(40)),
        "\nrust\n    fn main() {}\n    let x = 1;\n"
    );
}

#[test]
fn draws_rules_up_to_eighty_columns() {
    let rule = vec![MdEvent::Rule];
    assert_eq!(render_events(&rule, plain(40)), format!("\n{}\n", "─".repeat(40)));
    assert_eq!(render_events(&rule, plain(120)), format!("\n{}\n", "─".repeat(80)));
}

#[test]
fn shows_link_destinations_and_images() {
    let link = paragraph(vec![
        text("Read "),
        MdEvent::Start(TagKind::Link, TagData::Text("https://x.y".to_owned())),
        text("Rust"),
        MdEvent::End(TagKind::Link),
        text(" today."),
    ]);
    assert_eq!(render_events(&link, plain(60)), "Read Rust (https://x.y) today.\n");

    let image = paragraph(vec![
        MdEvent::Start(
            TagKind::Image,
            TagData::TextPair("a.png".to_owned(), "T".to_owned()),
        ),
        text("alt"),
        MdEvent::End(TagKind::Image),
    ]);
    assert_eq!(render_events(&image, plain(60)), "[image: T - a.png] alt\n");
}

#[test]
fn quotes_and_tables() {
    let quote = vec![
        start(TagKind::BlockQuote),
        start(TagKind::Paragraph),
        text("quoted"),
        MdEvent::End(TagKind::Paragraph),
        MdEvent::End(TagKind::BlockQuote),
    ];
    assert_eq!(render_events(&quote, plain(40)), "> quoted\n");

    let cell = |t: &str| vec![start(TagKind::TableCell), text(t), MdEvent::End(TagKind::TableCell)];
    let mut table = vec![start(TagKind::Table), start(TagKind::TableHead)];
    table.append(&mut cell("a"));
    table.append(&mut cell("b"));
    table.push(MdEvent::End(TagKind::TableHead));
    table.push(start(TagKind::TableRow));
    table.append(&mut cell("1"));
    table.append(&mut cell("2"));
    table.push(MdEvent::End(TagKind::TableRow));
    table.push(MdEvent::End(TagKind::Table));
    assert_eq!(render_events(&table, plain(40)), "\na | b |\n1 | 2 |\n");
}

#[test]
fn wraps_words_at_the_width() {
    let events = paragraph(vec![text("one two three four five six")]);
    assert_eq!(render_events(&events, plain(20)), "one two three four\nfive six\n");
}

#[test]
fn renders_inline_markers() {
    let events = paragraph(vec![
        text("a"),
        MdEvent::FootnoteReference("1".to_owned()),
        MdEvent::Code("x".to_owned()),
        start(TagKind::Strikethrough),
        text("gone"),
        MdEvent::End(TagKind::Strikethrough),
        MdEvent::HardBreak,
        text("next"),
    ]);
    assert_eq!(render_events(&events, plain(40)), "a [^1] `x` ~ gone ~\nnext\n");
}

#[test]
fn renders_nothing_for_an_empty_document() {
    assert_eq!(render("", plain(40)), "");
    assert_eq!(render_events(&[], plain(40)), "");
}

#[test]
fn reports_each_command_line_error() {
    let missing = Cli::parse(&["--width"]).unwrap_err();
    assert_eq!(missing, CliError::MissingValue("--width"));
    assert_eq!(missing.message(), "missing value for --width");
    assert_eq!(Cli::parse(&["-w"]).unwrap_err(), CliError::MissingValue("--width"));

    let unknown = Cli::parse(&["-x"]).unwrap_err();
    assert_eq!(unknown, CliError::UnknownArgument("-x".to_owned()));
    assert_eq!(unknown.message(), "unknown argument: -x");

    let many = Cli::parse(&["a.md", "b.md"]).unwrap_err();
    assert_eq!(many, CliError::TooManyInputs);
    assert_eq!(many.message(), "expected at most one input file");

    let bad = Cli::parse(&["--width", "nope"]).unwrap_err();
    assert_eq!(bad.message(), "invalid width: nope");
}

#[test]
fn reads_short_flags_and_signed_widths() {
    let cli = Cli::parse(&["-h", "-w", "30"]).expect("valid");
    assert!(cli.help);
    assert_eq!(cli.options.width, 30);
    assert!(cli.options.color);
    let signed = Cli::parse(&["--width=+25"]).expect("valid");
    assert_eq!(signed.options.width, 25);
    let repeated = Cli::parse(&["--width=--width=30"]).expect("valid");
    assert_eq!(repeated.options.width, 30);
}

#[test]
fn prints_the_usage() {
    assert!(help().starts_with("Usage: markview [OPTIONS] [FILE]"));
    assert!(help().contains("--no-color"));
}

#[test]
fn titles_documents() {
    assert_eq!(MarkdownDocument::new("x").title(), "Untitled Markdown");
    assert_eq!(MarkdownDocument::new("x").source(), "x");
    assert_eq!(MarkdownDocument::from_path("x", "docs/a.md").title(), "a.md");
    assert_eq!(MarkdownDocument::from_path("x", "/").title(), "Markdown");
    assert_eq!(MarkdownDocument::from_path("x", "docs/..").title(), "Markdown");
    assert_eq!(MarkdownDocument::with_title("x", "T").title(), "T");
}

#[test]
fn renders_standalone_html() {
    let page = render_html("# Hi\n");
    assert!(page.starts_with("<!doctype html>"));
    assert!(page.contains("<title>Untitled Markdown</title>"));
    assert!(page.contains("<h1>Hi</h1>"));
    assert!(page.ends_with("</main>\n</body>\n</html>\n"));
}

#[test]
fn escapes_html_text() {
    assert_eq!(
        escape_html("<a href=\"x\">'&'</a>"),
        "&lt;a href=&quot;x&quot;&gt;&#39;&amp;&#39;&lt;/a&gt;"
    );
}
