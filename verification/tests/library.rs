use markview::{
    render, Cli, CliError, FrontendRenderer, HtmlRenderer, MarkdownDocument, RenderOptions,
    TerminalRenderer,
};

fn plain(markdown: &str) -> String {
    render(
        markdown,
        RenderOptions {
            color: false,
            width: 60,
        },
    )
}

#[test]
fn renders_headings_and_paragraphs() {
    let rendered = plain("# Hello\n\nThis is **small** and _fast_.\n");

    assert!(rendered.contains("# Hello\n"));
    assert!(rendered.contains("This is small and fast."));
}

#[test]
fn renders_links_with_destinations() {
    let rendered = plain("Read [Rust](https://www.rust-lang.org/) today.");

    assert!(rendered.contains("Rust (https://www.rust-lang.org/)"));
}

#[test]
fn renders_ordered_and_unordered_lists() {
    let rendered = plain("- alpha\n- beta\n\n3. third\n4. fourth\n");

    assert!(rendered.contains("- alpha"));
    assert!(rendered.contains("- beta"));
    assert!(rendered.contains("3. third"));
    assert!(rendered.contains("4. fourth"));
}

#[test]
fn wraps_long_text_to_width() {
    let rendered = render(
        "one two three four five six seven eight nine ten",
        RenderOptions {
            color: false,
            width: 24,
        },
    );

    assert!(rendered.lines().all(|line| line.chars().count() <= 24));
    assert!(rendered.lines().count() > 1);
}

#[test]
fn keeps_code_blocks_verbatim() {
    let rendered = plain("```rust\nfn main() {}\n```\n");

    assert!(rendered.contains("rust"));
    assert!(rendered.contains("    fn main() {}"));
}

#[test]
fn parses_cli_defaults() {
    let cli = Cli::parse(&["README.md"]).expect("valid args");

    assert_eq!(cli.input.as_deref(), Some("README.md"));
    assert_eq!(cli.options, RenderOptions::default());
    assert!(!cli.help);
}

#[test]
fn parses_cli_options() {
    let cli = Cli::parse(&["--no-color", "--width=40"]).expect("valid args");

    assert_eq!(cli.input, None);
    assert_eq!(
        cli.options,
        RenderOptions {
            color: false,
            width: 40,
        }
    );
}

#[test]
fn rejects_tiny_width() {
    assert_eq!(
        Cli::parse(&["--width", "12"]).expect_err("invalid width"),
        CliError::InvalidWidth("12".to_owned())
    );
}

#[test]
fn renders_full_html_document() {
    let document = MarkdownDocument::with_title(
        "# Hello\n\nThis is **rendered** Markdown.",
        "Notes <draft>",
    );
    let html = HtmlRenderer.render_document(&document);

    assert!(html.contains("<title>Notes &lt;draft&gt;</title>"));
    assert!(html.contains("<h1>Hello</h1>"));
    assert!(html.contains("<strong>rendered</strong>"));
    assert!(html.contains("<main>"));
}

#[test]
fn renderer_trait_allows_frontend_swap() {
    fn render_with<R: FrontendRenderer<Output = String>>(
        renderer: R,
        document: &MarkdownDocument,
    ) -> String {
        renderer.render_document(document)
    }

    let document = MarkdownDocument::new("A [link](https://example.com).");
    let terminal = render_with(
        TerminalRenderer::new(RenderOptions {
            color: false,
            width: 80,
        }),
        &document,
    );
    let html = render_with(HtmlRenderer, &document);

    assert!(terminal.contains("link (https://example.com)."));
    assert!(html.contains(r#"<a href="https://example.com">link</a>"#));
}
