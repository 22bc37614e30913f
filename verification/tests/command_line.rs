use markview::{
    export_html, help, render_html, served_html, Cli, CliError, FrontendRenderer, MarkdownDocument,
    OutputFormat, TerminalRenderer,
};

/// What the `markview` command prints for `args` and a document, as its
/// `main` renders it.
fn command_output(args: &[&str], document: &MarkdownDocument) -> String {
    let cli = Cli::parse(args).expect("valid command line");
    TerminalRenderer::new(cli.options).render_document(document)
}

#[test]
fn renders_markdown_file_without_color() {
    let document = MarkdownDocument::from_path(
        "# Markview\n\nA [tiny](https://example.com) viewer.\n",
        "sample.md",
    );
    let output = command_output(&["--no-color", "sample.md"], &document);

    assert!(output.contains("# Markview"));
    assert!(output.contains("tiny (https://example.com) viewer."));
}

#[test]
fn renders_stdin() {
    let document = MarkdownDocument::new("- portable\n- fast\n");
    let output = command_output(&["--no-color"], &document);

    assert!(output.contains("- portable"));
    assert!(output.contains("- fast"));
}

#[test]
fn prints_help() {
    let cli = Cli::parse(&["--help"]).expect("valid command line");

    assert!(cli.help);
    assert!(help().contains("Usage: markview"));
}

#[test]
fn reports_invalid_width() {
    let error = Cli::parse(&["--width", "nope"]).unwrap_err();

    assert!(error.message().contains("invalid width: nope"));
}

#[test]
fn renders_html_file() {
    let cli = Cli::parse(&["--html", "sample.md"]).expect("valid command line");
    assert_eq!(cli.output, OutputFormat::Html);
    assert_eq!(cli.input.as_deref(), Some("sample.md"));

    let document = MarkdownDocument::from_path("# Markview\n\nExported **HTML**.\n", "sample.md");
    let page = export_html(&document);

    assert!(page.contains("<!doctype html>"));
    assert!(page.contains("<title>sample.md</title>"));
    assert!(page.contains(r#"<h1 id="markview">Markview</h1>"#));
    assert!(page.contains("<strong>HTML</strong>"));
}

#[test]
fn renders_html_stdin() {
    let cli = Cli::parse(&["--html"]).expect("valid command line");
    assert_eq!(cli.output, OutputFormat::Html);
    assert_eq!(cli.input, None);

    let page = export_html(&MarkdownDocument::new("# Piped\n"));

    assert!(page.contains("<title>Untitled Markdown</title>"));
    assert!(page.contains(r#"<h1 id="piped">Piped</h1>"#));
}

#[test]
fn serve_mode_rejects_invalid_port_values() {
    let error = Cli::parse(&["--serve", "README.md", "--port", "nope"]).unwrap_err();
    assert!(error.message().contains("invalid port: nope"));

    let error = Cli::parse(&["--serve", "README.md", "--port", "0"]).unwrap_err();
    assert!(error.message().contains("invalid port: 0"));
}

#[test]
fn serve_mode_accepts_port_flag_and_rejects_legacy_port_form() {
    let cli = Cli::parse(&["--serve", "README.md", "--port", "4123"]).expect("valid command line");
    assert_eq!(cli.serve, Some(4123));
    assert_eq!(cli.inputs, vec!["README.md".to_owned()]);

    let error = Cli::parse(&["--serve", "8080", "README.md"]).unwrap_err();
    assert!(error.message().contains("replaced by `--serve FILE --port PORT`"));

    let error = Cli::parse(&["--serve", "8080"]).unwrap_err();
    assert!(error.message().contains("replaced by `--serve FILE --port PORT`"));
}

#[test]
fn serve_mode_takes_several_inputs_and_recursion() {
    let cli = Cli::parse(&["--recurse", "--serve", "docs", "notes.md", "--port=9000"])
        .expect("valid command line");
    assert_eq!(cli.serve, Some(9000));
    assert!(cli.recurse);
    assert_eq!(cli.inputs, vec!["docs".to_owned(), "notes.md".to_owned()]);
    assert_eq!(cli.input.as_deref(), Some("docs"));

    let default = Cli::parse(&["--serve", "README.md"]).expect("valid command line");
    assert_eq!(default.serve, Some(8080));
}

#[test]
fn serve_mode_needs_an_input() {
    assert_eq!(Cli::parse(&["--serve"]).unwrap_err(), CliError::MissingServeInput);
    assert!(Cli::parse(&["--serve", "--help"]).expect("help wins").help);
    assert_eq!(
        Cli::parse(&["--serve", "README.md", "--port"]).unwrap_err(),
        CliError::MissingValue("--port")
    );
    assert_eq!(
        Cli::parse(&["--port", "70000"]).unwrap_err(),
        CliError::InvalidPort("70000".to_owned())
    );
    let plain = Cli::parse(&["--port", "9000", "a.md"]).expect("valid command line");
    assert_eq!(plain.serve, None);
    assert_eq!(plain.output, OutputFormat::Terminal);
}

#[test]
fn html_bodies_are_sanitized() {
    let page = export_html(&MarkdownDocument::new("<script>alert(1)</script>\n"));
    assert!(!page.contains("<script>alert(1)</script>"));
    assert!(page.contains("&lt;script>alert(1)"));
    let framed = render_html("<IFRAME src=\"x\"></iframe>\n");
    assert!(!framed.contains("<IFRAME"));
    assert!(render_html("<em>kept</em>\n").contains("<em>kept</em>"));
}

#[test]
fn headings_get_ids_from_their_text() {
    let page = export_html(&MarkdownDocument::new(
        "## Getting *Started* - now\n\n### !!!\n",
    ));
    assert!(page.contains(r#"<h2 id="getting-started---now">"#));
    assert!(page.contains("<h3>!!!</h3>"));
}

#[test]
fn served_pages_repair_and_escape_text() {
    let mojibake_dash = "\u{00E2}\u{0080}\u{0094}";
    let document = MarkdownDocument::with_title(
        &format!("# Served\n\nRemote **view** {mojibake_dash} clean text.\n"),
        "Served",
    );
    let page = served_html(&document);

    assert!(page.contains(r#"<h1 id="served">Served</h1>"#));
    assert!(page.contains("<strong>view</strong>"));
    assert!(page.contains("&#8212; clean text"));
    assert!(!page.contains("&#226;&#128;&#148; clean text"));
    assert!(!page.contains("— clean text"));
}
