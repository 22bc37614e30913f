use markview::cli::{Cli, CliError};
use markview::gui::GuiCli;
use markview::routing::{deepest_common_ancestor, route_from_root};
use markview::serve::{percent_decode, percent_encode_route_segment};
use markview::{render, RenderOptions};

#[test]
fn both_width_forms_read_the_same() {
    assert_eq!(
        Cli::parse(&["--width", "40", "notes.md"]),
        Cli::parse(&["--width=40", "notes.md"])
    );
    assert_eq!(Cli::parse(&["--width", "12"]), Cli::parse(&["--width=12"]));
    assert_eq!(
        Cli::parse(&["--width=12"]),
        Err(CliError::InvalidWidth("12".to_owned()))
    );
}

#[test]
fn the_shell_opens_files_in_order() {
    let cli = GuiCli::parse(&["b.md", "a.md", "c.markdown"]).expect("parse");
    assert_eq!(cli.inputs, vec!["b.md".to_owned(), "a.md".to_owned(), "c.markdown".to_owned()]);
    assert!(!cli.help);
}

#[test]
fn a_route_decodes_to_its_path() {
    let route = route_from_root("/srv", "/srv/notes/été 100%.md").expect("under root");
    assert_eq!(route, "/notes/%C3%A9t%C3%A9%20100%25.md");
    assert_eq!(percent_decode(&route), Some("/notes/été 100%.md".to_owned()));
}

#[test]
fn the_shared_root_holds_every_file() {
    let files = vec![
        "/home/u/docs/a.md".to_owned(),
        "/home/u/docs/deep/b.md".to_owned(),
        "/home/u/notes/c.md".to_owned(),
    ];
    let root = deepest_common_ancestor(&files).expect("root");
    assert_eq!(root, "/home/u");
    for file in &files {
        assert!(route_from_root(&root, file).is_some());
    }
}

#[test]
fn terminal_output_ends_with_a_single_newline() {
    let options = RenderOptions { color: false, width: 40 };
    for source in ["# Title\n\n\n", "text", "- a\n- b\n\n", "```\ncode\n```\n\n"] {
        let out = render(source, options);
        assert!(out.ends_with('\n'));
        assert!(!out.ends_with("\n\n"));
    }
}

#[test]
fn plain_output_has_no_escape_codes() {
    let out = render("# Hi\n\n**bold** `code`\n", RenderOptions { color: false, width: 40 });
    assert!(!out.contains('\u{1b}'));
}

#[test]
fn prose_wraps_to_the_width() {
    let text = "word ".repeat(60);
    let out = render(&text, RenderOptions { color: false, width: 24 });
    assert!(out.lines().all(|line| line.chars().count() <= 24));
}

#[test]
fn code_lines_are_never_wrapped() {
    let body = "y".repeat(50);
    let markdown = format!("```\n{body}\n```\n");
    let out = render(&markdown, RenderOptions { color: false, width: 20 });
    assert_eq!(out, format!("\n    {body}\n"));
}

#[test]
fn prose_keeps_its_words_in_order() {
    let markdown = "alpha beta gamma delta epsilon zeta eta theta iota kappa lambda mu nu xi\n";
    let out = render(markdown, RenderOptions { color: false, width: 20 });
    assert!(out.lines().all(|l| l.chars().count() <= 20));
    assert!(out.split_whitespace().eq(markdown.split_whitespace()));
}

#[test]
fn segments_decode_to_their_text() {
    for text in ["plain", "with space", "ünïcödé", "100%", "a/b?c#d"] {
        let encoded = percent_encode_route_segment(text);
        assert_eq!(percent_decode(&encoded).as_deref(), Some(text));
    }
}

#[test]
fn flag_values_are_checked() {
    assert_eq!(Cli::parse(&["--width", "19"]), Err(CliError::InvalidWidth("19".to_owned())));
    assert_eq!(Cli::parse(&["--width", "20"]).unwrap().options.width, 20);
    assert_eq!(Cli::parse(&["--port", "nope"]), Err(CliError::InvalidPort("nope".to_owned())));
    assert_eq!(Cli::parse(&["--port", "0"]), Err(CliError::InvalidPort("0".to_owned())));
    assert_eq!(
        Cli::parse(&["--serve", "a.md", "--port", "65535"]).unwrap().serve,
        Some(65535)
    );
}

#[test]
fn code_blocks_keep_every_line() {
    let long = "z".repeat(45);
    let markdown = format!("```text\n{long}\n  two  \n\nfour\n```\n");
    let out = render(&markdown, RenderOptions { color: false, width: 20 });
    assert!(out.contains(&format!("    {long}\n      two  \n    \n    four\n")));
}
