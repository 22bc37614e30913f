use markview::links::{rewrite_markdown_links, LinkRewrite};

fn done(text: &str) -> LinkRewrite {
    LinkRewrite::Done(text.to_owned())
}

fn need(path: &str) -> LinkRewrite {
    LinkRewrite::Need(path.to_owned())
}

fn routes(answers: &[Option<&str>]) -> Vec<Option<String>> {
    answers.iter().map(|a| a.map(str::to_owned)).collect()
}

/// Runs the rewriter the way the server does, answering each path it asks
/// about from `table`.
fn rewrite_with(markdown: &str, table: &[(&str, Option<&str>)]) -> (String, Vec<String>) {
    let mut answers: Vec<Option<String>> = Vec::new();
    let mut asked = Vec::new();
    loop {
        match rewrite_markdown_links(markdown, &answers) {
            LinkRewrite::Done(text) => return (text, asked),
            LinkRewrite::Need(path) => {
                let route = table
                    .iter()
                    .find(|(p, _)| *p == path)
                    .and_then(|(_, r)| r.map(str::to_owned));
                asked.push(path);
                answers.push(route);
            }
        }
    }
}

#[test]
fn asks_for_the_decoded_path_of_a_local_link() {
    assert_eq!(
        rewrite_markdown_links("[Other](other.md#frag)\n", &[]),
        need("other.md")
    );
    assert_eq!(
        rewrite_markdown_links("![Space](my%20file.png)\n", &[]),
        need("my file.png")
    );
}

#[test]
fn points_links_at_routes_and_keeps_fragments() {
    assert_eq!(
        rewrite_markdown_links("[Other](other.md#frag)\n", &routes(&[Some("/other.md")])),
        done("[Other](/other.md#frag)\n")
    );
}

#[test]
fn keeps_titles_with_parentheses() {
    assert_eq!(
        rewrite_markdown_links(
            "[a](b.md \"See (details)\") after",
            &routes(&[Some("/b.md")])
        ),
        done("[a](/b.md \"See (details)\") after")
    );
}

#[test]
fn leaves_external_absolute_fragment_and_query_links() {
    let text = "[w](https://example.com) [a](/abs.md) [f](#part) [q](b.md?x=1)\n";
    assert_eq!(rewrite_markdown_links(text, &[]), done(text));
}

#[test]
fn leaves_links_without_a_route_as_written() {
    let text = "[Outside](../outside.md)\n[Nested](nested/inner.md)\n";
    let (out, asked) = rewrite_with(text, &[]);
    assert_eq!(out, text);
    assert_eq!(
        asked,
        vec!["../outside.md".to_owned(), "nested/inner.md".to_owned()]
    );
}

#[test]
fn does_not_touch_code_samples() {
    let text = "# Doc\n\n```md\n![Chart](chart.png)\n```\n\n![Chart](chart.png)\n    [x](y.md)\n`[c](d.md)` and [e](f.md)\n";
    let (out, asked) = rewrite_with(
        text,
        &[("chart.png", Some("/chart.png")), ("f.md", Some("/f.md"))],
    );
    assert_eq!(
        out,
        "# Doc\n\n```md\n![Chart](chart.png)\n```\n\n![Chart](/chart.png)\n    [x](y.md)\n`[c](d.md)` and [e](/f.md)\n"
    );
    assert_eq!(asked, vec!["chart.png".to_owned(), "f.md".to_owned()]);
}

#[test]
fn a_fence_closes_only_on_its_own_kind() {
    let text = "````\n~~~\n[a](b.md)\n```\n[c](d.md)\n````\n[e](f.md)\n";
    let (out, asked) = rewrite_with(text, &[("f.md", Some("/f.md"))]);
    assert_eq!(out, "````\n~~~\n[a](b.md)\n```\n[c](d.md)\n````\n[e](/f.md)\n");
    assert_eq!(asked, vec!["f.md".to_owned()]);
}

#[test]
fn rewrites_reference_definitions_but_not_footnotes() {
    let text = "[Other][other]\n\n[other]: other.md#frag \"Title\"\n[^1]: note.md\n";
    let (out, asked) = rewrite_with(text, &[("other.md", Some("/other.md"))]);
    assert_eq!(
        out,
        "[Other][other]\n\n[other]: /other.md#frag \"Title\"\n[^1]: note.md\n"
    );
    assert_eq!(asked, vec!["other.md".to_owned()]);
}

#[test]
fn pads_a_definition_with_one_space_per_byte_of_its_indent() {
    let text = "[a]:\u{3000}b.md\n";
    let (out, _) = rewrite_with(text, &[("b.md", Some("/b.md"))]);
    assert_eq!(out, "[a]:   /b.md\n");
}

#[test]
fn keeps_line_endings() {
    let text = "[a](b.md)\r\n[c](d.md)";
    let (out, _) = rewrite_with(text, &[("b.md", Some("/b.md")), ("d.md", Some("/d.md"))]);
    assert_eq!(out, "[a](/b.md)\r\n[c](/d.md)");
}

#[test]
fn an_unclosed_destination_is_text() {
    let text = "see [a](b.md and more\n";
    assert_eq!(rewrite_markdown_links(text, &[]), done(text));
}
