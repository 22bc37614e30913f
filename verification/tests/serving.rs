use markview::routing::{answer_bytes, answer_for, Answer, Reply};
use markview::serve::{
    decode_latin1_mojibake, decode_repeated, fence_marker, find_link_destination_end,
    first_heading_title, hex_value, html_escape, is_external_or_absolute, is_markdown_link,
    nav_layout, percent_decode, percent_encode_route_segment, reference_without_suffix,
    relative_to_route, render_nav, repair_utf8_mojibake, replace_windows_1252_mojibake,
    safe_content_type, split_destination_and_title, title_for_source, NavEntry, NavLayout,
    ServeMode,
};

#[test]
fn reads_hex_digits() {
    assert_eq!(hex_value(b'7'), Some(7));
    assert_eq!(hex_value(b'a'), Some(10));
    assert_eq!(hex_value(b'F'), Some(15));
    assert_eq!(hex_value(b'g'), None);
}

#[test]
fn decodes_percent_escapes() {
    assert_eq!(percent_decode("my%20file.png"), Some("my file.png".to_owned()));
    assert_eq!(percent_decode("%C3%A9t%c3%a9"), Some("été".to_owned()));
    assert_eq!(percent_decode("plain"), Some("plain".to_owned()));
    assert_eq!(percent_decode("a%2"), None);
    assert_eq!(percent_decode("%zz"), None);
    assert_eq!(percent_decode("%ff"), None);
}

#[test]
fn encodes_route_segments() {
    assert_eq!(percent_encode_route_segment("my file.png"), "my%20file.png");
    assert_eq!(percent_encode_route_segment("a%2eb.png"), "a%252eb.png");
    assert_eq!(percent_encode_route_segment("é-_.~"), "%C3%A9-_.~");
}

#[test]
fn encoded_segments_decode_back() {
    for segment in ["my file.png", "a%2eb.png", "été/ü?#", "plain-_.~", ""] {
        let encoded = percent_encode_route_segment(segment);
        assert_eq!(percent_decode(&encoded), Some(segment.to_owned()));
    }
}

#[test]
fn decodes_until_stable() {
    assert_eq!(decode_repeated("%252e%252e"), Some("..".to_owned()));
    assert_eq!(decode_repeated("plain"), Some("plain".to_owned()));
    assert_eq!(decode_repeated("%2525252525"), Some("%25".to_owned()));
    assert_eq!(decode_repeated("%25zz"), None);
}

#[test]
fn classifies_external_and_absolute_references() {
    assert!(is_external_or_absolute("HTTP://example.com"));
    assert!(is_external_or_absolute("https://example.com"));
    assert!(is_external_or_absolute("mailto:a@b.c"));
    assert!(is_external_or_absolute("File:///tmp/a"));
    assert!(is_external_or_absolute("/abs/path.md"));
    assert!(is_external_or_absolute("C:\\docs\\a.md"));
    assert!(!is_external_or_absolute("docs/a.md"));
    assert!(!is_external_or_absolute("../up.md"));
}

#[test]
fn strips_query_and_fragment() {
    assert_eq!(reference_without_suffix("a.png?x=1#f"), Some("a.png".to_owned()));
    assert_eq!(reference_without_suffix("#frag"), Some(String::new()));
    assert_eq!(reference_without_suffix("a\u{1}b.png"), None);
    assert_eq!(reference_without_suffix("a.png?\u{1}"), Some("a.png".to_owned()));
}

#[test]
fn chooses_content_types_by_extension() {
    assert_eq!(safe_content_type("chart.PNG"), "image/png");
    assert_eq!(safe_content_type("photo.jpeg"), "image/jpeg");
    assert_eq!(safe_content_type("photo.jpg"), "image/jpeg");
    assert_eq!(safe_content_type("anim.gif"), "image/gif");
    assert_eq!(safe_content_type("pic.webp"), "image/webp");
    assert_eq!(safe_content_type("pic.avif"), "image/avif");
    assert_eq!(safe_content_type("favicon.ico"), "image/x-icon");
    assert_eq!(safe_content_type("notes.log"), "text/plain; charset=utf-8");
    assert_eq!(safe_content_type("paper.pdf"), "application/pdf");
    assert_eq!(safe_content_type("data.json"), "application/json");
    assert_eq!(safe_content_type("table.csv"), "text/csv; charset=utf-8");
    assert_eq!(safe_content_type("feed.xml"), "application/xml");
    assert_eq!(safe_content_type("raw.html"), "application/octet-stream");
    assert_eq!(safe_content_type("README"), "application/octet-stream");
}

#[test]
fn recognises_markdown_links() {
    assert!(is_markdown_link("other.md"));
    assert!(is_markdown_link("dir/guide.markdown"));
    assert!(!is_markdown_link("chart.png"));
}

#[test]
fn reads_fence_markers() {
    assert_eq!(fence_marker("```md"), Some(('`', 3)));
    assert_eq!(fence_marker("~~~~"), Some(('~', 4)));
    assert_eq!(fence_marker("``"), None);
    assert_eq!(fence_marker("text"), None);
}

#[test]
fn lays_out_navigation() {
    assert_eq!(nav_layout(1, ServeMode::Explicit), NavLayout::Empty);
    assert_eq!(nav_layout(3, ServeMode::Explicit), NavLayout::Tabs);
    assert_eq!(nav_layout(6, ServeMode::SingleFile), NavLayout::Tabs);
    assert_eq!(nav_layout(7, ServeMode::Explicit), NavLayout::Sidebar);
    assert_eq!(nav_layout(2, ServeMode::Directory), NavLayout::Sidebar);
}

#[test]
fn finds_the_end_of_link_destinations() {
    assert_eq!(find_link_destination_end("[a](b.md) x", 4), Some(8));
    assert_eq!(find_link_destination_end("[a](b.md \"t)\")", 4), Some(13));
    assert_eq!(find_link_destination_end("[a](b\\).md)", 4), Some(10));
    assert_eq!(find_link_destination_end("[a](b.md", 4), None);
}

#[test]
fn splits_destination_from_title() {
    assert_eq!(
        split_destination_and_title("b.md \"See (details)\""),
        ("b.md".to_owned(), " \"See (details)\"".to_owned())
    );
    assert_eq!(
        split_destination_and_title("a\\ b c"),
        ("a\\ b".to_owned(), " c".to_owned())
    );
    assert_eq!(
        split_destination_and_title("only.md"),
        ("only.md".to_owned(), String::new())
    );
}

#[test]
fn repairs_mojibake() {
    assert_eq!(replace_windows_1252_mojibake("a \u{00E2}\u{20AC}\u{201D} b"), "a — b");
    assert_eq!(decode_latin1_mojibake("\u{00C3}\u{00A9}"), Some("é".to_owned()));
    assert_eq!(decode_latin1_mojibake("€"), None);
    assert_eq!(
        repair_utf8_mojibake("Remote \u{00E2}\u{0080}\u{0094} clean"),
        "Remote — clean"
    );
    assert_eq!(repair_utf8_mojibake("plain"), "plain");
}

#[test]
fn escapes_shell_text() {
    assert_eq!(html_escape("<a & 'b'>\""), "&lt;a &amp; &#39;b&#39;&gt;&quot;");
    assert_eq!(html_escape("é"), "&#233;");
}

#[test]
fn maps_relative_paths_to_routes() {
    assert_eq!(relative_to_route("docs/my file.md"), "/docs/my%20file.md");
    assert_eq!(relative_to_route("./a/../b"), "/a/b");
    assert_eq!(relative_to_route(""), "/");
}

#[test]
fn renders_navigation_links() {
    let entries = vec![
        NavEntry { route: "/a.md".to_owned(), title: "A <1>".to_owned() },
        NavEntry { route: "/b.md".to_owned(), title: "B".to_owned() },
    ];
    assert_eq!(
        render_nav(&entries, ServeMode::Explicit, "/a.md"),
        "<nav data-markview-nav class=\"markview-tabs\"><a href=\"/a.md\" title=\"/a.md\" aria-current=\"page\">A &lt;1&gt;</a><a href=\"/b.md\" title=\"/b.md\">B</a></nav>"
    );
    assert!(render_nav(&entries, ServeMode::Directory, "/b.md")
        .starts_with("<nav data-markview-nav class=\"markview-sidebar\">"));
    assert_eq!(
        render_nav(&entries[..1], ServeMode::Explicit, "/a.md"),
        "<nav data-markview-nav></nav>"
    );
}

#[test]
fn takes_titles_from_the_first_heading() {
    assert_eq!(
        first_heading_title("intro\n\n# Hello  *world*\n\n## Later\n"),
        Some("Hello world".to_owned())
    );
    assert_eq!(first_heading_title("no heading here\n"), None);
    assert_eq!(title_for_source("docs/x.md", "no heading"), "x.md");
    assert_eq!(title_for_source("docs/x.md", "# Caf\u{00C3}\u{00A9}\n"), "Café");
}

#[test]
fn serve_mode_answers_refusals() {
    let refused = String::from_utf8(answer_bytes(&Answer::MethodNotAllowed, false)).unwrap();
    assert!(refused.starts_with("HTTP/1.1 405 Method Not Allowed\r\n"));
    assert!(refused.ends_with("\r\n\r\nMethod not allowed"));

    let missing = String::from_utf8(answer_bytes(&Answer::NotFound, false)).unwrap();
    assert_eq!(
        missing,
        "HTTP/1.1 404 Not Found\r\nContent-Type: text/plain; charset=utf-8\r\nX-Content-Type-Options: nosniff\r\nContent-Length: 9\r\nConnection: close\r\n\r\nNot found"
    );
    let head = String::from_utf8(answer_bytes(&Answer::NotFound, true)).unwrap();
    assert!(head.ends_with("Content-Length: 9\r\nConnection: close\r\n\r\n"));

    let events = answer_for(&Reply::EventsHead).expect("fixed answer");
    let events = String::from_utf8(answer_bytes(&events, true)).unwrap();
    assert!(events.starts_with("HTTP/1.1 200 OK\r\nContent-Type: text/event-stream\r\n"));
    assert!(!events.contains("data: reload"));
    assert!(answer_for(&Reply::Events).is_none());

    let failed = String::from_utf8(answer_bytes(&Answer::RenderFailed("gone".to_owned()), false)).unwrap();
    assert!(failed.starts_with("HTTP/1.1 500 Internal Server Error\r\n"));
    assert!(failed.ends_with("Failed to render document: gone"));
}
