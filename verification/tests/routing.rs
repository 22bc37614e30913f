use markview::routing::{
    admit_asset, asset_by_route, asset_for_path, asset_requests, classify_request,
    deepest_common_ancestor, dispatch, document_for_path, entry_action, markdown_references,
    plan_directory, plan_explicit_files, response_bytes, route_for_request, route_from_root,
    serve_source, sorted_order, AssetRequest, DirectoryEntry, EntryAction, Reply, Request,
    RequestRoute, ServeError, ServeSource, ServedAsset, ServedDocument, ServedInput,
};
use markview::serve::ServeMode;

fn input(path: &str, source: &str) -> ServedInput {
    ServedInput {
        shown: path.to_owned(),
        canonical: Ok(path.to_owned()),
        is_file: true,
        source: Ok(source.to_owned()),
    }
}

fn entry(relative: &str, canonical: &str, source: &str) -> DirectoryEntry {
    DirectoryEntry {
        relative: relative.to_owned(),
        canonical: Ok(canonical.to_owned()),
        source: Ok(source.to_owned()),
    }
}

fn doc(source_path: &str, route_path: &str, title: &str) -> ServedDocument {
    ServedDocument {
        source_path: source_path.to_owned(),
        route_path: route_path.to_owned(),
        title: title.to_owned(),
    }
}

#[test]
fn routes_are_relative_to_the_root_and_percent_encoded() {
    assert_eq!(
        route_from_root("/srv/docs", "/srv/docs/guide/my file.md"),
        Some("/guide/my%20file.md".to_owned())
    );
    assert_eq!(
        route_from_root("/srv/docs", "/srv/docs/a%2eb.png"),
        Some("/a%252eb.png".to_owned())
    );
    assert_eq!(route_from_root("/srv/docs", "/srv/other.md"), None);
    assert_eq!(route_from_root("/srv/docs", "/srv/docs"), Some("/".to_owned()));
}

#[test]
fn finds_the_deepest_shared_directory() {
    let paths = vec!["/a/b/c.md".to_owned(), "/a/b/d/e.md".to_owned()];
    assert_eq!(deepest_common_ancestor(&paths), Some("/a/b".to_owned()));
    let apart = vec!["/a/x.md".to_owned(), "/b/y.md".to_owned()];
    assert_eq!(deepest_common_ancestor(&apart), Some("/".to_owned()));
    assert_eq!(deepest_common_ancestor(&[]), None);
    assert_eq!(deepest_common_ancestor(&["/".to_owned()]), None);
}

#[test]
fn decides_between_a_directory_and_files() {
    assert_eq!(serve_source(&[true], false), Ok(ServeSource::Directory));
    assert_eq!(serve_source(&[true], true), Ok(ServeSource::Directory));
    assert_eq!(serve_source(&[false, false], false), Ok(ServeSource::Files));
    assert_eq!(serve_source(&[], false), Err(ServeError::NoInput));
    assert_eq!(serve_source(&[true, false], false), Err(ServeError::MixedInputs));
    assert_eq!(
        serve_source(&[false], true),
        Err(ServeError::RecurseNeedsDirectory)
    );
}

#[test]
fn plans_explicit_files() {
    let plan = plan_explicit_files(&[
        input("/tmp/x/first.md", "# First\n\n[Second](second.md#part)\n"),
        input("/tmp/x/second.md", "# Second\n\n## Part\n"),
    ])
    .expect("plan");
    assert_eq!(plan.root, "/tmp/x");
    assert_eq!(plan.default_document, "/tmp/x/first.md");
    assert_eq!(plan.mode, ServeMode::Explicit);
    assert_eq!(
        plan.documents,
        vec![
            doc("/tmp/x/first.md", "/first.md", "First"),
            doc("/tmp/x/second.md", "/second.md", "Second"),
        ]
    );
}

#[test]
fn plans_a_single_file_from_its_directory() {
    let plan = plan_explicit_files(&[input("/tmp/x/notes.md", "no heading\n")]).expect("plan");
    assert_eq!(plan.root, "/tmp/x");
    assert_eq!(plan.mode, ServeMode::SingleFile);
    assert_eq!(plan.documents, vec![doc("/tmp/x/notes.md", "/notes.md", "notes.md")]);
}

#[test]
fn refuses_explicit_files_that_cannot_be_served() {
    let duplicate = plan_explicit_files(&[input("/tmp/x/one.md", "# One\n"), input("/tmp/x/./one.md", "# One\n")]);
    assert_eq!(duplicate, Err(ServeError::DuplicateFiles));
    assert_eq!(
        duplicate.unwrap_err().message(),
        "explicit served files contain duplicate or aliased paths"
    );

    let text = plan_explicit_files(&[input("/tmp/x/notes.txt", "")]);
    assert_eq!(text, Err(ServeError::NotMarkdown("/tmp/x/notes.txt".to_owned())));

    let mut folder = input("/tmp/x/dir.md", "");
    folder.is_file = false;
    assert_eq!(
        plan_explicit_files(&[folder]).unwrap_err().message(),
        "served input is not a file: /tmp/x/dir.md"
    );

    let mut missing = input("/tmp/x/gone.md", "");
    missing.canonical = Err("No such file or directory (os error 2)".to_owned());
    assert_eq!(
        plan_explicit_files(&[missing]),
        Err(ServeError::Io("No such file or directory (os error 2)".to_owned()))
    );

    let apart = plan_explicit_files(&[input("/private/tmp/one.md", ""), input("/work/target/two.md", "")]);
    assert_eq!(
        apart.unwrap_err().message(),
        "explicit served files must share a non-root ancestor directory"
    );

    let mut unreadable = input("/tmp/x/locked.md", "");
    unreadable.source = Err("Permission denied (os error 13)".to_owned());
    assert_eq!(
        plan_explicit_files(&[unreadable]),
        Err(ServeError::Io("Permission denied (os error 13)".to_owned()))
    );

    assert_eq!(plan_explicit_files(&[]), Err(ServeError::NoCommonAncestor));
}

#[test]
fn directory_default_prefers_readme_then_index_then_first() {
    let root: Result<String, String> = Ok("/srv/d".to_owned());
    let all = Ok(vec![
        entry("README.md", "/srv/d/README.md", "# Readme\n"),
        entry("index.md", "/srv/d/index.md", "# Index\n"),
        entry("zeta.md", "/srv/d/zeta.md", "# Zeta\n"),
    ]);
    let plan = plan_directory(&root, &all, false).expect("plan");
    assert_eq!(plan.default_document, "/srv/d/README.md");
    assert_eq!(plan.mode, ServeMode::Directory);
    assert_eq!(plan.root, "/srv/d");
    assert_eq!(plan.documents[2], doc("/srv/d/zeta.md", "/zeta.md", "Zeta"));

    let no_readme = Ok(vec![
        entry("index.md", "/srv/d/index.md", "# Index\n"),
        entry("zeta.md", "/srv/d/zeta.md", "# Zeta\n"),
    ]);
    let plan = plan_directory(&root, &no_readme, false).expect("plan");
    assert_eq!(plan.default_document, "/srv/d/index.md");

}

#[test]
fn nested_readme_is_not_the_default() {
    let root: Result<String, String> = Ok("/srv/d".to_owned());
    let nested = Ok(vec![
        entry("a/README.md", "/srv/d/a/README.md", "# Nested\n"),
        entry("zeta.md", "/srv/d/zeta.md", "# Zeta\n"),
    ]);
    let plan = plan_directory(&root, &nested, true).expect("plan");
    assert_eq!(plan.default_document, "/srv/d/a/README.md");
    assert_eq!(plan.documents[0].route_path, "/a/README.md");
    let later = Ok(vec![
        entry("a.md", "/srv/d/a.md", "# A\n"),
        entry("b/README.md", "/srv/d/b/README.md", "# Nested\n"),
    ]);
    let plan = plan_directory(&root, &later, true).expect("plan");
    assert_eq!(plan.default_document, "/srv/d/a.md");
}

#[test]
fn refuses_directories_that_cannot_be_served() {
    let root: Result<String, String> = Ok("/srv/d".to_owned());
    let colliding = Ok(vec![
        entry("A.md", "/srv/d/A.md", ""),
        entry("a.md", "/srv/d/a.md", ""),
    ]);
    assert_eq!(
        plan_directory(&root, &colliding, false).unwrap_err().message(),
        "directory contains colliding Markdown filenames: a.md"
    );
    let outside = Ok(vec![entry("link.md", "/etc/link.md", "")]);
    assert_eq!(
        plan_directory(&root, &outside, false),
        Err(ServeError::DocumentOutsideRoot("link.md".to_owned()))
    );
    let aliased = Ok(vec![
        entry("a.md", "/srv/d/a.md", ""),
        entry("b.md", "/srv/d/a.md", ""),
    ]);
    assert_eq!(
        plan_directory(&root, &aliased, false).unwrap_err().message(),
        "directory contains duplicate or aliased Markdown file: b.md"
    );
    let empty: Result<Vec<DirectoryEntry>, String> = Ok(Vec::new());
    assert_eq!(
        plan_directory(&root, &empty, false).unwrap_err().message(),
        "served directory has no Markdown files at its top level"
    );
    assert_eq!(
        plan_directory(&root, &empty, true).unwrap_err().message(),
        "served directory has no Markdown files recursively"
    );
    let top: Result<String, String> = Ok("/".to_owned());
    assert_eq!(
        plan_directory(&top, &empty, false).unwrap_err().message(),
        "served directory cannot be a filesystem root"
    );
    let gone: Result<String, String> = Err("No such file or directory (os error 2)".to_owned());
    assert_eq!(
        plan_directory(&gone, &empty, false),
        Err(ServeError::Io("No such file or directory (os error 2)".to_owned()))
    );
}

#[test]
fn walks_directories_and_skips_hidden_entries() {
    assert_eq!(entry_action(Some(".git"), ".git", true, true), EntryAction::Skip);
    assert_eq!(entry_action(Some(".notes.md"), ".notes.md", false, false), EntryAction::Skip);
    assert_eq!(entry_action(Some("sub"), "sub", true, true), EntryAction::Descend);
    assert_eq!(entry_action(Some("sub"), "sub", true, false), EntryAction::Skip);
    assert_eq!(entry_action(Some("a.MD"), "a.MD", false, true), EntryAction::Collect);
    assert_eq!(entry_action(None, "\u{fffd}.md", false, false), EntryAction::Collect);
    assert_eq!(entry_action(Some("a.txt"), "a.txt", false, false), EntryAction::Skip);
}

#[test]
fn sorts_found_files_stably_by_path() {
    let keys = vec!["b.md".to_owned(), "a.md".to_owned(), "C.md".to_owned(), "a.md".to_owned()];
    assert_eq!(sorted_order(&keys), vec![2, 1, 3, 0]);
    let nested = vec!["sub/b.md".to_owned(), "sub.md".to_owned(), "sub/a.md".to_owned()];
    assert_eq!(sorted_order(&nested), vec![1, 2, 0]);
}

#[test]
fn reads_request_paths() {
    assert_eq!(route_for_request("/events"), RequestRoute::Events);
    assert_eq!(route_for_request("/events?x=1"), RequestRoute::Events);
    assert_eq!(
        route_for_request("/"),
        RequestRoute::Resolve { guard: String::new(), target: None }
    );
    assert_eq!(
        route_for_request("/my%20file.png?v=2#top"),
        RequestRoute::Resolve {
            guard: "my file.png".to_owned(),
            target: Some("my file.png".to_owned()),
        }
    );
    assert_eq!(
        route_for_request("/%252e%252e/README.md"),
        RequestRoute::Resolve {
            guard: "../README.md".to_owned(),
            target: Some("%2e%2e/README.md".to_owned()),
        }
    );
    assert_eq!(route_for_request("/a%00b"), RequestRoute::Refused);
    assert_eq!(route_for_request("/%zz"), RequestRoute::Refused);
    assert_eq!(route_for_request("/a%2500"), RequestRoute::Refused);
}

#[test]
fn reads_request_lines() {
    assert_eq!(
        classify_request("GET /a.md HTTP/1.1"),
        Request::Get { head_only: false, path: "/a.md".to_owned() }
    );
    assert_eq!(
        classify_request("HEAD /events HTTP/1.1\r\n"),
        Request::Get { head_only: true, path: "/events".to_owned() }
    );
    assert_eq!(classify_request("GET"), Request::Get { head_only: false, path: "/".to_owned() });
    assert_eq!(classify_request("POST / HTTP/1.1"), Request::NotAllowed);
    assert_eq!(classify_request(""), Request::NotAllowed);
}

#[test]
fn dispatches_routes() {
    let docs = vec![
        doc("/tmp/x/first.md", "/first.md", "First"),
        doc("/tmp/x/second.md", "/second.md", "Second"),
    ];
    assert_eq!(dispatch(Some("/"), false, &docs, "/tmp/x/second.md"), Reply::Document(1));
    assert_eq!(dispatch(Some("/first.md"), true, &docs, "/tmp/x/second.md"), Reply::Document(0));
    assert_eq!(dispatch(Some("/events"), true, &docs, "/tmp/x/first.md"), Reply::EventsHead);
    assert_eq!(dispatch(Some("/events"), false, &docs, "/tmp/x/first.md"), Reply::Events);
    assert_eq!(dispatch(Some("/chart.png"), false, &docs, "/tmp/x/first.md"), Reply::Asset);
    assert_eq!(dispatch(None, false, &docs, "/tmp/x/first.md"), Reply::Asset);
    assert_eq!(dispatch(Some("/"), false, &docs, "/tmp/x/gone.md"), Reply::NotFound);
}

#[test]
fn writes_response_bytes() {
    let full = response_bytes("404 Not Found", "text/plain; charset=utf-8", b"Not found", false);
    assert_eq!(
        String::from_utf8(full).unwrap(),
        "HTTP/1.1 404 Not Found\r\nContent-Type: text/plain; charset=utf-8\r\nX-Content-Type-Options: nosniff\r\nContent-Length: 9\r\nConnection: close\r\n\r\nNot found"
    );
    let head = response_bytes("200 OK", "image/png", &[1, 2, 3], true);
    assert_eq!(
        String::from_utf8(head).unwrap(),
        "HTTP/1.1 200 OK\r\nContent-Type: image/png\r\nX-Content-Type-Options: nosniff\r\nContent-Length: 3\r\nConnection: close\r\n\r\n"
    );
}

#[test]
fn lists_link_and_image_destinations() {
    let refs = markdown_references("# T\n\n![Chart](assets/chart.png \"c\")\n[Raw](assets/raw.html)\n");
    assert_eq!(refs, vec!["assets/chart.png".to_owned(), "assets/raw.html".to_owned()]);
}

#[test]
fn picks_the_asset_references_of_a_document() {
    let reqs = asset_requests(
        "![Chart](assets/chart.png)\n[Raw](assets/raw.html)\n[Doc](other.md)\n[Ext](https://x.y/a.png)\n![S](my%20file.png?v=1)\n[F](#top)\n",
    );
    assert_eq!(
        reqs,
        vec![
            AssetRequest { decoded: "assets/chart.png".to_owned(), content_type: "image/png" },
            AssetRequest {
                decoded: "assets/raw.html".to_owned(),
                content_type: "application/octet-stream",
            },
            AssetRequest { decoded: "my file.png".to_owned(), content_type: "image/png" },
        ]
    );
}

#[test]
fn admits_only_files_under_the_root_once() {
    let docs = vec![doc("/srv/d/README.md", "/README.md", "Doc")];
    let none: Vec<ServedAsset> = Vec::new();
    assert_eq!(
        admit_asset(&none, &docs, "/srv/d", "/srv/d/assets/chart.png", true),
        Some("/assets/chart.png".to_owned())
    );
    assert_eq!(admit_asset(&none, &docs, "/srv/d", "/tmp/outside.txt", true), None);
    assert_eq!(admit_asset(&none, &docs, "/srv/d", "/srv/d/assets", false), None);
    assert_eq!(admit_asset(&none, &docs, "/srv/d", "/srv/d/private-notes.md", true), None);
    assert_eq!(
        admit_asset(&none, &docs, "/srv/d", "/srv/d/README.md", true),
        Some("/README.md".to_owned())
    );
    let one = vec![ServedAsset {
        source_path: "/srv/d/assets/chart.png".to_owned(),
        route_path: "/assets/chart.png".to_owned(),
        content_type: "image/png",
    }];
    assert_eq!(admit_asset(&one, &docs, "/srv/d", "/srv/d/assets/chart.png", true), None);
    assert_eq!(asset_by_route(&one, "/assets/chart.png"), Some(0));
    assert_eq!(asset_by_route(&one, "/secret.txt"), None);
    assert_eq!(asset_for_path(&one, "/srv/d/assets/chart.png"), Some(0));
    assert_eq!(asset_for_path(&one, "/srv/d/chart.png"), None);
    assert_eq!(document_for_path(&docs, "/srv/d/README.md"), Some(0));
    assert_eq!(document_for_path(&docs, "/srv/d/other.md"), None);
}

#[test]
fn every_refusal_has_its_message() {
    let cases = vec![
        (ServeError::NoInput, "serve requires an input file or directory"),
        (ServeError::MixedInputs, "cannot mix a served directory with explicit files"),
        (ServeError::RecurseNeedsDirectory, "--recurse requires a single served directory"),
        (ServeError::Io("boom".to_owned()), "boom"),
        (ServeError::NoParent, "served file has no parent directory"),
        (ServeError::NoCommonAncestor, "explicit served files have no common ancestor"),
        (ServeError::OutsideRoot, "served file resolves outside the serve root"),
        (ServeError::NoDocuments, "serve requires at least one Markdown file"),
        (
            ServeError::DocumentOutsideRoot("x.md".to_owned()),
            "served document resolves outside root: x.md",
        ),
        (
            ServeError::NotMarkdown("n.txt".to_owned()),
            "served input is not Markdown: n.txt",
        ),
    ];
    for (error, text) in cases {
        assert_eq!(error.message(), text);
    }
}
