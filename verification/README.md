# markview

A small Markdown viewer whose core is verified with Verus: terminal and HTML
rendering, the command lines, the decisions of the local preview server and
of the desktop shell.

## Layout

- `src/` — the library. Every function is verified against its contract,
  except the few marked `#[verifier::external_body]`, whose contracts are
  trusted: the calls into `pulldown_cmark` (`markdown::parse_events`,
  `markdown::html_body` and the conversions they use) and three standard
  library calls (`text::string_from_chars`, `serve::string_from_utf8`,
  `routing::to_lowercase`). Verified functions do not panic, with one
  exception: `pulldown_cmark`'s parser does not promise to return on every
  input, so whatever parses Markdown (rendering, titles, asset references)
  is free of panics only as far as that parser is.
  - `text`, `paths` — characters, words, and paths as `std::path::Path`
    reads them;
  - `markdown` — the event stream the renderers consume, and the calls into
    `pulldown_cmark` that produce it;
  - `terminal`, `document` — the terminal renderer, documents, the HTML page;
  - `sanitize` — what is done to the HTML body: active elements written in
    the Markdown shown as text, ids on headings, numeric references in the
    served page;
  - `cli`, `gui` — the command lines, and the desktop shell's decisions
    (messages from its web view, its state as a script object, dirty tabs);
  - `serve`, `routing`, `links`, `shell` — the preview server: percent
    encoding, which files it serves under which routes, how it answers a
    request, how it points a document's links at its routes, and the page
    around a document;
  - `webview` — the desktop shell's page;
  - `laws` — properties proved of every input.
- `tests/` — tests on concrete values.
- `app/` — the `markview` command (terminal text, `--html` pages, and
  `--serve`), with the preview server's sockets, threads, file watcher and
  file-system access around the library.
