use markview::serve::NavLayout;
use markview::shell::{inject_serve_shell, SHELL_SCRIPT, SHELL_STYLE};

const PAGE: &str = "<head><style>a{}</style></head><body><main>x</main></body>";

#[test]
fn puts_tabs_before_the_main_part() {
    let page = inject_serve_shell(PAGE, "<nav>t</nav>", NavLayout::Tabs, Some(1700000000123));
    assert!(page.contains("<body><nav>t</nav>\n<main>x</main>"));
    assert!(page.contains(&format!("</style>\n{SHELL_STYLE}</head>")));
    assert!(page.contains("<time data-markview-modified-at data-timestamp-ms=\"1700000000123\"></time>"));
    assert!(page.ends_with(&format!("</footer>\n{SHELL_SCRIPT}\n</body>")));
    assert!(!page.contains("markview-shell\">"));
}

#[test]
fn puts_a_sidebar_beside_the_main_part() {
    let page = inject_serve_shell(PAGE, "<nav>s</nav>", NavLayout::Sidebar, None);
    assert!(page.contains("<body><div class=\"markview-shell\"><nav>s</nav><main>x</main></div>"));
    assert!(page.contains("<time data-markview-modified-at></time>"));
}

#[test]
fn leaves_a_page_without_slots_alone_but_for_styles() {
    let page = inject_serve_shell("<p>bare</p>", "<nav></nav>", NavLayout::Empty, None);
    assert_eq!(page, "<p>bare</p>");
}


#[test]
fn wraps_a_served_document_page() {
    let document = markview::MarkdownDocument::with_title("# Served\n\nSome **text**.\n", "Served");
    let html = markview::served_html(&document);
    for (layout, shell) in [(NavLayout::Sidebar, true), (NavLayout::Tabs, false)] {
        let page = inject_serve_shell(&html, "<nav data-markview-nav>n</nav>", layout, None);
        let body_end = page.find("</body>").expect("body end");
        let footer = page.find("<footer class=\"markview-footer\">").expect("footer");
        let refreshed = page.find("Last refreshed <time data-markview-refreshed-at>").expect("refreshed");
        let events = page.find("new EventSource('/events')").expect("events");
        assert!(footer < body_end && refreshed < body_end && events < body_end);
        assert!(page.contains("<nav data-markview-nav>n</nav>"));
        let nav = page.find("<nav data-markview-nav>n</nav>").unwrap();
        assert!(nav < page.find("<main>").unwrap());
        assert_eq!(page.contains("<div class=\"markview-shell\">"), shell);
        assert!(page.contains(r#"<h1 id="served">Served</h1>"#));
    }
}
