use markview::gui::{AppView, HeadingView, PreferencesView, TabView};
use markview::webview::app_shell_html;

fn view_with(tabs: Vec<TabView>) -> AppView {
    let active_tab_id = tabs.last().map(|tab| tab.id);
    AppView {
        tabs,
        active_tab_id,
        active_html: String::new(),
        active_source: String::new(),
        headings: Vec::<HeadingView>::new(),
        preferences: PreferencesView {
            theme: "system".to_owned(),
            sidebar_visible: true,
            auto_refresh: true,
            recent_files: Vec::new(),
        },
    }
}

fn untitled(id: u64, title: &str, editing: bool) -> TabView {
    TabView {
        id,
        title: title.to_owned(),
        path: None,
        stale: false,
        editing,
        dirty: false,
    }
}

#[test]
fn app_shell_includes_tab_overflow_helpers() {
    let html = app_shell_html(&view_with(vec![untitled(1, "one", false), untitled(2, "two", false)]));

    assert!(html.contains("flex: 0 0 190px"));
    assert!(html.contains("tab-count"));
    assert!(html.contains("scrollIntoView"));
    assert!(html.contains("${next.tabs.length} open"));
}

#[test]
fn app_shell_includes_tab_context_menu() {
    let html = app_shell_html(&view_with(vec![untitled(1, "one", false)]));

    assert!(html.contains("id=\"tab-context-menu\""));
    assert!(html.contains("button.oncontextmenu"));
    assert!(html.contains("showTabContextMenu(tab.id, event.clientX, event.clientY)"));
    assert!(html.contains("'Close Others'"));
    assert!(html.contains("'Close to the Left'"));
    assert!(html.contains("'Close to the Right'"));
    assert!(html.contains("'Reload'"));
    assert!(html.contains("'Export as HTML...'"));
    assert!(html.contains("close-others:"));
    assert!(html.contains("close-left:"));
    assert!(html.contains("close-right:"));
    assert!(html.contains("reload-tab:"));
    assert!(html.contains("export-tab-html:"));
}

#[test]
fn app_shell_preserves_scroll_inside_document_pane() {
    let html = app_shell_html(&view_with(vec![untitled(1, "one", false)]));

    assert!(html.contains("scrollPositions: new Map()"));
    assert!(html.contains("this.scrollPositions.set(previousId, scroller.scrollTop)"));
    assert!(html.contains("const restoreY = this.scrollPositions.get(next.activeTabId) || 0"));
    assert!(html.contains("scroller.scrollTop = restoreY"));
    assert!(html.contains("document.getElementById('scroll-root')"));
}

#[test]
fn app_shell_tunes_print_theme() {
    let html = app_shell_html(&view_with(Vec::new()));

    assert!(html.contains("@page"));
    assert!(html.contains("a[href^=\"http\"]::after"));
    assert!(html.contains("break-after: avoid"));
    assert!(html.contains(".syntax-keyword, .syntax-comment"));
    assert!(html.contains("input[type=\"checkbox\"]"));
}

#[test]
fn app_shell_includes_native_feeling_shortcuts() {
    let html = app_shell_html(&view_with(Vec::new()));

    assert!(html.contains("event.key.toLowerCase() === 'q'"));
    assert!(html.contains("window.ipc.postMessage('quit')"));
    assert!(html.contains("event.key.toLowerCase() === 'w'"));
    assert!(html.contains("event.key.toLowerCase() === 'r'"));
    assert!(html.contains("window.ipc.postMessage('refresh')"));
    assert!(html.contains("window.ipc.postMessage(`close:${window.markview.state.activeTabId}`)"));
    assert!(html.contains("event.shiftKey && event.key.toLowerCase() === 'e'"));
    assert!(html.contains("window.ipc.postMessage('export-html')"));
    assert!(html.contains("!event.shiftKey && event.key.toLowerCase() === 'e'"));
    assert!(html.contains("window.ipc.postMessage('toggle-edit')"));
    assert!(html.contains("event.key.toLowerCase() === 's'"));
    assert!(html.contains("window.ipc.postMessage('save')"));
}

#[test]
fn app_shell_includes_edit_and_save_toolbar_buttons() {
    let html = app_shell_html(&view_with(Vec::new()));

    assert!(html.contains("id=\"edit-toggle\""));
    assert!(html.contains("data-tooltip=\"Toggle edit mode\""));
    assert!(html.contains("onclick=\"window.ipc.postMessage('save')\""));
}

#[test]
fn app_shell_renders_editor_textarea_for_editing_tabs_and_skips_rerender() {
    let html = app_shell_html(&view_with(vec![untitled(1, "draft", true)]));

    assert!(html.contains("textarea.className = 'editor'"));
    assert!(html.contains("!existingEditor || existingEditor.dataset.tabId !== String(next.activeTabId)"));
    assert!(html.contains("window.ipc.postMessage(`edit:${next.activeTabId}:${textarea.value}`)"));
    assert!(html.contains("(tab.dirty ? ' dirty' : '')"));
    assert!(html.contains("editing:true"));
}

#[test]
fn toolbar_buttons_have_distinct_tooltips() {
    let html = app_shell_html(&view_with(Vec::new()));

    assert!(html.contains(".tool-button[data-tooltip]:hover::after"));
    assert!(html.contains("data-tooltip=\"Refresh active document\""));
    assert!(html.contains("data-tooltip=\"Auto-refresh on file changes\""));
    assert!(html.contains("Disable auto-refresh on file changes"));
    assert!(html.contains("Enable auto-refresh on file changes"));
    assert!(html.contains("<circle cx=\"12\" cy=\"12\" r=\"8\"></circle>"));
}

#[test]
fn app_shell_embeds_the_state() {
    let html = app_shell_html(&view_with(vec![untitled(7, "notes", false)]));

    assert!(html.starts_with("<!doctype html>"));
    assert!(html.contains("{tabs:[{id:7,title:\"notes\",path:null,"));
    assert!(html.ends_with("</html>\n"));
}
