use markview::gui::{
    ipc_event, is_external_url, js_string, navigation_event, should_read_stdin, AppView, GuiCli,
    HeadingView, PreferencesView, StdinSource, TabView, UserEvent,
};
use markview::paths::is_markdown_path;
use markview::serve::FileChange;

#[test]
fn identifies_external_http_links() {
    assert!(is_external_url("https://example.com"));
    assert!(is_external_url("http://example.com"));
    assert!(!is_external_url("file:///tmp/readme.md"));
    assert!(!is_external_url("#intro"));
}

#[test]
fn identifies_markdown_drop_paths() {
    assert!(is_markdown_path("README.md"));
    assert!(is_markdown_path("guide.MARKDOWN"));
    assert!(is_markdown_path("notes.mdown"));
    assert!(!is_markdown_path("notes.txt"));
    assert!(!is_markdown_path("README"));
}

#[test]
fn stdin_tabs_are_only_created_for_pipe_or_file_stdin() {
    assert!(should_read_stdin(StdinSource::Pipe));
    assert!(should_read_stdin(StdinSource::File));
    assert!(!should_read_stdin(StdinSource::Terminal));
    assert!(!should_read_stdin(StdinSource::Other));
}

#[test]
fn js_string_escapes_json_control_characters() {
    assert_eq!(js_string("bad\x01name\nok"), r#""bad\u0001name\nok""#);
}

#[test]
fn parses_multiple_input_files() {
    let cli = GuiCli::parse(&["README.md", "guide.md"]).expect("parse");

    assert_eq!(
        cli.inputs,
        vec!["README.md".to_owned(), "guide.md".to_owned()]
    );
    assert!(!cli.help);
}

#[test]
fn rejects_unknown_gui_flags() {
    let error = GuiCli::parse(&["--bogus"]).expect_err("unknown flag");

    assert_eq!(error, "unknown argument: --bogus");
}

fn draft_view() -> AppView {
    AppView {
        tabs: vec![TabView {
            id: 1,
            title: "draft".to_owned(),
            path: None,
            stale: false,
            editing: true,
            dirty: true,
        }],
        active_tab_id: Some(1),
        active_html: "<h1>Draft</h1>".to_owned(),
        active_source: "# Draft edited".to_owned(),
        headings: vec![HeadingView {
            level: 1,
            title: "Draft".to_owned(),
            id: "draft".to_owned(),
        }],
        preferences: PreferencesView {
            theme: "system".to_owned(),
            sidebar_visible: true,
            auto_refresh: false,
            recent_files: vec!["/tmp/a.md".to_owned(), "/tmp/b \"q\".md".to_owned()],
        },
    }
}

#[test]
fn view_js_includes_editing_dirty_and_active_source() {
    let script = markview::gui::view_js(&draft_view());

    assert!(script.contains("editing:true"));
    assert!(script.contains("dirty:true"));
    assert!(script.contains("activeSource:\"# Draft edited\""));
}

#[test]
fn view_js_writes_the_whole_state() {
    let script = markview::gui::view_js(&draft_view());
    let expected = "{tabs:[{id:1,title:\"draft\",path:null,stale:false,editing:true,dirty:true}],activeTabId:1,activeHtml:\"\\u003ch1\\u003eDraft\\u003c/h1\\u003e\",activeSource:\"# Draft edited\",headings:[{level:1,title:\"Draft\",id:\"draft\"}],preferences:{theme:\"system\",sidebarVisible:true,autoRefresh:false,recentFiles:[\"/tmp/a.md\",\"/tmp/b \\\"q\\\".md\"]}}";

    assert_eq!(script, expected);
}

#[test]
fn view_js_writes_null_for_no_active_tab() {
    let mut view = draft_view();
    view.tabs.clear();
    view.active_tab_id = None;
    view.headings.clear();
    view.preferences.recent_files.clear();
    let script = markview::gui::view_js(&view);

    assert!(script.starts_with("{tabs:[],activeTabId:null,"));
    assert!(script.contains("headings:[],"));
    assert!(script.ends_with("recentFiles:[]}}"));
}

fn tab(id: u64, title: &str, dirty: bool) -> TabView {
    TabView {
        id,
        title: title.to_owned(),
        path: Some(format!("/tmp/{title}.md")),
        stale: false,
        editing: dirty,
        dirty,
    }
}

#[test]
fn detects_any_dirty_tab() {
    let clean = vec![tab(1, "draft", false)];
    assert!(!markview::gui::any_tab_dirty(&clean));

    let edited = vec![tab(1, "draft", true)];
    assert!(markview::gui::any_tab_dirty(&edited));
    assert!(!markview::gui::any_tab_dirty(&[]));
}

#[test]
fn finds_dirty_tabs_by_id() {
    let tabs = vec![tab(1, "left", true), tab(2, "middle", false), tab(3, "right", false)];
    assert!(markview::gui::tab_dirty(&tabs, 1));
    assert!(!markview::gui::tab_dirty(&tabs, 2));
    assert!(!markview::gui::tab_dirty(&tabs, 99));
    assert!(markview::gui::ids_dirty(&tabs, &[1, 3]));
    assert!(!markview::gui::ids_dirty(&tabs, &[2, 3]));
    assert!(!markview::gui::ids_dirty(&tabs, &[]));
}

#[test]
fn titles_the_window_after_the_active_tab() {
    assert_eq!(markview::gui::window_title(None), "markview - No document");
    assert_eq!(
        markview::gui::window_title(Some(&tab(1, "notes", false))),
        "markview - notes"
    );
    assert_eq!(
        markview::gui::window_title(Some(&tab(1, "notes", true))),
        "markview - \u{25CF} notes"
    );
}

#[test]
fn reads_web_view_messages() {
    assert_eq!(ipc_event("open"), Some(UserEvent::OpenRequested));
    assert_eq!(ipc_event("refresh"), Some(UserEvent::RefreshRequested));
    assert_eq!(ipc_event("print"), Some(UserEvent::PrintRequested));
    assert_eq!(ipc_event("export-html"), Some(UserEvent::ExportHtmlRequested));
    assert_eq!(ipc_event("find"), Some(UserEvent::FindRequested));
    assert_eq!(ipc_event("quit"), Some(UserEvent::QuitRequested));
    assert_eq!(ipc_event("toggle-sidebar"), Some(UserEvent::ToggleSidebar));
    assert_eq!(ipc_event("toggle-auto-refresh"), Some(UserEvent::ToggleAutoRefresh));
    assert_eq!(ipc_event("cycle-theme"), Some(UserEvent::CycleTheme));
    assert_eq!(ipc_event("toggle-edit"), Some(UserEvent::ToggleActiveEdit));
    assert_eq!(ipc_event("save"), Some(UserEvent::SaveRequested));
    assert_eq!(ipc_event("select:3"), Some(UserEvent::SelectTab(3)));
    assert_eq!(ipc_event("select:select:9"), Some(UserEvent::SelectTab(9)));
    assert_eq!(ipc_event("select:+5"), Some(UserEvent::SelectTab(5)));
    assert_eq!(ipc_event("select:x"), None);
    assert_eq!(ipc_event("select:18446744073709551616"), None);
    assert_eq!(ipc_event("close:7"), Some(UserEvent::CloseTab(7)));
    assert_eq!(ipc_event("close-others:2"), Some(UserEvent::CloseOtherTabs(2)));
    assert_eq!(ipc_event("close-left:1"), Some(UserEvent::CloseTabsToLeft(1)));
    assert_eq!(ipc_event("close-right:1"), Some(UserEvent::CloseTabsToRight(1)));
    assert_eq!(ipc_event("reload-tab:4"), Some(UserEvent::ReloadTab(4)));
    assert_eq!(ipc_event("export-tab-html:5"), Some(UserEvent::ExportTabHtml(5)));
    assert_eq!(
        ipc_event("edit:3:# New: text\nmore"),
        Some(UserEvent::EditChanged(3, "# New: text\nmore".to_owned()))
    );
    assert_eq!(ipc_event("edit:3"), None);
    assert_eq!(ipc_event("edit:x:y"), None);
    assert_eq!(ipc_event("recent:/tmp/a.md"), Some(UserEvent::OpenRecent("/tmp/a.md".to_owned())));
    assert_eq!(ipc_event("bogus"), None);
    assert_eq!(ipc_event(""), None);
}

#[test]
fn external_links_leave_the_web_view() {
    assert_eq!(
        navigation_event("https://example.com/a"),
        Some(UserEvent::OpenExternal("https://example.com/a".to_owned()))
    );
    assert_eq!(navigation_event("file:///tmp/a.md"), None);
    assert_eq!(navigation_event("about:blank"), None);
}

#[test]
fn detects_dirty_tabs_outside_a_kept_tab() {
    let mut tabs = vec![tab(1, "kept", false), tab(2, "other", false)];
    assert!(!markview::gui::other_tabs_dirty(&tabs, 1));

    tabs[1].dirty = true;
    assert!(markview::gui::other_tabs_dirty(&tabs, 1));
    assert!(!markview::gui::other_tabs_dirty(&tabs, 2));
    assert!(!markview::gui::other_tabs_dirty(&tabs, 99));
}

#[test]
fn detects_dirty_tabs_to_the_left_and_right() {
    let mut tabs = vec![tab(1, "left", false), tab(2, "middle", false), tab(3, "right", false)];
    assert!(!markview::gui::tabs_to_left_dirty(&tabs, 2));
    assert!(!markview::gui::tabs_to_right_dirty(&tabs, 2));

    tabs[0].dirty = true;
    assert!(markview::gui::tabs_to_left_dirty(&tabs, 2));
    assert!(!markview::gui::tabs_to_right_dirty(&tabs, 2));

    tabs[2].dirty = true;
    assert!(markview::gui::tabs_to_right_dirty(&tabs, 2));
    assert!(!markview::gui::tabs_to_left_dirty(&tabs, 99));
}

#[test]
fn classifies_file_events_that_should_refresh() {
    let cases = [
        (FileChange::Create, true),
        (FileChange::Modify, true),
        (FileChange::Remove, true),
        (FileChange::Access, false),
        (FileChange::Any, false),
        (FileChange::Other, false),
    ];
    for (kind, refresh) in cases {
        assert_eq!(markview::gui::is_refresh_event(kind), refresh);
        assert_eq!(markview::serve::is_reload_event(kind), refresh);
    }
}

#[test]
fn keeps_preferences_under_the_home_directory() {
    assert_eq!(
        markview::gui::preferences_path(Some("/Users/ann"), true),
        "/Users/ann/Library/Application Support/markview/preferences.conf"
    );
    assert_eq!(
        markview::gui::preferences_path(Some("/home/ann/"), false),
        "/home/ann/.config/markview/preferences.conf"
    );
    assert_eq!(
        markview::gui::preferences_path(None, true),
        ".markview-preferences"
    );
    assert_eq!(
        markview::gui::preferences_path(Some(""), false),
        ".config/markview/preferences.conf"
    );
}
