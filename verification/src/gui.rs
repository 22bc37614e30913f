//! The decisions of the desktop shell that do not need a window: its command
//! line, when to read standard input, which links leave the app, and how
//! text is quoted for the web view's scripts.
use vstd::prelude::*;

use crate::cli::{
    all_digits, digit_value, digits_value, is_digit, strip_prefixes, strip_prefixes_chars,
    unsigned_digits,
};
use crate::paths::chars_equal;
use crate::terminal::{decimal, decimal_chars};
use crate::text::{chars_of, push_all, push_str, starts_with, string_from_chars};

verus! {

/// The parsed command line of the desktop shell.
#[derive(Debug, Clone, PartialEq, Eq)]
pub struct GuiCli {
    /// The files to open, in order.
    pub inputs: Vec<String>,
    pub help: bool,
}

/// The outcome of the desktop shell's command line, as mathematical values.
pub enum GuiOutcome {
    Parsed(Seq<Seq<char>>, bool),
    Failed(Seq<char>),
}

pub open spec fn unknown_argument_message(arg: Seq<char>) -> Seq<char> {
    seq!['u', 'n', 'k', 'n', 'o', 'w', 'n', ' ', 'a', 'r', 'g', 'u', 'm', 'e', 'n', 't', ':', ' ']
        + arg
}

/// Reads `args[i..]` after the inputs `inputs` and the help flag `help`.
pub open spec fn gui_parse(args: Seq<Seq<char>>, i: int, inputs: Seq<Seq<char>>, help: bool) -> GuiOutcome
    decreases args.len() - i,
{
    if i < 0 || i >= args.len() {
        GuiOutcome::Parsed(inputs, help)
    } else {
        let a = args[i];
        if a == seq!['-', 'h'] || a == seq!['-', '-', 'h', 'e', 'l', 'p'] {
            gui_parse(args, i + 1, inputs, true)
        } else if starts_with(a, seq!['-']) {
            GuiOutcome::Failed(unknown_argument_message(a))
        } else {
            gui_parse(args, i + 1, inputs.push(a), help)
        }
    }
}

pub open spec fn strings_view(v: Seq<String>) -> Seq<Seq<char>> {
    v.map_values(|s: String| s@)
}

impl GuiCli {
    /// Reads the shell's arguments (without the program name): `-h` and
    /// `--help` ask for help, other arguments starting with `-` are refused,
    /// and the rest are files to open.
    pub fn parse(args: &[&str]) -> (r: Result<GuiCli, String>)
        ensures
            match r {
                Ok(c) => gui_parse(crate::cli::args_view(args@), 0, Seq::empty(), false)
                    == GuiOutcome::Parsed(strings_view(c.inputs@), c.help),
                Err(m) => gui_parse(crate::cli::args_view(args@), 0, Seq::empty(), false)
                    == GuiOutcome::Failed(m@),
            },
    {
        let ghost all = crate::cli::args_view(args@);
        let short_help = vec!['-', 'h'];
        let long_help = vec!['-', '-', 'h', 'e', 'l', 'p'];
        assert(short_help@ =~= seq!['-', 'h']);
        assert(long_help@ =~= seq!['-', '-', 'h', 'e', 'l', 'p']);
        let mut inputs: Vec<String> = Vec::new();
        let mut help = false;
        let mut i: usize = 0;
        assert(strings_view(inputs@) =~= Seq::<Seq<char>>::empty());
        while i < args.len()
            invariant
                i <= args@.len(),
                all == crate::cli::args_view(args@),
                short_help@ == seq!['-', 'h'],
                long_help@ == seq!['-', '-', 'h', 'e', 'l', 'p'],
                gui_parse(all, 0, Seq::empty(), false) == gui_parse(
                    all,
                    i as int,
                    strings_view(inputs@),
                    help,
                ),
            decreases args@.len() - i,
        {
            let a = chars_of(args[i]);
            assert(a@ == all[i as int]);
            if chars_equal(a.as_slice(), short_help.as_slice()) || chars_equal(
                a.as_slice(),
                long_help.as_slice(),
            ) {
                help = true;
            } else if a.len() > 0 && a[0] == '-' {
                assert(a@.subrange(0, 1) =~= seq![a@[0]]);
                let mut message: Vec<char> = Vec::new();
                push_str(&mut message, "unknown argument: ");
                proof {
                    reveal_strlit("unknown argument: ");
                }
                push_all(&mut message, a.as_slice());
                assert(message@ =~= unknown_argument_message(a@));
                return Err(string_from_chars(message.as_slice()));
            } else {
                proof {
                    if starts_with(a@, seq!['-']) {
                        assert(a@.subrange(0, 1)[0] == '-');
                    }
                }
                let ghost before = inputs@;
                inputs.push(string_from_chars(a.as_slice()));
                assert(strings_view(inputs@) =~= strings_view(before).push(a@));
            }
            i = i + 1;
        }
        Ok(GuiCli { inputs, help })
    }
}

/// The shell's usage text.
pub fn help() -> (h: &'static str)
    ensures
        h@ == GUI_HELP@,
{
    GUI_HELP
}

pub const GUI_HELP: &'static str = "Usage: markview-gui [FILE]...\n\nOpens Markdown files as rendered tabs in a native WebKit window.\n\nOptions:\n  -h, --help  Show this help";

/// What standard input is connected to.
#[derive(Debug, Clone, Copy, PartialEq, Eq, Structural)]
pub enum StdinSource {
    Terminal,
    Pipe,
    File,
    Other,
}

/// Standard input is read into a tab only when it is a pipe or a file.
pub fn should_read_stdin(source: StdinSource) -> (b: bool)
    ensures
        b == (source == StdinSource::Pipe || source == StdinSource::File),
{
    match source {
        StdinSource::Pipe | StdinSource::File => true,
        _ => false,
    }
}

pub open spec fn http_prefix() -> Seq<char> {
    seq!['h', 't', 't', 'p', ':', '/', '/']
}

pub open spec fn https_prefix() -> Seq<char> {
    seq!['h', 't', 't', 'p', 's', ':', '/', '/']
}

/// Links that open in the default browser: those starting with `https://`
/// or `http://`.
pub fn is_external_url(url: &str) -> (b: bool)
    ensures
        b == (starts_with(url@, https_prefix()) || starts_with(url@, http_prefix())),
{
    let u = chars_of(url);
    let https = vec!['h', 't', 't', 'p', 's', ':', '/', '/'];
    let http = vec!['h', 't', 't', 'p', ':', '/', '/'];
    assert(https@ =~= https_prefix());
    assert(http@ =~= http_prefix());
    crate::text::chars_start_with(u.as_slice(), https.as_slice())
        || crate::text::chars_start_with(u.as_slice(), http.as_slice())
}

pub open spec fn hex_lower(d: nat) -> char {
    if d < 10 {
        (('0' as u8) + d) as char
    } else {
        (('a' as u8) + d - 10) as char
    }
}

/// How one character is written inside a script string literal.
pub open spec fn js_char(c: char) -> Seq<char> {
    if c == '\\' {
        seq!['\\', '\\']
    } else if c == '"' {
        seq!['\\', '"']
    } else if c == '\n' {
        seq!['\\', 'n']
    } else if c == '\r' {
        seq!['\\', 'r']
    } else if c == '\t' {
        seq!['\\', 't']
    } else if c == '<' {
        seq!['\\', 'u', '0', '0', '3', 'c']
    } else if c == '>' {
        seq!['\\', 'u', '0', '0', '3', 'e']
    } else if c == '&' {
        seq!['\\', 'u', '0', '0', '2', '6']
    } else if c == '\u{2028}' {
        seq!['\\', 'u', '2', '0', '2', '8']
    } else if c == '\u{2029}' {
        seq!['\\', 'u', '2', '0', '2', '9']
    } else if (c as u32) < 0x20 {
        seq!['\\', 'u', '0', '0', hex_lower((c as u32 / 16) as nat), hex_lower((c as u32 % 16) as nat)]
    } else {
        seq![c]
    }
}

pub open spec fn js_chars(s: Seq<char>) -> Seq<char>
    decreases s.len(),
{
    if s.len() == 0 {
        Seq::empty()
    } else {
        js_chars(s.drop_last()) + js_char(s.last())
    }
}

/// A script string literal, in double quotes, holding `s`.
pub open spec fn js_literal(s: Seq<char>) -> Seq<char> {
    seq!['"'] + js_chars(s) + seq!['"']
}

fn hex_digit(d: u32) -> (c: char)
    requires
        d < 16,
    ensures
        c == hex_lower(d as nat),
{
    if d < 10 {
        (('0' as u8) + (d as u8)) as char
    } else {
        (('a' as u8) + (d as u8) - 10) as char
    }
}

/// Writes `value` as a double-quoted script string: backslash, quote and
/// line breaks escaped, `<`, `>`, `&`, U+2028 and U+2029 and other control
/// characters written as `\uXXXX`.
pub fn js_string(value: &str) -> (quoted: String)
    ensures
        quoted@ == js_literal(value@),
{
    let chars = chars_of(value);
    let mut out: Vec<char> = vec!['"'];
    let mut i: usize = 0;
    while i < chars.len()
        invariant
            i <= chars@.len(),
            chars@ == value@,
            out@ == seq!['"'] + js_chars(chars@.take(i as int)),
        decreases chars@.len() - i,
    {
        let c = chars[i];
        let ghost before = out@;
        let piece: Vec<char> = if c == '\\' {
            vec!['\\', '\\']
        } else if c == '"' {
            vec!['\\', '"']
        } else if c == '\n' {
            vec!['\\', 'n']
        } else if c == '\r' {
            vec!['\\', 'r']
        } else if c == '\t' {
            vec!['\\', 't']
        } else if c == '<' {
            vec!['\\', 'u', '0', '0', '3', 'c']
        } else if c == '>' {
            vec!['\\', 'u', '0', '0', '3', 'e']
        } else if c == '&' {
            vec!['\\', 'u', '0', '0', '2', '6']
        } else if c == '\u{2028}' {
            vec!['\\', 'u', '2', '0', '2', '8']
        } else if c == '\u{2029}' {
            vec!['\\', 'u', '2', '0', '2', '9']
        } else if (c as u32) < 0x20 {
            let code = c as u32;
            vec!['\\', 'u', '0', '0', hex_digit(code / 16), hex_digit(code % 16)]
        } else {
            vec![c]
        };
        assert(piece@ =~= js_char(c));
        push_all(&mut out, piece.as_slice());
        assert(chars@.take(i + 1).drop_last() == chars@.take(i as int));
        assert(out@ =~= seq!['"'] + js_chars(chars@.take(i + 1)));
        i = i + 1;
    }
    assert(chars@.take(chars@.len() as int) == chars@);
    out.push('"');
    string_from_chars(out.as_slice())
}

/// A tab as the web view shows it.
#[derive(Debug, Clone, PartialEq, Eq)]
pub struct TabView {
    pub id: u64,
    pub title: String,
    /// The file behind the tab; none for a tab opened from standard input.
    pub path: Option<String>,
    /// The file changed on disk since the tab was rendered.
    pub stale: bool,
    pub editing: bool,
    /// The tab holds edits not yet saved.
    pub dirty: bool,
}

/// An entry of the table of contents.
#[derive(Debug, Clone, PartialEq, Eq)]
pub struct HeadingView {
    pub level: u8,
    pub title: String,
    pub id: String,
}

/// The preferences that the web view reflects.
#[derive(Debug, Clone, PartialEq, Eq)]
pub struct PreferencesView {
    /// The theme's name.
    pub theme: String,
    pub sidebar_visible: bool,
    pub auto_refresh: bool,
    /// The recently opened files, as they are displayed.
    pub recent_files: Vec<String>,
}

/// What the web view shows: the tabs, the active one, its rendered HTML,
/// its source and its headings, and the preferences.
#[derive(Debug, Clone, PartialEq, Eq)]
pub struct AppView {
    pub tabs: Vec<TabView>,
    pub active_tab_id: Option<u64>,
    pub active_html: String,
    pub active_source: String,
    pub headings: Vec<HeadingView>,
    pub preferences: PreferencesView,
}

/// `true` or `false`, as a script writes them.
pub open spec fn bool_js(b: bool) -> Seq<char> {
    if b {
        "true"@
    } else {
        "false"@
    }
}

/// The parts joined with commas between them.
pub open spec fn comma_joined(parts: Seq<Seq<char>>) -> Seq<char>
    decreases parts.len(),
{
    if parts.len() == 0 {
        Seq::empty()
    } else if parts.len() == 1 {
        parts[0]
    } else {
        comma_joined(parts.drop_last()) + seq![','] + parts.last()
    }
}

/// A tab as a script object.
pub open spec fn tab_js(t: TabView) -> Seq<char> {
    "{id:"@ + decimal(t.id as nat) + ",title:"@ + js_literal(t.title@) + ",path:"@ + match t.path {
        Some(p) => js_literal(p@),
        None => "null"@,
    } + ",stale:"@ + bool_js(t.stale) + ",editing:"@ + bool_js(t.editing) + ",dirty:"@ + bool_js(
        t.dirty,
    ) + "}"@
}

/// A heading as a script object.
pub open spec fn heading_js(h: HeadingView) -> Seq<char> {
    "{level:"@ + decimal(h.level as nat) + ",title:"@ + js_literal(h.title@) + ",id:"@ + js_literal(
        h.id@,
    ) + "}"@
}

/// The state of the web view as the script object that updates it.
pub open spec fn view_script(v: AppView) -> Seq<char> {
    "{tabs:["@ + comma_joined(tab_objects(v)) + "],activeTabId:"@
        + match v.active_tab_id {
        Some(id) => decimal(id as nat),
        None => "null"@,
    } + ",activeHtml:"@ + js_literal(v.active_html@) + ",activeSource:"@ + js_literal(
        v.active_source@,
    ) + ",headings:["@ + comma_joined(v.headings@.map_values(|h: HeadingView| heading_js(h)))
        + "],preferences:{theme:"@ + js_literal(v.preferences.theme@) + ",sidebarVisible:"@
        + bool_js(v.preferences.sidebar_visible) + ",autoRefresh:"@ + bool_js(
        v.preferences.auto_refresh,
    ) + ",recentFiles:["@ + comma_joined(
        v.preferences.recent_files@.map_values(|f: String| js_literal(f@)),
    ) + "]}}"@
}

fn push_bool(out: &mut Vec<char>, b: bool)
    ensures
        final(out)@ == old(out)@ + bool_js(b),
{
    if b {
        push_str(out, "true");
    } else {
        push_str(out, "false");
    }
}

fn push_joined(out: &mut Vec<char>, parts: &[Vec<char>])
    ensures
        final(out)@ == old(out)@ + comma_joined(parts@.map_values(|p: Vec<char>| p@)),
{
    let ghost all = parts@.map_values(|p: Vec<char>| p@);
    let ghost start = out@;
    let mut i: usize = 0;
    while i < parts.len()
        invariant
            i <= parts@.len(),
            all == parts@.map_values(|p: Vec<char>| p@),
            out@ == start + comma_joined(all.take(i as int)),
        decreases parts@.len() - i,
    {
        assert(all.take(i + 1).drop_last() =~= all.take(i as int));
        if i > 0 {
            out.push(',');
        }
        push_all(out, parts[i].as_slice());
        i = i + 1;
        assert(out@ =~= start + comma_joined(all.take(i as int)));
    }
    assert(all.take(parts@.len() as int) =~= all);
}

fn js_chars_of(s: &str) -> (v: Vec<char>)
    ensures
        v@ == js_literal(s@),
{
    chars_of(js_string(s).as_str())
}

/// The script object that brings the web view up to date with `view`.
pub fn view_js(view: &AppView) -> (script: String)
    ensures
        script@ == view_script(*view),
{
    let mut tabs: Vec<Vec<char>> = Vec::new();
    let mut i: usize = 0;
    while i < view.tabs.len()
        invariant
            i <= view.tabs@.len(),
            tabs@.len() == i,
            forall|k: int| 0 <= k < i ==> #[trigger] tabs@[k]@ == tab_js(view.tabs@[k]),
        decreases view.tabs@.len() - i,
    {
        let t = &view.tabs[i];
        let mut piece: Vec<char> = Vec::new();
        push_str(&mut piece, "{id:");
        push_all(&mut piece, decimal_chars(t.id as u128).as_slice());
        push_str(&mut piece, ",title:");
        push_all(&mut piece, js_chars_of(t.title.as_str()).as_slice());
        push_str(&mut piece, ",path:");
        match &t.path {
            Some(p) => push_all(&mut piece, js_chars_of(p.as_str()).as_slice()),
            None => push_str(&mut piece, "null"),
        }
        push_str(&mut piece, ",stale:");
        push_bool(&mut piece, t.stale);
        push_str(&mut piece, ",editing:");
        push_bool(&mut piece, t.editing);
        push_str(&mut piece, ",dirty:");
        push_bool(&mut piece, t.dirty);
        push_str(&mut piece, "}");
        assert(piece@ =~= tab_js(*t));
        tabs.push(piece);
        i = i + 1;
    }
    assert(tabs@.map_values(|p: Vec<char>| p@) =~= tab_objects(*view));
    let mut headings: Vec<Vec<char>> = Vec::new();
    let mut j: usize = 0;
    while j < view.headings.len()
        invariant
            j <= view.headings@.len(),
            headings@.len() == j,
            forall|k: int| 0 <= k < j ==> #[trigger] headings@[k]@ == heading_js(view.headings@[k]),
        decreases view.headings@.len() - j,
    {
        let h = &view.headings[j];
        let mut piece: Vec<char> = Vec::new();
        push_str(&mut piece, "{level:");
        push_all(&mut piece, decimal_chars(h.level as u128).as_slice());
        push_str(&mut piece, ",title:");
        push_all(&mut piece, js_chars_of(h.title.as_str()).as_slice());
        push_str(&mut piece, ",id:");
        push_all(&mut piece, js_chars_of(h.id.as_str()).as_slice());
        push_str(&mut piece, "}");
        assert(piece@ =~= heading_js(*h));
        headings.push(piece);
        j = j + 1;
    }
    assert(headings@.map_values(|p: Vec<char>| p@) =~= view.headings@.map_values(
        |h: HeadingView| heading_js(h),
    ));
    let recent = &view.preferences.recent_files;
    let mut files: Vec<Vec<char>> = Vec::new();
    let mut m: usize = 0;
    while m < recent.len()
        invariant
            m <= recent@.len(),
            files@.len() == m,
            forall|k: int| 0 <= k < m ==> #[trigger] files@[k]@ == js_literal(recent@[k]@),
        decreases recent@.len() - m,
    {
        files.push(js_chars_of(recent[m].as_str()));
        m = m + 1;
    }
    assert(files@.map_values(|p: Vec<char>| p@) =~= recent@.map_values(|f: String| js_literal(f@)));
    let mut out: Vec<char> = Vec::new();
    push_str(&mut out, "{tabs:[");
    push_joined(&mut out, tabs.as_slice());
    push_str(&mut out, "],activeTabId:");
    match view.active_tab_id {
        Some(id) => push_all(&mut out, decimal_chars(id as u128).as_slice()),
        None => push_str(&mut out, "null"),
    }
    push_str(&mut out, ",activeHtml:");
    push_all(&mut out, js_chars_of(view.active_html.as_str()).as_slice());
    push_str(&mut out, ",activeSource:");
    push_all(&mut out, js_chars_of(view.active_source.as_str()).as_slice());
    push_str(&mut out, ",headings:[");
    push_joined(&mut out, headings.as_slice());
    push_str(&mut out, "],preferences:{theme:");
    push_all(&mut out, js_chars_of(view.preferences.theme.as_str()).as_slice());
    push_str(&mut out, ",sidebarVisible:");
    push_bool(&mut out, view.preferences.sidebar_visible);
    push_str(&mut out, ",autoRefresh:");
    push_bool(&mut out, view.preferences.auto_refresh);
    push_str(&mut out, ",recentFiles:[");
    push_joined(&mut out, files.as_slice());
    push_str(&mut out, "]}}");
    assert(out@ =~= view_script(*view));
    string_from_chars(out.as_slice())
}

/// The window's title: the active tab's, marked with a dot while it holds
/// unsaved edits.
pub open spec fn window_title_of(active: Option<TabView>) -> Seq<char> {
    match active {
        None => "markview - No document"@,
        Some(t) => "markview - "@ + if t.dirty {
            "\u{25CF} "@
        } else {
            Seq::empty()
        } + t.title@,
    }
}

/// The window's title for the active tab, if any.
pub fn window_title(active: Option<&TabView>) -> (title: String)
    ensures
        title@ == window_title_of(
            match active {
                Some(t) => Some(*t),
                None => None,
            },
        ),
{
    let mut out: Vec<char> = Vec::new();
    match active {
        None => push_str(&mut out, "markview - No document"),
        Some(t) => {
            push_str(&mut out, "markview - ");
            if t.dirty {
                push_str(&mut out, "\u{25CF} ");
            }
            push_str(&mut out, t.title.as_str());
        },
    }
    proof {
        if let Some(t) = active {
            if !t.dirty {
                assert(out@ =~= "markview - "@ + Seq::<char>::empty() + t.title@);
            }
        }
    }
    string_from_chars(out.as_slice())
}

/// The index of the first tab, from the `i`-th on, with the id `id`.
pub open spec fn tab_index(tabs: Seq<TabView>, i: int, id: u64) -> Option<int>
    decreases tabs.len() - i,
{
    if i < 0 || i >= tabs.len() {
        None
    } else if tabs[i].id == id {
        Some(i)
    } else {
        tab_index(tabs, i + 1, id)
    }
}

/// Whether the tab with the id `id` holds unsaved edits; false when there
/// is none.
pub fn tab_dirty(tabs: &[TabView], id: u64) -> (b: bool)
    ensures
        b == (tab_index(tabs@, 0, id) matches Some(i) && tabs@[i].dirty),
{
    let mut i: usize = 0;
    while i < tabs.len()
        invariant
            i <= tabs@.len(),
            tab_index(tabs@, 0, id) == tab_index(tabs@, i as int, id),
        decreases tabs@.len() - i,
    {
        if tabs[i].id == id {
            return tabs[i].dirty;
        }
        i = i + 1;
    }
    false
}

/// Whether a tab whose id is among `ids` holds unsaved edits.
pub fn ids_dirty(tabs: &[TabView], ids: &[u64]) -> (b: bool)
    ensures
        b == exists|i: int| 0 <= i < tabs@.len() && ids@.contains(#[trigger] tabs@[i].id) && tabs@[i].dirty,
{
    let mut i: usize = 0;
    while i < tabs.len()
        invariant
            i <= tabs@.len(),
            forall|k: int| 0 <= k < i ==> !(ids@.contains(#[trigger] tabs@[k].id) && tabs@[k].dirty),
        decreases tabs@.len() - i,
    {
        let t = &tabs[i];
        let mut listed = false;
        let mut j: usize = 0;
        while j < ids.len() && !listed
            invariant
                j <= ids@.len(),
                listed ==> ids@.contains(t.id),
                !listed ==> forall|m: int| 0 <= m < j ==> ids@[m] != t.id,
            decreases ids@.len() - j, if listed {
                0int
            } else {
                1int
            },
        {
            if ids[j] == t.id {
                listed = true;
                assert(ids@[j as int] == t.id);
            } else {
                j = j + 1;
            }
        }
        if listed && t.dirty {
            assert(ids@.contains(tabs@[i as int].id) && tabs@[i as int].dirty);
            return true;
        }
        i = i + 1;
    }
    false
}

/// Whether any tab holds unsaved edits.
pub fn any_tab_dirty(tabs: &[TabView]) -> (b: bool)
    ensures
        b == exists|i: int| 0 <= i < tabs@.len() && (#[trigger] tabs@[i]).dirty,
{
    let mut i: usize = 0;
    while i < tabs.len()
        invariant
            i <= tabs@.len(),
            forall|k: int| 0 <= k < i ==> !(#[trigger] tabs@[k]).dirty,
        decreases tabs@.len() - i,
    {
        if tabs[i].dirty {
            return true;
        }
        i = i + 1;
    }
    false
}

/// What the shell reacts to: commands from the web view and the menu,
/// files dropped on the window, and files that changed on disk.
#[derive(Debug, Clone, PartialEq, Eq)]
pub enum UserEvent {
    OpenRequested,
    RefreshRequested,
    PrintRequested,
    FindRequested,
    QuitRequested,
    ToggleSidebar,
    ToggleAutoRefresh,
    CycleTheme,
    OpenExternal(String),
    DroppedFiles(Vec<String>),
    OpenRecent(String),
    SelectTab(u64),
    CloseTab(u64),
    CloseActiveTab,
    CloseOtherTabs(u64),
    CloseTabsToLeft(u64),
    CloseTabsToRight(u64),
    ReloadTab(u64),
    ExportHtmlRequested,
    ExportTabHtml(u64),
    FilesChanged(Vec<String>),
    ToggleActiveEdit,
    EditChanged(u64, String),
    SaveRequested,
}

/// An event as plain values.
pub enum EventView {
    OpenRequested,
    RefreshRequested,
    PrintRequested,
    FindRequested,
    QuitRequested,
    ToggleSidebar,
    ToggleAutoRefresh,
    CycleTheme,
    OpenExternal(Seq<char>),
    DroppedFiles(Seq<Seq<char>>),
    OpenRecent(Seq<char>),
    SelectTab(u64),
    CloseTab(u64),
    CloseActiveTab,
    CloseOtherTabs(u64),
    CloseTabsToLeft(u64),
    CloseTabsToRight(u64),
    ReloadTab(u64),
    ExportHtmlRequested,
    ExportTabHtml(u64),
    FilesChanged(Seq<Seq<char>>),
    ToggleActiveEdit,
    EditChanged(u64, Seq<char>),
    SaveRequested,
}

impl View for UserEvent {
    type V = EventView;

    open spec fn view(&self) -> EventView {
        match self {
            UserEvent::OpenRequested => EventView::OpenRequested,
            UserEvent::RefreshRequested => EventView::RefreshRequested,
            UserEvent::PrintRequested => EventView::PrintRequested,
            UserEvent::FindRequested => EventView::FindRequested,
            UserEvent::QuitRequested => EventView::QuitRequested,
            UserEvent::ToggleSidebar => EventView::ToggleSidebar,
            UserEvent::ToggleAutoRefresh => EventView::ToggleAutoRefresh,
            UserEvent::CycleTheme => EventView::CycleTheme,
            UserEvent::OpenExternal(u) => EventView::OpenExternal(u@),
            UserEvent::DroppedFiles(p) => EventView::DroppedFiles(strings_view(p@)),
            UserEvent::OpenRecent(p) => EventView::OpenRecent(p@),
            UserEvent::SelectTab(id) => EventView::SelectTab(*id),
            UserEvent::CloseTab(id) => EventView::CloseTab(*id),
            UserEvent::CloseActiveTab => EventView::CloseActiveTab,
            UserEvent::CloseOtherTabs(id) => EventView::CloseOtherTabs(*id),
            UserEvent::CloseTabsToLeft(id) => EventView::CloseTabsToLeft(*id),
            UserEvent::CloseTabsToRight(id) => EventView::CloseTabsToRight(*id),
            UserEvent::ReloadTab(id) => EventView::ReloadTab(*id),
            UserEvent::ExportHtmlRequested => EventView::ExportHtmlRequested,
            UserEvent::ExportTabHtml(id) => EventView::ExportTabHtml(*id),
            UserEvent::FilesChanged(p) => EventView::FilesChanged(strings_view(p@)),
            UserEvent::ToggleActiveEdit => EventView::ToggleActiveEdit,
            UserEvent::EditChanged(id, t) => EventView::EditChanged(*id, t@),
            UserEvent::SaveRequested => EventView::SaveRequested,
        }
    }
}

/// `str::parse::<u64>`: an optional `+`, then at least one ASCII digit,
/// with a value that fits in `u64`.
pub open spec fn parse_u64(s: Seq<char>) -> Option<u64> {
    let d = unsigned_digits(s);
    if d.len() > 0 && all_digits(d) && digits_value(d) <= u64::MAX {
        Some(digits_value(d) as u64)
    } else {
        None
    }
}

/// The tab id after `prefix`, every leading copy of it removed.
pub open spec fn id_after(body: Seq<char>, prefix: Seq<char>) -> Option<u64> {
    parse_u64(strip_prefixes(body, prefix))
}

/// The event for a message that the web view posts: a bare command, or a
/// command and a tab id (or, for `edit:`, a tab id, a colon and the new
/// text; for `recent:`, a path); `None` for anything else.
pub open spec fn ipc_event_of(body: Seq<char>) -> Option<EventView> {
    if body == "open"@ {
        Some(EventView::OpenRequested)
    } else if body == "refresh"@ {
        Some(EventView::RefreshRequested)
    } else if body == "print"@ {
        Some(EventView::PrintRequested)
    } else if body == "export-html"@ {
        Some(EventView::ExportHtmlRequested)
    } else if body == "find"@ {
        Some(EventView::FindRequested)
    } else if body == "quit"@ {
        Some(EventView::QuitRequested)
    } else if body == "toggle-sidebar"@ {
        Some(EventView::ToggleSidebar)
    } else if body == "toggle-auto-refresh"@ {
        Some(EventView::ToggleAutoRefresh)
    } else if body == "cycle-theme"@ {
        Some(EventView::CycleTheme)
    } else if body == "toggle-edit"@ {
        Some(EventView::ToggleActiveEdit)
    } else if body == "save"@ {
        Some(EventView::SaveRequested)
    } else if starts_with(body, "edit:"@) {
        let rest = strip_prefixes(body, "edit:"@);
        let colon = crate::links::index_of(rest, ':');
        if colon >= rest.len() {
            None
        } else {
            match parse_u64(rest.take(colon)) {
                Some(id) => Some(EventView::EditChanged(id, rest.skip(colon + 1))),
                None => None,
            }
        }
    } else if starts_with(body, "select:"@) {
        match id_after(body, "select:"@) {
            Some(id) => Some(EventView::SelectTab(id)),
            None => None,
        }
    } else if starts_with(body, "close:"@) {
        match id_after(body, "close:"@) {
            Some(id) => Some(EventView::CloseTab(id)),
            None => None,
        }
    } else if starts_with(body, "close-others:"@) {
        match id_after(body, "close-others:"@) {
            Some(id) => Some(EventView::CloseOtherTabs(id)),
            None => None,
        }
    } else if starts_with(body, "close-left:"@) {
        match id_after(body, "close-left:"@) {
            Some(id) => Some(EventView::CloseTabsToLeft(id)),
            None => None,
        }
    } else if starts_with(body, "close-right:"@) {
        match id_after(body, "close-right:"@) {
            Some(id) => Some(EventView::CloseTabsToRight(id)),
            None => None,
        }
    } else if starts_with(body, "reload-tab:"@) {
        match id_after(body, "reload-tab:"@) {
            Some(id) => Some(EventView::ReloadTab(id)),
            None => None,
        }
    } else if starts_with(body, "export-tab-html:"@) {
        match id_after(body, "export-tab-html:"@) {
            Some(id) => Some(EventView::ExportTabHtml(id)),
            None => None,
        }
    } else if starts_with(body, "recent:"@) {
        Some(EventView::OpenRecent(strip_prefixes(body, "recent:"@)))
    } else {
        None
    }
}

fn parse_u64_chars(s: &[char]) -> (r: Option<u64>)
    ensures
        r == parse_u64(s@),
{
    let start: usize = if s.len() > 0 && s[0] == '+' {
        1
    } else {
        0
    };
    let ghost d = unsigned_digits(s@);
    assert(d == s@.subrange(start as int, s@.len() as int));
    if start == s.len() {
        return None;
    }
    let mut i: usize = start;
    while i < s.len()
        invariant
            start <= i <= s@.len(),
            d == s@.subrange(start as int, s@.len() as int),
            d == unsigned_digits(s@),
            forall|k: int| start <= k < i ==> is_digit(#[trigger] s@[k]),
        decreases s@.len() - i,
    {
        if !('0' <= s[i] && s[i] <= '9') {
            assert(d[i - start] == s@[i as int]);
            assert(!is_digit(d[i - start]));
            return None;
        }
        i = i + 1;
    }
    assert forall|k: int| 0 <= k < d.len() implies is_digit(#[trigger] d[k]) by {
        assert(d[k] == s@[start + k]);
    }
    let mut v: u64 = 0;
    let mut j: usize = start;
    while j < s.len()
        invariant
            start <= j <= s@.len(),
            d == s@.subrange(start as int, s@.len() as int),
            d == unsigned_digits(s@),
            all_digits(d),
            v as nat == digits_value(d.take(j - start)),
        decreases s@.len() - j,
    {
        assert(d.take(j + 1 - start).drop_last() == d.take(j - start));
        assert(d[j - start] == s@[j as int]);
        let dv = ((s[j] as u32) - ('0' as u32)) as u64;
        assert(dv as nat == digit_value(d[j - start]));
        match v.checked_mul(10) {
            Some(m) => match m.checked_add(dv) {
                Some(x) => {
                    v = x;
                },
                None => {
                    proof {
                        crate::cli::lemma_digits_value_grows(d, j + 1 - start, d.len() as int);
                        assert(d.take(d.len() as int) == d);
                    }
                    return None;
                },
            },
            None => {
                proof {
                    crate::cli::lemma_digits_value_grows(d, j + 1 - start, d.len() as int);
                    assert(d.take(d.len() as int) == d);
                }
                return None;
            },
        }
        j = j + 1;
    }
    assert(d.take(d.len() as int) == d);
    Some(v)
}

fn tab_id_after(body: &[char], prefix: &str) -> (id: Option<u64>)
    requires
        prefix@.len() > 0,
    ensures
        id == id_after(body@, prefix@),
{
    let p = chars_of(prefix);
    let rest = strip_prefixes_chars(body, p.as_slice());
    parse_u64_chars(rest.as_slice())
}

fn is_text(s: &[char], t: &str) -> (b: bool)
    ensures
        b == (s@ == t@),
{
    chars_equal(s, chars_of(t).as_slice())
}

fn begins(s: &[char], t: &str) -> (b: bool)
    ensures
        b == starts_with(s@, t@),
{
    crate::text::chars_start_with(s, chars_of(t).as_slice())
}

/// The event for a message that the web view posts; see `ipc_event_of`.
pub fn ipc_event(body: &str) -> (event: Option<UserEvent>)
    ensures
        match event {
            Some(e) => ipc_event_of(body@) == Some(e@),
            None => ipc_event_of(body@) is None,
        },
{
    let b = chars_of(body);
    let s = b.as_slice();
    proof {
        reveal_strlit("edit:");
        reveal_strlit("select:");
        reveal_strlit("close:");
        reveal_strlit("close-others:");
        reveal_strlit("close-left:");
        reveal_strlit("close-right:");
        reveal_strlit("reload-tab:");
        reveal_strlit("export-tab-html:");
        reveal_strlit("recent:");
    }
    if is_text(s, "open") {
        Some(UserEvent::OpenRequested)
    } else if is_text(s, "refresh") {
        Some(UserEvent::RefreshRequested)
    } else if is_text(s, "print") {
        Some(UserEvent::PrintRequested)
    } else if is_text(s, "export-html") {
        Some(UserEvent::ExportHtmlRequested)
    } else if is_text(s, "find") {
        Some(UserEvent::FindRequested)
    } else if is_text(s, "quit") {
        Some(UserEvent::QuitRequested)
    } else if is_text(s, "toggle-sidebar") {
        Some(UserEvent::ToggleSidebar)
    } else if is_text(s, "toggle-auto-refresh") {
        Some(UserEvent::ToggleAutoRefresh)
    } else if is_text(s, "cycle-theme") {
        Some(UserEvent::CycleTheme)
    } else if is_text(s, "toggle-edit") {
        Some(UserEvent::ToggleActiveEdit)
    } else if is_text(s, "save") {
        Some(UserEvent::SaveRequested)
    } else if begins(s, "edit:") {
        let rest = strip_prefixes_chars(s, chars_of("edit:").as_slice());
        let colon = crate::links::find_char(rest.as_slice(), ':');
        if colon >= rest.len() {
            None
        } else {
            let id_part = crate::links::slice_chars(rest.as_slice(), 0, colon);
            let text = crate::links::slice_chars(rest.as_slice(), colon + 1, rest.len());
            assert(id_part@ =~= rest@.take(colon as int));
            assert(text@ =~= rest@.skip(colon + 1));
            match parse_u64_chars(id_part.as_slice()) {
                Some(id) => Some(UserEvent::EditChanged(id, string_from_chars(text.as_slice()))),
                None => None,
            }
        }
    } else if begins(s, "select:") {
        match tab_id_after(s, "select:") {
            Some(id) => Some(UserEvent::SelectTab(id)),
            None => None,
        }
    } else if begins(s, "close:") {
        match tab_id_after(s, "close:") {
            Some(id) => Some(UserEvent::CloseTab(id)),
            None => None,
        }
    } else if begins(s, "close-others:") {
        match tab_id_after(s, "close-others:") {
            Some(id) => Some(UserEvent::CloseOtherTabs(id)),
            None => None,
        }
    } else if begins(s, "close-left:") {
        match tab_id_after(s, "close-left:") {
            Some(id) => Some(UserEvent::CloseTabsToLeft(id)),
            None => None,
        }
    } else if begins(s, "close-right:") {
        match tab_id_after(s, "close-right:") {
            Some(id) => Some(UserEvent::CloseTabsToRight(id)),
            None => None,
        }
    } else if begins(s, "reload-tab:") {
        match tab_id_after(s, "reload-tab:") {
            Some(id) => Some(UserEvent::ReloadTab(id)),
            None => None,
        }
    } else if begins(s, "export-tab-html:") {
        match tab_id_after(s, "export-tab-html:") {
            Some(id) => Some(UserEvent::ExportTabHtml(id)),
            None => None,
        }
    } else if begins(s, "recent:") {
        let rest = strip_prefixes_chars(s, chars_of("recent:").as_slice());
        Some(UserEvent::OpenRecent(string_from_chars(rest.as_slice())))
    } else {
        None
    }
}

/// Where a link the user follows in the web view goes: external web links
/// open in the default browser and the view stays where it is; other
/// links are followed in the view.
pub fn navigation_event(url: &str) -> (event: Option<UserEvent>)
    ensures
        match event {
            Some(e) => (starts_with(url@, https_prefix()) || starts_with(url@, http_prefix()))
                && e@ == EventView::OpenExternal(url@),
            None => !(starts_with(url@, https_prefix()) || starts_with(url@, http_prefix())),
        },
{
    if is_external_url(url) {
        Some(UserEvent::OpenExternal(url.to_owned()))
    } else {
        None
    }
}

/// Whether a tab other than the one with the id `keep_id` holds unsaved
/// edits; false when no tab has that id.
pub open spec fn others_dirty(tabs: Seq<TabView>, keep_id: u64) -> bool {
    tab_index(tabs, 0, keep_id) is Some && exists|i: int|
        0 <= i < tabs.len() && (#[trigger] tabs[i]).id != keep_id && tabs[i].dirty
}

/// Whether a tab before the one with the id `id` holds unsaved edits;
/// false when no tab has that id.
pub open spec fn left_dirty(tabs: Seq<TabView>, id: u64) -> bool {
    match tab_index(tabs, 0, id) {
        Some(p) => exists|i: int| 0 <= i < p && (#[trigger] tabs[i]).dirty,
        None => false,
    }
}

/// Whether a tab after the one with the id `id` holds unsaved edits;
/// false when no tab has that id.
pub open spec fn right_dirty(tabs: Seq<TabView>, id: u64) -> bool {
    match tab_index(tabs, 0, id) {
        Some(p) => exists|i: int| p < i < tabs.len() && (#[trigger] tabs[i]).dirty,
        None => false,
    }
}

proof fn lemma_tab_index_range(tabs: Seq<TabView>, i: int, id: u64)
    requires
        0 <= i,
    ensures
        tab_index(tabs, i, id) matches Some(p) ==> i <= p < tabs.len() && tabs[p].id == id,
    decreases tabs.len() - i,
{
    if i < tabs.len() && tabs[i].id != id {
        lemma_tab_index_range(tabs, i + 1, id);
    }
}

/// The position of the tab with the id `id`.
fn position_of(tabs: &[TabView], id: u64) -> (p: Option<usize>)
    ensures
        match p {
            Some(k) => tab_index(tabs@, 0, id) == Some(k as int) && k < tabs@.len(),
            None => tab_index(tabs@, 0, id) is None,
        },
{
    let mut i: usize = 0;
    while i < tabs.len()
        invariant
            i <= tabs@.len(),
            tab_index(tabs@, 0, id) == tab_index(tabs@, i as int, id),
        decreases tabs@.len() - i,
    {
        if tabs[i].id == id {
            return Some(i);
        }
        i = i + 1;
    }
    None
}

/// Whether a tab in positions `from..to` holds unsaved edits.
fn dirty_between(tabs: &[TabView], from: usize, to: usize) -> (b: bool)
    requires
        from <= to <= tabs@.len(),
    ensures
        b == exists|i: int| from <= i < to && (#[trigger] tabs@[i]).dirty,
{
    let mut i = from;
    while i < to
        invariant
            from <= i <= to <= tabs@.len(),
            forall|k: int| from <= k < i ==> !(#[trigger] tabs@[k]).dirty,
        decreases to - i,
    {
        if tabs[i].dirty {
            return true;
        }
        i = i + 1;
    }
    false
}

/// Whether closing every tab but the one with the id `keep_id` would drop
/// unsaved edits; see `others_dirty`.
pub fn other_tabs_dirty(tabs: &[TabView], keep_id: u64) -> (b: bool)
    ensures
        b == others_dirty(tabs@, keep_id),
{
    if position_of(tabs, keep_id).is_none() {
        return false;
    }
    let mut i: usize = 0;
    while i < tabs.len()
        invariant
            i <= tabs@.len(),
            tab_index(tabs@, 0, keep_id) is Some,
            forall|k: int| 0 <= k < i ==> !((#[trigger] tabs@[k]).id != keep_id && tabs@[k].dirty),
        decreases tabs@.len() - i,
    {
        if tabs[i].id != keep_id && tabs[i].dirty {
            assert(tabs@[i as int].id != keep_id && tabs@[i as int].dirty);
            return true;
        }
        i = i + 1;
    }
    false
}

/// Whether closing the tabs left of the one with the id `id` would drop
/// unsaved edits; see `left_dirty`.
pub fn tabs_to_left_dirty(tabs: &[TabView], id: u64) -> (b: bool)
    ensures
        b == left_dirty(tabs@, id),
{
    match position_of(tabs, id) {
        Some(p) => dirty_between(tabs, 0, p),
        None => false,
    }
}

/// Whether closing the tabs right of the one with the id `id` would drop
/// unsaved edits; see `right_dirty`.
pub fn tabs_to_right_dirty(tabs: &[TabView], id: u64) -> (b: bool)
    ensures
        b == right_dirty(tabs@, id),
{
    let n = tabs.len();
    let found = position_of(tabs, id);
    match found {
        Some(p) => {
            assert(p < n);
            dirty_between(tabs, p + 1, n)
        },
        None => false,
    }
}

/// Whether a change on disk makes the open tabs refresh: a file was
/// created, modified or removed.
pub fn is_refresh_event(kind: crate::serve::FileChange) -> (b: bool)
    ensures
        b == (kind == crate::serve::FileChange::Create || kind == crate::serve::FileChange::Modify
            || kind == crate::serve::FileChange::Remove),
{
    crate::serve::is_reload_event(kind)
}

/// `base` with `rest` appended as `PathBuf::join` does for a relative
/// `rest` on systems that separate paths with `/`.
pub open spec fn joined_path(base: Seq<char>, rest: Seq<char>) -> Seq<char> {
    if base.len() == 0 || base.last() == '/' {
        base + rest
    } else {
        base + seq!['/'] + rest
    }
}

/// Where the shell keeps its preferences: under the home directory, in
/// `Library/Application Support` on macOS and in `.config` elsewhere; in the
/// working directory when there is no home directory.
pub open spec fn preferences_location(home: Option<Seq<char>>, macos: bool) -> Seq<char> {
    match home {
        None => ".markview-preferences"@,
        Some(h) => joined_path(
            h,
            if macos {
                "Library/Application Support/markview/preferences.conf"@
            } else {
                ".config/markview/preferences.conf"@
            },
        ),
    }
}

/// The path of the preferences file; see `preferences_location`.
pub fn preferences_path(home: Option<&str>, macos: bool) -> (path: String)
    ensures
        path@ == preferences_location(
            match home {
                Some(h) => Some(h@),
                None => None,
            },
            macos,
        ),
{
    let mut out: Vec<char> = Vec::new();
    match home {
        None => push_str(&mut out, ".markview-preferences"),
        Some(h) => {
            let hc = chars_of(h);
            push_all(&mut out, hc.as_slice());
            if !(hc.len() == 0 || hc[hc.len() - 1] == '/') {
                out.push('/');
            }
            if macos {
                push_str(&mut out, "Library/Application Support/markview/preferences.conf");
            } else {
                push_str(&mut out, ".config/markview/preferences.conf");
            }
        },
    }
    string_from_chars(out.as_slice())
}


/// Where the `k`-th part starts in the parts joined with commas.
pub open spec fn part_start(parts: Seq<Seq<char>>, k: int) -> int {
    if k == 0 {
        0
    } else {
        comma_joined(parts.take(k)).len() + 1int
    }
}

proof fn lemma_joined_prefix(parts: Seq<Seq<char>>, m: int)
    requires
        0 <= m <= parts.len(),
    ensures
        comma_joined(parts.take(m)).len() <= comma_joined(parts).len(),
        comma_joined(parts).take(comma_joined(parts.take(m)).len() as int) == comma_joined(
            parts.take(m),
        ),
    decreases parts.len(),
{
    if m == parts.len() {
        assert(parts.take(m) =~= parts);
        assert(comma_joined(parts).take(comma_joined(parts).len() as int) =~= comma_joined(parts));
    } else {
        lemma_joined_prefix(parts.drop_last(), m);
        assert(parts.drop_last().take(m) =~= parts.take(m));
        let a = comma_joined(parts.drop_last());
        if parts.len() == 1 {
            assert(m == 0);
            assert(parts.take(0) =~= Seq::<Seq<char>>::empty());
            assert(comma_joined(parts).take(0) =~= Seq::<char>::empty());
        } else {
            let w = comma_joined(parts);
            assert(w == a + seq![','] + parts.last());
            let n = comma_joined(parts.take(m)).len() as int;
            assert(w.take(n) =~= a.take(n));
        }
    }
}

proof fn lemma_joined_step(parts: Seq<Seq<char>>, k: int)
    requires
        0 <= k < parts.len(),
    ensures
        comma_joined(parts.take(k + 1)) == comma_joined(parts.take(k)) + (if k == 0 {
            Seq::<char>::empty()
        } else {
            seq![',']
        }) + parts[k],
{
    let t = parts.take(k + 1);
    assert(t.drop_last() =~= parts.take(k));
    assert(t.last() == parts[k]);
    if k == 0 {
        assert(parts.take(0) =~= Seq::<Seq<char>>::empty());
        assert(Seq::<char>::empty() + Seq::<char>::empty() + parts[0] =~= parts[0]);
    }
}

/// Each part occurs in the joined text at its start, and a later part
/// starts after an earlier one ends.
proof fn lemma_part_at(parts: Seq<Seq<char>>, k: int)
    requires
        0 <= k < parts.len(),
    ensures
        0 <= part_start(parts, k),
        part_start(parts, k) + parts[k].len() <= comma_joined(parts).len(),
        comma_joined(parts).subrange(part_start(parts, k), part_start(parts, k) + parts[k].len())
            == parts[k],
        forall|j: int|
            k < j < parts.len() ==> part_start(parts, k) + parts[k].len() < #[trigger] part_start(
                parts,
                j,
            ),
{
    lemma_joined_step(parts, k);
    lemma_joined_prefix(parts, k + 1);
    let w = comma_joined(parts);
    let pre = comma_joined(parts.take(k + 1));
    let p = part_start(parts, k);
    assert(pre.len() == p + parts[k].len());
    assert(w.subrange(p, p + parts[k].len()) =~= pre.subrange(p, p + parts[k].len()));
    assert(pre.subrange(p, p + parts[k].len()) =~= parts[k]);
    assert forall|j: int| k < j < parts.len() implies part_start(parts, k) + parts[k].len()
        < part_start(parts, j) by {
        lemma_joined_prefix(parts.take(j), k + 1);
        assert(parts.take(j).take(k + 1) =~= parts.take(k + 1));
    }
}

/// The tab objects of a view, one per tab.
pub open spec fn tab_objects(v: AppView) -> Seq<Seq<char>> {
    v.tabs@.map_values(|t: TabView| tab_js(t))
}

/// The script opens with its list of tab objects.
#[verifier::spinoff_prover]
proof fn lemma_script_prefix(v: AppView)
    ensures
        view_script(v).len() >= 7 + comma_joined(tab_objects(v)).len(),
        view_script(v).subrange(0, 7 + comma_joined(tab_objects(v)).len() as int) == "{tabs:["@
            + comma_joined(tab_objects(v)),
{
    let head = "{tabs:["@;
    let joined = comma_joined(tab_objects(v));
    reveal_strlit("{tabs:[");
    assert(head.len() == 7);
    assert(view_script(v).subrange(0, 7 + joined.len() as int) =~= head + joined);
}

/// The state script lists every open tab as its own object, in the order
/// of the tabs: the object of each tab occurs in the script's tab list, and
/// a later tab's object starts after an earlier one's ends.
pub proof fn every_tab_is_listed_in_order(v: AppView, k: int)
    requires
        0 <= k < v.tabs@.len(),
    ensures
        ({
            let script = view_script(v);
            let start = 7 + part_start(tab_objects(v), k);
            &&& "{tabs:["@ == script.take(7)
            &&& start + tab_js(v.tabs@[k]).len() <= script.len()
            &&& script.subrange(start, start + tab_js(v.tabs@[k]).len()) == tab_js(v.tabs@[k])
            &&& forall|j: int|
                k < j < v.tabs@.len() ==> start + tab_js(v.tabs@[k]).len() < 7
                    + #[trigger] part_start(tab_objects(v), j)
        }),
{
    reveal_strlit("{tabs:[");
    let parts = tab_objects(v);
    lemma_part_at(parts, k);
    let script = view_script(v);
    let head = "{tabs:["@;
    let joined = comma_joined(parts);
    assert(head.len() == 7);
    assert(parts[k] == tab_js(v.tabs@[k]));
    let p = part_start(parts, k);
    lemma_script_prefix(v);
    assert(script.subrange(7 + p, 7 + p + parts[k].len()) =~= joined.subrange(p, p + parts[k].len()));
    assert(script.take(7) =~= head);
}

} // verus!
