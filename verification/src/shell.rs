//! The page shell that the local preview server wraps around a rendered
//! document: the navigation between documents, a footer with the times the
//! document was modified and refreshed, and the script that reloads the
//! page when the file changes.
use vstd::prelude::*;

use crate::serve::{matches_at, replace_all, replace_chars, NavLayout};
use crate::terminal::{decimal, decimal_chars};
use crate::text::{chars_of, push_all, push_str, string_from_chars};

verus! {

/// The style rules of the shell, inserted after the page's own.
pub const SHELL_STYLE: &'static str = r#"<style>
[data-markview-nav] {
  width: min(860px, calc(100vw - 48px));
  margin: 24px auto 0;
}
[data-markview-nav]:empty { display: none; }
.markview-shell {
  display: grid;
  grid-template-columns: 240px minmax(0, 860px);
  gap: 32px;
  width: min(1132px, calc(100vw - 48px));
  margin: 0 auto;
  align-items: start;
}
.markview-shell main {
  width: auto;
  margin: 0;
}
.markview-shell [data-markview-nav] {
  width: auto;
  margin: 40px 0 0;
}
.markview-footer {
  width: min(860px, calc(100vw - 48px));
  margin: -36px auto 40px;
  padding-top: 1rem;
  border-top: 1px solid var(--rule);
  color: var(--muted);
  font-size: 0.9rem;
  display: flex;
  justify-content: space-between;
  gap: 1rem;
  align-items: baseline;
}
.markview-refreshed {
  text-align: right;
  white-space: nowrap;
}
.markview-footer-meta {
  display: flex;
  flex-direction: column;
  gap: 0.2rem;
  text-align: right;
}
.markview-modified,
.markview-refreshed {
  white-space: nowrap;
}
.markview-tabs {
  display: flex;
  gap: 0.25rem;
  flex-wrap: wrap;
  border-bottom: 1px solid var(--rule);
}
.markview-tabs a {
  padding: 0.55rem 1rem;
  margin-bottom: -1px;
  border: 1px solid transparent;
  border-top-left-radius: 8px;
  border-top-right-radius: 8px;
  background: var(--code-bg);
  color: var(--muted);
  text-decoration: none;
  max-width: 12rem;
  overflow: hidden;
  text-overflow: ellipsis;
  white-space: nowrap;
}
.markview-tabs a:hover {
  background: var(--quote-bg);
  color: var(--fg);
  border-color: var(--rule) var(--rule) transparent;
}
.markview-tabs a[aria-current="page"] {
  background: var(--bg);
  color: var(--fg);
  font-weight: 600;
  border-color: var(--rule) var(--rule) var(--bg);
}
.markview-sidebar {
  display: flex;
  flex-direction: column;
  gap: 2px;
  background: var(--code-bg);
  border-radius: 10px;
  padding: 14px 10px;
  position: sticky;
  top: 24px;
  align-self: start;
  max-height: calc(100vh - 48px);
  overflow-y: auto;
}
.markview-sidebar a {
  display: block;
  padding: 0.5rem 0.7rem;
  border-radius: 6px;
  color: var(--muted);
  text-decoration: none;
  white-space: nowrap;
  overflow: hidden;
  text-overflow: ellipsis;
  transition: background-color 0.15s ease, color 0.15s ease;
}
.markview-sidebar a:hover {
  background: var(--quote-bg);
  color: var(--fg);
}
.markview-sidebar a[aria-current="page"] {
  background: var(--accent);
  color: var(--bg);
  font-weight: 600;
}
@media (max-width: 700px) {
  .markview-shell {
    display: block;
    width: min(860px, calc(100vw - 48px));
    margin: 0 auto;
  }
  .markview-shell main {
    width: auto;
    margin: 0;
  }
  .markview-sidebar {
    position: static;
    max-height: none;
    overflow: visible;
    flex-direction: row;
    flex-wrap: wrap;
    gap: 0.35rem;
    margin-bottom: 1.25rem;
  }
  .markview-sidebar a {
    max-width: 12rem;
  }
  .markview-footer {
    align-items: flex-start;
    flex-direction: column;
    gap: 0.35rem;
  }
  .markview-refreshed {
    text-align: left;
    white-space: normal;
  }
  .markview-footer-meta {
    text-align: left;
  }
  .markview-modified,
  .markview-refreshed {
    white-space: normal;
  }
}
</style>"#;

/// The script that keeps the times current and reloads the page's main
/// parts when the server reports a change.
pub const SHELL_SCRIPT: &'static str = r#"<script>
(() => {
  const formatTime = (date) => date.toLocaleTimeString([], { hour: 'numeric', minute: '2-digit', second: '2-digit' });
  const updateModifiedTimes = () => {
    document.querySelectorAll('[data-markview-modified-at]').forEach((element) => {
      const millis = Number(element.dataset.timestampMs);
      if (!Number.isFinite(millis)) {
        element.textContent = 'unknown';
        return;
      }
      const modified = new Date(millis);
      element.dateTime = modified.toISOString();
      element.textContent = formatTime(modified);
    });
  };
  const updateRefreshTime = () => {
    const now = new Date();
    document.querySelectorAll('[data-markview-refreshed-at]').forEach((element) => {
      element.dateTime = now.toISOString();
      element.textContent = formatTime(now);
    });
  };
  updateModifiedTimes();
  updateRefreshTime();
  const events = new EventSource('/events');
  events.onmessage = async (event) => {
    if (event.data !== 'reload') return;
    const savedY = window.scrollY;
    const response = await fetch(location.pathname, { cache: 'no-store' });
    const text = await response.text();
    const next = new DOMParser().parseFromString(text, 'text/html');
    const currentMain = document.querySelector('main');
    const nextMain = next.querySelector('main');
    if (currentMain && nextMain) currentMain.innerHTML = nextMain.innerHTML;
    const currentNav = document.querySelector('[data-markview-nav]');
    const nextNav = next.querySelector('[data-markview-nav]');
    if (currentNav && nextNav) currentNav.innerHTML = nextNav.innerHTML;
    const currentFooter = document.querySelector('footer');
    const nextFooter = next.querySelector('footer');
    if (currentFooter && nextFooter) currentFooter.innerHTML = nextFooter.innerHTML;
    if (next.title) document.title = next.title;
    updateModifiedTimes();
    updateRefreshTime();
    window.scrollTo(0, savedY);
  };
})();
</script>"#;

/// The footer up to the attributes of the modification time.
pub const FOOTER_OPEN: &'static str = r#"<footer class="markview-footer">
<span>Served by <a href="https://github.com/baldwinmatt/markview">markview</a></span>
<span class="markview-footer-meta">
<span class="markview-modified">Doc modified <time data-markview-modified-at"#;

/// The footer after the attributes of the modification time.
pub const FOOTER_CLOSE: &'static str = r#"></time></span>
<span class="markview-refreshed">Last refreshed <time data-markview-refreshed-at></time></span>
</span>
</footer>"#;

/// `s` with the first occurrence of `from` replaced by `to`
/// (`str::replacen(from, to, 1)`).
pub open spec fn replace_first(s: Seq<char>, from: Seq<char>, to: Seq<char>) -> Seq<char>
    decreases s.len(),
{
    if from.len() == 0 || s.len() < from.len() {
        s
    } else if s.take(from.len() as int) == from {
        to + s.skip(from.len() as int)
    } else {
        seq![s[0]] + replace_first(s.drop_first(), from, to)
    }
}

/// Replaces the first occurrence of `from` in `s` by `to`.
fn replace_once(s: &[char], from: &[char], to: &[char]) -> (r: Vec<char>)
    requires
        from@.len() > 0,
    ensures
        r@ == replace_first(s@, from@, to@),
{
    let mut out: Vec<char> = Vec::new();
    let mut i: usize = 0;
    assert(s@.skip(0) =~= s@);
    while i < s.len() && s.len() - i >= from.len()
        invariant
            i <= s@.len(),
            from@.len() > 0,
            replace_first(s@, from@, to@) == out@ + replace_first(s@.skip(i as int), from@, to@),
        decreases s@.len() - i,
    {
        let ghost rest = s@.skip(i as int);
        if matches_at(s, i, from) {
            assert(rest.take(from@.len() as int) =~= s@.subrange(i as int, i + from@.len()));
            push_all(&mut out, to);
            let mut j = i + from.len();
            while j < s.len()
                invariant
                    i + from@.len() <= j <= s@.len(),
                    out@ == replace_first(s@, from@, to@).take(
                        out@.len() as int,
                    ),
                    replace_first(s@, from@, to@) == out@ + s@.skip(j as int),
                decreases s@.len() - j,
            {
                let ghost before = out@;
                out.push(s[j]);
                assert(s@.skip(j as int) =~= seq![s@[j as int]] + s@.skip(j + 1));
                assert(before + s@.skip(j as int) =~= out@ + s@.skip(j + 1));
                j = j + 1;
            }
            assert(out@ + s@.skip(j as int) =~= out@);
            return out;
        }
        assert(rest.take(from@.len() as int) =~= s@.subrange(i as int, i + from@.len()));
        let ghost before = out@;
        out.push(s[i]);
        assert(rest.drop_first() =~= s@.skip(i + 1));
        assert(before + (seq![s@[i as int]] + replace_first(s@.skip(i + 1), from@, to@)) =~= out@
            + replace_first(s@.skip(i + 1), from@, to@));
        i = i + 1;
    }
    proof {
        let rest = s@.skip(i as int);
        assert(replace_first(rest, from@, to@) == rest);
    }
    let mut k = i;
    while k < s.len()
        invariant
            i <= k <= s@.len(),
            replace_first(s@, from@, to@) == out@ + s@.skip(k as int),
        decreases s@.len() - k,
    {
        let ghost before = out@;
        out.push(s[k]);
        assert(s@.skip(k as int) =~= seq![s@[k as int]] + s@.skip(k + 1));
        assert(before + s@.skip(k as int) =~= out@ + s@.skip(k + 1));
        k = k + 1;
    }
    assert(out@ + s@.skip(k as int) =~= out@);
    out
}

/// The footer of a served page; `modified` is the time the document was
/// modified, in milliseconds since the Unix epoch, when it is known.
pub open spec fn footer_html(modified: Option<nat>) -> Seq<char> {
    FOOTER_OPEN@ + match modified {
        Some(m) => " data-timestamp-ms=\""@ + decimal(m) + "\""@,
        None => Seq::empty(),
    } + FOOTER_CLOSE@
}

/// A rendered page in the server's shell: the shell's styles after the
/// page's, the navigation before the main part (beside it, in a grid, for
/// a sidebar), and the footer and reload script before the end of the body.
pub open spec fn shell_html(
    html: Seq<char>,
    nav: Seq<char>,
    layout: NavLayout,
    modified: Option<nat>,
) -> Seq<char> {
    let styled = replace_all(html, "</style>"@, "</style>\n"@ + SHELL_STYLE@);
    let placed = match layout {
        NavLayout::Sidebar => replace_first(
            replace_first(styled, "<main>"@, "<div class=\"markview-shell\">"@ + nav + "<main>"@),
            "</main>"@,
            "</main></div>"@,
        ),
        _ => replace_first(styled, "<main>"@, nav + "\n<main>"@),
    };
    replace_all(placed, "</body>"@, footer_html(modified) + "\n"@ + SHELL_SCRIPT@ + "\n</body>"@)
}

fn literal(s: &str) -> (v: Vec<char>)
    ensures
        v@ == s@,
{
    chars_of(s)
}

/// Wraps a rendered page in the server's shell; see `shell_html`.
pub fn inject_serve_shell(html: &str, nav: &str, layout: NavLayout, modified_at: Option<u128>) -> (page: String)
    ensures
        page@ == shell_html(
            html@,
            nav@,
            layout,
            match modified_at {
                Some(m) => Some(m as nat),
                None => None,
            },
        ),
{
    let mut style_to = literal("</style>\n");
    push_str(&mut style_to, SHELL_STYLE);
    let style_from = literal("</style>");
    proof {
        reveal_strlit("</style>");
    }
    let styled = replace_chars(chars_of(html).as_slice(), style_from.as_slice(), style_to.as_slice());
    let main_open = literal("<main>");
    proof {
        reveal_strlit("<main>");
    }
    let placed = match layout {
        NavLayout::Sidebar => {
            let mut to = literal("<div class=\"markview-shell\">");
            push_str(&mut to, nav);
            push_str(&mut to, "<main>");
            let first = replace_once(styled.as_slice(), main_open.as_slice(), to.as_slice());
            let main_close = literal("</main>");
            proof {
                reveal_strlit("</main>");
            }
            replace_once(first.as_slice(), main_close.as_slice(), literal("</main></div>").as_slice())
        },
        _ => {
            let mut to = literal(nav);
            push_str(&mut to, "\n<main>");
            replace_once(styled.as_slice(), main_open.as_slice(), to.as_slice())
        },
    };
    let mut footer = literal(FOOTER_OPEN);
    match modified_at {
        Some(m) => {
            push_str(&mut footer, " data-timestamp-ms=\"");
            push_all(&mut footer, decimal_chars(m).as_slice());
            push_str(&mut footer, "\"");
        },
        None => {},
    }
    push_str(&mut footer, FOOTER_CLOSE);
    push_str(&mut footer, "\n");
    push_str(&mut footer, SHELL_SCRIPT);
    push_str(&mut footer, "\n</body>");
    assert(footer@ =~= footer_html(
        match modified_at {
            Some(m) => Some(m as nat),
            None => None,
        },
    ) + "\n"@ + SHELL_SCRIPT@ + "\n</body>"@);
    let body_close = literal("</body>");
    proof {
        reveal_strlit("</body>");
    }
    let page = replace_chars(placed.as_slice(), body_close.as_slice(), footer.as_slice());
    string_from_chars(page.as_slice())
}

} // verus!
