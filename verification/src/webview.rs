//! The page that the desktop shell shows in its web view: the toolbar,
//! the tabs, the table of contents, the document pane and the script that
//! keeps them in step with the shell's state.
use vstd::prelude::*;

use crate::gui::{view_js, view_script, AppView};
use crate::text::{push_str, string_from_chars};

verus! {

/// The page up to the script object that holds the shell's state.
pub const APP_SHELL_HEAD: &'static str = r#"<!doctype html>
<html lang="en">
<head>
<meta charset="utf-8">
<meta name="viewport" content="width=device-width, initial-scale=1">
<title>markview</title>
<style>
:root {
  color-scheme: light dark;
  --chrome: #ece8e1;
  --chrome-strong: #ded8cf;
  --bg: #f8f7f4;
  --fg: #242220;
  --muted: #6c665f;
  --rule: #d8d2ca;
  --accent: #0f766e;
  --code-bg: #ebe6de;
  --quote-bg: #f1ede7;
}
@media (prefers-color-scheme: dark) {
  :root {
    --chrome: #211f1c;
    --chrome-strong: #302c27;
    --bg: #181715;
    --fg: #eeeae4;
    --muted: #aaa39a;
    --rule: #39342f;
    --accent: #5eead4;
    --code-bg: #25221f;
    --quote-bg: #211f1c;
  }
}
:root[data-theme="light"] {
  color-scheme: light;
  --chrome: #ece8e1;
  --chrome-strong: #ded8cf;
  --bg: #f8f7f4;
  --fg: #242220;
  --muted: #6c665f;
  --rule: #d8d2ca;
  --accent: #0f766e;
  --code-bg: #ebe6de;
  --quote-bg: #f1ede7;
}
:root[data-theme="dark"] {
  color-scheme: dark;
  --chrome: #211f1c;
  --chrome-strong: #302c27;
  --bg: #181715;
  --fg: #eeeae4;
  --muted: #aaa39a;
  --rule: #39342f;
  --accent: #5eead4;
  --code-bg: #25221f;
  --quote-bg: #211f1c;
}
* { box-sizing: border-box; }
html {
  height: 100%;
  overflow: hidden;
}
body {
  margin: 0;
  height: 100%;
  overflow: hidden;
  background: var(--bg);
  color: var(--fg);
  font: 16px/1.65 -apple-system, BlinkMacSystemFont, "Segoe UI", sans-serif;
  display: grid;
  grid-template-rows: 46px 38px minmax(0, 1fr);
}
.toolbar {
  height: 46px;
  display: flex;
  align-items: center;
  gap: 8px;
  padding: 0 12px;
  background: var(--chrome);
  border-bottom: 1px solid var(--rule);
  min-width: 0;
}
.tool-button {
  appearance: none;
  border: 1px solid var(--rule);
  background: var(--bg);
  color: var(--fg);
  min-width: 34px;
  height: 30px;
  border-radius: 7px;
  display: inline-flex;
  align-items: center;
  justify-content: center;
  cursor: default;
  position: relative;
}
.tool-button:hover { border-color: var(--accent); }
.tool-button[data-tooltip]:hover::after,
.tool-button[data-tooltip]:focus-visible::after {
  content: attr(data-tooltip);
  position: absolute;
  top: calc(100% + 7px);
  left: 50%;
  transform: translateX(-50%);
  z-index: 20;
  white-space: nowrap;
  max-width: 220px;
  overflow: hidden;
  text-overflow: ellipsis;
  padding: 4px 7px;
  border-radius: 5px;
  background: var(--fg);
  color: var(--bg);
  font-size: 0.75rem;
  line-height: 1.2;
  pointer-events: none;
  box-shadow: 0 2px 8px rgba(0, 0, 0, 0.18);
}
.tool-button[data-tooltip]:hover::before,
.tool-button[data-tooltip]:focus-visible::before {
  content: "";
  position: absolute;
  top: calc(100% + 2px);
  left: 50%;
  transform: translateX(-50%);
  z-index: 21;
  border: 5px solid transparent;
  border-bottom-color: var(--fg);
  pointer-events: none;
}
.tool-button.active {
  border-color: var(--accent);
  color: var(--accent);
}
.tool-button svg { width: 17px; height: 17px; }
.recent-select {
  appearance: none;
  height: 30px;
  max-width: 180px;
  border: 1px solid var(--rule);
  border-radius: 7px;
  background: var(--bg);
  color: var(--fg);
  padding: 0 26px 0 9px;
  font: inherit;
  font-size: 0.86rem;
}
.recent-select:disabled {
  color: var(--muted);
}
.tabs {
  height: 38px;
  display: flex;
  align-items: end;
  gap: 1px;
  padding: 0 8px;
  background: var(--chrome-strong);
  border-bottom: 1px solid var(--rule);
  overflow-x: auto;
  min-width: 0;
  scrollbar-width: thin;
}
.tab {
  appearance: none;
  border: 1px solid var(--rule);
  border-bottom: 0;
  background: var(--chrome);
  color: var(--muted);
  height: 31px;
  width: 190px;
  padding: 0 8px 0 13px;
  border-radius: 7px 7px 0 0;
  display: inline-flex;
  align-items: center;
  gap: 8px;
  flex: 0 0 190px;
  min-width: 0;
}
.tab.active {
  background: var(--bg);
  color: var(--fg);
  border-color: var(--accent);
}
.tab.stale .tab-title::after {
  content: " modified";
  color: var(--accent);
  font-size: 0.78rem;
  margin-left: 6px;
}
.tab.dirty .tab-title::before {
  content: "\25CF ";
  color: var(--accent);
  font-size: 0.7rem;
}
.tab-title {
  min-width: 0;
  overflow: hidden;
  text-overflow: ellipsis;
  white-space: nowrap;
}
.tab-close {
  appearance: none;
  border: 0;
  background: transparent;
  color: var(--muted);
  width: 18px;
  height: 18px;
  border-radius: 50%;
  display: inline-flex;
  align-items: center;
  justify-content: center;
  padding: 0;
  flex: 0 0 auto;
}
.tab-close:hover {
  background: var(--chrome-strong);
  color: var(--fg);
}
.tab-close svg { width: 12px; height: 12px; }
.tab-count {
  color: var(--muted);
  font-size: 0.78rem;
  padding: 0 8px 8px;
  white-space: nowrap;
  flex: 0 0 auto;
}
.context-menu {
  position: fixed;
  z-index: 50;
  min-width: 180px;
  background: var(--bg);
  border: 1px solid var(--rule);
  border-radius: 8px;
  padding: 4px;
  box-shadow: 0 8px 24px rgba(0, 0, 0, 0.22);
}
.context-menu.hidden {
  display: none;
}
.context-menu-item {
  appearance: none;
  border: 0;
  background: transparent;
  color: var(--fg);
  width: 100%;
  min-height: 30px;
  border-radius: 5px;
  padding: 0 10px;
  text-align: left;
  font: inherit;
  font-size: 0.88rem;
}
.context-menu-item:hover:not(:disabled) {
  background: var(--chrome-strong);
}
.context-menu-item:disabled {
  color: var(--muted);
}
.context-menu-separator {
  height: 1px;
  margin: 4px 6px;
  background: var(--rule);
}
.findbar {
  display: inline-flex;
  align-items: center;
  gap: 6px;
  margin-left: auto;
  min-width: 0;
}
.find-input {
  appearance: none;
  width: 220px;
  height: 30px;
  border: 1px solid var(--rule);
  border-radius: 7px;
  background: var(--bg);
  color: var(--fg);
  padding: 0 9px;
  font: inherit;
  font-size: 0.88rem;
}
.find-count {
  min-width: 54px;
  color: var(--muted);
  font-size: 0.82rem;
  text-align: right;
}
.scroll-root {
  min-height: 0;
  overflow: auto;
}
.content-shell {
  display: grid;
  grid-template-columns: minmax(170px, 250px) minmax(0, 1fr);
  gap: 28px;
  width: min(1120px, calc(100vw - 48px));
  margin: 0 auto;
  padding: 0 0 64px;
}
.toc {
  position: sticky;
  top: 0;
  align-self: start;
  max-height: calc(100vh - 86px);
  overflow: auto;
  padding: 38px 0 0;
}
.toc.hidden {
  display: none;
}
.content-shell.sidebar-hidden {
  grid-template-columns: minmax(0, 1fr);
  width: min(860px, calc(100vw - 48px));
}
.toc-list {
  display: flex;
  flex-direction: column;
  gap: 2px;
}
.toc-link {
  appearance: none;
  border: 0;
  background: transparent;
  color: var(--muted);
  width: 100%;
  min-height: 28px;
  border-radius: 6px;
  padding: 4px 8px;
  text-align: left;
  font: inherit;
  font-size: 0.88rem;
  line-height: 1.3;
  overflow: hidden;
  text-overflow: ellipsis;
  white-space: nowrap;
}
.toc-link:hover {
  background: var(--chrome);
  color: var(--fg);
}
.toc-empty {
  color: var(--muted);
  font-size: 0.86rem;
  padding: 4px 8px;
}
main {
  padding: 40px 0 64px;
  min-width: 0;
}
.editor {
  appearance: none;
  display: block;
  width: 100%;
  min-height: calc(100vh - 190px);
  resize: vertical;
  border: 1px solid var(--rule);
  border-radius: 8px;
  background: var(--code-bg);
  color: var(--fg);
  padding: 16px;
  font-family: ui-monospace, SFMono-Regular, Menlo, Consolas, monospace;
  font-size: 0.92rem;
  line-height: 1.6;
  tab-size: 2;
}
.editor:focus {
  outline: none;
  border-color: var(--accent);
}
mark.find-hit {
  background: #facc15;
  color: #1f2937;
  border-radius: 3px;
  padding: 0 1px;
}
mark.find-hit.active {
  background: #fb923c;
}
h1, h2, h3, h4, h5, h6 {
  line-height: 1.2;
  letter-spacing: 0;
  margin: 1.7em 0 0.55em;
}
h1 { font-size: 2.35rem; margin-top: 0; }
h2 { font-size: 1.7rem; padding-bottom: 0.25rem; border-bottom: 1px solid var(--rule); }
h3 { font-size: 1.28rem; }
p, ul, ol, blockquote, pre, table { margin: 0 0 1.05rem; }
a { color: var(--accent); text-underline-offset: 0.18em; }
blockquote {
  border-left: 4px solid var(--accent);
  background: var(--quote-bg);
  margin-left: 0;
  padding: 0.75rem 1rem;
  color: var(--muted);
}
code {
  font-family: ui-monospace, SFMono-Regular, Menlo, Consolas, monospace;
  font-size: 0.92em;
  background: var(--code-bg);
  border-radius: 5px;
  padding: 0.12em 0.35em;
}
pre {
  overflow: auto;
  background: var(--code-bg);
  border: 1px solid var(--rule);
  border-radius: 8px;
  padding: 1rem;
}
pre code { background: transparent; padding: 0; }
.syntax-keyword { color: var(--accent); font-weight: 700; }
.syntax-comment { color: var(--muted); font-style: italic; }
table {
  width: 100%;
  border-collapse: collapse;
  display: block;
  overflow-x: auto;
}
th, td {
  border: 1px solid var(--rule);
  padding: 0.45rem 0.65rem;
  text-align: left;
}
th { background: var(--code-bg); }
img { max-width: 100%; height: auto; }
hr { border: 0; border-top: 1px solid var(--rule); margin: 2rem 0; }
.empty-state {
  color: var(--muted);
  min-height: calc(100vh - 210px);
  display: flex;
  flex-direction: column;
  justify-content: center;
  align-items: flex-start;
  gap: 14px;
  padding: 42px 0;
}
.empty-eyebrow {
  color: var(--accent);
  font-size: 0.78rem;
  font-weight: 700;
  letter-spacing: 0;
  text-transform: uppercase;
}
.empty-state h1 {
  color: var(--fg);
  font-size: 2rem;
  margin: 0;
}
.empty-state p {
  max-width: 520px;
  margin: 0;
}
.empty-actions {
  display: flex;
  flex-wrap: wrap;
  align-items: center;
  gap: 12px;
  padding-top: 8px;
}
.empty-action {
  appearance: none;
  border: 1px solid var(--rule);
  background: var(--bg);
  color: var(--fg);
  min-height: 34px;
  border-radius: 7px;
  padding: 0 12px;
  font: inherit;
  font-size: 0.92rem;
}
.empty-action.primary {
  border-color: var(--accent);
  color: var(--accent);
}
.empty-hint {
  color: var(--muted);
  font-size: 0.86rem;
}
@media (max-width: 760px) {
  .find-input { width: 150px; }
  .content-shell {
    display: block;
    width: min(860px, calc(100vw - 32px));
  }
  .toc {
    position: static;
    max-height: none;
    padding-top: 18px;
  }
  .empty-state { min-height: auto; }
  main { padding-top: 24px; }
}
@media print {
  @page {
    margin: 0.65in;
  }
  html, body {
    height: auto;
    overflow: visible;
    display: block;
    background: #fff;
    color: #000;
    font-size: 11pt;
  }
  .toolbar, .tabs, .toc {
    display: none;
  }
  .scroll-root {
    overflow: visible;
  }
  .content-shell {
    display: block;
    width: auto;
    margin: 0;
    padding: 0;
  }
  main {
    padding: 0;
  }
  h1, h2, h3, h4, h5, h6 {
    color: #000;
    break-after: avoid;
  }
  a {
    color: #000;
  }
  a[href^="http"]::after {
    content: " (" attr(href) ")";
    font-size: 0.86em;
    overflow-wrap: anywhere;
  }
  pre, blockquote, table {
    break-inside: avoid;
  }
  pre, code, blockquote, th {
    background: #f5f5f5;
    color: #000;
  }
  .syntax-keyword, .syntax-comment {
    color: #000;
    font-weight: 700;
    font-style: normal;
  }
  input[type="checkbox"] {
    filter: grayscale(1);
  }
}
</style>
</head>
<body>
<header class="toolbar">
  <button class="tool-button" title="Open Markdown file" data-tooltip="Open Markdown file" aria-label="Open Markdown file" onclick="window.ipc.postMessage('open')">
    <svg viewBox="0 0 24 24" fill="none" stroke="currentColor" stroke-width="2">
      <path d="M3 7h5l2 2h11v9a2 2 0 0 1-2 2H5a2 2 0 0 1-2-2Z"></path>
      <path d="M3 7v11"></path>
    </svg>
  </button>
  <button class="tool-button" title="Refresh active document" data-tooltip="Refresh active document" aria-label="Refresh active document" onclick="window.ipc.postMessage('refresh')">
    <svg viewBox="0 0 24 24" fill="none" stroke="currentColor" stroke-width="2">
      <path d="M21 12a9 9 0 0 1-15.5 6.2"></path>
      <path d="M3 12A9 9 0 0 1 18.5 5.8"></path>
      <path d="M18 2v5h-5"></path>
      <path d="M6 22v-5h5"></path>
    </svg>
  </button>
  <button class="tool-button" title="Toggle edit mode" data-tooltip="Toggle edit mode" aria-label="Toggle edit mode" id="edit-toggle" onclick="window.ipc.postMessage('toggle-edit')">
    <svg viewBox="0 0 24 24" fill="none" stroke="currentColor" stroke-width="2">
      <path d="M17 3a2.85 2.83 0 1 1 4 4L7.5 20.5 2 22l1.5-5.5Z"></path>
    </svg>
  </button>
  <button class="tool-button" title="Save active document" data-tooltip="Save active document" aria-label="Save active document" onclick="window.ipc.postMessage('save')">
    <svg viewBox="0 0 24 24" fill="none" stroke="currentColor" stroke-width="2">
      <path d="M19 21H5a2 2 0 0 1-2-2V5a2 2 0 0 1 2-2h11l5 5v11a2 2 0 0 1-2 2Z"></path>
      <path d="M17 21v-8H7v8"></path>
      <path d="M7 3v5h8"></path>
    </svg>
  </button>
  <button class="tool-button" title="Print document" data-tooltip="Print document" aria-label="Print document" onclick="window.ipc.postMessage('print')">
    <svg viewBox="0 0 24 24" fill="none" stroke="currentColor" stroke-width="2">
      <path d="M6 9V2h12v7"></path>
      <path d="M6 18H4a2 2 0 0 1-2-2v-5a2 2 0 0 1 2-2h16a2 2 0 0 1 2 2v5a2 2 0 0 1-2 2h-2"></path>
      <path d="M6 14h12v8H6z"></path>
    </svg>
  </button>
  <button class="tool-button" title="Export as HTML" data-tooltip="Export as HTML" aria-label="Export as HTML" onclick="window.ipc.postMessage('export-html')">
    <svg viewBox="0 0 24 24" fill="none" stroke="currentColor" stroke-width="2">
      <path d="M21 15v4a2 2 0 0 1-2 2H5a2 2 0 0 1-2-2v-4"></path>
      <polyline points="7 10 12 15 17 10"></polyline>
      <line x1="12" y1="15" x2="12" y2="3"></line>
    </svg>
  </button>
  <button class="tool-button" title="Toggle table of contents" data-tooltip="Toggle table of contents" aria-label="Toggle table of contents" id="sidebar-toggle" onclick="window.ipc.postMessage('toggle-sidebar')">
    <svg viewBox="0 0 24 24" fill="none" stroke="currentColor" stroke-width="2">
      <rect x="3" y="4" width="18" height="16" rx="2"></rect>
      <path d="M9 4v16"></path>
    </svg>
  </button>
  <button class="tool-button" title="Auto-refresh on file changes" data-tooltip="Auto-refresh on file changes" aria-label="Auto-refresh on file changes" id="auto-refresh-toggle" onclick="window.ipc.postMessage('toggle-auto-refresh')">
    <svg viewBox="0 0 24 24" fill="none" stroke="currentColor" stroke-width="2">
      <circle cx="12" cy="12" r="8"></circle>
      <path d="M12 7v5l3 2"></path>
      <path d="M19 5v5h-5"></path>
      <path d="M5 19v-5h5"></path>
    </svg>
  </button>
  <button class="tool-button" title="Cycle theme" data-tooltip="Cycle theme" aria-label="Cycle theme" id="theme-toggle" onclick="window.ipc.postMessage('cycle-theme')">
    <svg viewBox="0 0 24 24" fill="none" stroke="currentColor" stroke-width="2">
      <path d="M12 3a9 9 0 1 0 9 9 7 7 0 0 1-9-9Z"></path>
    </svg>
  </button>
  <select class="recent-select" id="recent-files" aria-label="Recent files">
    <option value="">Recent</option>
  </select>
  <div class="findbar">
    <input class="find-input" id="find-input" placeholder="Find" aria-label="Find in document">
    <button class="tool-button" title="Previous match" data-tooltip="Previous match" aria-label="Previous match" id="find-prev">
      <svg viewBox="0 0 24 24" fill="none" stroke="currentColor" stroke-width="2">
        <path d="m18 15-6-6-6 6"></path>
      </svg>
    </button>
    <button class="tool-button" title="Next match" data-tooltip="Next match" aria-label="Next match" id="find-next">
      <svg viewBox="0 0 24 24" fill="none" stroke="currentColor" stroke-width="2">
        <path d="m6 9 6 6 6-6"></path>
      </svg>
    </button>
    <span class="find-count" id="find-count"></span>
  </div>
</header>
<nav class="tabs" id="tabs"></nav>
<div class="context-menu hidden" id="tab-context-menu" role="menu"></div>
<div class="scroll-root" id="scroll-root">
  <div class="content-shell">
    <aside class="toc" id="toc"></aside>
    <main id="document"></main>
  </div>
</div>
<script>
function setTip(el, tip) {
  el.title = tip;
  el.dataset.tooltip = tip;
  el.setAttribute('aria-label', tip);
}
window.markview = {
  state: "#;

/// The page after the script object that holds the shell's state.
pub const APP_SHELL_TAIL: &'static str = r#",
  scrollPositions: new Map(),
  findQuery: '',
  findIndex: -1,
  findHits: [],
  setState(next) {
    const scroller = document.getElementById('scroll-root');
    const previousId = this.state ? this.state.activeTabId : null;
    if (previousId !== null) {
      this.scrollPositions.set(previousId, scroller.scrollTop);
    }
    this.state = next;
    const tabs = document.getElementById('tabs');
    const pane = document.getElementById('document');
    const toc = document.getElementById('toc');
    const shell = document.querySelector('.content-shell');
    const recent = document.getElementById('recent-files');
    document.documentElement.dataset.theme = next.preferences.theme === 'system' ? '' : next.preferences.theme;
    const sidebarToggle = document.getElementById('sidebar-toggle');
    sidebarToggle.classList.toggle('active', next.preferences.sidebarVisible);
    setTip(sidebarToggle, next.preferences.sidebarVisible ? 'Hide table of contents' : 'Show table of contents');

    const autoRefreshToggle = document.getElementById('auto-refresh-toggle');
    autoRefreshToggle.classList.toggle('active', next.preferences.autoRefresh);
    setTip(autoRefreshToggle, next.preferences.autoRefresh ? 'Disable auto-refresh on file changes' : 'Enable auto-refresh on file changes');

    const themeToggle = document.getElementById('theme-toggle');
    setTip(themeToggle, `Theme: ${next.preferences.theme}`);

    const activeTabView = next.tabs.find(tab => tab.id === next.activeTabId) || null;
    const isEditingActive = Boolean(activeTabView && activeTabView.editing);
    const editToggle = document.getElementById('edit-toggle');
    editToggle.classList.toggle('active', Boolean(activeTabView && activeTabView.editing));
    editToggle.disabled = !activeTabView;
    setTip(editToggle, activeTabView && activeTabView.editing ? 'Preview document' : 'Edit document');

    recent.replaceChildren();
    const placeholder = document.createElement('option');
    placeholder.value = '';
    placeholder.textContent = 'Recent';
    recent.appendChild(placeholder);
    for (const path of next.preferences.recentFiles) {
      const option = document.createElement('option');
      option.value = path;
      option.textContent = fileName(path);
      option.title = path;
      recent.appendChild(option);
    }
    recent.disabled = next.preferences.recentFiles.length === 0;
    tabs.replaceChildren();
    for (const tab of next.tabs) {
      const button = document.createElement('button');
      button.className = 'tab' + (tab.id === next.activeTabId ? ' active' : '') + (tab.stale ? ' stale' : '') + (tab.dirty ? ' dirty' : '');
      button.dataset.tabId = String(tab.id);
      button.title = tab.path || tab.title;
      button.onclick = () => window.ipc.postMessage(`select:${tab.id}`);
      button.oncontextmenu = (event) => {
        event.preventDefault();
        window.markview.showTabContextMenu(tab.id, event.clientX, event.clientY);
      };
      const label = document.createElement('span');
      label.className = 'tab-title';
      label.textContent = tab.title;
      const close = document.createElement('button');
      close.className = 'tab-close';
      close.title = `Close ${tab.title}`;
      close.setAttribute('aria-label', `Close ${tab.title}`);
      close.innerHTML = '<svg viewBox="0 0 24 24" fill="none" stroke="currentColor" stroke-width="2.4"><path d="M18 6 6 18"></path><path d="m6 6 12 12"></path></svg>';
      close.onclick = (event) => {
        event.stopPropagation();
        window.ipc.postMessage(`close:${tab.id}`);
      };
      button.append(label, close);
      tabs.appendChild(button);
    }
    if (next.tabs.length > 0) {
      const count = document.createElement('span');
      count.className = 'tab-count';
      count.textContent = `${next.tabs.length} open`;
      tabs.appendChild(count);
    }
    const existingEditor = pane.querySelector('textarea.editor');
    if (isEditingActive) {
      shell.classList.add('sidebar-hidden');
      toc.classList.add('hidden');
      if (!existingEditor || existingEditor.dataset.tabId !== String(next.activeTabId)) {
        pane.innerHTML = '';
        const textarea = document.createElement('textarea');
        textarea.className = 'editor';
        textarea.dataset.tabId = String(next.activeTabId);
        textarea.value = next.activeSource;
        textarea.spellcheck = false;
        textarea.placeholder = 'Start writing Markdown...';
        textarea.addEventListener('input', () => {
          window.ipc.postMessage(`edit:${next.activeTabId}:${textarea.value}`);
        });
        pane.appendChild(textarea);
        textarea.focus();
      }
    } else {
      pane.innerHTML = next.activeHtml;
      for (const action of pane.querySelectorAll('[data-action="open"]')) {
        action.addEventListener('click', () => window.ipc.postMessage('open'));
      }
      const renderedHeadings = pane.querySelectorAll('h1,h2,h3,h4,h5,h6');
      next.headings.forEach((heading, index) => {
        if (renderedHeadings[index]) {
          renderedHeadings[index].id = heading.id;
        }
      });
      toc.replaceChildren();
      toc.classList.toggle('hidden', !next.preferences.sidebarVisible);
      shell.classList.toggle('sidebar-hidden', !next.preferences.sidebarVisible);
      if (next.headings.length === 0) {
        const empty = document.createElement('div');
        empty.className = 'toc-empty';
        empty.textContent = 'No headings';
        toc.appendChild(empty);
      } else {
        const list = document.createElement('div');
        list.className = 'toc-list';
        for (const heading of next.headings) {
          const item = document.createElement('button');
          item.className = 'toc-link';
          item.style.paddingLeft = `${8 + Math.max(0, heading.level - 1) * 12}px`;
          item.textContent = heading.title;
          item.title = heading.title;
          item.onclick = () => {
            const target = document.getElementById(heading.id);
            if (target) {
              scrollInside(target, 'start');
              history.replaceState(null, '', `#${heading.id}`);
            }
          };
          list.appendChild(item);
        }
        toc.appendChild(list);
      }
    }
    this.applyFind();
    const restoreY = this.scrollPositions.get(next.activeTabId) || 0;
    requestAnimationFrame(() => {
      scroller.scrollTop = restoreY;
      const activeTab = tabs.querySelector('.tab.active');
      if (activeTab) {
        activeTab.scrollIntoView({ block: 'nearest', inline: 'nearest' });
      }
    });
  },
  applyFind() {
    const pane = document.getElementById('document');
    const count = document.getElementById('find-count');
    unwrapFindMarks(pane);
    this.findHits = [];
    this.findIndex = -1;
    const query = this.findQuery.trim();
    if (query.length === 0) {
      count.textContent = '';
      return;
    }
    this.findHits = highlightText(pane, query);
    if (this.findHits.length > 0) {
      this.findIndex = 0;
      this.activateFindHit(0);
    }
    count.textContent = this.findHits.length === 0 ? '0/0' : `1/${this.findHits.length}`;
  },
  activateFindHit(index) {
    if (this.findHits.length === 0) {
      document.getElementById('find-count').textContent = '0/0';
      return;
    }
    this.findHits.forEach(hit => hit.classList.remove('active'));
    this.findIndex = (index + this.findHits.length) % this.findHits.length;
    const hit = this.findHits[this.findIndex];
    hit.classList.add('active');
    scrollInside(hit, 'center');
    document.getElementById('find-count').textContent = `${this.findIndex + 1}/${this.findHits.length}`;
  },
  findNext() {
    this.activateFindHit(this.findIndex + 1);
  },
  findPrevious() {
    this.activateFindHit(this.findIndex - 1);
  },
  showTabContextMenu(id, x, y) {
    const tabs = this.state.tabs;
    const index = tabs.findIndex(tab => tab.id === id);
    if (index === -1) return;
    const tab = tabs[index];
    const menu = document.getElementById('tab-context-menu');
    menu.replaceChildren();
    const addItem = (label, message, disabled) => {
      const item = document.createElement('button');
      item.className = 'context-menu-item';
      item.setAttribute('role', 'menuitem');
      item.textContent = label;
      item.disabled = Boolean(disabled);
      if (!disabled) {
        item.onclick = () => {
          window.ipc.postMessage(message);
          this.hideTabContextMenu();
        };
      }
      menu.appendChild(item);
    };
    const addSeparator = () => {
      const separator = document.createElement('div');
      separator.className = 'context-menu-separator';
      menu.appendChild(separator);
    };
    addItem('Close', `close:${id}`);
    addItem('Close Others', `close-others:${id}`, tabs.length < 2);
    addItem('Close to the Left', `close-left:${id}`, index === 0);
    addItem('Close to the Right', `close-right:${id}`, index === tabs.length - 1);
    addSeparator();
    addItem('Reload', `reload-tab:${id}`, !tab.path);
    addItem('Export as HTML...', `export-tab-html:${id}`);
    menu.classList.remove('hidden');
    const rect = menu.getBoundingClientRect();
    const maxX = window.innerWidth - rect.width - 8;
    const maxY = window.innerHeight - rect.height - 8;
    menu.style.left = `${Math.max(8, Math.min(x, maxX))}px`;
    menu.style.top = `${Math.max(8, Math.min(y, maxY))}px`;
  },
  hideTabContextMenu() {
    document.getElementById('tab-context-menu').classList.add('hidden');
  }
};
function unwrapFindMarks(root) {
  for (const mark of [...root.querySelectorAll('mark.find-hit')]) {
    mark.replaceWith(document.createTextNode(mark.textContent));
  }
  root.normalize();
}
function scrollInside(target, block) {
  const scroller = document.getElementById('scroll-root');
  const targetRect = target.getBoundingClientRect();
  const scrollerRect = scroller.getBoundingClientRect();
  const offset = targetRect.top - scrollerRect.top + scroller.scrollTop;
  const centered = offset - (scroller.clientHeight / 2) + (targetRect.height / 2);
  scroller.scrollTo({
    top: block === 'center' ? centered : offset,
    behavior: 'smooth'
  });
}
function highlightText(root, query) {
  const hits = [];
  const needle = query.toLocaleLowerCase();
  const walker = document.createTreeWalker(root, NodeFilter.SHOW_TEXT, {
    acceptNode(node) {
      if (!node.nodeValue || !node.nodeValue.toLocaleLowerCase().includes(needle)) {
        return NodeFilter.FILTER_REJECT;
      }
      const parent = node.parentElement;
      if (!parent || parent.closest('script,style,mark')) {
        return NodeFilter.FILTER_REJECT;
      }
      return NodeFilter.FILTER_ACCEPT;
    }
  });
  const nodes = [];
  while (walker.nextNode()) nodes.push(walker.currentNode);
  for (const node of nodes) {
    const text = node.nodeValue;
    const lower = text.toLocaleLowerCase();
    const fragment = document.createDocumentFragment();
    let cursor = 0;
    let index = lower.indexOf(needle);
    while (index !== -1) {
      fragment.appendChild(document.createTextNode(text.slice(cursor, index)));
      const mark = document.createElement('mark');
      mark.className = 'find-hit';
      mark.textContent = text.slice(index, index + query.length);
      fragment.appendChild(mark);
      hits.push(mark);
      cursor = index + query.length;
      index = lower.indexOf(needle, cursor);
    }
    fragment.appendChild(document.createTextNode(text.slice(cursor)));
    node.replaceWith(fragment);
  }
  return hits;
}
document.getElementById('find-input').addEventListener('input', event => {
  window.markview.findQuery = event.target.value;
  window.markview.applyFind();
});
document.getElementById('find-input').addEventListener('keydown', event => {
  if (event.key === 'Enter') {
    event.preventDefault();
    event.shiftKey ? window.markview.findPrevious() : window.markview.findNext();
  }
});
document.getElementById('find-next').onclick = () => window.markview.findNext();
document.getElementById('find-prev').onclick = () => window.markview.findPrevious();
document.getElementById('recent-files').addEventListener('change', event => {
  if (event.target.value) {
    window.ipc.postMessage(`recent:${event.target.value}`);
    event.target.value = '';
  }
});
document.addEventListener('click', event => {
  const menu = document.getElementById('tab-context-menu');
  if (!menu.classList.contains('hidden') && !menu.contains(event.target)) {
    window.markview.hideTabContextMenu();
  }
});
document.addEventListener('contextmenu', event => {
  const menu = document.getElementById('tab-context-menu');
  if (!menu.contains(event.target) && !event.target.closest('.tab')) {
    window.markview.hideTabContextMenu();
  }
});
window.addEventListener('resize', () => window.markview.hideTabContextMenu());
window.addEventListener('blur', () => window.markview.hideTabContextMenu());
window.addEventListener('keydown', event => {
  if (event.key === 'Escape') {
    window.markview.hideTabContextMenu();
  } else if ((event.metaKey || event.ctrlKey) && event.key.toLowerCase() === 'f') {
    event.preventDefault();
    document.getElementById('find-input').focus();
  } else if ((event.metaKey || event.ctrlKey) && event.key.toLowerCase() === 'o') {
    event.preventDefault();
    window.ipc.postMessage('open');
  } else if ((event.metaKey || event.ctrlKey) && event.key.toLowerCase() === 'p') {
    event.preventDefault();
    window.ipc.postMessage('print');
  } else if ((event.metaKey || event.ctrlKey) && event.key.toLowerCase() === 'r') {
    event.preventDefault();
    window.ipc.postMessage('refresh');
  } else if ((event.metaKey || event.ctrlKey) && event.key.toLowerCase() === 'q') {
    event.preventDefault();
    window.ipc.postMessage('quit');
  } else if ((event.metaKey || event.ctrlKey) && event.key.toLowerCase() === 'w') {
    if (window.markview.state.activeTabId !== null) {
      event.preventDefault();
      window.ipc.postMessage(`close:${window.markview.state.activeTabId}`);
    }
  } else if ((event.metaKey || event.ctrlKey) && event.shiftKey && event.key.toLowerCase() === 'e') {
    event.preventDefault();
    window.ipc.postMessage('export-html');
  } else if ((event.metaKey || event.ctrlKey) && !event.shiftKey && event.key.toLowerCase() === 'e') {
    event.preventDefault();
    window.ipc.postMessage('toggle-edit');
  } else if ((event.metaKey || event.ctrlKey) && event.key.toLowerCase() === 's') {
    event.preventDefault();
    window.ipc.postMessage('save');
  }
});
function fileName(path) {
  return path.split(/[\\/]/).filter(Boolean).pop() || path;
}
window.markview.setState(window.markview.state);
</script>
</body>
</html>
"#;

/// The page for the shell's state `view`.
pub open spec fn app_shell_page(view: AppView) -> Seq<char> {
    APP_SHELL_HEAD@ + view_script(view) + APP_SHELL_TAIL@
}

/// The page that the web view loads first, holding the shell's state.
pub fn app_shell_html(view: &AppView) -> (page: String)
    ensures
        page@ == app_shell_page(*view),
{
    let mut out: Vec<char> = Vec::new();
    push_str(&mut out, APP_SHELL_HEAD);
    push_str(&mut out, view_js(view).as_str());
    push_str(&mut out, APP_SHELL_TAIL);
    string_from_chars(out.as_slice())
}

} // verus!
