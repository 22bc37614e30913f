//! A Markdown viewer core: terminal and HTML rendering, command-line parsing,
//! and the decisions of the local preview server (which files it serves,
//! under which routes, how it answers a request, how it points a document's
//! links at its routes, and the page shell around a document) and of the
//! desktop shell.
pub mod cli;
pub mod document;
pub mod gui;
pub mod laws;
pub mod links;
pub mod markdown;
pub mod paths;
pub mod routing;
pub mod sanitize;
pub mod serve;
pub mod shell;
pub mod terminal;
pub mod text;
pub mod webview;

pub use cli::{help, Cli, CliError, OutputFormat};
pub use document::{
    escape_html, export_html, render, render_html, served_html, FrontendRenderer, HtmlRenderer, MarkdownDocument,
    TerminalRenderer,
};
pub use terminal::{render_events, RenderOptions};
