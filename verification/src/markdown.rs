//! The Markdown event stream that the renderers consume, and the calls into
//! `pulldown_cmark` that produce it.
use pulldown_cmark::TagEnd::{
    BlockQuote, CodeBlock, DefinitionList, DefinitionListDefinition, DefinitionListTitle, Emphasis,
    FootnoteDefinition, Heading, HtmlBlock, Image, Item, Link, List, MetadataBlock, Paragraph,
    Strikethrough, Strong, Table, TableCell, TableHead, TableRow,
};
use pulldown_cmark::Event::{
    Code, DisplayMath, End, FootnoteReference, HardBreak, Html, InlineHtml, InlineMath, Rule,
    SoftBreak, Start, TaskListMarker, Text,
};
use pulldown_cmark::{html, CodeBlockKind, Event, Options, Parser, Tag, TagEnd};
use vstd::prelude::*;

verus! {

#[verifier::external_type_specification]
#[verifier::external_body]
pub struct ExEvent<'a>(Event<'a>);

#[verifier::external_type_specification]
#[verifier::external_body]
pub struct ExTag<'a>(Tag<'a>);

#[verifier::external_type_specification]
#[verifier::external_body]
pub struct ExTagEnd(TagEnd);

/// The kind of a Markdown element, shared by its start and its end event.
#[derive(Debug, Clone, PartialEq, Eq)]
pub enum TagKind {
    Paragraph,
    /// A heading, with its level (1 to 6).
    Heading(u8),
    BlockQuote,
    CodeBlock,
    HtmlBlock,
    /// A list; `true` for an ordered list.
    List(bool),
    Item,
    FootnoteDefinition,
    DefinitionList,
    DefinitionListTitle,
    DefinitionListDefinition,
    Table,
    TableHead,
    TableRow,
    TableCell,
    Emphasis,
    Strong,
    Strikethrough,
    Link,
    Image,
    MetadataBlock,
}

/// What a start event carries besides its kind: a fenced code block's
/// language, a list's first number, a footnote's name, a link's
/// destination, or an image's destination and title.
#[derive(Debug, Clone, PartialEq, Eq)]
pub enum TagData {
    Empty,
    Number(Option<u64>),
    Text(String),
    TextPair(String, String),
}

/// One event of a parsed Markdown document.
#[derive(Debug, Clone, PartialEq, Eq)]
pub enum MdEvent {
    Start(TagKind, TagData),
    End(TagKind),
    Text(String),
    Code(String),
    InlineMath(String),
    DisplayMath(String),
    Html(String),
    InlineHtml(String),
    FootnoteReference(String),
    SoftBreak,
    HardBreak,
    Rule,
    TaskListMarker(bool),
}

/// The events that `pulldown_cmark` produces for a document: with tables
/// and strikethrough enabled, or with every extension enabled.
pub uninterp spec fn markdown_events(source: Seq<char>, all_extensions: bool) -> Seq<MdEvent>;

/// The HTML body that `pulldown_cmark::html::push_html` writes for a
/// document, with tables and strikethrough enabled.
pub uninterp spec fn markdown_html(source: Seq<char>) -> Seq<char>;

/// Maps a `pulldown_cmark::TagEnd` to the library's kind, variant for variant.
#[verifier::external_body]
fn kind_from(tag: TagEnd) -> TagKind {
    match tag {
        Paragraph => TagKind::Paragraph, Heading(l) => TagKind::Heading(l as u8),
        BlockQuote(_) => TagKind::BlockQuote, CodeBlock => TagKind::CodeBlock,
        HtmlBlock => TagKind::HtmlBlock, List(o) => TagKind::List(o),
        Item => TagKind::Item, FootnoteDefinition => TagKind::FootnoteDefinition,
        DefinitionList => TagKind::DefinitionList, DefinitionListTitle => TagKind::DefinitionListTitle,
        DefinitionListDefinition => TagKind::DefinitionListDefinition, Table => TagKind::Table,
        TableHead => TagKind::TableHead, TableRow => TagKind::TableRow,
        TableCell => TagKind::TableCell, Emphasis => TagKind::Emphasis,
        Strong => TagKind::Strong, Strikethrough => TagKind::Strikethrough,
        Link => TagKind::Link, Image => TagKind::Image,
        MetadataBlock(_) => TagKind::MetadataBlock,
    }
}

/// Moves the fields that the renderers read out of a `pulldown_cmark::Tag`.
#[verifier::external_body]
fn data_from(tag: Tag<'_>) -> TagData {
    match tag {
        Tag::CodeBlock(CodeBlockKind::Fenced(language)) => TagData::Text(language.into_string()),
        Tag::List(start) => TagData::Number(start),
        Tag::FootnoteDefinition(name) => TagData::Text(name.into_string()),
        Tag::Link { dest_url, .. } => TagData::Text(dest_url.into_string()),
        Tag::Image { dest_url, title, .. } => TagData::TextPair(dest_url.into_string(), title.into_string()),
        _ => TagData::Empty,
    }
}

/// Maps a `pulldown_cmark::Event` to the library's event, variant for variant.
#[verifier::external_body]
fn event_from(event: Event<'_>) -> MdEvent {
    match event {
        Start(tag) => MdEvent::Start(kind_from(tag.to_end()), data_from(tag)),
        End(tag) => MdEvent::End(kind_from(tag)),
        Text(s) => MdEvent::Text(s.into_string()), Code(s) => MdEvent::Code(s.into_string()),
        InlineMath(s) => MdEvent::InlineMath(s.into_string()),
        DisplayMath(s) => MdEvent::DisplayMath(s.into_string()),
        Html(s) => MdEvent::Html(s.into_string()), InlineHtml(s) => MdEvent::InlineHtml(s.into_string()),
        FootnoteReference(s) => MdEvent::FootnoteReference(s.into_string()),
        SoftBreak => MdEvent::SoftBreak, HardBreak => MdEvent::HardBreak,
        Rule => MdEvent::Rule, TaskListMarker(b) => MdEvent::TaskListMarker(b),
    }
}

/// Parses `source` with `pulldown_cmark::Parser::new_ext`, with tables and
/// strikethrough enabled (`Options::all()` when `all_extensions`), and
/// converts each event. Claimed: the result is
/// `markdown_events(source, all_extensions)`, a function of its arguments.
/// Left unsaid: that the parser returns on every input. Its source holds
/// `panic!`, `unreachable!` and `expect` calls guarded by its own internal
/// invariants, and neither its source nor its documentation promises that
/// no input reaches them; the promise that the library's verified functions
/// do not panic holds up to this call.
#[verifier::external_body]
pub(crate) fn parse_events(source: &str, all_extensions: bool) -> (events: Vec<MdEvent>)
    ensures
        events@ == markdown_events(source@, all_extensions),
{
    let basic = Options::ENABLE_TABLES | Options::ENABLE_STRIKETHROUGH;
    let options = if all_extensions { Options::all() } else { basic };
    Parser::new_ext(source, options).map(event_from).collect()
}

/// Renders `source` to HTML with `pulldown_cmark::html::push_html` over
/// `Parser::new_ext` (tables and strikethrough enabled). Claimed: the result
/// is `markdown_html(source)`, a function of the source alone. Left
/// unsaid, as for `parse_events`: that the parser returns on every input.
/// Writing to a `String` cannot fail, so `push_html`'s own `unwrap` never
/// panics.
#[verifier::external_body]
pub(crate) fn html_body(source: &str) -> (body: String)
    ensures
        body@ == markdown_html(source@),
{
    let mut body = String::new();
    let options = Options::ENABLE_TABLES | Options::ENABLE_STRIKETHROUGH;
    html::push_html(&mut body, Parser::new_ext(source, options));
    body
}

} // verus!
