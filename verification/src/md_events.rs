//! The Markdown event stream that `pulldown_cmark` parses, as plain values.

use vstd::prelude::*;

verus! {

#[verifier::external_type_specification]
#[verifier::external_body]
pub struct ExEvent<'a>(pulldown_cmark::Event<'a>);

#[verifier::external_type_specification]
#[verifier::external_body]
pub struct ExTag<'a>(pulldown_cmark::Tag<'a>);

#[verifier::external_type_specification]
#[verifier::external_body]
pub struct ExTagEnd(pulldown_cmark::TagEnd);

#[verifier::external_type_specification]
#[verifier::external_body]
pub struct ExCodeBlockKind<'a>(pulldown_cmark::CodeBlockKind<'a>);

#[verifier::external_type_specification]
#[verifier::external_body]
pub struct ExAlignment(pulldown_cmark::Alignment);

/// A table column's alignment.
#[derive(Debug, Clone, Copy, PartialEq, Eq, Structural)]
pub enum MdAlignment {
    Unaligned,
    Left,
    Center,
    Right,
}

/// The start of a Markdown element.
#[derive(Debug)]
pub enum MdTag {
    Paragraph,
    /// A heading of level 1 to 6.
    Heading(u8),
    BlockQuote,
    /// A code block: the info string of a fenced one, none for an indented one.
    CodeBlock(Option<String>),
    /// A list: the number of its first item for an ordered one.
    List(Option<u64>),
    Item,
    Table(Vec<MdAlignment>),
    TableHead,
    TableRow,
    TableCell,
    Emphasis,
    Strong,
    Strikethrough,
    Link { dest_url: String, title: String },
    Image { dest_url: String, title: String },
    Other,
}

/// The end of a Markdown element.
#[derive(Debug, Clone, Copy, PartialEq, Eq, Structural)]
pub enum MdTagEnd {
    Paragraph,
    Heading,
    BlockQuote,
    CodeBlock,
    /// The end of a list: `true` for an ordered list.
    List(bool),
    Item,
    Table,
    TableHead,
    TableRow,
    TableCell,
    Emphasis,
    Strong,
    Strikethrough,
    Link,
    Image,
    Other,
}

/// One Markdown parse event.
#[derive(Debug)]
pub enum MdEvent {
    Start(MdTag),
    End(MdTagEnd),
    Text(String),
    Code(String),
    SoftBreak,
    HardBreak,
    Rule,
    TaskListMarker(bool),
    Other,
}

/// The events, each with its byte range in the source, that
/// `pulldown_cmark::Parser::new_ext(text, options).into_offset_iter()` yields.
pub uninterp spec fn markdown_events(text: Seq<char>, options: u32) -> Seq<(MdEvent, usize, usize)>;

/// Runs `pulldown_cmark::Parser::new_ext` with the option bits `options`
/// over `markdown` and collects its offset iterator.
#[verifier::external_body]
pub(crate) fn parse_markdown_events(markdown: &str, options: u32) -> (events: Vec<(MdEvent, usize, usize)>)
    ensures
        events@ == markdown_events(markdown@, options),
{
    let flags = pulldown_cmark::Options::from_bits_truncate(options);
    let mut events = Vec::new();
    for (event, range) in pulldown_cmark::Parser::new_ext(markdown, flags).into_offset_iter() {
        events.push((md_event(event), range.start, range.end));
    }
    events
}

#[verifier::external_body]
fn md_event(event: pulldown_cmark::Event<'_>) -> MdEvent {
    match event {
        pulldown_cmark::Event::Start(tag) => MdEvent::Start(md_block_tag(tag)),
        pulldown_cmark::Event::End(end) => MdEvent::End(md_block_tag_end(end)),
        pulldown_cmark::Event::Text(s) => MdEvent::Text(s.into_string()),
        pulldown_cmark::Event::Code(s) => MdEvent::Code(s.into_string()),
        pulldown_cmark::Event::SoftBreak => MdEvent::SoftBreak,
        pulldown_cmark::Event::HardBreak => MdEvent::HardBreak,
        pulldown_cmark::Event::Rule => MdEvent::Rule,
        pulldown_cmark::Event::TaskListMarker(checked) => MdEvent::TaskListMarker(checked),
        _ => MdEvent::Other,
    }
}

#[verifier::external_body]
fn md_block_tag(tag: pulldown_cmark::Tag<'_>) -> MdTag {
    match tag {
        pulldown_cmark::Tag::Paragraph => MdTag::Paragraph,
        pulldown_cmark::Tag::Heading { level, .. } => MdTag::Heading(level as u8),
        pulldown_cmark::Tag::BlockQuote(_) => MdTag::BlockQuote,
        pulldown_cmark::Tag::CodeBlock(kind) => MdTag::CodeBlock(md_code_block_kind(kind)),
        pulldown_cmark::Tag::List(first) => MdTag::List(first),
        pulldown_cmark::Tag::Item => MdTag::Item,
        pulldown_cmark::Tag::Table(alignments) => MdTag::Table(md_alignments(alignments)),
        pulldown_cmark::Tag::TableHead => MdTag::TableHead,
        pulldown_cmark::Tag::TableRow => MdTag::TableRow,
        pulldown_cmark::Tag::TableCell => MdTag::TableCell,
        other => md_inline_tag(other),
    }
}

#[verifier::external_body]
fn md_inline_tag(tag: pulldown_cmark::Tag<'_>) -> MdTag {
    match tag {
        pulldown_cmark::Tag::Emphasis => MdTag::Emphasis,
        pulldown_cmark::Tag::Strong => MdTag::Strong,
        pulldown_cmark::Tag::Strikethrough => MdTag::Strikethrough,
        pulldown_cmark::Tag::Link { dest_url, title, .. } => {
            MdTag::Link { dest_url: dest_url.into_string(), title: title.into_string() }
        },
        pulldown_cmark::Tag::Image { dest_url, title, .. } => {
            MdTag::Image { dest_url: dest_url.into_string(), title: title.into_string() }
        },
        _ => MdTag::Other,
    }
}

#[verifier::external_body]
fn md_code_block_kind(kind: pulldown_cmark::CodeBlockKind<'_>) -> Option<String> {
    match kind {
        pulldown_cmark::CodeBlockKind::Fenced(info) => Some(info.into_string()),
        pulldown_cmark::CodeBlockKind::Indented => None,
    }
}

#[verifier::external_body]
fn md_alignments(alignments: Vec<pulldown_cmark::Alignment>) -> Vec<MdAlignment> {
    let mut out = Vec::new();
    for alignment in alignments {
        out.push(match alignment {
            pulldown_cmark::Alignment::None => MdAlignment::Unaligned,
            pulldown_cmark::Alignment::Left => MdAlignment::Left,
            pulldown_cmark::Alignment::Center => MdAlignment::Center,
            pulldown_cmark::Alignment::Right => MdAlignment::Right,
        });
    }
    out
}

#[verifier::external_body]
fn md_block_tag_end(end: pulldown_cmark::TagEnd) -> MdTagEnd {
    match end {
        pulldown_cmark::TagEnd::Paragraph => MdTagEnd::Paragraph,
        pulldown_cmark::TagEnd::Heading(_) => MdTagEnd::Heading,
        pulldown_cmark::TagEnd::BlockQuote(_) => MdTagEnd::BlockQuote,
        pulldown_cmark::TagEnd::CodeBlock => MdTagEnd::CodeBlock,
        pulldown_cmark::TagEnd::List(loose) => MdTagEnd::List(loose),
        pulldown_cmark::TagEnd::Item => MdTagEnd::Item,
        pulldown_cmark::TagEnd::Table => MdTagEnd::Table,
        pulldown_cmark::TagEnd::TableHead => MdTagEnd::TableHead,
        pulldown_cmark::TagEnd::TableRow => MdTagEnd::TableRow,
        pulldown_cmark::TagEnd::TableCell => MdTagEnd::TableCell,
        other => md_inline_tag_end(other),
    }
}

#[verifier::external_body]
fn md_inline_tag_end(end: pulldown_cmark::TagEnd) -> MdTagEnd {
    match end {
        pulldown_cmark::TagEnd::Emphasis => MdTagEnd::Emphasis,
        pulldown_cmark::TagEnd::Strong => MdTagEnd::Strong,
        pulldown_cmark::TagEnd::Strikethrough => MdTagEnd::Strikethrough,
        pulldown_cmark::TagEnd::Link => MdTagEnd::Link,
        pulldown_cmark::TagEnd::Image => MdTagEnd::Image,
        _ => MdTagEnd::Other,
    }
}

} // verus!
