//! The markdown event stream. The tokenizer is an outside collaborator: its
//! events are converted at the boundary into the renderer's own event type,
//! and the stream a given text produces is named `events_of`.

use vstd::prelude::*;
use pulldown_cmark::{CodeBlockKind, Tag};
use crate::table::Align;

verus! {

/// Spec-level form of a block tag.
pub ghost enum TagView {
    Paragraph,
    List,
    Item,
    CodeBlock(Option<Seq<char>>),
    Table(Seq<Align>),
    TableHead,
    TableRow,
    TableCell,
    Emphasis,
    Strong,
    Other,
}

/// Spec-level form of a markdown event.
pub ghost enum EventView {
    Start(TagView),
    End(TagView),
    Text(Seq<char>),
    Code(Seq<char>),
    SoftBreak,
    HardBreak,
    Other,
}

/// A block tag: the `CodeBlock` language is the fence token (`None` for an
/// indented block), a `Table` carries its per-column alignments.
pub enum MdTag {
    Paragraph,
    List,
    Item,
    CodeBlock(Option<Vec<char>>),
    Table(Vec<Align>),
    TableHead,
    TableRow,
    TableCell,
    Emphasis,
    Strong,
    Other,
}

/// A markdown event: block starts and ends, inline atoms, and breaks.
/// Events the renderer ignores are folded into `Other`.
pub enum MdEvent {
    Start(MdTag),
    End(MdTag),
    Text(Vec<char>),
    Code(Vec<char>),
    SoftBreak,
    HardBreak,
    Other,
}

impl View for MdTag {
    type V = TagView;

    open spec fn view(&self) -> TagView {
        match self {
            MdTag::Paragraph => TagView::Paragraph,
            MdTag::List => TagView::List,
            MdTag::Item => TagView::Item,
            MdTag::CodeBlock(l) => TagView::CodeBlock(
                match l {
                    Some(v) => Some(v@),
                    None => None,
                },
            ),
            MdTag::Table(a) => TagView::Table(a@),
            MdTag::TableHead => TagView::TableHead,
            MdTag::TableRow => TagView::TableRow,
            MdTag::TableCell => TagView::TableCell,
            MdTag::Emphasis => TagView::Emphasis,
            MdTag::Strong => TagView::Strong,
            MdTag::Other => TagView::Other,
        }
    }
}

impl View for MdEvent {
    type V = EventView;

    open spec fn view(&self) -> EventView {
        match self {
            MdEvent::Start(t) => EventView::Start(t@),
            MdEvent::End(t) => EventView::End(t@),
            MdEvent::Text(s) => EventView::Text(s@),
            MdEvent::Code(s) => EventView::Code(s@),
            MdEvent::SoftBreak => EventView::SoftBreak,
            MdEvent::HardBreak => EventView::HardBreak,
            MdEvent::Other => EventView::Other,
        }
    }
}

pub open spec fn event_views(evs: Seq<MdEvent>) -> Seq<EventView> {
    evs.map_values(|e: MdEvent| e@)
}

/// The event stream that the tokenizer produces for a given text, with the
/// pipe-table extension enabled.
pub uninterp spec fn events_of(s: Seq<char>) -> Seq<EventView>;

#[verifier::external_type_specification]
#[verifier::external_body]
pub struct ExPdEvent<'a>(pulldown_cmark::Event<'a>);

#[verifier::external_type_specification]
#[verifier::external_body]
pub struct ExPdTag<'a>(pulldown_cmark::Tag<'a>);

#[verifier::external_type_specification]
#[verifier::external_body]
pub struct ExPdAlignment(pulldown_cmark::Alignment);

/// Relies on pulldown_cmark's `Alignment`: its variants map one to one; its
/// `None` means a column without an explicit alignment.
#[verifier::external_body]
fn aligns_from(v: Vec<pulldown_cmark::Alignment>) -> Vec<Align> {
    v.into_iter().map(|a| match a {
        pulldown_cmark::Alignment::Left => Align::Left,
        pulldown_cmark::Alignment::Right => Align::Right,
        pulldown_cmark::Alignment::Center => Align::Center,
        pulldown_cmark::Alignment::None => Align::Unset,
    }).collect()
}

/// Relies on pulldown_cmark's `Tag`: each variant the renderer handles is
/// mapped one to one; the rest fold into `Other`.
#[verifier::external_body]
fn tag_from(t: Tag) -> MdTag {
    match t {
        Tag::Paragraph => MdTag::Paragraph,
        Tag::List(_) => MdTag::List,
        Tag::Item => MdTag::Item,
        Tag::CodeBlock(CodeBlockKind::Fenced(l)) => MdTag::CodeBlock(Some(l.chars().collect())),
        Tag::CodeBlock(CodeBlockKind::Indented) => MdTag::CodeBlock(None),
        Tag::Table(a) => MdTag::Table(aligns_from(a)),
        Tag::TableHead => MdTag::TableHead,
        Tag::TableRow => MdTag::TableRow,
        Tag::TableCell => MdTag::TableCell,
        Tag::Emphasis => MdTag::Emphasis,
        Tag::Strong => MdTag::Strong,
        _ => MdTag::Other,
    }
}

/// Relies on pulldown_cmark's `Event`: each variant the renderer handles is
/// mapped one to one; the rest fold into `Other`.
#[verifier::external_body]
fn event_from(e: pulldown_cmark::Event) -> MdEvent {
    match e {
        pulldown_cmark::Event::Start(t) => MdEvent::Start(tag_from(t)),
        pulldown_cmark::Event::End(t) => MdEvent::End(tag_from(t)),
        pulldown_cmark::Event::Text(s) => MdEvent::Text(s.chars().collect()),
        pulldown_cmark::Event::Code(s) => MdEvent::Code(s.chars().collect()),
        pulldown_cmark::Event::SoftBreak => MdEvent::SoftBreak,
        pulldown_cmark::Event::HardBreak => MdEvent::HardBreak,
        _ => MdEvent::Other,
    }
}

/// Relies on pulldown_cmark's `Parser::new_ext` with the table extension:
/// a finite, forward-only CommonMark/GFM event stream determined by the
/// input text, here named `events_of`.
#[verifier::external_body]
pub fn parse_events(text: &str) -> (r: Vec<MdEvent>)
    ensures
        event_views(r@) == events_of(text@),
{
    let mut opts = pulldown_cmark::Options::empty();
    opts.insert(pulldown_cmark::Options::ENABLE_TABLES);
    pulldown_cmark::Parser::new_ext(text, opts).map(event_from).collect()
}

} // verus!
