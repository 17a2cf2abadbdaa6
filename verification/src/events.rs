//! The event union of the markdown stream and its mathematical model.
//!
//! Every pipeline stage consumes and produces sequences of [`Event`]s. Text
//! and raw-HTML payloads are byte strings; tags the pipeline does not inspect
//! are carried opaquely as [`Tag::Other`] / [`Event::Other`] with an index the
//! caller may use to recover the underlying token.

use vstd::prelude::*;

verus! {

/// The link flavour a link tag carries. Only two flavours steer the pipeline:
/// `Autolink` marks links synthesized from bare URL text, and
/// `ShortcutUnknown` marks a reference the tokenizer could not resolve.
#[derive(Clone, Copy, Debug, PartialEq, Eq)]
pub enum LinkKind {
    Autolink,
    ShortcutUnknown,
    Other,
}

/// A tag delimiting a structural region of the document.
#[derive(Clone, Debug, PartialEq, Eq)]
pub enum Tag {
    /// A link region: flavour, destination, title.
    Link(LinkKind, Vec<u8>, Vec<u8>),
    /// A fenced or indented code block; a fenced block carries its language hint.
    CodeBlock(Option<Vec<u8>>),
    /// Any other tag, carried through unmodified.
    Other(usize),
}

/// One unit of parsed markdown structure.
#[derive(Clone, Debug, PartialEq, Eq)]
pub enum Event {
    /// A run of document text.
    Text(Vec<u8>),
    /// The start of a tagged region.
    Start(Tag),
    /// The end of a tagged region.
    End(Tag),
    /// Raw HTML emitted verbatim by the renderer.
    Html(Vec<u8>),
    /// A hard line break.
    HardBreak,
    /// Any other event, carried through unmodified.
    Other(usize),
}

/// The model of a [`Tag`]: payloads become mathematical sequences.
pub enum TagModel {
    Link(LinkKind, Seq<u8>, Seq<u8>),
    CodeBlock(Option<Seq<u8>>),
    Other(int),
}

/// The model of an [`Event`].
pub enum EvModel {
    Text(Seq<u8>),
    Start(TagModel),
    End(TagModel),
    Html(Seq<u8>),
    HardBreak,
    Other(int),
}

impl View for Tag {
    type V = TagModel;

    open spec fn view(&self) -> TagModel {
        match self {
            Tag::Link(k, d, t) => TagModel::Link(*k, d@, t@),
            Tag::CodeBlock(l) => TagModel::CodeBlock(
                match l {
                    Some(s) => Some(s@),
                    None => None,
                },
            ),
            Tag::Other(i) => TagModel::Other(*i as int),
        }
    }
}

impl View for Event {
    type V = EvModel;

    open spec fn view(&self) -> EvModel {
        match self {
            Event::Text(t) => EvModel::Text(t@),
            Event::Start(t) => EvModel::Start(t@),
            Event::End(t) => EvModel::End(t@),
            Event::Html(h) => EvModel::Html(h@),
            Event::HardBreak => EvModel::HardBreak,
            Event::Other(i) => EvModel::Other(*i as int),
        }
    }
}

/// The model of an event sequence: each event replaced by its model.
pub open spec fn evs(s: Seq<Event>) -> Seq<EvModel> {
    s.map_values(|e: Event| e@)
}

/// Copies a byte string.
pub fn copy_bytes(v: &Vec<u8>) -> (r: Vec<u8>)
    ensures
        r@ == v@,
{
    let mut out: Vec<u8> = Vec::new();
    let mut i: usize = 0;
    while i < v.len()
        invariant
            i <= v.len(),
            out@ == v@.take(i as int),
        decreases v.len() - i,
    {
        out.push(v[i]);
        i = i + 1;
        assert(out@ =~= v@.take(i as int));
    }
    assert(out@ =~= v@);
    out
}

/// Copies the byte range `[start, end)` out of a byte string.
pub fn bytes_range(v: &Vec<u8>, start: usize, end: usize) -> (r: Vec<u8>)
    requires
        start <= end <= v@.len(),
    ensures
        r@ == v@.subrange(start as int, end as int),
{
    let mut out: Vec<u8> = Vec::new();
    let mut i: usize = start;
    while i < end
        invariant
            start <= i <= end <= v@.len(),
            out@ == v@.subrange(start as int, i as int),
        decreases end - i,
    {
        out.push(v[i]);
        i = i + 1;
        assert(out@ =~= v@.subrange(start as int, i as int));
    }
    out
}

/// Copies a tag, preserving its model.
pub fn clone_tag(t: &Tag) -> (r: Tag)
    ensures
        r@ == t@,
{
    match t {
        Tag::Link(k, d, ti) => Tag::Link(*k, copy_bytes(d), copy_bytes(ti)),
        Tag::CodeBlock(l) => Tag::CodeBlock(
            match l {
                Some(s) => Some(copy_bytes(s)),
                None => None,
            },
        ),
        Tag::Other(i) => Tag::Other(*i),
    }
}

/// Copies an event, preserving its model.
pub fn clone_event(e: &Event) -> (r: Event)
    ensures
        r@ == e@,
{
    match e {
        Event::Text(t) => Event::Text(copy_bytes(t)),
        Event::Start(t) => Event::Start(clone_tag(t)),
        Event::End(t) => Event::End(clone_tag(t)),
        Event::Html(h) => Event::Html(copy_bytes(h)),
        Event::HardBreak => Event::HardBreak,
        Event::Other(i) => Event::Other(*i),
    }
}

} // verus!
