//! Resolution of unknown shortcut references.
//!
//! The tokenizer surfaces a reference it cannot resolve as a link region of
//! the shortcut-unknown flavour wrapping the reference label as text.
//! [`UnknownRefHandlingStream`] detects that start/text/end pattern, hands
//! the label to a pluggable [`RefResolver`], splices whatever the resolver
//! emits into the stream, and defensively drains the rest of the region up to
//! and including its end tag — or to stream exhaustion when the end tag never
//! comes. A region whose start tag is directly followed by its end tag, or by
//! neither text nor end tag, makes no resolver call: the stray region is
//! swallowed. [`ArticleResolver`] is the resolver of the wiki's `article:`
//! label syntax, backed by an id-to-title table.

use vstd::prelude::*;

use crate::events::{clone_event, copy_bytes, evs, EvModel, Event, LinkKind, Tag, TagModel};
use crate::store::{find_byte, find_byte_spec, parse_u32_spec};

verus! {

/// How many events a defensive drain consumes: everything up to and
/// including the first shortcut-unknown link end tag, or all of `s` when
/// none occurs.
pub open spec fn drain_count(s: Seq<EvModel>) -> nat
    decreases s.len(),
{
    if s.len() == 0 {
        0
    } else {
        match s[0] {
            EvModel::End(TagModel::Link(LinkKind::ShortcutUnknown, _, _)) => 1,
            _ => 1 + drain_count(s.drop_first()),
        }
    }
}

pub proof fn lemma_drain_count(s: Seq<EvModel>)
    ensures
        drain_count(s) <= s.len(),
        s.len() > 0 ==> drain_count(s) >= 1,
    decreases s.len(),
{
    if s.len() > 0 {
        lemma_drain_count(s.drop_first());
    }
}

/// A pluggable decision on what an unresolved reference label becomes.
pub trait RefResolver {
    /// The events this resolver emits for a reference label.
    spec fn resolution(&self, label: Seq<u8>) -> Seq<EvModel>;

    /// Appends the resolution of `label` to `out`. `dest` and `title` carry
    /// the tokenizer's placeholder destination and title, which a resolver
    /// may ignore.
    fn resolve(&self, out: &mut Vec<Event>, dest: &Vec<u8>, title: &Vec<u8>, label: &Vec<u8>)
        ensures
            evs(final(out)@) == evs(old(out)@) + self.resolution(label@),
    ;
}

#[via_fn]
proof fn unknown_spec_dec(s: Seq<EvModel>, rf: spec_fn(Seq<u8>) -> Seq<EvModel>) {
    if s.len() > 0 {
        lemma_drain_count(s.drop_first());
    }
}

/// The event sequence with every shortcut-unknown link region replaced by
/// the resolver's decision on its label: a region wrapping a text event
/// becomes `rf` of that text, a region with no body disappears, and a region
/// wrapping anything else is swallowed; in the first and third case the rest
/// of the region is drained up to and including its end tag.
pub open spec fn unknown_spec(s: Seq<EvModel>, rf: spec_fn(Seq<u8>) -> Seq<EvModel>) -> Seq<
    EvModel,
>
    decreases s.len(),
    via unknown_spec_dec
{
    if s.len() == 0 {
        Seq::empty()
    } else {
        match s[0] {
            EvModel::Start(TagModel::Link(LinkKind::ShortcutUnknown, _, _)) => {
                let r = s.drop_first();
                if r.len() == 0 {
                    Seq::empty()
                } else {
                    match r[0] {
                        EvModel::End(TagModel::Link(LinkKind::ShortcutUnknown, _, _)) =>
                            unknown_spec(r.drop_first(), rf),
                        EvModel::Text(label) => rf(label) + unknown_spec(
                            r.skip(drain_count(r) as int),
                            rf,
                        ),
                        _ => unknown_spec(r.skip(drain_count(r) as int), rf),
                    }
                }
            },
            _ => seq![s[0]] + unknown_spec(s.drop_first(), rf),
        }
    }
}

/// The resolution function of a resolver, as a value.
pub open spec fn resolution_fn<R: RefResolver>(r: R) -> spec_fn(Seq<u8>) -> Seq<EvModel> {
    |label: Seq<u8>| r.resolution(label)
}

/// A stream stage that replaces each unresolved shortcut reference by what
/// its resolver decides.
pub struct UnknownRefHandlingStream<R> {
    input: Vec<Event>,
    pos: usize,
    queue: Vec<Event>,
    qpos: usize,
    resolver: R,
}

impl<R: RefResolver> UnknownRefHandlingStream<R> {
    /// Internal consistency of the stage state.
    pub closed spec fn wf(self) -> bool {
        &&& self.pos <= self.input@.len()
        &&& self.qpos <= self.queue@.len()
    }

    /// The events this stage has yet to yield.
    pub closed spec fn remaining(self) -> Seq<EvModel> {
        evs(self.queue@).skip(self.qpos as int) + unknown_spec(
            evs(self.input@).skip(self.pos as int),
            resolution_fn(self.resolver),
        )
    }

    /// Wraps an event sequence around a resolver.
    pub fn new(input: Vec<Event>, resolver: R) -> (r: UnknownRefHandlingStream<R>)
        ensures
            r.wf(),
            r.remaining() == unknown_spec(evs(input@), resolution_fn(resolver)),
    {
        let r = UnknownRefHandlingStream { input, pos: 0, queue: Vec::new(), qpos: 0, resolver };
        proof {
            assert(evs(r.input@).skip(0) =~= evs(r.input@));
            assert(evs(r.queue@).skip(0) =~= Seq::<EvModel>::empty());
            assert(r.remaining() =~= unknown_spec(evs(r.input@), resolution_fn(r.resolver)));
        }
        r
    }

    /// Yields the next event, or `None` once the input is exhausted.
    pub fn next(&mut self) -> (r: Option<Event>)
        requires
            old(self).wf(),
        ensures
            final(self).wf(),
            match r {
                Option::None => old(self).remaining().len() == 0
                    && final(self).remaining().len() == 0,
                Option::Some(e) => old(self).remaining().len() > 0
                    && e@ == old(self).remaining()[0]
                    && final(self).remaining() == old(self).remaining().drop_first(),
            },
    {
        let ghost rf = resolution_fn(old(self).resolver);
        loop
            invariant
                self.wf(),
                self.resolver == old(self).resolver,
                rf == resolution_fn(self.resolver),
                self.remaining() == old(self).remaining(),
            decreases self.input@.len() - self.pos,
        {
            let ghost q = evs(self.queue@).skip(self.qpos as int);
            let ghost s = evs(self.input@).skip(self.pos as int);
            if self.qpos < self.queue.len() {
                let e = clone_event(&self.queue[self.qpos]);
                self.qpos = self.qpos + 1;
                proof {
                    assert(q[0] == evs(self.queue@)[self.qpos - 1]);
                    assert(evs(self.queue@).skip(self.qpos as int) =~= q.drop_first());
                    assert((q + unknown_spec(s, rf)).drop_first() =~= q.drop_first()
                        + unknown_spec(s, rf));
                }
                return Some(e);
            }
            proof {
                assert(q =~= Seq::<EvModel>::empty());
                assert(self.remaining() =~= unknown_spec(s, rf));
            }
            if self.pos == self.input.len() {
                return None;
            }
            proof {
                assert(s[0] == evs(self.input@)[self.pos as int]);
                assert(evs(self.input@).skip(self.pos as int + 1) =~= s.drop_first());
            }
            let (is_shortcut, dest, title): (bool, Vec<u8>, Vec<u8>) = match &self.input[self.pos] {
                Event::Start(Tag::Link(LinkKind::ShortcutUnknown, d, t)) => (
                    true,
                    copy_bytes(d),
                    copy_bytes(t),
                ),
                _ => (false, Vec::new(), Vec::new()),
            };
            if !is_shortcut {
                let e = clone_event(&self.input[self.pos]);
                self.pos = self.pos + 1;
                proof {
                    assert(unknown_spec(s, rf) == seq![s[0]] + unknown_spec(s.drop_first(), rf));
                    assert((seq![s[0]] + unknown_spec(s.drop_first(), rf)).drop_first()
                        =~= unknown_spec(s.drop_first(), rf));
                    assert(self.remaining() =~= unknown_spec(s.drop_first(), rf));
                }
                return Some(e);
            }
            // The head is an unresolved shortcut reference's start tag.
            self.pos = self.pos + 1;
            let ghost r0 = s.drop_first();
            if self.pos == self.input.len() {
                proof {
                    assert(r0.len() == 0);
                    assert(self.remaining() =~= Seq::<EvModel>::empty());
                }
                // The region never closes; the stream ends here.
            } else {
                proof {
                    assert(r0[0] == evs(self.input@)[self.pos as int]);
                    assert(evs(self.input@).skip(self.pos as int + 1) =~= r0.drop_first());
                    lemma_drain_count(r0);
                }
                // Classify the event after the start tag: 0 is the region's
                // end tag, 1 is the label text, 2 is anything else.
                let shape: u8 = match &self.input[self.pos] {
                    Event::End(Tag::Link(LinkKind::ShortcutUnknown, _, _)) => 0,
                    Event::Text(_) => 1,
                    _ => 2,
                };
                if shape == 0 {
                    self.pos = self.pos + 1;
                    proof {
                        assert(self.remaining() =~= unknown_spec(r0.drop_first(), rf));
                    }
                } else {
                    if shape == 1 {
                        let label: Vec<u8> = match &self.input[self.pos] {
                            Event::Text(t) => copy_bytes(t),
                            _ => Vec::new(),
                        };
                        self.pos = self.pos + 1;
                        let mut resolved: Vec<Event> = Vec::new();
                        let ghost pre_evs = evs(resolved@);
                        proof {
                            assert(pre_evs =~= Seq::<EvModel>::empty());
                        }
                        self.resolver.resolve(&mut resolved, &dest, &title, &label);
                        self.queue = resolved;
                        self.qpos = 0;
                        proof {
                            assert(evs(self.queue@).skip(0) =~= evs(self.queue@));
                            assert(rf(label@) == self.resolver.resolution(label@));
                            assert(evs(self.queue@) =~= rf(label@));
                        }
                        // The resolution now sits in the queue; drain the rest
                        // of the region before yielding it.
                        self.drain_region();
                        proof {
                            assert(drain_count(r0) == 1 + drain_count(r0.drop_first()));
                            assert(evs(self.input@).skip(self.pos as int) =~= r0.skip(
                                drain_count(r0) as int,
                            ));
                            assert(self.remaining() =~= unknown_spec(s, rf));
                        }
                    } else {
                        // Malformed region body: no resolver call, drain it
                        // whole.
                        proof {
                            assert(evs(self.input@).skip(self.pos as int) =~= r0);
                        }
                        self.drain_region();
                        proof {
                            assert(evs(self.input@).skip(self.pos as int) =~= r0.skip(
                                drain_count(r0) as int,
                            ));
                            assert(self.remaining() =~= unknown_spec(s, rf));
                        }
                    }
                }
            }
        }
    }

    /// Consumes input events up to and including the first shortcut-unknown
    /// link end tag, or to exhaustion.
    fn drain_region(&mut self)
        requires
            old(self).wf(),
        ensures
            final(self).wf(),
            final(self).input@ == old(self).input@,
            final(self).queue@ == old(self).queue@,
            final(self).qpos == old(self).qpos,
            final(self).resolver == old(self).resolver,
            final(self).pos == old(self).pos + drain_count(
                evs(old(self).input@).skip(old(self).pos as int),
            ),
    {
        let ghost r0 = evs(old(self).input@).skip(old(self).pos as int);
        let ghost p0 = old(self).pos as int;
        loop
            invariant_except_break
                drain_count(r0) == (self.pos - p0) + drain_count(
                    evs(self.input@).skip(self.pos as int),
                ),
            invariant
                self.wf(),
                self.input@ == old(self).input@,
                self.queue@ == old(self).queue@,
                self.qpos == old(self).qpos,
                self.resolver == old(self).resolver,
                p0 <= self.pos as int,
                r0 == evs(self.input@).skip(p0),
            ensures
                self.wf(),
                self.input@ == old(self).input@,
                self.queue@ == old(self).queue@,
                self.qpos == old(self).qpos,
                self.resolver == old(self).resolver,
                self.pos - p0 == drain_count(r0),
            decreases self.input@.len() - self.pos,
        {
            let ghost cur = evs(self.input@).skip(self.pos as int);
            if self.pos == self.input.len() {
                proof {
                    assert(cur.len() == 0);
                }
                break ;
            }
            proof {
                assert(cur[0] == evs(self.input@)[self.pos as int]);
                assert(cur.drop_first() =~= evs(self.input@).skip(self.pos as int + 1));
            }
            let is_end: bool = match &self.input[self.pos] {
                Event::End(Tag::Link(LinkKind::ShortcutUnknown, _, _)) => true,
                _ => false,
            };
            self.pos = self.pos + 1;
            if is_end {
                proof {
                    assert(drain_count(cur) == 1);
                }
                break ;
            }
        }
    }

    /// Drains the stage into a vector of events, in order.
    pub fn collect_all(&mut self) -> (r: Vec<Event>)
        requires
            old(self).wf(),
        ensures
            final(self).wf(),
            evs(r@) == old(self).remaining(),
            final(self).remaining().len() == 0,
    {
        let mut out: Vec<Event> = Vec::new();
        loop
            invariant
                self.wf(),
                evs(out@) + self.remaining() == old(self).remaining(),
            ensures
                self.wf(),
                evs(out@) == old(self).remaining(),
                self.remaining().len() == 0,
            decreases self.remaining().len(),
        {
            let ghost prev = self.remaining();
            match self.next() {
                Some(e) => {
                    proof {
                        assert(evs(out@.push(e)) =~= evs(out@).push(e@));
                        assert(evs(out@).push(e@) + prev.drop_first() =~= evs(out@) + prev);
                    }
                    out.push(e);
                },
                None => {
                    proof {
                        assert(evs(out@) =~= evs(out@) + self.remaining());
                    }
                    break ;
                },
            }
        }
        out
    }
}

/// Replaces every unresolved shortcut reference of an event sequence in one
/// step.
pub fn resolve_refs<R: RefResolver>(input: Vec<Event>, resolver: R) -> (r: Vec<Event>)
    ensures
        evs(r@) == unknown_spec(evs(input@), resolution_fn(resolver)),
{
    let mut stage = UnknownRefHandlingStream::new(input, resolver);
    stage.collect_all()
}


/// The label prefix `article:` of a wiki article reference.
pub open spec fn article_prefix() -> Seq<u8> {
    seq![97u8, 114u8, 116u8, 105u8, 99u8, 108u8, 101u8, 58u8]
}

/// The destination prefix `../../article/` of a resolved article link.
pub open spec fn article_dest_prefix() -> Seq<u8> {
    seq![
        46u8,
        46u8,
        47u8,
        46u8,
        46u8,
        47u8,
        97u8,
        114u8,
        116u8,
        105u8,
        99u8,
        108u8,
        101u8,
        47u8,
    ]
}

/// The literal-text fallback for a label no rule recognizes: the label in
/// brackets, as it stood in the source.
pub open spec fn fallback_events(label: Seq<u8>) -> Seq<EvModel> {
    seq![EvModel::Text(seq![91u8] + label + seq![93u8])]
}

/// A resolved link region: start tag, display text, end tag.
pub open spec fn link_triple(dest: Seq<u8>, display: Seq<u8>, title: Seq<u8>) -> Seq<EvModel> {
    seq![
        EvModel::Start(TagModel::Link(LinkKind::Autolink, dest, title)),
        EvModel::Text(display),
        EvModel::End(TagModel::Link(LinkKind::Autolink, dest, title)),
    ]
}

/// The model of an id-to-title table.
pub open spec fn titles_view(ts: Seq<(u32, Vec<u8>)>) -> Seq<(u32, Seq<u8>)> {
    ts.map_values(|p: (u32, Vec<u8>)| (p.0, p.1@))
}

/// The title of the first table entry carrying `id`, if any.
pub open spec fn lookup_title_spec(ts: Seq<(u32, Seq<u8>)>, id: u32) -> Option<Seq<u8>>
    decreases ts.len(),
{
    if ts.len() == 0 {
        None
    } else if ts[0].0 == id {
        Some(ts[0].1)
    } else {
        lookup_title_spec(ts.drop_first(), id)
    }
}

/// What an `article:` label resolves to against a title table: a label of
/// the shape `article:<id>[|<display>]` whose id parses and is in the table
/// becomes a link to `../../article/<id>` titled with the stored title and
/// showing the display text (the stored title when none is given); any other
/// label becomes its bracketed literal text.
pub open spec fn article_resolution(titles: Seq<(u32, Seq<u8>)>, label: Seq<u8>) -> Seq<EvModel> {
    if label.len() >= 8 && label.subrange(0, 8) == article_prefix() {
        let rest = label.skip(8);
        let p1 = find_byte_spec(rest, 124);
        let idstr = rest.take(p1);
        match parse_u32_spec(idstr) {
            Some(id) => match lookup_title_spec(titles, id) {
                Some(title) => {
                    let dest = article_dest_prefix() + idstr;
                    let display = if p1 == rest.len() {
                        title
                    } else {
                        let r2 = rest.skip(p1 + 1);
                        r2.take(find_byte_spec(r2, 124))
                    };
                    link_triple(dest, display, title)
                },
                None => fallback_events(label),
            },
            None => fallback_events(label),
        }
    } else {
        fallback_events(label)
    }
}

/// The resolver of the wiki's `article:` reference labels, backed by an
/// id-to-title table standing for the article store.
pub struct ArticleResolver {
    titles: Vec<(u32, Vec<u8>)>,
}

impl ArticleResolver {
    /// The model of the resolver's table.
    pub closed spec fn view(&self) -> Seq<(u32, Seq<u8>)> {
        titles_view(self.titles@)
    }

    /// Builds a resolver over an id-to-title table.
    pub fn new(titles: Vec<(u32, Vec<u8>)>) -> (r: ArticleResolver)
        ensures
            r@ == titles_view(titles@),
    {
        ArticleResolver { titles }
    }

    /// Looks the title of `id` up in the table.
    pub fn lookup_title(&self, id: u32) -> (r: Option<Vec<u8>>)
        ensures
            match r {
                Some(t) => lookup_title_spec(self@, id) == Some(t@),
                None => lookup_title_spec(self@, id) is None,
            },
    {
        let ghost tv = titles_view(self.titles@);
        proof {
            assert(tv.skip(0) =~= tv);
        }
        let mut i: usize = 0;
        while i < self.titles.len()
            invariant
                i <= self.titles@.len(),
                tv == titles_view(self.titles@),
                lookup_title_spec(tv, id) == lookup_title_spec(tv.skip(i as int), id),
            decreases self.titles@.len() - i,
        {
            proof {
                assert(tv.skip(i as int)[0] == tv[i as int]);
                assert(tv.skip(i as int).drop_first() =~= tv.skip(i as int + 1));
            }
            if self.titles[i].0 == id {
                return Some(copy_bytes(&self.titles[i].1));
            }
            i = i + 1;
        }
        proof {
            assert(tv.skip(i as int).len() == 0);
        }
        None
    }

    /// Whether the label starts with `article:`.
    fn has_article_prefix(label: &Vec<u8>) -> (r: bool)
        ensures
            r == (label@.len() >= 8 && label@.subrange(0, 8) == article_prefix()),
    {
        if label.len() < 8 {
            return false;
        }
        let r = label[0] == 97 && label[1] == 114 && label[2] == 116 && label[3] == 105
            && label[4] == 99 && label[5] == 108 && label[6] == 101 && label[7] == 58;
        proof {
            if r {
                assert(label@.subrange(0, 8) =~= article_prefix());
            } else {
                assert(label@.subrange(0, 8) != article_prefix()) by {
                    assert(forall|k: int|
                        0 <= k < 8 ==> #[trigger] label@.subrange(0, 8)[k] == label@[k]);
                }
            }
        }
        r
    }

    /// The events `label` resolves to against the table.
    fn build_resolution(&self, label: &Vec<u8>) -> (r: Vec<Event>)
        ensures
            evs(r@) == article_resolution(self@, label@),
    {
        if Self::has_article_prefix(label) {
            let ghost rest = label@.skip(8);
            let i1: usize = find_byte(label, 8, 124);
            let idstr: Vec<u8> = crate::events::bytes_range(label, 8, i1);
            proof {
                assert(idstr@ =~= rest.take(find_byte_spec(rest, 124)));
            }
            if let Some(id) = crate::store::parse_u32(&idstr) {
                if let Some(title) = self.lookup_title(id) {
                    let display: Vec<u8> = if i1 == label.len() {
                        copy_bytes(&title)
                    } else {
                        let i2: usize = find_byte(label, i1 + 1, 124);
                        let d: Vec<u8> = crate::events::bytes_range(label, i1 + 1, i2);
                        proof {
                            let r2 = rest.skip(find_byte_spec(rest, 124) + 1);
                            assert(r2 =~= label@.skip(i1 + 1));
                            assert(d@ =~= r2.take(find_byte_spec(r2, 124)));
                        }
                        d
                    };
                    let mut dest: Vec<u8> = Vec::new();
                    dest.push(46);
                    dest.push(46);
                    dest.push(47);
                    dest.push(46);
                    dest.push(46);
                    dest.push(47);
                    dest.push(97);
                    dest.push(114);
                    dest.push(116);
                    dest.push(105);
                    dest.push(99);
                    dest.push(108);
                    dest.push(101);
                    dest.push(47);
                    let mut idpart: Vec<u8> = copy_bytes(&idstr);
                    dest.append(&mut idpart);
                    proof {
                        assert(dest@ =~= article_dest_prefix() + idstr@);
                    }
                    let mut out: Vec<Event> = Vec::new();
                    out.push(
                        Event::Start(
                            Tag::Link(LinkKind::Autolink, copy_bytes(&dest), copy_bytes(&title)),
                        ),
                    );
                    out.push(Event::Text(display));
                    out.push(
                        Event::End(
                            Tag::Link(LinkKind::Autolink, copy_bytes(&dest), copy_bytes(&title)),
                        ),
                    );
                    proof {
                        assert(evs(out@) =~= article_resolution(self@, label@));
                    }
                    return out;
                }
            }
        }
        let mut text: Vec<u8> = Vec::new();
        text.push(91);
        let mut middle: Vec<u8> = copy_bytes(label);
        text.append(&mut middle);
        text.push(93);
        proof {
            assert(text@ =~= seq![91u8] + label@ + seq![93u8]);
        }
        let mut out: Vec<Event> = Vec::new();
        out.push(Event::Text(text));
        proof {
            assert(evs(out@) =~= fallback_events(label@));
        }
        out
    }
}

impl RefResolver for ArticleResolver {
    /// The resolver's decision, as a function of its table and the label.
    open spec fn resolution(&self, label: Seq<u8>) -> Seq<EvModel> {
        article_resolution(self@, label)
    }

    /// Appends the label's resolution; the tokenizer's placeholder
    /// destination and title carry nothing and are ignored.
    fn resolve(&self, out: &mut Vec<Event>, dest: &Vec<u8>, title: &Vec<u8>, label: &Vec<u8>) {
        let mut events = self.build_resolution(label);
        let ghost added = evs(events@);
        out.append(&mut events);
        proof {
            assert(evs(out@) =~= evs(old(out)@) + added);
        }
    }
}


/// An article resolution never touches a code block: whatever the table and
/// the label, it is a link triple or a single text event.
pub proof fn lemma_article_resolution_cb_free(titles: Seq<(u32, Seq<u8>)>, label: Seq<u8>)
    ensures
        crate::syntax::no_cb(article_resolution(titles, label)),
{
    let r = article_resolution(titles, label);
    assert forall|i: int| 0 <= i < r.len() implies !crate::syntax::is_cb_tag(
        #[trigger] r[i],
    ) by {
        if label.len() >= 8 && label.subrange(0, 8) == article_prefix() {
        }
    }
}

} // verus!
