//! Autolinking of bare URLs inside text events.
//!
//! [`LinkHighlightStream`] wraps an event sequence. Each text event found
//! outside a link region is partitioned against a URL pattern and replaced by
//! the interleaving of its plain text spans and start/text/end link triples,
//! one triple per matched URL, whose visible text and destination both equal
//! the URL. Between a link start tag and its end tag every event passes
//! through untouched, so existing links — including the triples this stage
//! itself emits — are never linkified again ([`lemma_link_fixed_point`]).
//! Text merging must run first, or a URL split across two text fragments is
//! silently missed.

use vstd::prelude::*;

use crate::events::{clone_event, copy_bytes, evs, EvModel, Event, LinkKind, Tag, TagModel};
use crate::partition::{partition_spec, parts, spans_wf, PartModel, Partition};

verus! {

/// The bytes a bare URL may contain after its scheme: letters, digits, and
/// the unreserved and reserved punctuation of RFC 3986.
pub open spec fn is_url_byte(b: u8) -> bool {
    ||| (65 <= b <= 90)  // A-Z
    ||| (97 <= b <= 122)  // a-z
    ||| (48 <= b <= 57)  // 0-9
    ||| b == 45  // -
    ||| b == 95  // _
    ||| b == 46  // .
    ||| b == 126  // ~
    ||| b == 58  // :
    ||| b == 47  // /
    ||| b == 63  // ?
    ||| b == 35  // #
    ||| b == 91  // [
    ||| b == 93  // ]
    ||| b == 64  // @
    ||| b == 33  // !
    ||| b == 36  // $
    ||| b == 38  // &
    ||| b == 39  // '
    ||| b == 40  // (
    ||| b == 41  // )
    ||| b == 42  // *
    ||| b == 43  // +
    ||| b == 44  // ,
    ||| b == 59  // ;
    ||| b == 61  // =
}

/// The scheme-and-separator prefix `http://`.
pub open spec fn http_prefix() -> Seq<u8> {
    seq![104u8, 116u8, 116u8, 112u8, 58u8, 47u8, 47u8]
}

/// The scheme-and-separator prefix `https://`.
pub open spec fn https_prefix() -> Seq<u8> {
    seq![104u8, 116u8, 116u8, 112u8, 115u8, 58u8, 47u8, 47u8]
}

/// Whether `m` has the shape of a bare URL match: an `http://` or `https://`
/// prefix followed by at least one URL byte.
pub open spec fn is_url_match(m: Seq<u8>) -> bool {
    ||| (m.len() > 7 && m.subrange(0, 7) == http_prefix() && forall|i: int|
        7 <= i < m.len() ==> is_url_byte(#[trigger] m[i]))
    ||| (m.len() > 8 && m.subrange(0, 8) == https_prefix() && forall|i: int|
        8 <= i < m.len() ==> is_url_byte(#[trigger] m[i]))
}

/// The ranges of the bare URLs found in `text`, in order of position.
pub uninterp spec fn url_match_spans(text: Seq<u8>) -> Seq<(usize, usize)>;

/// Relies on `regex::bytes::Regex::find_iter` with the fixed pattern
/// `https?://` followed by one or more RFC 3986 unreserved/reserved bytes:
/// it yields successive non-overlapping matches of that shape, in order of
/// position and within bounds, and depends on the text alone.
#[verifier::external_body]
fn url_find_spans(text: &Vec<u8>) -> (r: Vec<(usize, usize)>)
    ensures
        r@ == url_match_spans(text@),
        spans_wf(r@, text@.len() as int),
        forall|i: int| 0 <= i < r@.len() ==> is_url_match(
            text@.subrange(#[trigger] r@[i].0 as int, r@[i].1 as int),
        ),
{
    let re = regex::bytes::Regex::new(
        r"(?P<p>https?)://(?P<l>[A-Za-z0-9\-_\.\~:/\?\#\[\]@!\$\&'\(\)\*\+,;=]+)",
    ).unwrap();
    re.find_iter(text).map(|m| (m.start(), m.end())).collect()
}

/// The events one part becomes: plain text stays text, a matched URL becomes
/// a start/text/end link triple whose visible text and destination equal the
/// URL.
pub open spec fn part_events(p: PartModel) -> Seq<EvModel> {
    match p {
        PartModel::NoMatch(t) => seq![EvModel::Text(t)],
        PartModel::Match(u) => seq![
            EvModel::Start(TagModel::Link(LinkKind::Autolink, u, Seq::empty())),
            EvModel::Text(u),
            EvModel::End(TagModel::Link(LinkKind::Autolink, u, Seq::empty())),
        ],
    }
}

/// The events a part list becomes, in order.
pub open spec fn linkify_parts(ps: Seq<PartModel>) -> Seq<EvModel>
    decreases ps.len(),
{
    if ps.len() == 0 {
        Seq::empty()
    } else {
        part_events(ps[0]) + linkify_parts(ps.drop_first())
    }
}

pub proof fn lemma_linkify_parts_push(ps: Seq<PartModel>, x: PartModel)
    ensures
        linkify_parts(ps.push(x)) == linkify_parts(ps) + part_events(x),
    decreases ps.len(),
{
    if ps.len() == 0 {
        assert(ps.push(x).drop_first() =~= Seq::<PartModel>::empty());
        assert(ps.push(x)[0] == x);
        assert(linkify_parts(ps.push(x)) == part_events(x) + linkify_parts(
            ps.push(x).drop_first(),
        ));
        assert(linkify_parts(ps.push(x)) =~= linkify_parts(ps) + part_events(x));
    } else {
        assert(ps.push(x).drop_first() =~= ps.drop_first().push(x));
        lemma_linkify_parts_push(ps.drop_first(), x);
        assert(part_events(ps[0]) + (linkify_parts(ps.drop_first()) + part_events(x))
            =~= (part_events(ps[0]) + linkify_parts(ps.drop_first())) + part_events(x));
    }
}

/// The events a text event's content becomes: its partition against the URL
/// pattern, each part expanded by [`part_events`].
pub open spec fn linkify(t: Seq<u8>) -> Seq<EvModel> {
    linkify_parts(partition_spec(t, url_match_spans(t)))
}

/// The autolinked form of an event sequence, given whether the sequence
/// starts inside a link region: text outside links is linkified, text inside
/// links passes through, and link start/end tags toggle the region.
pub open spec fn link_spec(s: Seq<EvModel>, inside: bool) -> Seq<EvModel>
    decreases s.len(),
{
    if s.len() == 0 {
        Seq::empty()
    } else {
        match s[0] {
            EvModel::Start(TagModel::Link(_, _, _)) => seq![s[0]] + link_spec(
                s.drop_first(),
                true,
            ),
            EvModel::End(TagModel::Link(_, _, _)) => seq![s[0]] + link_spec(
                s.drop_first(),
                false,
            ),
            EvModel::Text(t) => if inside {
                seq![s[0]] + link_spec(s.drop_first(), true)
            } else {
                linkify(t) + link_spec(s.drop_first(), false)
            },
            _ => seq![s[0]] + link_spec(s.drop_first(), inside),
        }
    }
}

/// Expands a text content into its autolinked event list.
fn linkify_text(t: Vec<u8>) -> (r: Vec<Event>)
    ensures
        evs(r@) == linkify(t@),
{
    let ghost t0 = t@;
    let spans: Vec<(usize, usize)> = url_find_spans(&t);
    let mut splitter = Partition::new(t, &spans);
    let pieces: Vec<crate::partition::Part> = splitter.collect_parts();
    let ghost ps = parts(pieces@);
    proof {
        assert(ps == partition_spec(t0, url_match_spans(t0)));
    }
    let mut out: Vec<Event> = Vec::new();
    let mut i: usize = 0;
    while i < pieces.len()
        invariant
            i <= pieces@.len(),
            ps == parts(pieces@),
            evs(out@) == linkify_parts(ps.take(i as int)),
        decreases pieces@.len() - i,
    {
        proof {
            assert(ps.take(i as int + 1) =~= ps.take(i as int).push(ps[i as int]));
            lemma_linkify_parts_push(ps.take(i as int), ps[i as int]);
            assert(ps[i as int] == pieces@[i as int]@);
        }
        let ghost out_pre = evs(out@);
        match &pieces[i] {
            crate::partition::Part::NoMatch(text) => {
                out.push(Event::Text(copy_bytes(text)));
                proof {
                    assert(evs(out@) =~= out_pre + part_events(ps[i as int]));
                }
            },
            crate::partition::Part::Match(url) => {
                out.push(
                    Event::Start(Tag::Link(LinkKind::Autolink, copy_bytes(url), Vec::new())),
                );
                out.push(Event::Text(copy_bytes(url)));
                out.push(Event::End(Tag::Link(LinkKind::Autolink, copy_bytes(url), Vec::new())));
                proof {
                    assert(evs(out@) =~= out_pre + part_events(ps[i as int]));
                }
            },
        }
        i = i + 1;
    }
    proof {
        assert(ps.take(ps.len() as int) =~= ps);
    }
    out
}

/// A stream stage that turns bare URLs in text events into link triples,
/// leaving the interior of existing link regions untouched.
pub struct LinkHighlightStream {
    input: Vec<Event>,
    pos: usize,
    queue: Vec<Event>,
    qpos: usize,
    inside_link: bool,
}

impl LinkHighlightStream {
    /// Internal consistency of the stage state.
    pub closed spec fn wf(self) -> bool {
        &&& self.pos <= self.input@.len()
        &&& self.qpos <= self.queue@.len()
    }

    /// The events this stage has yet to yield.
    pub closed spec fn remaining(self) -> Seq<EvModel> {
        evs(self.queue@).skip(self.qpos as int) + link_spec(
            evs(self.input@).skip(self.pos as int),
            self.inside_link,
        )
    }

    /// Wraps an event sequence; the stage starts outside any link region.
    pub fn new(input: Vec<Event>) -> (r: LinkHighlightStream)
        ensures
            r.wf(),
            r.remaining() == link_spec(evs(input@), false),
    {
        let r = LinkHighlightStream {
            input,
            pos: 0,
            queue: Vec::new(),
            qpos: 0,
            inside_link: false,
        };
        proof {
            assert(evs(r.input@).skip(0) =~= evs(r.input@));
            assert(evs(r.queue@).skip(0) =~= Seq::<EvModel>::empty());
            assert(r.remaining() =~= link_spec(evs(r.input@), false));
        }
        r
    }

    /// Yields the next event, or `None` once the input is exhausted.
    pub fn next(&mut self) -> (r: Option<Event>)
        requires
            old(self).wf(),
        ensures
            final(self).wf(),
            match r {
                Option::None => old(self).remaining().len() == 0
                    && final(self).remaining().len() == 0,
                Option::Some(e) => old(self).remaining().len() > 0
                    && e@ == old(self).remaining()[0]
                    && final(self).remaining() == old(self).remaining().drop_first(),
            },
    {
        loop
            invariant
                self.wf(),
                self.remaining() == old(self).remaining(),
            decreases self.input@.len() - self.pos,
        {
            let ghost q = evs(self.queue@).skip(self.qpos as int);
            let ghost s = evs(self.input@).skip(self.pos as int);
            if self.qpos < self.queue.len() {
                let e = clone_event(&self.queue[self.qpos]);
                self.qpos = self.qpos + 1;
                proof {
                    assert(q[0] == evs(self.queue@)[self.qpos - 1]);
                    assert(evs(self.queue@).skip(self.qpos as int) =~= q.drop_first());
                    assert((q + link_spec(s, self.inside_link)).drop_first() =~= q.drop_first()
                        + link_spec(s, self.inside_link));
                }
                return Some(e);
            }
            proof {
                assert(q =~= Seq::<EvModel>::empty());
                assert(self.remaining() =~= link_spec(s, self.inside_link));
            }
            if self.pos == self.input.len() {
                return None;
            }
            proof {
                assert(s[0] == evs(self.input@)[self.pos as int]);
                assert(evs(self.input@).skip(self.pos as int + 1) =~= s.drop_first());
            }
            let handle_text = match &self.input[self.pos] {
                Event::Text(_) => !self.inside_link,
                _ => false,
            };
            if handle_text {
                let content = match &self.input[self.pos] {
                    Event::Text(t) => copy_bytes(t),
                    _ => Vec::new(),
                };
                self.pos = self.pos + 1;
                let replacement = linkify_text(content);
                self.queue = replacement;
                self.qpos = 0;
                proof {
                    assert(evs(self.queue@).skip(0) =~= evs(self.queue@));
                    assert(self.remaining() =~= old(self).remaining());
                }
                // The replacement queue is drained from its front; when the
                // text was empty the queue is too, and the pull continues.
            } else {
                let ghost ins0 = self.inside_link;
                let e = clone_event(&self.input[self.pos]);
                self.pos = self.pos + 1;
                match &e {
                    Event::Start(Tag::Link(_, _, _)) => {
                        self.inside_link = true;
                    },
                    Event::End(Tag::Link(_, _, _)) => {
                        self.inside_link = false;
                    },
                    _ => {},
                }
                proof {
                    assert(e@ == s[0]);
                    assert(link_spec(s, ins0) == seq![s[0]] + link_spec(
                        s.drop_first(),
                        self.inside_link,
                    ));
                    assert((seq![s[0]] + link_spec(s.drop_first(), self.inside_link))
                        .drop_first() =~= link_spec(s.drop_first(), self.inside_link));
                    assert(self.remaining() =~= link_spec(s.drop_first(), self.inside_link));
                }
                return Some(e);
            }
        }
    }

    /// Drains the stage into a vector of events, in order.
    pub fn collect_all(&mut self) -> (r: Vec<Event>)
        requires
            old(self).wf(),
        ensures
            final(self).wf(),
            evs(r@) == old(self).remaining(),
            final(self).remaining().len() == 0,
    {
        let mut out: Vec<Event> = Vec::new();
        loop
            invariant
                self.wf(),
                evs(out@) + self.remaining() == old(self).remaining(),
            ensures
                self.wf(),
                evs(out@) == old(self).remaining(),
                self.remaining().len() == 0,
            decreases self.remaining().len(),
        {
            let ghost prev = self.remaining();
            match self.next() {
                Some(e) => {
                    proof {
                        assert(evs(out@.push(e)) =~= evs(out@).push(e@));
                        assert(evs(out@).push(e@) + prev.drop_first() =~= evs(out@) + prev);
                    }
                    out.push(e);
                },
                None => {
                    proof {
                        assert(evs(out@) =~= evs(out@) + self.remaining());
                    }
                    break ;
                },
            }
        }
        out
    }
}

/// Autolinks an event sequence in one step.
pub fn link_events(input: Vec<Event>) -> (r: Vec<Event>)
    ensures
        evs(r@) == link_spec(evs(input@), false),
{
    let mut stage = LinkHighlightStream::new(input);
    stage.collect_all()
}

/// Whether every text event of `s` lies inside a link region, given whether
/// the sequence starts inside one.
pub open spec fn links_cover_texts(s: Seq<EvModel>, inside: bool) -> bool
    decreases s.len(),
{
    if s.len() == 0 {
        true
    } else {
        match s[0] {
            EvModel::Start(TagModel::Link(_, _, _)) => links_cover_texts(s.drop_first(), true),
            EvModel::End(TagModel::Link(_, _, _)) => links_cover_texts(s.drop_first(), false),
            EvModel::Text(_) => inside && links_cover_texts(s.drop_first(), inside),
            _ => links_cover_texts(s.drop_first(), inside),
        }
    }
}

/// Link-highlight non-reentry law: a sequence whose text events all lie
/// inside link regions — a link start/text/end triple in particular — is a
/// fixed point of the stage.
pub proof fn lemma_link_fixed_point(s: Seq<EvModel>, inside: bool)
    requires
        links_cover_texts(s, inside),
    ensures
        link_spec(s, inside) == s,
    decreases s.len(),
{
    if s.len() > 0 {
        let rest = s.drop_first();
        match s[0] {
            EvModel::Start(TagModel::Link(_, _, _)) => {
                lemma_link_fixed_point(rest, true);
            },
            EvModel::End(TagModel::Link(_, _, _)) => {
                lemma_link_fixed_point(rest, false);
            },
            EvModel::Text(_) => {
                lemma_link_fixed_point(rest, inside);
            },
            _ => {
                lemma_link_fixed_point(rest, inside);
            },
        }
        assert(seq![s[0]] + rest =~= s);
    }
}

} // verus!
