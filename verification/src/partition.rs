//! Decomposition of a byte string into alternating matched and unmatched
//! spans against a pattern.
//!
//! The pattern's matches arrive as a list of byte ranges. The ranges are first
//! normalized: empty ranges are dropped and adjacent ranges are coalesced into
//! one, so that the emitted parts are never empty and never repeat a kind.
//! [`lemma_partition_round_trip`] states the round-trip law: the parts
//! concatenate back to the source string exactly.

use vstd::prelude::*;

use crate::events::bytes_range;

verus! {

/// One span of a partitioned string: either outside every match or inside one.
#[derive(Clone, Debug, PartialEq, Eq)]
pub enum Part {
    NoMatch(Vec<u8>),
    Match(Vec<u8>),
}

/// The model of a [`Part`].
pub enum PartModel {
    NoMatch(Seq<u8>),
    Match(Seq<u8>),
}

impl View for Part {
    type V = PartModel;

    open spec fn view(&self) -> PartModel {
        match self {
            Part::NoMatch(t) => PartModel::NoMatch(t@),
            Part::Match(t) => PartModel::Match(t@),
        }
    }
}

/// The bytes a part carries, whatever its kind.
pub open spec fn part_content(p: PartModel) -> Seq<u8> {
    match p {
        PartModel::NoMatch(t) => t,
        PartModel::Match(t) => t,
    }
}

/// Whether a part is a matched span.
pub open spec fn part_is_match(p: PartModel) -> bool {
    p matches PartModel::Match(_)
}

impl Part {
    /// The bytes of the part, whatever its kind.
    pub fn as_str(&self) -> (r: &Vec<u8>)
        ensures
            r@ == part_content(self@),
    {
        match self {
            Part::NoMatch(t) => t,
            Part::Match(t) => t,
        }
    }
}

/// The model of a part sequence.
pub open spec fn parts(s: Seq<Part>) -> Seq<PartModel> {
    s.map_values(|p: Part| p@)
}

/// Well-formed raw match ranges over a string of length `n`: in bounds,
/// ordered, and non-overlapping. This is the shape a pattern's match iterator
/// yields.
pub open spec fn spans_wf(sp: Seq<(usize, usize)>, n: int) -> bool {
    &&& forall|i: int| 0 <= i < sp.len() ==> #[trigger] sp[i].0 <= sp[i].1 <= n
    &&& forall|i: int| 0 <= i < sp.len() - 1 ==> #[trigger] sp[i].1 <= sp[i + 1].0
}

/// Normalized ranges: non-empty, in bounds, and strictly separated.
pub open spec fn normalized(ns: Seq<(int, int)>, n: int) -> bool {
    &&& forall|i: int| 0 <= i < ns.len() ==> 0 <= #[trigger] ns[i].0 < ns[i].1 <= n
    &&& forall|i: int| 0 <= i < ns.len() - 1 ==> #[trigger] ns[i].1 < ns[i + 1].0
}

/// Raw ranges as mathematical pairs.
pub open spec fn spans_int(sp: Seq<(usize, usize)>) -> Seq<(int, int)> {
    sp.map_values(|p: (usize, usize)| (p.0 as int, p.1 as int))
}

/// Appends one raw range to a normalized prefix: an empty range is dropped,
/// a range adjacent to the last kept one is merged into it.
pub open spec fn norm_push(acc: Seq<(int, int)>, s: int, e: int) -> Seq<(int, int)> {
    if s == e {
        acc
    } else if acc.len() > 0 && acc.last().1 == s {
        acc.update(acc.len() - 1, (acc.last().0, e))
    } else {
        acc.push((s, e))
    }
}

/// The normalized form of a raw range list.
pub open spec fn norm_spec(sp: Seq<(usize, usize)>) -> Seq<(int, int)>
    decreases sp.len(),
{
    if sp.len() == 0 {
        Seq::empty()
    } else {
        norm_push(norm_spec(sp.drop_last()), sp.last().0 as int, sp.last().1 as int)
    }
}

/// Normalization of well-formed ranges yields normalized ranges whose last
/// end does not pass the last raw end.
pub proof fn lemma_norm_spec_wf(sp: Seq<(usize, usize)>, n: int)
    requires
        spans_wf(sp, n),
    ensures
        normalized(norm_spec(sp), n),
        norm_spec(sp).len() > 0 ==> sp.len() > 0 && norm_spec(sp).last().1 <= sp.last().1,
    decreases sp.len(),
{
    if sp.len() > 0 {
        let pre = sp.drop_last();
        assert(spans_wf(pre, n));
        lemma_norm_spec_wf(pre, n);
        let acc = norm_spec(pre);
        let s = sp.last().0 as int;
        let e = sp.last().1 as int;
        if acc.len() > 0 {
            assert(pre.last() == sp[sp.len() - 2]);
            assert(sp[sp.len() - 2].1 <= sp[sp.len() - 1].0);
            assert(acc.last().1 <= s);
        }
        if s == e {
        } else if acc.len() > 0 && acc.last().1 == s {
            let merged = acc.update(acc.len() - 1, (acc.last().0, e));
            assert forall|i: int| 0 <= i < merged.len() implies 0 <= #[trigger] merged[i].0
                < merged[i].1 <= n by {
                if i < merged.len() - 1 {
                    assert(merged[i] == acc[i]);
                }
            }
        } else {
        }
    }
}

/// The parts of `text` from position `pos` onward, given the normalized
/// ranges at or after `pos`.
pub open spec fn parts_from(text: Seq<u8>, ns: Seq<(int, int)>, pos: int) -> Seq<PartModel>
    decreases ns.len(),
{
    if ns.len() == 0 {
        if pos < text.len() {
            seq![PartModel::NoMatch(text.subrange(pos, text.len() as int))]
        } else {
            Seq::empty()
        }
    } else {
        let s = ns[0].0;
        let e = ns[0].1;
        let m = seq![PartModel::Match(text.subrange(s, e))] + parts_from(text, ns.drop_first(), e);
        if pos < s {
            seq![PartModel::NoMatch(text.subrange(pos, s))] + m
        } else {
            m
        }
    }
}

/// The full partition of `text` against the raw match ranges `sp`.
pub open spec fn partition_spec(text: Seq<u8>, sp: Seq<(usize, usize)>) -> Seq<PartModel> {
    parts_from(text, norm_spec(sp), 0)
}

/// The concatenation of the bytes of all parts, in order.
pub open spec fn parts_concat(ps: Seq<PartModel>) -> Seq<u8>
    decreases ps.len(),
{
    if ps.len() == 0 {
        Seq::empty()
    } else {
        part_content(ps[0]) + parts_concat(ps.drop_first())
    }
}

/// Core of the round-trip law, for any suffix position.
pub proof fn lemma_parts_from_round_trip(text: Seq<u8>, ns: Seq<(int, int)>, pos: int)
    requires
        normalized(ns, text.len() as int),
        0 <= pos <= text.len(),
        ns.len() > 0 ==> pos <= ns[0].0,
    ensures
        parts_concat(parts_from(text, ns, pos)) == text.subrange(pos, text.len() as int),
        forall|i: int| 0 <= i < parts_from(text, ns, pos).len() ==> part_content(
            #[trigger] parts_from(text, ns, pos)[i],
        ).len() > 0,
        forall|i: int| 0 <= i < parts_from(text, ns, pos).len() - 1 ==> part_is_match(
            #[trigger] parts_from(text, ns, pos)[i],
        ) != part_is_match(parts_from(text, ns, pos)[i + 1]),
        parts_from(text, ns, pos).len() > 0 ==> (part_is_match(parts_from(text, ns, pos)[0])
            <==> (ns.len() > 0 && pos == ns[0].0)),
    decreases ns.len(),
{
    let ps = parts_from(text, ns, pos);
    if ns.len() == 0 {
        if pos < text.len() {
            assert(ps =~= seq![PartModel::NoMatch(text.subrange(pos, text.len() as int))]);
            assert(ps.drop_first() =~= Seq::<PartModel>::empty());
            assert(parts_concat(Seq::<PartModel>::empty()) =~= Seq::<u8>::empty());
            assert(parts_concat(ps) == part_content(ps[0]) + parts_concat(ps.drop_first()));
            assert(parts_concat(ps) =~= text.subrange(pos, text.len() as int));
        } else {
            assert(text.subrange(pos, text.len() as int) =~= Seq::<u8>::empty());
        }
    } else {
        let s = ns[0].0;
        let e = ns[0].1;
        let rest = ns.drop_first();
        assert(normalized(rest, text.len() as int)) by {
            assert forall|i: int| 0 <= i < rest.len() implies 0 <= #[trigger] rest[i].0
                < rest[i].1 <= text.len() by {
                assert(rest[i] == ns[i + 1]);
            }
            assert forall|i: int| 0 <= i < rest.len() - 1 implies #[trigger] rest[i].1
                < rest[i + 1].0 by {
                assert(rest[i] == ns[i + 1]);
                assert(rest[i + 1] == ns[i + 2]);
            }
        }
        assert(rest.len() > 0 ==> e <= rest[0].0) by {
            if rest.len() > 0 {
                assert(rest[0] == ns[1]);
            }
        }
        lemma_parts_from_round_trip(text, rest, e);
        let tail = parts_from(text, rest, e);
        let m = seq![PartModel::Match(text.subrange(s, e))] + tail;
        // The tail never begins with a match: either it is the final flush or
        // the strict separation leaves a gap first.
        assert(tail.len() > 0 ==> !part_is_match(tail[0]));
        assert(m.drop_first() =~= tail);
        assert(parts_concat(m) == text.subrange(s, e) + parts_concat(tail));
        assert(text.subrange(s, e) + text.subrange(e, text.len() as int) =~= text.subrange(
            s,
            text.len() as int,
        ));
        if pos < s {
            assert(ps =~= seq![PartModel::NoMatch(text.subrange(pos, s))] + m);
            assert(ps.drop_first() =~= m);
            assert(parts_concat(ps) == text.subrange(pos, s) + parts_concat(m));
            assert(text.subrange(pos, s) + text.subrange(s, text.len() as int) =~= text.subrange(
                pos,
                text.len() as int,
            ));
            assert forall|i: int| 0 <= i < ps.len() implies part_content(
                #[trigger] ps[i],
            ).len() > 0 by {
                if i >= 2 {
                    assert(ps[i] == tail[i - 2]);
                }
            }
            assert forall|i: int| 0 <= i < ps.len() - 1 implies part_is_match(#[trigger] ps[i])
                != part_is_match(ps[i + 1]) by {
                if i >= 2 {
                    assert(ps[i] == tail[i - 2]);
                    assert(ps[i + 1] == tail[i - 1]);
                }
            }
        } else {
            assert(ps =~= m);
            assert forall|i: int| 0 <= i < ps.len() implies part_content(
                #[trigger] ps[i],
            ).len() > 0 by {
                if i >= 1 {
                    assert(ps[i] == tail[i - 1]);
                }
            }
            assert forall|i: int| 0 <= i < ps.len() - 1 implies part_is_match(#[trigger] ps[i])
                != part_is_match(ps[i + 1]) by {
                if i >= 1 {
                    assert(ps[i] == tail[i - 1]);
                    assert(ps[i + 1] == tail[i]);
                }
            }
        }
    }
}

/// Partition round-trip law: for every input string and every well-formed
/// list of match ranges, the parts concatenate back to the input exactly, no
/// part is empty, and no two consecutive parts have the same kind.
pub proof fn lemma_partition_round_trip(text: Seq<u8>, sp: Seq<(usize, usize)>)
    requires
        spans_wf(sp, text.len() as int),
    ensures
        parts_concat(partition_spec(text, sp)) == text,
        forall|i: int| 0 <= i < partition_spec(text, sp).len() ==> part_content(
            #[trigger] partition_spec(text, sp)[i],
        ).len() > 0,
        forall|i: int| 0 <= i < partition_spec(text, sp).len() - 1 ==> part_is_match(
            #[trigger] partition_spec(text, sp)[i],
        ) != part_is_match(partition_spec(text, sp)[i + 1]),
{
    lemma_norm_spec_wf(sp, text.len() as int);
    lemma_parts_from_round_trip(text, norm_spec(sp), 0);
    assert(text.subrange(0, text.len() as int) =~= text);
}

/// Normalizes raw match ranges: drops empty ones, merges adjacent ones.
fn normalize_spans(spans: &Vec<(usize, usize)>) -> (r: Vec<(usize, usize)>)
    ensures
        spans_int(r@) == norm_spec(spans@),
{
    let mut out: Vec<(usize, usize)> = Vec::new();
    let mut i: usize = 0;
    while i < spans.len()
        invariant
            i <= spans@.len(),
            spans_int(out@) == norm_spec(spans@.take(i as int)),
        decreases spans@.len() - i,
    {
        let sp: (usize, usize) = spans[i];
        let s: usize = sp.0;
        let e: usize = sp.1;
        proof {
            assert(spans@.take(i as int + 1).drop_last() =~= spans@.take(i as int));
            assert(spans@.take(i as int + 1).last() == spans@[i as int]);
        }
        if s == e {
        } else if out.len() > 0 && out[out.len() - 1].1 == s {
            let prev: (usize, usize) = out[out.len() - 1];
            out.pop();
            out.push((prev.0, e));
            proof {
                let acc = norm_spec(spans@.take(i as int));
                assert(spans_int(out@) =~= acc.update(acc.len() - 1, (acc.last().0, e as int)));
            }
        } else {
            out.push((s, e));
            proof {
                let acc = norm_spec(spans@.take(i as int));
                assert(spans_int(out@) =~= acc.push((s as int, e as int)));
            }
        }
        i = i + 1;
    }
    proof {
        assert(spans@.take(spans@.len() as int) =~= spans@);
    }
    out
}

#[verifier::external_type_specification]
#[verifier::external_body]
pub struct ExRegex(regex::bytes::Regex);

/// Relies on `regex::bytes::Regex::find_iter`: it yields successive
/// non-overlapping matches of the pattern, in order of position, each within
/// the bounds of the haystack.
#[verifier::external_body]
fn find_spans(re: &regex::bytes::Regex, text: &Vec<u8>) -> (r: Vec<(usize, usize)>)
    ensures
        spans_wf(r@, text@.len() as int),
{
    re.find_iter(text).map(|m| (m.start(), m.end())).collect()
}

/// A lazy splitter of a byte string into alternating matched and unmatched
/// parts. Construct one with [`Partition::new`] from raw match ranges, or
/// with [`partition`] from a pattern; pull parts with [`Partition::next`].
pub struct Partition {
    text: Vec<u8>,
    spans: Vec<(usize, usize)>,
    idx: usize,
    pos: usize,
}

impl Partition {
    /// Internal consistency of the splitter state.
    pub closed spec fn wf(self) -> bool {
        &&& normalized(spans_int(self.spans@), self.text@.len() as int)
        &&& self.idx <= self.spans@.len()
        &&& self.pos <= self.text@.len()
        &&& self.idx < self.spans@.len() ==> self.pos <= self.spans@[self.idx as int].0
    }

    /// The parts this splitter has yet to yield.
    pub closed spec fn remaining(self) -> Seq<PartModel> {
        parts_from(self.text@, spans_int(self.spans@).skip(self.idx as int), self.pos as int)
    }

    /// Builds a splitter of `text` against the well-formed raw match ranges
    /// `spans`.
    pub fn new(text: Vec<u8>, spans: &Vec<(usize, usize)>) -> (r: Partition)
        requires
            spans_wf(spans@, text@.len() as int),
        ensures
            r.wf(),
            r.remaining() == partition_spec(text@, spans@),
    {
        proof {
            lemma_norm_spec_wf(spans@, text@.len() as int);
        }
        let norm: Vec<(usize, usize)> = normalize_spans(spans);
        let r = Partition { text, spans: norm, idx: 0, pos: 0 };
        proof {
            assert(spans_int(r.spans@).skip(0) =~= spans_int(r.spans@));
        }
        r
    }

    /// Yields the next part, or `None` once the input is exhausted.
    pub fn next(&mut self) -> (r: Option<Part>)
        requires
            old(self).wf(),
        ensures
            final(self).wf(),
            match r {
                Option::None => old(self).remaining().len() == 0
                    && final(self).remaining().len() == 0,
                Option::Some(p) => old(self).remaining().len() > 0
                    && p@ == old(self).remaining()[0]
                    && final(self).remaining() == old(self).remaining().drop_first(),
            },
    {
        let ghost ns = spans_int(old(self).spans@).skip(old(self).idx as int);
        if self.idx < self.spans.len() {
            let sp: (usize, usize) = self.spans[self.idx];
            let s: usize = sp.0;
            let e: usize = sp.1;
            proof {
                assert(ns[0] == spans_int(self.spans@)[self.idx as int]);
            }
            if self.pos < s {
                let part = Part::NoMatch(bytes_range(&self.text, self.pos, s));
                self.pos = s;
                proof {
                    assert(self.remaining() =~= old(self).remaining().drop_first());
                }
                Some(part)
            } else {
                let part = Part::Match(bytes_range(&self.text, s, e));
                self.pos = e;
                self.idx = self.idx + 1;
                proof {
                    assert(spans_int(self.spans@).skip(self.idx as int) =~= ns.drop_first());
                    if self.idx < self.spans@.len() {
                        assert(spans_int(self.spans@)[self.idx - 1].1 < spans_int(
                            self.spans@,
                        )[self.idx as int].0);
                    }
                    assert(self.remaining() =~= old(self).remaining().drop_first());
                }
                Some(part)
            }
        } else {
            proof {
                assert(ns =~= Seq::<(int, int)>::empty());
            }
            if self.pos < self.text.len() {
                let part = Part::NoMatch(bytes_range(&self.text, self.pos, self.text.len()));
                self.pos = self.text.len();
                proof {
                    assert(self.remaining() =~= old(self).remaining().drop_first());
                }
                Some(part)
            } else {
                None
            }
        }
    }

    /// Drains the splitter into a vector of parts, in order.
    pub fn collect_parts(&mut self) -> (r: Vec<Part>)
        requires
            old(self).wf(),
        ensures
            final(self).wf(),
            parts(r@) == old(self).remaining(),
            final(self).remaining().len() == 0,
    {
        let mut out: Vec<Part> = Vec::new();
        loop
            invariant
                self.wf(),
                parts(out@) + self.remaining() == old(self).remaining(),
            ensures
                self.wf(),
                parts(out@) == old(self).remaining(),
                self.remaining().len() == 0,
            decreases self.remaining().len(),
        {
            let ghost prev = self.remaining();
            match self.next() {
                Some(p) => {
                    proof {
                        assert(parts(out@.push(p)) =~= parts(out@).push(p@));
                        assert(parts(out@).push(p@) + prev.drop_first() =~= parts(out@) + prev);
                    }
                    out.push(p);
                },
                None => {
                    proof {
                        assert(parts(out@) =~= parts(out@) + self.remaining());
                    }
                    break ;
                },
            }
        }
        out
    }
}

/// Splits `text` into the alternating unmatched and matched spans of the
/// pattern `re`. The parts reconstruct `text` exactly, none is empty, and no
/// two consecutive parts have the same kind.
pub fn partition(re: &regex::bytes::Regex, text: Vec<u8>) -> (r: Partition)
    ensures
        r.wf(),
        parts_concat(r.remaining()) == text@,
        forall|i: int| 0 <= i < r.remaining().len() ==> part_content(
            #[trigger] r.remaining()[i],
        ).len() > 0,
        forall|i: int| 0 <= i < r.remaining().len() - 1 ==> part_is_match(
            #[trigger] r.remaining()[i],
        ) != part_is_match(r.remaining()[i + 1]),
{
    let spans: Vec<(usize, usize)> = find_spans(re, &text);
    proof {
        lemma_partition_round_trip(text@, spans@);
    }
    Partition::new(text, &spans)
}

} // verus!
