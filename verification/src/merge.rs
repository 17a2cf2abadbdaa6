//! Coalescing of adjacent text events.
//!
//! [`TextMergeStream`] wraps an event sequence and replaces every maximal run
//! of two or more consecutive text events by a single text event carrying
//! their concatenated content, in order; a merged run whose content is empty
//! is dropped entirely. Single text events pass through unchanged, as does
//! every non-text event. [`lemma_merge_idempotent`] and
//! [`lemma_merge_completeness`] state the stage's laws.

use vstd::prelude::*;

use crate::events::{clone_event, copy_bytes, evs, EvModel, Event};

verus! {

/// The number of consecutive text events at the head of `s`.
pub open spec fn text_run_len(s: Seq<EvModel>) -> nat
    decreases s.len(),
{
    if s.len() == 0 {
        0
    } else {
        match s[0] {
            EvModel::Text(_) => 1 + text_run_len(s.drop_first()),
            _ => 0,
        }
    }
}

/// The concatenated content of the text events at the head of `s`.
pub open spec fn text_run_content(s: Seq<EvModel>) -> Seq<u8>
    decreases s.len(),
{
    if s.len() == 0 {
        Seq::empty()
    } else {
        match s[0] {
            EvModel::Text(t) => t + text_run_content(s.drop_first()),
            _ => Seq::empty(),
        }
    }
}

/// Shape of the head text run: its length is bounded by the sequence, covers
/// only text events, and stops at the first non-text event.
pub proof fn lemma_text_run(s: Seq<EvModel>)
    ensures
        text_run_len(s) <= s.len(),
        s.len() > 0 && (s[0] matches EvModel::Text(_)) ==> text_run_len(s) >= 1,
        forall|j: int|
            0 <= j < text_run_len(s) ==> (#[trigger] s[j] matches EvModel::Text(_)),
        text_run_len(s) < s.len() ==> !(s[text_run_len(s) as int] matches EvModel::Text(_)),
    decreases s.len(),
{
    if s.len() > 0 {
        match s[0] {
            EvModel::Text(_) => {
                lemma_text_run(s.drop_first());
                let n = text_run_len(s) as int;
                assert forall|j: int|
                    0 <= j < text_run_len(s) implies (#[trigger] s[j] matches EvModel::Text(
                    _,
                )) by {
                    if j > 0 {
                        assert(s.drop_first()[j - 1] == s[j]);
                    }
                }
                if n < s.len() {
                    assert(s.drop_first()[n - 1] == s[n]);
                }
            },
            _ => {},
        }
    }
}

#[via_fn]
proof fn merge_spec_dec(s: Seq<EvModel>) {
    if s.len() > 0 {
        lemma_text_run(s);
    }
}

/// The merged form of an event sequence: every maximal text run becomes one
/// text event with the run's concatenated content; a run of two or more
/// whose content is empty disappears; everything else is kept in order.
pub open spec fn merge_spec(s: Seq<EvModel>) -> Seq<EvModel>
    decreases s.len(),
    via merge_spec_dec
{
    if s.len() == 0 {
        Seq::empty()
    } else {
        match s[0] {
            EvModel::Text(_) => {
                let n = text_run_len(s) as int;
                let c = text_run_content(s);
                if n == 1 || c.len() > 0 {
                    seq![EvModel::Text(c)] + merge_spec(s.skip(n))
                } else {
                    merge_spec(s.skip(n))
                }
            },
            _ => seq![s[0]] + merge_spec(s.drop_first()),
        }
    }
}

/// A stream stage that coalesces adjacent text events of its input.
pub struct TextMergeStream {
    input: Vec<Event>,
    pos: usize,
}

impl TextMergeStream {
    /// Internal consistency of the stage state.
    pub closed spec fn wf(self) -> bool {
        self.pos <= self.input@.len()
    }

    /// The merged events this stage has yet to yield.
    pub closed spec fn remaining(self) -> Seq<EvModel> {
        merge_spec(evs(self.input@).skip(self.pos as int))
    }

    /// Wraps an event sequence.
    pub fn new(input: Vec<Event>) -> (r: TextMergeStream)
        ensures
            r.wf(),
            r.remaining() == merge_spec(evs(input@)),
    {
        let r = TextMergeStream { input, pos: 0 };
        proof {
            assert(evs(r.input@).skip(0) =~= evs(r.input@));
        }
        r
    }

    /// Yields the next merged event, or `None` once the input is exhausted.
    pub fn next(&mut self) -> (r: Option<Event>)
        requires
            old(self).wf(),
        ensures
            final(self).wf(),
            match r {
                Option::None => old(self).remaining().len() == 0
                    && final(self).remaining().len() == 0,
                Option::Some(e) => old(self).remaining().len() > 0
                    && e@ == old(self).remaining()[0]
                    && final(self).remaining() == old(self).remaining().drop_first(),
            },
    {
        loop
            invariant
                self.wf(),
                self.input@ == old(self).input@,
                self.remaining() == old(self).remaining(),
            decreases self.input@.len() - self.pos,
        {
            let ghost s = evs(self.input@).skip(self.pos as int);
            if self.pos == self.input.len() {
                proof {
                    assert(s.len() == 0);
                }
                return None;
            }
            proof {
                assert(s[0] == evs(self.input@)[self.pos as int]);
            }
            let is_text = match &self.input[self.pos] {
                Event::Text(_) => true,
                _ => false,
            };
            if is_text {
                proof {
                    lemma_text_run(s);
                }
                let mut c: Vec<u8> = Vec::new();
                let mut k: usize = self.pos;
                let ghost p0 = self.pos as int;
                proof {
                    assert(s.skip(0) =~= s);
                    assert(Seq::<u8>::empty() + text_run_content(s) =~= text_run_content(s));
                }
                loop
                    invariant
                        self.wf(),
                        self.input@ == old(self).input@,
                        p0 == self.pos as int,
                        self.pos <= k <= self.input@.len(),
                        s == evs(self.input@).skip(p0),
                        (k - p0) + text_run_len(s.skip(k - p0)) == text_run_len(s),
                        c@ + text_run_content(s.skip(k - p0)) == text_run_content(s),
                    ensures
                        self.wf(),
                        self.input@ == old(self).input@,
                        p0 == self.pos as int,
                        self.pos <= k <= self.input@.len(),
                        k - p0 == text_run_len(s),
                        c@ == text_run_content(s),
                    decreases self.input@.len() - k,
                {
                    if k == self.input.len() {
                        proof {
                            assert(s.skip(k - p0).len() == 0);
                            assert(text_run_content(s.skip(k - p0)) =~= Seq::<u8>::empty());
                            assert(c@ + Seq::<u8>::empty() =~= c@);
                        }
                        break ;
                    }
                    proof {
                        assert(s.skip(k - p0)[0] == evs(self.input@)[k as int]);
                        assert(s.skip(k - p0).drop_first() =~= s.skip(k - p0 + 1));
                    }
                    match &self.input[k] {
                        Event::Text(t) => {
                            let ghost c_pre = c@;
                            let ghost t_snap = t@;
                            let mut piece: Vec<u8> = copy_bytes(t);
                            c.append(&mut piece);
                            k = k + 1;
                            proof {
                                assert(c@ == c_pre + t_snap);
                                assert((c_pre + t_snap) + text_run_content(s.skip(k - p0))
                                    =~= c_pre + (t_snap + text_run_content(s.skip(k - p0))));
                            }
                        },
                        _ => {
                            proof {
                                assert(!(s.skip(k - p0)[0] matches EvModel::Text(_)));
                                assert(text_run_len(s.skip(k - p0)) == 0);
                                assert(text_run_content(s.skip(k - p0)) =~= Seq::<u8>::empty());
                                assert(c@ + Seq::<u8>::empty() =~= c@);
                            }
                            break ;
                        },
                    }
                }
                let n = k - self.pos;
                self.pos = k;
                proof {
                    assert(evs(self.input@).skip(self.pos as int) =~= s.skip(n as int));
                }
                if n == 1 || c.len() > 0 {
                    proof {
                        assert(old(self).remaining() == seq![EvModel::Text(c@)] + merge_spec(
                            s.skip(n as int),
                        ));
                        assert((seq![EvModel::Text(c@)] + merge_spec(s.skip(n as int)))
                            .drop_first() =~= merge_spec(s.skip(n as int)));
                    }
                    return Some(Event::Text(c));
                }
                // A merged run with empty content is dropped; pull on.
            } else {
                let e = clone_event(&self.input[self.pos]);
                self.pos = self.pos + 1;
                proof {
                    assert(evs(self.input@).skip(self.pos as int) =~= s.drop_first());
                    assert((seq![s[0]] + merge_spec(s.drop_first())).drop_first() =~= merge_spec(
                        s.drop_first(),
                    ));
                }
                return Some(e);
            }
        }
    }

    /// Drains the stage into a vector of events, in order.
    pub fn collect_all(&mut self) -> (r: Vec<Event>)
        requires
            old(self).wf(),
        ensures
            final(self).wf(),
            evs(r@) == old(self).remaining(),
            final(self).remaining().len() == 0,
    {
        let mut out: Vec<Event> = Vec::new();
        loop
            invariant
                self.wf(),
                evs(out@) + self.remaining() == old(self).remaining(),
            ensures
                self.wf(),
                evs(out@) == old(self).remaining(),
                self.remaining().len() == 0,
            decreases self.remaining().len(),
        {
            let ghost prev = self.remaining();
            match self.next() {
                Some(e) => {
                    proof {
                        assert(evs(out@.push(e)) =~= evs(out@).push(e@));
                        assert(evs(out@).push(e@) + prev.drop_first() =~= evs(out@) + prev);
                    }
                    out.push(e);
                },
                None => {
                    proof {
                        assert(evs(out@) =~= evs(out@) + self.remaining());
                    }
                    break ;
                },
            }
        }
        out
    }
}

/// Merges an event sequence in one step.
pub fn merge_events(input: Vec<Event>) -> (r: Vec<Event>)
    ensures
        evs(r@) == merge_spec(evs(input@)),
{
    let mut stage = TextMergeStream::new(input);
    stage.collect_all()
}

/// Merge idempotence law: running the merge on already-merged events changes
/// nothing.
pub proof fn lemma_merge_idempotent(s: Seq<EvModel>)
    ensures
        merge_spec(merge_spec(s)) == merge_spec(s),
    decreases s.len(),
{
    if s.len() == 0 {
    } else {
        lemma_text_run(s);
        match s[0] {
            EvModel::Text(_) => {
                let n = text_run_len(s) as int;
                let c = text_run_content(s);
                let m = merge_spec(s.skip(n));
                lemma_merge_idempotent(s.skip(n));
                if n < s.len() {
                    assert(s.skip(n)[0] == s[n]);
                    assert(m.len() > 0 && m[0] == s[n]);
                } else {
                    assert(s.skip(n).len() == 0);
                }
                if n == 1 || c.len() > 0 {
                    let merged = seq![EvModel::Text(c)] + m;
                    assert(merged.drop_first() =~= m);
                    assert(text_run_len(merged) == 1) by {
                        if m.len() > 0 {
                            assert(!(m[0] matches EvModel::Text(_)));
                        }
                        assert(text_run_len(m) == 0);
                        assert(text_run_len(merged) == 1 + text_run_len(merged.drop_first()));
                    }
                    assert(text_run_content(merged) =~= c) by {
                        assert(text_run_content(m) =~= Seq::<u8>::empty());
                        assert(text_run_content(merged) == c + text_run_content(
                            merged.drop_first(),
                        ));
                    }
                    assert(merged.skip(1) =~= m);
                    assert(merge_spec(merged) == seq![EvModel::Text(c)] + merge_spec(m));
                }
            },
            _ => {
                let t = merge_spec(s.drop_first());
                lemma_merge_idempotent(s.drop_first());
                let merged = seq![s[0]] + t;
                assert(merged.drop_first() =~= t);
                assert(merge_spec(merged) == seq![s[0]] + merge_spec(t));
            },
        }
    }
}

/// Merge completeness law: a sequence made of text events alone merges to
/// exactly one text event carrying the concatenated content, or to nothing
/// when that content is empty. (The one exception is a single empty text
/// event, which passes through unchanged.)
pub proof fn lemma_merge_completeness(s: Seq<EvModel>)
    requires
        s.len() > 0,
        forall|i: int| 0 <= i < s.len() ==> (#[trigger] s[i] matches EvModel::Text(_)),
        s.len() >= 2 || text_run_content(s).len() > 0,
    ensures
        text_run_content(s).len() == 0 ==> merge_spec(s) == Seq::<EvModel>::empty(),
        text_run_content(s).len() > 0 ==> merge_spec(s) == seq![
            EvModel::Text(text_run_content(s)),
        ],
{
    lemma_text_run(s);
    assert(s[0] matches EvModel::Text(_));
    let n = text_run_len(s) as int;
    assert(n == s.len());
    assert(s.skip(n).len() == 0);
    assert(merge_spec(s.skip(n)) =~= Seq::<EvModel>::empty());
    let c = text_run_content(s);
    if n == 1 || c.len() > 0 {
        assert(merge_spec(s) == seq![EvModel::Text(c)] + merge_spec(s.skip(n)));
        assert(merge_spec(s) =~= seq![EvModel::Text(c)]);
    } else {
        assert(merge_spec(s) =~= Seq::<EvModel>::empty());
    }
}

} // verus!
