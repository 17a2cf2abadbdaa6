//! Accumulation-based syntax highlighting of fenced code blocks.
//!
//! [`SyntaxHighlightStream`] wraps an event sequence. On a code-block start
//! tag it opens an accumulator bound to the block's language hint; every text
//! event inside the block is consumed into the accumulator (each carries its
//! trailing line terminator, which is why text merging must run first); on
//! the block's end tag the accumulated lines are highlighted into one raw
//! HTML fragment, emitted as a single event directly before the preserved end
//! tag. Everything outside a block passes through unchanged. A code-block end
//! tag with no open block breaks the upstream tokenizer's balance contract
//! and is excluded by [`cb_wf`]. [`lemma_syntax_balance`] states the balance
//! law.

use vstd::prelude::*;

use crate::events::{clone_event, copy_bytes, evs, EvModel, Event, TagModel};

verus! {

/// The model of an optional byte string.
pub open spec fn opt_bytes(l: Option<Vec<u8>>) -> Option<Seq<u8>> {
    match l {
        Some(v) => Some(v@),
        None => None,
    }
}

/// The model of a line list.
pub open spec fn lines_view(ls: Seq<Vec<u8>>) -> Seq<Seq<u8>> {
    ls.map_values(|v: Vec<u8>| v@)
}

/// The HTML fragment the highlighter engine produces for a language hint and
/// the lines of one code block.
pub uninterp spec fn highlighted_html(lang: Option<Seq<u8>>, lines: Seq<Seq<u8>>) -> Seq<u8>;

/// Relies on syntect's `ClassedHTMLGenerator` pipeline: a generator is built
/// for the grammar `SyntaxSet::find_syntax_by_token` resolves the hint to
/// (plain text when the hint is absent or unrecognized), is fed every line in
/// order through `parse_html_for_line_which_includes_newline`, and
/// `finalize` returns the block's HTML fragment, a function of the hint and
/// the lines alone.
#[verifier::external_body]
fn highlight_lines(lang: &Option<Vec<u8>>, lines: &Vec<Vec<u8>>) -> (r: Vec<u8>)
    ensures
        r@ == highlighted_html(opt_bytes(*lang), lines_view(lines@)),
{
    let ss = syntect::parsing::SyntaxSet::load_defaults_newlines();
    let syntax = lang
        .as_ref()
        .and_then(|l| ss.find_syntax_by_token(&String::from_utf8_lossy(l)))
        .unwrap_or_else(|| ss.find_syntax_plain_text());
    let style = syntect::html::ClassStyle::Spaced;
    let mut generator = syntect::html::ClassedHTMLGenerator::new_with_class_style(
        syntax, &ss, style,
    );
    for line in lines {
        let _ = generator.parse_html_for_line_which_includes_newline(&String::from_utf8_lossy(line));
    }
    generator.finalize().into_bytes()
}

/// Code-block balance of an event sequence, given whether a block is open:
/// no block ends that never started, and blocks do not nest.
pub open spec fn cb_wf(s: Seq<EvModel>, in_block: bool) -> bool
    decreases s.len(),
{
    if s.len() == 0 {
        true
    } else {
        match s[0] {
            EvModel::Start(TagModel::CodeBlock(_)) => !in_block && cb_wf(s.drop_first(), true),
            EvModel::End(TagModel::CodeBlock(_)) => in_block && cb_wf(s.drop_first(), false),
            _ => cb_wf(s.drop_first(), in_block),
        }
    }
}

/// The highlighted form of an event sequence, given the open block's language
/// hint and accumulated lines (`None` when no block is open).
pub open spec fn syntax_spec(
    s: Seq<EvModel>,
    st: Option<(Option<Seq<u8>>, Seq<Seq<u8>>)>,
) -> Seq<EvModel>
    decreases s.len(),
{
    if s.len() == 0 {
        Seq::empty()
    } else {
        match st {
            Some(block) => match s[0] {
                EvModel::Text(t) => syntax_spec(s.drop_first(), Some((block.0, block.1.push(t)))),
                EvModel::End(TagModel::CodeBlock(_)) => seq![
                    EvModel::Html(highlighted_html(block.0, block.1)),
                    s[0],
                ] + syntax_spec(s.drop_first(), None),
                _ => seq![s[0]] + syntax_spec(s.drop_first(), st),
            },
            None => match s[0] {
                EvModel::Start(TagModel::CodeBlock(lang)) => seq![s[0]] + syntax_spec(
                    s.drop_first(),
                    Some((lang, Seq::empty())),
                ),
                _ => seq![s[0]] + syntax_spec(s.drop_first(), None),
            },
        }
    }
}

/// Copies a line list.
fn copy_lines(ls: &Vec<Vec<u8>>) -> (r: Vec<Vec<u8>>)
    ensures
        lines_view(r@) == lines_view(ls@),
{
    let mut out: Vec<Vec<u8>> = Vec::new();
    let mut i: usize = 0;
    while i < ls.len()
        invariant
            i <= ls@.len(),
            lines_view(out@) == lines_view(ls@.take(i as int)),
        decreases ls@.len() - i,
    {
        let ghost pre = out@;
        let piece: Vec<u8> = copy_bytes(&ls[i]);
        let ghost pv = piece@;
        out.push(piece);
        i = i + 1;
        proof {
            assert(lines_view(out@) =~= lines_view(pre).push(pv));
            assert(lines_view(ls@.take(i as int)) =~= lines_view(ls@.take(i as int - 1)).push(
                ls@[i - 1]@,
            ));
            assert(lines_view(out@) == lines_view(ls@.take(i as int)));
        }
    }
    proof {
        assert(ls@.take(ls@.len() as int) =~= ls@);
    }
    out
}

/// A stream stage that replaces each code block's text by one synthesized
/// raw-HTML event directly before the block's preserved end tag.
pub struct SyntaxHighlightStream {
    input: Vec<Event>,
    pos: usize,
    queue: Vec<Event>,
    qpos: usize,
    active: Option<(Option<Vec<u8>>, Vec<Vec<u8>>)>,
}

impl SyntaxHighlightStream {
    /// The open block's model: its language hint and accumulated lines.
    pub closed spec fn active_view(self) -> Option<(Option<Seq<u8>>, Seq<Seq<u8>>)> {
        match self.active {
            Some(block) => Some((opt_bytes(block.0), lines_view(block.1@))),
            None => None,
        }
    }

    /// Internal consistency of the stage state: indexes in bounds, and the
    /// rest of the input balanced with respect to the open block.
    pub closed spec fn wf(self) -> bool {
        &&& self.pos <= self.input@.len()
        &&& self.qpos <= self.queue@.len()
        &&& cb_wf(evs(self.input@).skip(self.pos as int), self.active_view() is Some)
    }

    /// The events this stage has yet to yield.
    pub closed spec fn remaining(self) -> Seq<EvModel> {
        evs(self.queue@).skip(self.qpos as int) + syntax_spec(
            evs(self.input@).skip(self.pos as int),
            self.active_view(),
        )
    }

    /// Wraps a code-block-balanced event sequence; no block starts open.
    pub fn new(input: Vec<Event>) -> (r: SyntaxHighlightStream)
        requires
            cb_wf(evs(input@), false),
        ensures
            r.wf(),
            r.remaining() == syntax_spec(evs(input@), None),
    {
        let r = SyntaxHighlightStream {
            input,
            pos: 0,
            queue: Vec::new(),
            qpos: 0,
            active: None,
        };
        proof {
            assert(evs(r.input@).skip(0) =~= evs(r.input@));
            assert(evs(r.queue@).skip(0) =~= Seq::<EvModel>::empty());
            assert(r.remaining() =~= syntax_spec(evs(r.input@), None));
        }
        r
    }

    /// Yields the next event, or `None` once the input is exhausted.
    pub fn next(&mut self) -> (r: Option<Event>)
        requires
            old(self).wf(),
        ensures
            final(self).wf(),
            match r {
                Option::None => old(self).remaining().len() == 0
                    && final(self).remaining().len() == 0,
                Option::Some(e) => old(self).remaining().len() > 0
                    && e@ == old(self).remaining()[0]
                    && final(self).remaining() == old(self).remaining().drop_first(),
            },
    {
        loop
            invariant
                self.wf(),
                self.remaining() == old(self).remaining(),
            decreases self.input@.len() - self.pos,
        {
            let ghost q = evs(self.queue@).skip(self.qpos as int);
            let ghost s = evs(self.input@).skip(self.pos as int);
            let ghost st = self.active_view();
            if self.qpos < self.queue.len() {
                let e = clone_event(&self.queue[self.qpos]);
                self.qpos = self.qpos + 1;
                proof {
                    assert(q[0] == evs(self.queue@)[self.qpos - 1]);
                    assert(evs(self.queue@).skip(self.qpos as int) =~= q.drop_first());
                    assert((q + syntax_spec(s, st)).drop_first() =~= q.drop_first() + syntax_spec(
                        s,
                        st,
                    ));
                }
                return Some(e);
            }
            proof {
                assert(q =~= Seq::<EvModel>::empty());
                assert(self.remaining() =~= syntax_spec(s, st));
            }
            if self.pos == self.input.len() {
                return None;
            }
            proof {
                assert(s[0] == evs(self.input@)[self.pos as int]);
                assert(evs(self.input@).skip(self.pos as int + 1) =~= s.drop_first());
            }
            // Classify the head event against the block state: 0 opens a
            // block, 1 feeds a line, 2 closes a block, 3 passes through.
            let step: u8 = match &self.input[self.pos] {
                Event::Start(crate::events::Tag::CodeBlock(_)) => 0,
                Event::Text(_) => if self.active.is_some() {
                    1
                } else {
                    3
                },
                Event::End(crate::events::Tag::CodeBlock(_)) => 2,
                _ => 3,
            };
            if step == 0 {
                    proof {
                        assert(st is None);
                    }
                    let lang: Option<Vec<u8>> = match &self.input[self.pos] {
                        Event::Start(crate::events::Tag::CodeBlock(Some(l))) => Some(
                            copy_bytes(l),
                        ),
                        _ => None,
                    };
                    let e = clone_event(&self.input[self.pos]);
                    self.pos = self.pos + 1;
                    self.active = Some((lang, Vec::new()));
                    proof {
                        assert(self.active_view() matches Some(block) && block.1
                            =~= Seq::<Seq<u8>>::empty());
                        assert(syntax_spec(s, st) == seq![s[0]] + syntax_spec(
                            s.drop_first(),
                            self.active_view(),
                        ));
                        assert((seq![s[0]] + syntax_spec(s.drop_first(), self.active_view()))
                            .drop_first() =~= syntax_spec(s.drop_first(), self.active_view()));
                        assert(self.remaining() =~= syntax_spec(
                            s.drop_first(),
                            self.active_view(),
                        ));
                    }
                    return Some(e);
                } else if step == 1 {
                    let line: Vec<u8> = match &self.input[self.pos] {
                        Event::Text(t) => copy_bytes(t),
                        _ => Vec::new(),
                    };
                    self.pos = self.pos + 1;
                    match &mut self.active {
                        Some(block) => {
                            block.1.push(line);
                        },
                        None => {
                            proof {
                                assert(false);
                            }
                        },
                    }
                    proof {
                        let block0 = st->Some_0;
                        assert(self.active_view() matches Some(b1) && b1.0 == block0.0 && b1.1
                            =~= block0.1.push(s[0]->Text_0));
                        assert(self.remaining() =~= old(self).remaining());
                    }
                    // The line is consumed; pull on without emitting.
                } else if step == 2 {
                    proof {
                        assert(st is Some);
                    }
                    let endtag = clone_event(&self.input[self.pos]);
                    self.pos = self.pos + 1;
                    let html: Vec<u8> = match &self.active {
                        Some(block) => highlight_lines(&block.0, &block.1),
                        None => {
                            proof {
                                assert(false);
                            }
                            Vec::new()
                        },
                    };
                    self.active = None;
                    let mut replacement: Vec<Event> = Vec::new();
                    replacement.push(Event::Html(html));
                    replacement.push(endtag);
                    self.queue = replacement;
                    self.qpos = 0;
                    proof {
                        let block0 = st->Some_0;
                        assert(evs(self.queue@).skip(0) =~= seq![
                            EvModel::Html(highlighted_html(block0.0, block0.1)),
                            s[0],
                        ]);
                        assert(self.remaining() =~= old(self).remaining());
                    }
                    // The HTML and the end tag now sit in the queue; the next
                    // pull emits them in order.
                } else {
                    let e = clone_event(&self.input[self.pos]);
                    self.pos = self.pos + 1;
                    proof {
                        assert(syntax_spec(s, st) == seq![s[0]] + syntax_spec(s.drop_first(), st));
                        assert((seq![s[0]] + syntax_spec(s.drop_first(), st)).drop_first()
                            =~= syntax_spec(s.drop_first(), st));
                        assert(self.remaining() =~= syntax_spec(s.drop_first(), st));
                    }
                    return Some(e);
            }
        }
    }

    /// Drains the stage into a vector of events, in order.
    pub fn collect_all(&mut self) -> (r: Vec<Event>)
        requires
            old(self).wf(),
        ensures
            final(self).wf(),
            evs(r@) == old(self).remaining(),
            final(self).remaining().len() == 0,
    {
        let mut out: Vec<Event> = Vec::new();
        loop
            invariant
                self.wf(),
                evs(out@) + self.remaining() == old(self).remaining(),
            ensures
                self.wf(),
                evs(out@) == old(self).remaining(),
                self.remaining().len() == 0,
            decreases self.remaining().len(),
        {
            let ghost prev = self.remaining();
            match self.next() {
                Some(e) => {
                    proof {
                        assert(evs(out@.push(e)) =~= evs(out@).push(e@));
                        assert(evs(out@).push(e@) + prev.drop_first() =~= evs(out@) + prev);
                    }
                    out.push(e);
                },
                None => {
                    proof {
                        assert(evs(out@) =~= evs(out@) + self.remaining());
                    }
                    break ;
                },
            }
        }
        out
    }
}

/// Highlights the code blocks of a balanced event sequence in one step.
pub fn highlight_events(input: Vec<Event>) -> (r: Vec<Event>)
    requires
        cb_wf(evs(input@), false),
    ensures
        evs(r@) == syntax_spec(evs(input@), None),
{
    let mut stage = SyntaxHighlightStream::new(input);
    stage.collect_all()
}

/// The contents of a sequence of text events, in order.
pub open spec fn text_contents(s: Seq<EvModel>) -> Seq<Seq<u8>>
    decreases s.len(),
{
    if s.len() == 0 {
        Seq::empty()
    } else {
        match s[0] {
            EvModel::Text(t) => seq![t] + text_contents(s.drop_first()),
            _ => Seq::empty(),
        }
    }
}

proof fn lemma_syntax_block(
    lang: Option<Seq<u8>>,
    acc: Seq<Seq<u8>>,
    body: Seq<EvModel>,
    endtag: TagModel,
    rest: Seq<EvModel>,
)
    requires
        forall|i: int| 0 <= i < body.len() ==> (#[trigger] body[i] matches EvModel::Text(_)),
        endtag matches TagModel::CodeBlock(_),
    ensures
        syntax_spec(body + seq![EvModel::End(endtag)] + rest, Some((lang, acc))) == seq![
            EvModel::Html(highlighted_html(lang, acc + text_contents(body))),
            EvModel::End(endtag),
        ] + syntax_spec(rest, None),
    decreases body.len(),
{
    let s = body + seq![EvModel::End(endtag)] + rest;
    if body.len() == 0 {
        assert(s[0] == EvModel::End(endtag));
        assert(s.drop_first() =~= rest);
        assert(acc + text_contents(body) =~= acc);
    } else {
        assert(s[0] == body[0]);
        let t = body[0]->Text_0;
        assert(s.drop_first() =~= body.drop_first() + seq![EvModel::End(endtag)] + rest);
        assert(forall|i: int|
            0 <= i < body.drop_first().len() ==> (#[trigger] body.drop_first()[i]
                matches EvModel::Text(_)));
        lemma_syntax_block(lang, acc.push(t), body.drop_first(), endtag, rest);
        assert(acc.push(t) + text_contents(body.drop_first()) =~= acc + text_contents(body));
    }
}

/// Syntax-highlight balance law: a code block — its start tag, its text
/// events, its end tag — becomes the start tag, exactly one synthesized
/// raw-HTML event, and the preserved end tag, followed by the transform of
/// whatever comes after the block.
pub proof fn lemma_syntax_balance(
    lang: Option<Seq<u8>>,
    body: Seq<EvModel>,
    endtag: TagModel,
    rest: Seq<EvModel>,
)
    requires
        forall|i: int| 0 <= i < body.len() ==> (#[trigger] body[i] matches EvModel::Text(_)),
        endtag matches TagModel::CodeBlock(_),
    ensures
        syntax_spec(
            seq![EvModel::Start(TagModel::CodeBlock(lang))] + body + seq![EvModel::End(endtag)]
                + rest,
            None,
        ) == seq![
            EvModel::Start(TagModel::CodeBlock(lang)),
            EvModel::Html(highlighted_html(lang, text_contents(body))),
            EvModel::End(endtag),
        ] + syntax_spec(rest, None),
{
    let s = seq![EvModel::Start(TagModel::CodeBlock(lang))] + body + seq![EvModel::End(endtag)]
        + rest;
    assert(s[0] == EvModel::Start(TagModel::CodeBlock(lang)));
    assert(s.drop_first() =~= body + seq![EvModel::End(endtag)] + rest);
    lemma_syntax_block(lang, Seq::empty(), body, endtag, rest);
    assert(Seq::<Seq<u8>>::empty() + text_contents(body) =~= text_contents(body));
    assert(seq![EvModel::Start(TagModel::CodeBlock(lang))] + (seq![
        EvModel::Html(highlighted_html(lang, text_contents(body))),
        EvModel::End(endtag),
    ] + syntax_spec(rest, None)) =~= seq![
        EvModel::Start(TagModel::CodeBlock(lang)),
        EvModel::Html(highlighted_html(lang, text_contents(body))),
        EvModel::End(endtag),
    ] + syntax_spec(rest, None));
}


/// Whether an event opens or closes a code block.
pub open spec fn is_cb_tag(e: EvModel) -> bool {
    ||| e matches EvModel::Start(TagModel::CodeBlock(_))
    ||| e matches EvModel::End(TagModel::CodeBlock(_))
}

/// Whether a sequence touches no code block at all.
pub open spec fn no_cb(s: Seq<EvModel>) -> bool {
    forall|i: int| 0 <= i < s.len() ==> !is_cb_tag(#[trigger] s[i])
}

/// Skipping events that touch no code block preserves balance.
pub proof fn lemma_cb_wf_skip_free(s: Seq<EvModel>, in_block: bool, k: int)
    requires
        cb_wf(s, in_block),
        0 <= k <= s.len(),
        forall|i: int| 0 <= i < k ==> !is_cb_tag(#[trigger] s[i]),
    ensures
        cb_wf(s.skip(k), in_block),
    decreases k,
{
    if k == 0 {
        assert(s.skip(0) =~= s);
    } else {
        assert(!is_cb_tag(s[0]));
        assert(cb_wf(s.drop_first(), in_block));
        assert forall|i: int| 0 <= i < k - 1 implies !is_cb_tag(
            #[trigger] s.drop_first()[i],
        ) by {
            assert(s.drop_first()[i] == s[i + 1]);
        }
        lemma_cb_wf_skip_free(s.drop_first(), in_block, k - 1);
        assert(s.drop_first().skip(k - 1) =~= s.skip(k));
    }
}

/// Prepending events that touch no code block neither makes nor breaks
/// balance.
pub proof fn lemma_cb_wf_prepend_free(a: Seq<EvModel>, x: Seq<EvModel>, in_block: bool)
    requires
        no_cb(a),
    ensures
        cb_wf(a + x, in_block) == cb_wf(x, in_block),
    decreases a.len(),
{
    if a.len() == 0 {
        assert(a + x =~= x);
    } else {
        assert(!is_cb_tag(a[0]));
        assert((a + x)[0] == a[0]);
        assert((a + x).drop_first() =~= a.drop_first() + x);
        assert forall|i: int| 0 <= i < a.drop_first().len() implies !is_cb_tag(
            #[trigger] a.drop_first()[i],
        ) by {
            assert(a.drop_first()[i] == a[i + 1]);
        }
        lemma_cb_wf_prepend_free(a.drop_first(), x, in_block);
    }
}

/// Merging text events preserves code-block balance: the merge touches text
/// alone and keeps every tag in place.
pub proof fn lemma_merge_preserves_cb_wf(s: Seq<EvModel>, in_block: bool)
    requires
        cb_wf(s, in_block),
    ensures
        cb_wf(crate::merge::merge_spec(s), in_block),
    decreases s.len(),
{
    if s.len() > 0 {
        crate::merge::lemma_text_run(s);
        match s[0] {
            EvModel::Text(_) => {
                let n = crate::merge::text_run_len(s) as int;
                let c = crate::merge::text_run_content(s);
                assert forall|i: int| 0 <= i < n implies !is_cb_tag(#[trigger] s[i]) by {
                    assert(s[i] matches EvModel::Text(_));
                }
                lemma_cb_wf_skip_free(s, in_block, n);
                lemma_merge_preserves_cb_wf(s.skip(n), in_block);
                if n == 1 || c.len() > 0 {
                    let head = seq![EvModel::Text(c)];
                    assert(no_cb(head));
                    lemma_cb_wf_prepend_free(
                        head,
                        crate::merge::merge_spec(s.skip(n)),
                        in_block,
                    );
                }
            },
            _ => {
                let rest = s.drop_first();
                let merged = seq![s[0]] + crate::merge::merge_spec(rest);
                assert(merged[0] == s[0]);
                assert(merged.drop_first() =~= crate::merge::merge_spec(rest));
                match s[0] {
                    EvModel::Start(TagModel::CodeBlock(_)) => {
                        lemma_merge_preserves_cb_wf(rest, true);
                    },
                    EvModel::End(TagModel::CodeBlock(_)) => {
                        lemma_merge_preserves_cb_wf(rest, false);
                    },
                    _ => {
                        lemma_merge_preserves_cb_wf(rest, in_block);
                    },
                }
            },
        }
    }
}

} // verus!
