//! Composition of the rendering pipeline.
//!
//! The order of the stages is load-bearing: unknown references are resolved
//! on the raw stream, whose reference regions the tokenizer guarantees
//! unfragmented; text is merged before syntax highlighting, which needs whole
//! lines, and before link highlighting, which needs whole URLs; and link
//! highlighting runs last, downstream of the stages that emit link triples
//! themselves.

use vstd::prelude::*;

use crate::events::{evs, EvModel, Event, LinkKind, Tag, TagModel};
use crate::link::{link_events, link_spec};
use crate::merge::{merge_events, merge_spec};
use crate::refs::{
    drain_count, lemma_drain_count, resolution_fn, resolve_refs, unknown_spec, RefResolver,
};
use crate::syntax::{
    cb_wf, highlight_events, is_cb_tag, lemma_cb_wf_prepend_free, lemma_cb_wf_skip_free,
    lemma_merge_preserves_cb_wf, no_cb, syntax_spec,
};

verus! {

/// What the whole pipeline turns an event sequence into, for a resolver
/// function `rf`: reference resolution, then text merging, then syntax
/// highlighting, then link highlighting.
pub open spec fn pipeline_spec(s: Seq<EvModel>, rf: spec_fn(Seq<u8>) -> Seq<EvModel>) -> Seq<
    EvModel,
> {
    link_spec(syntax_spec(merge_spec(unknown_spec(s, rf)), None), false)
}

/// Whether the stream reaching the syntax-highlight stage is code-block
/// balanced — the upstream tokenizer's contract, on which the pipeline
/// depends.
pub open spec fn pipeline_ready(s: Seq<EvModel>, rf: spec_fn(Seq<u8>) -> Seq<EvModel>) -> bool {
    cb_wf(merge_spec(unknown_spec(s, rf)), false)
}

/// Checks code-block balance of an event sequence, starting outside any
/// block.
pub fn check_cb_balance(events: &Vec<Event>) -> (r: bool)
    ensures
        r == cb_wf(evs(events@), false),
{
    let ghost full = evs(events@);
    let mut in_block: bool = false;
    let mut i: usize = 0;
    proof {
        assert(full.skip(0) =~= full);
    }
    while i < events.len()
        invariant
            i <= events@.len(),
            full == evs(events@),
            cb_wf(full, false) == cb_wf(full.skip(i as int), in_block),
        decreases events@.len() - i,
    {
        proof {
            assert(full.skip(i as int)[0] == full[i as int]);
            assert(full.skip(i as int).drop_first() =~= full.skip(i as int + 1));
        }
        match &events[i] {
            Event::Start(Tag::CodeBlock(_)) => {
                if in_block {
                    return false;
                }
                in_block = true;
            },
            Event::End(Tag::CodeBlock(_)) => {
                if !in_block {
                    return false;
                }
                in_block = false;
            },
            _ => {},
        }
        i = i + 1;
    }
    proof {
        assert(full.skip(i as int).len() == 0);
    }
    true
}

/// Runs the whole pipeline over an event sequence whose post-merge stream is
/// known to be code-block balanced.
pub fn run_pipeline<R: RefResolver>(input: Vec<Event>, resolver: R) -> (r: Vec<Event>)
    requires
        pipeline_ready(evs(input@), resolution_fn(resolver)),
    ensures
        evs(r@) == pipeline_spec(evs(input@), resolution_fn(resolver)),
{
    let resolved = resolve_refs(input, resolver);
    let merged = merge_events(resolved);
    let highlighted = highlight_events(merged);
    link_events(highlighted)
}

/// Runs the whole pipeline, checking the tokenizer's balance contract at run
/// time: `None` reports a violation — a code block that ends without having
/// started, or starts inside another — on the stream reaching the
/// syntax-highlight stage.
pub fn try_run_pipeline<R: RefResolver>(input: Vec<Event>, resolver: R) -> (r: Option<Vec<Event>>)
    ensures
        match r {
            Some(out) => pipeline_ready(evs(input@), resolution_fn(resolver)) && evs(out@)
                == pipeline_spec(evs(input@), resolution_fn(resolver)),
            None => !pipeline_ready(evs(input@), resolution_fn(resolver)),
        },
{
    let resolved = resolve_refs(input, resolver);
    let merged = merge_events(resolved);
    if !check_cb_balance(&merged) {
        return None;
    }
    let highlighted = highlight_events(merged);
    Some(link_events(highlighted))
}

#[via_fn]
proof fn su_regions_cb_free_dec(s: Seq<EvModel>) {
    if s.len() > 0 {
        lemma_drain_count(s.drop_first());
    }
}

/// Whether every shortcut-unknown link region of `s` is free of code-block
/// tags, so that swallowing a region cannot unbalance the stream.
pub open spec fn su_regions_cb_free(s: Seq<EvModel>) -> bool
    decreases s.len(),
    via su_regions_cb_free_dec
{
    if s.len() == 0 {
        true
    } else {
        match s[0] {
            EvModel::Start(TagModel::Link(LinkKind::ShortcutUnknown, _, _)) => {
                let r = s.drop_first();
                if r.len() == 0 {
                    true
                } else {
                    match r[0] {
                        EvModel::End(TagModel::Link(LinkKind::ShortcutUnknown, _, _)) =>
                            su_regions_cb_free(r.drop_first()),
                        _ => (forall|i: int|
                            0 <= i < drain_count(r) ==> !is_cb_tag(#[trigger] r[i]))
                            && su_regions_cb_free(r.skip(drain_count(r) as int)),
                    }
                }
            },
            _ => su_regions_cb_free(s.drop_first()),
        }
    }
}

/// Resolving unknown references preserves code-block balance, provided the
/// swallowed regions hold no code-block tags and the resolver never emits
/// one.
pub proof fn lemma_unknown_preserves_cb_wf(
    s: Seq<EvModel>,
    rf: spec_fn(Seq<u8>) -> Seq<EvModel>,
    in_block: bool,
)
    requires
        cb_wf(s, in_block),
        su_regions_cb_free(s),
        forall|label: Seq<u8>| no_cb(#[trigger] rf(label)),
    ensures
        cb_wf(unknown_spec(s, rf), in_block),
    decreases s.len(),
{
    if s.len() > 0 {
        match s[0] {
            EvModel::Start(TagModel::Link(LinkKind::ShortcutUnknown, _, _)) => {
                let r = s.drop_first();
                assert(cb_wf(r, in_block));
                if r.len() == 0 {
                } else {
                    lemma_drain_count(r);
                    match r[0] {
                        EvModel::End(TagModel::Link(LinkKind::ShortcutUnknown, _, _)) => {
                            assert(cb_wf(r.drop_first(), in_block));
                            lemma_unknown_preserves_cb_wf(r.drop_first(), rf, in_block);
                        },
                        EvModel::Text(label) => {
                            lemma_cb_wf_skip_free(r, in_block, drain_count(r) as int);
                            lemma_unknown_preserves_cb_wf(
                                r.skip(drain_count(r) as int),
                                rf,
                                in_block,
                            );
                            assert(no_cb(rf(label)));
                            lemma_cb_wf_prepend_free(
                                rf(label),
                                unknown_spec(r.skip(drain_count(r) as int), rf),
                                in_block,
                            );
                        },
                        _ => {
                            lemma_cb_wf_skip_free(r, in_block, drain_count(r) as int);
                            lemma_unknown_preserves_cb_wf(
                                r.skip(drain_count(r) as int),
                                rf,
                                in_block,
                            );
                        },
                    }
                }
            },
            _ => {
                let rest = s.drop_first();
                let out = seq![s[0]] + unknown_spec(rest, rf);
                assert(out[0] == s[0]);
                assert(out.drop_first() =~= unknown_spec(rest, rf));
                match s[0] {
                    EvModel::Start(TagModel::CodeBlock(_)) => {
                        lemma_unknown_preserves_cb_wf(rest, rf, true);
                    },
                    EvModel::End(TagModel::CodeBlock(_)) => {
                        lemma_unknown_preserves_cb_wf(rest, rf, false);
                    },
                    _ => {
                        lemma_unknown_preserves_cb_wf(rest, rf, in_block);
                    },
                }
            },
        }
    }
}

/// A code-block-balanced stream whose shortcut-unknown regions hold no
/// code-block tags is ready for the pipeline, for any resolver that never
/// emits a code-block tag.
pub proof fn lemma_pipeline_ready(s: Seq<EvModel>, rf: spec_fn(Seq<u8>) -> Seq<EvModel>)
    requires
        cb_wf(s, false),
        su_regions_cb_free(s),
        forall|label: Seq<u8>| no_cb(#[trigger] rf(label)),
    ensures
        pipeline_ready(s, rf),
{
    lemma_unknown_preserves_cb_wf(s, rf, false);
    lemma_merge_preserves_cb_wf(unknown_spec(s, rf), false);
}

} // verus!
