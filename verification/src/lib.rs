//! Markdown event-stream transformation pipeline for a small wiki.
//!
//! The crate models one unit of parsed markdown structure as an
//! [`events::Event`] and provides a chain of stream stages that rewrite an
//! event sequence: resolution of unknown shortcut references
//! ([`refs::UnknownRefHandlingStream`]), text coalescing
//! ([`merge::TextMergeStream`]), accumulation-based syntax highlighting of
//! fenced code blocks ([`syntax::SyntaxHighlightStream`]), and bare-URL
//! autolinking ([`link::LinkHighlightStream`]). [`pipeline`] chains them in
//! that load-bearing order. The [`partition`] module holds the generic
//! splitter of a byte string into matched and unmatched spans that the
//! autolinker builds on, and [`store`] the plain value types and parsing
//! rules of the article store.

pub mod events;
pub mod partition;
pub mod merge;
pub mod link;
pub mod refs;
pub mod syntax;
pub mod pipeline;
pub mod store;
