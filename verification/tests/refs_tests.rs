use redwood_wiki::events::{Event, LinkKind, Tag};
use redwood_wiki::refs::{ArticleResolver, UnknownRefHandlingStream};

fn text_event(s: &str) -> Event {
    Event::Text(s.as_bytes().to_vec())
}

fn shortcut_start() -> Event {
    Event::Start(Tag::Link(LinkKind::ShortcutUnknown, Vec::new(), Vec::new()))
}

fn shortcut_end() -> Event {
    Event::End(Tag::Link(LinkKind::ShortcutUnknown, Vec::new(), Vec::new()))
}

fn resolved_start(dest: &str, title: &str) -> Event {
    Event::Start(Tag::Link(
        LinkKind::Autolink,
        dest.as_bytes().to_vec(),
        title.as_bytes().to_vec(),
    ))
}

fn resolved_end(dest: &str, title: &str) -> Event {
    Event::End(Tag::Link(
        LinkKind::Autolink,
        dest.as_bytes().to_vec(),
        title.as_bytes().to_vec(),
    ))
}

fn redwood_store() -> ArticleResolver {
    ArticleResolver::new(vec![(5, b"Redwood".to_vec())])
}

fn resolve_all(input: Vec<Event>, resolver: ArticleResolver) -> Vec<Event> {
    let mut stage = UnknownRefHandlingStream::new(input, resolver);
    stage.collect_all()
}

#[test]
fn test_resolver_custom_display_title() {
    // Label "article:5|Custom Title" against a store where id 5 is "Redwood":
    // a resolved link showing the custom display text.
    let out = resolve_all(
        vec![
            shortcut_start(),
            text_event("article:5|Custom Title"),
            shortcut_end(),
        ],
        redwood_store(),
    );
    assert_eq!(
        out,
        vec![
            resolved_start("../../article/5", "Redwood"),
            text_event("Custom Title"),
            resolved_end("../../article/5", "Redwood"),
        ]
    );
}

#[test]
fn test_resolver_absent_id_falls_back_to_literal() {
    let out = resolve_all(
        vec![
            shortcut_start(),
            text_event("article:7|Custom Title"),
            shortcut_end(),
        ],
        redwood_store(),
    );
    assert_eq!(out, vec![text_event("[article:7|Custom Title]")]);
}

#[test]
fn test_resolver_stored_title_is_default_display() {
    let out = resolve_all(
        vec![shortcut_start(), text_event("article:5"), shortcut_end()],
        redwood_store(),
    );
    assert_eq!(
        out,
        vec![
            resolved_start("../../article/5", "Redwood"),
            text_event("Redwood"),
            resolved_end("../../article/5", "Redwood"),
        ]
    );
}

#[test]
fn test_resolver_unrecognized_labels_fall_back() {
    for label in ["article:", "article:x", "nonsense", "article:+5", ""].iter() {
        let out = resolve_all(
            vec![shortcut_start(), text_event(label), shortcut_end()],
            redwood_store(),
        );
        let mut expected = b"[".to_vec();
        expected.extend_from_slice(label.as_bytes());
        expected.push(b']');
        assert_eq!(out, vec![Event::Text(expected)]);
    }
}

#[test]
fn test_empty_shortcut_region_is_swallowed() {
    let out = resolve_all(
        vec![
            text_event("before"),
            shortcut_start(),
            shortcut_end(),
            text_event("after"),
        ],
        redwood_store(),
    );
    assert_eq!(out, vec![text_event("before"), text_event("after")]);
}

#[test]
fn test_malformed_region_body_is_drained() {
    // A region wrapping something other than text makes no resolver call and
    // is drained whole, up to and including its end tag.
    let out = resolve_all(
        vec![
            shortcut_start(),
            Event::HardBreak,
            text_event("stray"),
            shortcut_end(),
            text_event("after"),
        ],
        redwood_store(),
    );
    assert_eq!(out, vec![text_event("after")]);
}

#[test]
fn test_region_drains_events_after_label() {
    let out = resolve_all(
        vec![
            shortcut_start(),
            text_event("article:5"),
            Event::HardBreak,
            text_event("junk"),
            shortcut_end(),
            text_event("after"),
        ],
        redwood_store(),
    );
    assert_eq!(
        out,
        vec![
            resolved_start("../../article/5", "Redwood"),
            text_event("Redwood"),
            resolved_end("../../article/5", "Redwood"),
            text_event("after"),
        ]
    );
}

#[test]
fn test_unclosed_region_stops_at_exhaustion() {
    let out = resolve_all(
        vec![
            text_event("before"),
            shortcut_start(),
            text_event("article:5"),
            Event::HardBreak,
            text_event("never closed"),
        ],
        redwood_store(),
    );
    assert_eq!(
        out,
        vec![
            text_event("before"),
            resolved_start("../../article/5", "Redwood"),
            text_event("Redwood"),
            resolved_end("../../article/5", "Redwood"),
        ]
    );
}

#[test]
fn test_resolver_keeps_id_digits_as_written() {
    // The destination carries the id digits as they stood in the label.
    let out = resolve_all(
        vec![shortcut_start(), text_event("article:005"), shortcut_end()],
        redwood_store(),
    );
    assert_eq!(
        out,
        vec![
            resolved_start("../../article/005", "Redwood"),
            text_event("Redwood"),
            resolved_end("../../article/005", "Redwood"),
        ]
    );
}

#[test]
fn test_resolver_second_pipe_field_wins() {
    // Only the field between the first and second pipe is displayed.
    let out = resolve_all(
        vec![
            shortcut_start(),
            text_event("article:5|One|Two"),
            shortcut_end(),
        ],
        redwood_store(),
    );
    assert_eq!(
        out,
        vec![
            resolved_start("../../article/5", "Redwood"),
            text_event("One"),
            resolved_end("../../article/5", "Redwood"),
        ]
    );
}

#[test]
fn test_lookup_title_first_match_wins() {
    let resolver = ArticleResolver::new(vec![
        (3, b"First".to_vec()),
        (3, b"Second".to_vec()),
        (9, b"Other".to_vec()),
    ]);
    assert_eq!(resolver.lookup_title(3), Some(b"First".to_vec()));
    assert_eq!(resolver.lookup_title(9), Some(b"Other".to_vec()));
    assert_eq!(resolver.lookup_title(4), None);
}
