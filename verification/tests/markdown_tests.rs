use redwood_wiki::events::{Event, LinkKind, Tag};
use redwood_wiki::link::LinkHighlightStream;
use redwood_wiki::merge::TextMergeStream;

fn txt(s: &str) -> Event {
    Event::Text(s.as_bytes().to_vec())
}

fn autolink_start(url: &str) -> Event {
    Event::Start(Tag::Link(
        LinkKind::Autolink,
        url.as_bytes().to_vec(),
        Vec::new(),
    ))
}

fn autolink_end(url: &str) -> Event {
    Event::End(Tag::Link(
        LinkKind::Autolink,
        url.as_bytes().to_vec(),
        Vec::new(),
    ))
}

fn merged(input: Vec<Event>) -> Vec<Event> {
    let mut stage = TextMergeStream::new(input);
    stage.collect_all()
}

fn linked(input: Vec<Event>) -> Vec<Event> {
    let mut stage = LinkHighlightStream::new(input);
    stage.collect_all()
}

#[test]
fn test_text_merge() {
    assert_eq!(merged(vec![]), vec![]);
    assert_eq!(merged(vec![txt("foo")]), vec![txt("foo")]);
    assert_eq!(merged(vec![txt("foo"), txt("bar")]), vec![txt("foobar")]);

    assert_eq!(
        merged(vec![txt("foo"), Event::HardBreak, txt("bar")]),
        vec![txt("foo"), Event::HardBreak, txt("bar")]
    );

    assert_eq!(
        merged(vec![txt("foo"), Event::HardBreak, txt("bar"), txt("baz")]),
        vec![txt("foo"), Event::HardBreak, txt("barbaz")]
    );

    assert_eq!(
        merged(vec![txt("foo"), txt("bar"), Event::HardBreak, txt("baz")]),
        vec![txt("foobar"), Event::HardBreak, txt("baz")]
    );
}

#[test]
fn test_text_merge_drops_empty_merged_run() {
    // A merged run with empty content disappears; a single empty text event
    // passes through unchanged.
    assert_eq!(
        merged(vec![txt(""), txt(""), Event::HardBreak]),
        vec![Event::HardBreak]
    );
    assert_eq!(
        merged(vec![txt(""), Event::HardBreak]),
        vec![txt(""), Event::HardBreak]
    );
}

#[test]
fn test_text_merge_idempotent_concrete() {
    let input = vec![
        txt("a"),
        txt("b"),
        Event::HardBreak,
        txt(""),
        txt(""),
        Event::HardBreak,
        txt("c"),
    ];
    let once = merged(input);
    let twice = merged(once.clone());
    assert_eq!(once, twice);
}

#[test]
fn test_link_highlight() {
    // No event (empty stream).
    assert_eq!(linked(vec![]), vec![]);

    // Simple text event.
    assert_eq!(linked(vec![txt("foo")]), vec![txt("foo")]);

    // Simple text events with hard break.
    assert_eq!(
        linked(vec![txt("foo"), Event::HardBreak, txt("bar")]),
        vec![txt("foo"), Event::HardBreak, txt("bar")]
    );

    // Text containing a link.
    assert_eq!(
        linked(vec![txt("foo https://example.com bar")]),
        vec![
            txt("foo "),
            autolink_start("https://example.com"),
            txt("https://example.com"),
            autolink_end("https://example.com"),
            txt(" bar"),
        ]
    );

    // Autolink contents must be ignored as it already is a clickable link.
    let already_linked = vec![
        txt("foo "),
        autolink_start("https://example.com"),
        txt("https://example.com"),
        autolink_end("https://example.com"),
        txt(" bar"),
    ];
    assert_eq!(linked(already_linked.clone()), already_linked);

    // Make sure that the following URLs with special characters are all
    // recognized.
    let special_urls = vec![
        "https://url.com/foo-bar",
        "https://url.com/foo_bar",
        "https://url.com/foo.bar",
        "https://url.com/foo~bar",
        "https://url.com/foo:bar",
        "https://url.com/foo/bar",
        "https://url.com/foo?bar",
        "https://url.com/foo#bar",
        "https://url.com/foo[bar",
        "https://url.com/foo]bar",
        "https://url.com/foo@bar",
        "https://url.com/foo!bar",
        "https://url.com/foo$bar",
        "https://url.com/foo&bar",
        "https://url.com/foo'bar",
        "https://url.com/foo(bar",
        "https://url.com/foo)bar",
        "https://url.com/foo*bar",
        "https://url.com/foo+bar",
        "https://url.com/foo,bar",
        "https://url.com/foo;bar",
        "https://url.com/foo=bar",
    ];
    let input: Vec<Event> = special_urls.iter().map(|u| txt(u)).collect();
    let expected: Vec<Event> = special_urls
        .iter()
        .flat_map(|u| vec![autolink_start(u), txt(u), autolink_end(u)])
        .collect();
    assert_eq!(linked(input), expected);

    // Make sure that the following URLs with different protocols are all
    // recognized.
    let protocol_urls = vec!["http://www.example.com", "https://www.example.com"];
    let input: Vec<Event> = protocol_urls.iter().map(|u| txt(u)).collect();
    let expected: Vec<Event> = protocol_urls
        .iter()
        .flat_map(|u| vec![autolink_start(u), txt(u), autolink_end(u)])
        .collect();
    assert_eq!(linked(input), expected);
}

#[test]
fn test_link_highlight_leaves_link_interior_after_region() {
    // The inside-link flag closes with the region: text after the end tag is
    // linkified again.
    let out = linked(vec![
        autolink_start("https://a.example"),
        txt("https://a.example"),
        autolink_end("https://a.example"),
        txt("see https://b.example"),
    ]);
    assert_eq!(
        out,
        vec![
            autolink_start("https://a.example"),
            txt("https://a.example"),
            autolink_end("https://a.example"),
            txt("see "),
            autolink_start("https://b.example"),
            txt("https://b.example"),
            autolink_end("https://b.example"),
        ]
    );
}
