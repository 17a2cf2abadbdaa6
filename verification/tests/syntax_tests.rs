use redwood_wiki::events::{Event, Tag};
use redwood_wiki::pipeline::check_cb_balance;
use redwood_wiki::syntax::SyntaxHighlightStream;

fn code_text(s: &str) -> Event {
    Event::Text(s.as_bytes().to_vec())
}

fn block_start(lang: Option<&str>) -> Event {
    Event::Start(Tag::CodeBlock(lang.map(|l| l.as_bytes().to_vec())))
}

fn block_end(lang: Option<&str>) -> Event {
    Event::End(Tag::CodeBlock(lang.map(|l| l.as_bytes().to_vec())))
}

fn highlighted(input: Vec<Event>) -> Vec<Event> {
    let mut stage = SyntaxHighlightStream::new(input);
    stage.collect_all()
}

#[test]
fn test_empty_code_block_still_yields_html() {
    // An empty code block still produces one raw HTML event, never a panic.
    let out = highlighted(vec![block_start(Some("rust")), block_end(Some("rust"))]);
    assert_eq!(out.len(), 3);
    assert_eq!(out[0], block_start(Some("rust")));
    assert!(matches!(out[1], Event::Html(_)));
    assert_eq!(out[2], block_end(Some("rust")));
}

#[test]
fn test_code_block_is_replaced_by_one_html_event() {
    let out = highlighted(vec![
        code_text("before"),
        block_start(Some("rust")),
        code_text("let x = 1;\n"),
        code_text("let y = x;\n"),
        block_end(Some("rust")),
        code_text("after"),
    ]);
    assert_eq!(out.len(), 5);
    assert_eq!(out[0], code_text("before"));
    assert_eq!(out[1], block_start(Some("rust")));
    match &out[2] {
        Event::Html(html) => {
            // A recognized grammar produces marked-up spans, so the fragment
            // cannot be the raw text handed in.
            let html_str = String::from_utf8_lossy(html);
            assert!(html_str.contains("<span"));
            assert!(html_str.contains("let"));
        }
        other => panic!("expected a raw HTML event, got {:?}", other),
    }
    assert_eq!(out[3], block_end(Some("rust")));
    assert_eq!(out[4], code_text("after"));
    // Exactly one synthesized HTML event stands between the preserved tags.
    assert_eq!(
        out.iter()
            .filter(|e| matches!(e, Event::Html(_)))
            .count(),
        1
    );
}

#[test]
fn test_unknown_language_falls_back_to_plain_text() {
    let out = highlighted(vec![
        block_start(Some("no-such-language")),
        code_text("plain words\n"),
        block_end(Some("no-such-language")),
    ]);
    assert_eq!(out.len(), 3);
    match &out[1] {
        Event::Html(html) => {
            let html_str = String::from_utf8_lossy(html);
            assert!(html_str.contains("plain words"));
        }
        other => panic!("expected a raw HTML event, got {:?}", other),
    }
}

#[test]
fn test_events_outside_blocks_pass_through() {
    let input = vec![
        code_text("a"),
        Event::HardBreak,
        Event::Other(7),
        code_text("b"),
    ];
    assert_eq!(highlighted(input.clone()), input);
}

#[test]
fn test_check_cb_balance() {
    assert!(check_cb_balance(&vec![]));
    assert!(check_cb_balance(&vec![
        block_start(None),
        code_text("x\n"),
        block_end(None),
    ]));
    // An end with no start breaks the tokenizer contract.
    assert!(!check_cb_balance(&vec![block_end(None)]));
    // Nested starts break it too.
    assert!(!check_cb_balance(&vec![block_start(None), block_start(None)]));
    // An unclosed block is tolerated.
    assert!(check_cb_balance(&vec![block_start(None), code_text("x\n")]));
}
