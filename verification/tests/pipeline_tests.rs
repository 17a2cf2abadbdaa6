use redwood_wiki::events::{Event, LinkKind, Tag};
use redwood_wiki::pipeline::try_run_pipeline;
use redwood_wiki::refs::ArticleResolver;

fn piece(s: &str) -> Event {
    Event::Text(s.as_bytes().to_vec())
}

fn store() -> ArticleResolver {
    ArticleResolver::new(vec![(5, b"Redwood".to_vec())])
}

#[test]
fn test_pipeline_merges_then_links() {
    // The two fragments only form a recognizable URL once merged, which is
    // why merging runs before link highlighting.
    let out = try_run_pipeline(vec![piece("see https://exa"), piece("mple.com now")], store())
        .unwrap();
    assert_eq!(
        out,
        vec![
            piece("see "),
            Event::Start(Tag::Link(
                LinkKind::Autolink,
                b"https://example.com".to_vec(),
                Vec::new(),
            )),
            piece("https://example.com"),
            Event::End(Tag::Link(
                LinkKind::Autolink,
                b"https://example.com".to_vec(),
                Vec::new(),
            )),
            piece(" now"),
        ]
    );
}

#[test]
fn test_pipeline_resolves_then_highlights_then_links() {
    let input = vec![
        Event::Start(Tag::Link(LinkKind::ShortcutUnknown, Vec::new(), Vec::new())),
        piece("article:5"),
        Event::End(Tag::Link(LinkKind::ShortcutUnknown, Vec::new(), Vec::new())),
        Event::HardBreak,
        Event::Start(Tag::CodeBlock(Some(b"rust".to_vec()))),
        piece("let a = 1;\n"),
        Event::End(Tag::CodeBlock(Some(b"rust".to_vec()))),
    ];
    let out = try_run_pipeline(input, store()).unwrap();
    assert_eq!(
        out[0],
        Event::Start(Tag::Link(
            LinkKind::Autolink,
            b"../../article/5".to_vec(),
            b"Redwood".to_vec(),
        ))
    );
    assert_eq!(out[1], piece("Redwood"));
    assert_eq!(
        out[2],
        Event::End(Tag::Link(
            LinkKind::Autolink,
            b"../../article/5".to_vec(),
            b"Redwood".to_vec(),
        ))
    );
    assert_eq!(out[3], Event::HardBreak);
    assert_eq!(out[4], Event::Start(Tag::CodeBlock(Some(b"rust".to_vec()))));
    assert!(matches!(out[5], Event::Html(_)));
    assert_eq!(out[6], Event::End(Tag::CodeBlock(Some(b"rust".to_vec()))));
    assert_eq!(out.len(), 7);
}

#[test]
fn test_pipeline_rejects_unbalanced_code_blocks() {
    let input = vec![
        piece("x"),
        Event::End(Tag::CodeBlock(None)),
    ];
    assert_eq!(try_run_pipeline(input, store()), None);
}
