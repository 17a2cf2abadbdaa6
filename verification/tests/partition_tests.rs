use redwood_wiki::partition::{partition, Part, Partition};

fn parts_of(pattern: &str, text: &str) -> Vec<Part> {
    let re = regex::bytes::Regex::new(pattern).unwrap();
    let mut splitter: Partition = partition(&re, text.as_bytes().to_vec());
    splitter.collect_parts()
}

fn nm(s: &str) -> Part {
    Part::NoMatch(s.as_bytes().to_vec())
}

fn ma(s: &str) -> Part {
    Part::Match(s.as_bytes().to_vec())
}

#[test]
fn test_partition() {
    assert_eq!(parts_of(r"-*", ""), vec![]);
    assert_eq!(parts_of(r"-*", "---"), vec![ma("---")]);
    assert_eq!(parts_of(r"-*", "a---"), vec![nm("a"), ma("---")]);
    assert_eq!(parts_of(r"-*", "---a"), vec![ma("---"), nm("a")]);
    assert_eq!(parts_of(r"-*", "a---b"), vec![nm("a"), ma("---"), nm("b")]);
    assert_eq!(parts_of(r"-*", "---b--"), vec![ma("---"), nm("b"), ma("--")]);
    assert_eq!(
        parts_of(r"-*", "a---b--"),
        vec![nm("a"), ma("---"), nm("b"), ma("--")]
    );
    assert_eq!(
        parts_of(r"-*", "---a--b"),
        vec![ma("---"), nm("a"), ma("--"), nm("b")]
    );
    assert_eq!(
        parts_of(r"-*", "a---b--c"),
        vec![nm("a"), ma("---"), nm("b"), ma("--"), nm("c")]
    );
    // Two adjacent matches coalesce into a single matched part.
    assert_eq!(parts_of(r"foo|bar", "foobar"), vec![ma("foobar")]);
}

#[test]
fn test_partition_round_trip_concrete() {
    // The parts reconstruct the input exactly, none is empty, and the kinds
    // alternate.
    let inputs = ["", "x", "--x--", "a-b-c-", "-a--b---c"];
    for input in inputs.iter() {
        let parts = parts_of(r"-+", input);
        let mut joined: Vec<u8> = Vec::new();
        let mut last_was_match: Option<bool> = None;
        for part in &parts {
            assert!(!part.as_str().is_empty());
            let is_match = matches!(part, Part::Match(_));
            assert_ne!(Some(is_match), last_was_match);
            last_was_match = Some(is_match);
            joined.extend_from_slice(part.as_str());
        }
        assert_eq!(joined, input.as_bytes().to_vec());
    }
}

#[test]
fn test_part_as_str() {
    assert_eq!(nm("plain").as_str(), b"plain");
    assert_eq!(ma("hit").as_str(), b"hit");
}

#[test]
fn test_partition_next_is_lazy_pull() {
    let re = regex::bytes::Regex::new(r"-+").unwrap();
    let mut splitter = partition(&re, b"a--b".to_vec());
    assert_eq!(splitter.next(), Some(nm("a")));
    assert_eq!(splitter.next(), Some(ma("--")));
    assert_eq!(splitter.next(), Some(nm("b")));
    assert_eq!(splitter.next(), None);
    assert_eq!(splitter.next(), None);
}
