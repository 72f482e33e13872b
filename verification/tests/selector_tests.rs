use openrfd::annotation::{
    AnchorHealth, Annotation, AnnotationBody, AnnotationTarget, Creator, Motivation, Selector,
    SpecificResource, Timestamp,
};
use openrfd::selector::{anchor_matchable, check_selectors, health_counts, match_text_quote, quote_matchable};

#[test]
fn test_exact_match_simple() {
    let content = "Hello, world! This is a test.";
    let result = match_text_quote(content, "world", None, None);
    assert_eq!(result.health, AnchorHealth::Live);
    assert_eq!(result.range, Some(7..12));
}

#[test]
fn test_exact_match_with_context() {
    let content = "foo bar baz bar qux";
    let result = match_text_quote(content, "bar", Some("foo "), Some(" baz"));
    assert_eq!(result.health, AnchorHealth::Live);
    assert_eq!(result.range, Some(4..7));
}

#[test]
fn test_no_match() {
    let content = "Hello, world!";
    let result = match_text_quote(content, "xyz not here", None, None);
    assert_eq!(result.health, AnchorHealth::Orphaned);
}

#[test]
fn context_picks_the_confirmed_occurrence() {
    let content = "foo bar baz bar qux";
    let result = match_text_quote(content, "bar", Some("baz "), None);
    assert_eq!(result.range, Some(12..15));
    // no confirmed occurrence: the first one
    let result = match_text_quote(content, "bar", Some("zzz"), None);
    assert_eq!(result.range, Some(4..7));
}

#[test]
fn live_range_holds_the_quote() {
    let content = "alpha beta gamma beta";
    let r = match_text_quote(content, "beta", None, Some(" gamma"));
    assert_eq!(r.health, AnchorHealth::Live);
    let range = r.range.unwrap();
    assert_eq!(&content[range], "beta");
}

#[test]
fn fuzzy_match_is_approximate() {
    let content = "The quick brown fox jumps over the lazy dog";
    let r = match_text_quote(content, "quick brawn fox jumps", None, None);
    assert_eq!(r.health, AnchorHealth::Approximate);
    assert!(r.range.is_some());
}

#[test]
fn approximate_anchor_is_the_best_window() {
    let content = "The quick brown fox jumps over the lazy dog";
    let r = match_text_quote(content, "quick brwn fox jumps", None, None);
    assert_eq!(r.health, AnchorHealth::Approximate);
    // The first window sharing all 20 bytes: 25 bytes from the start.
    assert_eq!(r.range, Some(0..25));
    let far = match_text_quote(content, "zzzzzzzzzzzz", None, None);
    assert_eq!((far.health, far.range), (AnchorHealth::Orphaned, None));
}

#[test]
fn selectors_without_quote() {
    let pos = vec![Selector::TextPositionSelector { start: 0, end: 5 }];
    assert_eq!(check_selectors("hello", &pos), AnchorHealth::Stale);
    assert_eq!(check_selectors("hey", &pos), AnchorHealth::Orphaned);
    assert_eq!(check_selectors("hey", &[]), AnchorHealth::Orphaned);
    let quote = vec![
        Selector::FragmentSelector { value: "line=1,1".into(), conforms_to: "x".into() },
        Selector::TextQuoteSelector { exact: "he".into(), prefix: None, suffix: None },
    ];
    assert_eq!(check_selectors("hey", &quote), AnchorHealth::Live);
}

fn anchored(exact: &str) -> Annotation {
    Annotation {
        context: "c".into(),
        annotation_type: "Annotation".into(),
        id: "id".into(),
        creator: Creator { creator_type: "Person".into(), name: "n".into(), email: None, url: None },
        created: Timestamp { seconds: 0, nanos: 0 },
        motivation: Motivation::Commenting,
        body: AnnotationBody { body_type: "TextualBody".into(), value: "v".into(), format: "f".into() },
        target: AnnotationTarget::Resource(SpecificResource {
            resource_type: "SpecificResource".into(),
            source: "s".into(),
            state: None,
            selector: vec![Selector::TextQuoteSelector { exact: exact.into(), prefix: None, suffix: None }],
        }),
        modified: None,
        resolved: None,
        origin: None,
    }
}

#[test]
fn health_counts_by_state() {
    let mut reply = anchored("x");
    reply.target = AnnotationTarget::Reference("id".into());
    let items = vec![anchored("brown"), anchored("brown"), anchored("nothing like it at all"), reply];
    let c = health_counts("the quick brown fox", &items);
    assert_eq!((c.live, c.approximate, c.stale, c.orphaned), (2, 0, 0, 1));
}

#[test]
fn matching_is_defined_on_character_boundaries() {
    assert!(quote_matchable("alpha beta", "beta", None, None));
    // An empty quote has nothing to look for.
    assert!(!quote_matchable("alpha beta", "", None, None));
    // An occurring quote that starts inside a multi-byte character's bytes.
    assert!(!quote_matchable("añb", "ñb", None, None));
    // Two occurrences: the prefix would be cut inside `é`.
    assert!(!quote_matchable("éab éab", "ab", Some("x"), None));
    assert!(quote_matchable("xab xab", "ab", Some("x"), None));
    // No occurrence of a long quote: every window must start on a boundary.
    assert!(quote_matchable("plain ascii text here", "plain ascii texts", None, None));
    assert!(!quote_matchable("ééééééééééé", "abcdefghijk", None, None));
}

#[test]
fn anchors_are_checkable_where_their_quote_is_matchable() {
    let reply = Annotation { target: AnnotationTarget::Reference("urn:x".into()), ..anchored("x") };
    assert!(anchor_matchable("text", &reply));
    assert!(anchor_matchable("text", &anchored("x")));
    assert!(!anchor_matchable("text", &anchored("")));
}

#[test]
fn long_quotes_that_do_not_occur_are_matchable() {
    let long = "z".repeat(0x10000);
    assert!(quote_matchable("abc", &long, None, None));
    assert!(anchor_matchable("abc", &anchored(&long)));
    let content = format!("a{}b", long);
    assert!(quote_matchable(&content, &long, None, None));
    let near = format!("{}y", "z".repeat(0x10000 - 1));
    assert!(quote_matchable("abcdefghij", &near, None, None));
}
