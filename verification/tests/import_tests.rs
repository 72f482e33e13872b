use openrfd::annotation::{
    AnnotationTarget, Annotation, AnnotationBody, Creator, Motivation, Selector, SpecificResource,
    Timestamp,
};
use openrfd::config::Config;
use openrfd::import::{comment_to_annotation, merge_pr_comments, PrComment};

fn comment(id: u64, body: &str) -> PrComment {
    PrComment {
        id: Some(id),
        body: Some(body.into()),
        user_login: Some("octo".into()),
        user_html_url: Some("https://github.com/octo".into()),
        created_at: Some("2024-01-01T00:00:00Z".into()),
        updated_at: Some("2024-01-01T00:00:00Z".into()),
        original_commit_id: Some("abc123".into()),
        diff_hunk: Some("@@ -1,2 +1,2 @@\n context\n+ the added line".into()),
        original_line: Some(12),
        in_reply_to_id: None,
    }
}

fn stored(id: &str, body: &str, created: i64, resolved: bool) -> Annotation {
    Annotation {
        context: "http://www.w3.org/ns/anno.jsonld".into(),
        annotation_type: "Annotation".into(),
        id: id.into(),
        creator: Creator { creator_type: "Person".into(), name: "me".into(), email: None, url: None },
        created: Timestamp { seconds: created, nanos: 0 },
        motivation: Motivation::Commenting,
        body: AnnotationBody { body_type: "TextualBody".into(), value: body.into(), format: "text/markdown".into() },
        target: AnnotationTarget::Resource(SpecificResource {
            resource_type: "SpecificResource".into(),
            source: "rfd/0042/README.md".into(),
            state: None,
            selector: vec![],
        }),
        modified: None,
        resolved: if resolved { Some(Timestamp { seconds: created + 1, nanos: 0 }) } else { None },
        origin: None,
    }
}

#[test]
fn comment_becomes_an_anchored_annotation() {
    let config = Config::default();
    let a = comment_to_annotation(&comment(100, "Nice"), "urn:openrfd:0042:gh-100", 100, "rfd/0042/README.md", 42, &config);
    assert_eq!(a.id, "urn:openrfd:0042:gh-100");
    assert_eq!(a.creator.name, "octo");
    assert_eq!(a.creator.url.as_deref(), Some("https://github.com/octo"));
    assert_eq!(a.created, Timestamp { seconds: 1_704_067_200, nanos: 0 });
    assert!(a.modified.is_none());
    assert_eq!(a.motivation, Motivation::Commenting);
    assert_eq!(a.origin.as_deref(), Some("github:100"));
    match &a.target {
        AnnotationTarget::Resource(r) => {
            assert_eq!(r.source, "rfd/0042/README.md");
            let st = r.state.as_ref().unwrap();
            assert_eq!(st.commit, "abc123");
            assert_eq!(st.git_ref.as_deref(), Some("rfd/0042"));
            assert_eq!(r.selector.len(), 2);
            match &r.selector[0] {
                Selector::TextQuoteSelector { exact, prefix, suffix } => {
                    assert_eq!(exact, "the added line");
                    assert!(prefix.is_none() && suffix.is_none());
                }
                _ => panic!("expected a quote"),
            }
            match &r.selector[1] {
                Selector::FragmentSelector { value, conforms_to } => {
                    assert_eq!(value, "line=12,12");
                    assert_eq!(conforms_to, "http://tools.ietf.org/rfc/rfc5147");
                }
                _ => panic!("expected a fragment"),
            }
        }
        _ => panic!("expected a resource"),
    }
}

#[test]
fn replies_point_at_their_parent_and_edits_are_marked() {
    let config = Config::default();
    let mut c = comment(101, "Agreed");
    c.in_reply_to_id = Some(100);
    c.updated_at = Some("2024-01-02T00:00:00Z".into());
    c.user_login = None;
    let a = comment_to_annotation(&c, "urn:openrfd:0042:gh-101", 101, "rfd/0042/README.md", 42, &config);
    assert_eq!(a.motivation, Motivation::Replying);
    assert_eq!(a.reply_to(), Some("urn:openrfd:0042:gh-100"));
    assert_eq!(a.creator.name, "unknown");
    assert_eq!(a.modified, Some(Timestamp { seconds: 1_704_153_600, nanos: 0 }));
}

#[test]
fn sync_creates_updates_and_keeps() {
    let config = Config::default();
    let existing = vec![
        stored("urn:openrfd:0042:gh-1", "old text", 50, true),
        stored("urn:openrfd:0042:gh-2", "same", 40, false),
        stored("urn:openrfd:0042:gone-b", "gone", 30, false),
        stored("urn:openrfd:0042:gone-a", "gone too", 20, true),
    ];
    let comments = vec![
        comment(1, "new text"),
        comment(2, "same"),
        comment(3, "brand new"),
        PrComment { body: Some(String::new()), ..comment(4, "") },
        PrComment { id: None, ..comment(5, "no id") },
    ];
    let (collection, result) = merge_pr_comments(existing, &comments, &config, 42, 7);
    assert_eq!(collection.label, "PR #7 Discussion");
    assert_eq!(collection.generator.as_ref().unwrap().name, "openrfd");
    assert_eq!((result.created, result.updated, result.total), (1, 1, 5));
    let ids: Vec<&str> = collection.items.iter().map(|a| a.id.as_str()).collect();
    assert_eq!(
        ids,
        vec![
            "urn:openrfd:0042:gh-1",
            "urn:openrfd:0042:gh-2",
            "urn:openrfd:0042:gh-3",
            "urn:openrfd:0042:gone-a",
            "urn:openrfd:0042:gone-b",
        ]
    );
    // edited: body taken over, resolved kept
    assert_eq!(collection.items[0].body.value, "new text");
    assert!(collection.items[0].resolved.is_some());
    assert_eq!(collection.items[0].modified, Some(Timestamp { seconds: 1_704_067_200, nanos: 0 }));
    // unchanged body: not modified
    assert!(collection.items[1].modified.is_none());
    // orphans keep their resolved state
    assert!(collection.items[3].resolved.is_some());
}

#[test]
fn sync_keeps_the_last_of_duplicate_ids() {
    let config = Config::default();
    let existing = vec![
        stored("urn:openrfd:0042:gh-9", "first", 1, false),
        stored("urn:openrfd:0042:gh-9", "second", 2, true),
    ];
    let (collection, result) = merge_pr_comments(existing, &vec![], &config, 42, 1);
    assert_eq!(result.total, 1);
    assert_eq!(collection.items[0].body.value, "second");
}

#[test]
fn syncing_again_changes_nothing() {
    let config = Config::default();
    let existing = vec![
        stored("urn:openrfd:0042:gh-1", "old text", 50, true),
        stored("urn:openrfd:0042:gone-b", "gone", 30, false),
        stored("urn:openrfd:0042:gone-a", "gone too", 20, true),
    ];
    let comments = vec![comment(1, "new text"), comment(3, "brand new"), PrComment { id: None, ..comment(5, "x") }];
    let (first, _) = merge_pr_comments(existing, &comments, &config, 42, 7);
    let (second, result) = merge_pr_comments(first.items.clone(), &comments, &config, 42, 7);
    assert_eq!((result.created, result.updated, result.total), (0, 0, 4));
    assert_eq!(format!("{:?}", second.items), format!("{:?}", first.items));
}
