use openrfd::annotation::{
    default_annotation_type, default_context, default_format, default_specific_resource,
    default_textual_body, AnchorHealth, Annotation, AnnotationBody, AnnotationCollection,
    AnnotationTarget, Creator, Motivation, SpecificResource, Timestamp,
};

fn annotation(id: String, target: AnnotationTarget, origin: Option<String>) -> Annotation {
    Annotation {
        context: default_context(),
        annotation_type: default_annotation_type(),
        id,
        creator: Creator {
            creator_type: "Person".into(),
            name: "test".into(),
            email: None,
            url: None,
        },
        created: Timestamp { seconds: 1_700_000_000, nanos: 0 },
        motivation: Motivation::Commenting,
        body: AnnotationBody {
            body_type: default_textual_body(),
            value: "a comment".into(),
            format: default_format(),
        },
        target,
        modified: None,
        resolved: None,
        origin,
    }
}

fn resource(source: &str) -> AnnotationTarget {
    AnnotationTarget::Resource(SpecificResource {
        resource_type: default_specific_resource(),
        source: source.into(),
        state: None,
        selector: vec![],
    })
}

#[test]
fn test_new_id_format() {
    let id = Annotation::new_id(42, 4);
    assert!(id.starts_with("urn:openrfd:0042:"));
    // UUID portion is 36 chars (8-4-4-4-12)
    let uuid_part = id.strip_prefix("urn:openrfd:0042:").unwrap();
    assert_eq!(uuid_part.len(), 36);
}

#[test]
fn new_ids_carry_a_random_uuid() {
    let id = Annotation::new_id(7, 2);
    let u: Vec<char> = id.strip_prefix("urn:openrfd:07:").unwrap().chars().collect();
    assert_eq!(u.len(), 36);
    for (i, c) in u.iter().enumerate() {
        if [8, 13, 18, 23].contains(&i) {
            assert_eq!(*c, '-');
        } else {
            assert!(c.is_ascii_hexdigit() && !c.is_ascii_uppercase());
        }
    }
    assert_eq!(u[14], '4');
    assert!(['8', '9', 'a', 'b'].contains(&u[19]));
}

#[test]
fn test_new_id_custom_pad_width() {
    let id = Annotation::new_id(1, 6);
    assert!(id.starts_with("urn:openrfd:000001:"));
}

#[test]
fn test_new_id_uniqueness() {
    let id1 = Annotation::new_id(1, 4);
    let id2 = Annotation::new_id(1, 4);
    assert_ne!(id1, id2);
}

#[test]
fn test_is_reply() {
    let a = annotation(
        "urn:openrfd:0001:test".into(),
        AnnotationTarget::Reference("urn:openrfd:0001:parent".into()),
        None,
    );
    assert!(a.is_reply());
    assert_eq!(a.reply_to(), Some("urn:openrfd:0001:parent"));
}

#[test]
fn test_not_reply() {
    let a = annotation("urn:openrfd:0001:test".into(), resource("rfd/0001/README.md"), None);
    assert!(!a.is_reply());
    assert_eq!(a.reply_to(), None);
}

#[test]
fn test_collection_new_has_generator() {
    let collection = AnnotationCollection::new("My Annotations");
    assert_eq!(collection.label, "My Annotations");
    assert!(collection.items.is_empty());
    assert!(collection.generator.is_some());
    assert_eq!(collection.generator.unwrap().name, "openrfd");
}

#[test]
fn test_anchor_health_display() {
    assert_eq!(AnchorHealth::Live.to_string(), "live");
    assert_eq!(AnchorHealth::Approximate.to_string(), "approximate");
    assert_eq!(AnchorHealth::Stale.to_string(), "stale");
    assert_eq!(AnchorHealth::Orphaned.to_string(), "orphaned");
}

#[test]
fn test_github_id_format() {
    let id = Annotation::github_id(42, 4, 987654);
    assert_eq!(id, "urn:openrfd:0042:gh-987654");
}

#[test]
fn test_github_id_stable() {
    let id1 = Annotation::github_id(42, 4, 100);
    let id2 = Annotation::github_id(42, 4, 100);
    assert_eq!(id1, id2, "same comment ID should produce same annotation ID");
}

#[test]
fn test_github_id_distinct() {
    let id1 = Annotation::github_id(42, 4, 100);
    let id2 = Annotation::github_id(42, 4, 101);
    assert_ne!(id1, id2);
}

#[test]
fn test_is_from_github() {
    let a = annotation(
        "urn:openrfd:0042:gh-100".into(),
        resource("rfd/0042/README.md"),
        Some("github:100".into()),
    );
    assert!(a.is_from_github());
}

#[test]
fn test_not_from_github() {
    let a = annotation(Annotation::new_id(1, 4), resource("rfd/0001/README.md"), None);
    assert!(!a.is_from_github());
}

#[test]
fn github_ids_of_different_comments_differ_for_many_numbers() {
    for (a, b) in [(0u64, 1u64), (9, 10), (99, 100), (12345, 1234)] {
        assert_ne!(Annotation::github_id(7, 4, a), Annotation::github_id(7, 4, b));
    }
}

#[test]
fn github_id_pads_and_does_not_cut_wide_numbers() {
    assert_eq!(Annotation::github_id(123456, 4, 5), "urn:openrfd:123456:gh-5");
    assert_eq!(Annotation::github_id(0, 0, 0), "urn:openrfd:0:gh-0");
}

#[test]
fn origin_prefix_must_start_the_origin() {
    let a = annotation("x".into(), resource("s"), Some("git:github:1".into()));
    assert!(!a.is_from_github());
    let b = annotation("x".into(), resource("s"), Some("github:".into()));
    assert!(b.is_from_github());
}

#[test]
fn defaults_are_the_w3c_names() {
    assert_eq!(default_context(), "http://www.w3.org/ns/anno.jsonld");
    assert_eq!(default_annotation_type(), "Annotation");
    assert_eq!(openrfd::annotation::default_collection_type(), "AnnotationCollection");
    assert_eq!(default_textual_body(), "TextualBody");
    assert_eq!(default_format(), "text/markdown");
    assert_eq!(default_specific_resource(), "SpecificResource");
    assert_eq!(openrfd::annotation::default_git_state(), "GitState");
    assert_eq!(openrfd::annotation::default_motivation(), Motivation::Commenting);
}

#[test]
fn timestamps_order_by_seconds_then_nanos() {
    let a = Timestamp { seconds: 10, nanos: 5 };
    let b = Timestamp { seconds: 10, nanos: 6 };
    let c = Timestamp { seconds: 11, nanos: 0 };
    assert!(a.le(&b));
    assert!(!b.le(&a));
    assert!(b.le(&c));
    assert!(a.le(&a));
}

#[test]
fn fresh_ids_differ_from_imported_ids() {
    let fresh = Annotation::new_id(42, 4);
    let imported = Annotation::github_id(42, 4, 12345);
    assert_ne!(fresh, imported);
    assert!(imported.starts_with("urn:openrfd:0042:gh-"));
    assert!(!fresh.starts_with("urn:openrfd:0042:gh-"));
}
