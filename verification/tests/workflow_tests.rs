use openrfd::annotation::{
    AnnotationCollection, AnnotationTarget, Motivation, Selector, Timestamp,
};
use openrfd::rfd::Frontmatter;
use openrfd::state::State;
use openrfd::workflow::{
    discuss_next, fill_template, is_rfd_dir_name, matches_filters, new_rfd_texts,
    next_rfd_number, publish_messages, quote_annotation_of, quote_context, quote_preview,
    replace_all, resolve_in, source_stem, state_change_messages, DiscussAction, DiscussEvent,
    DiscussState, with_annotation,
};

#[test]
fn templates_fill_number_and_title() {
    assert_eq!(
        fill_template("# RFD {number} {title}\n{title}", "0003", "Cache"),
        "# RFD 0003 Cache\nCache"
    );
    assert_eq!(replace_all("aaa", "aa", "b"), "ba");
    assert_eq!(replace_all("x{title}", "{title}", "{number}"), "x{number}");
    assert_eq!(fill_template("no holes", "1", "t"), "no holes");
}

#[test]
fn lifecycle_texts() {
    let t = new_rfd_texts("0003", "Cache");
    assert_eq!(t.default_content, "---\nauthors:\nstate: prediscussion\ndiscussion:\n---\n\n# RFD 0003 Cache\n");
    assert_eq!(t.commit_message, "rfd: reserve RFD 0003 — Cache");
    assert_eq!(t.ref_message, "Reserve RFD 0003 — Cache\n\nState: prediscussion");
    let (m, r) = state_change_messages("0003", "ideation", State::Discussion);
    assert_eq!(m, "rfd: update RFD 0003 state to discussion");
    assert_eq!(r, "State: discussion\n\nPrevious-State: ideation");
    let (p, g) = publish_messages("0003");
    assert_eq!(p, "rfd: publish RFD 0003");
    assert_eq!(g, "Merge RFD 0003 (published)");
}

#[test]
fn listing_filters_and_numbers() {
    assert!(is_rfd_dir_name("0042"));
    assert!(is_rfd_dir_name("+7"));
    assert!(!is_rfd_dir_name("drafts"));
    assert!(!is_rfd_dir_name(""));
    let fm = Frontmatter { authors: None, state: State::Discussion, visibility: None, labels: vec!["api".into()] };
    assert!(matches_filters(&fm, None, None));
    assert!(matches_filters(&fm, Some(State::Discussion), Some("api")));
    assert!(!matches_filters(&fm, Some(State::Published), None));
    assert!(!matches_filters(&fm, None, Some("db")));
    let names: Vec<String> = vec!["0001".into(), "notes".into(), "0012".into(), "0003".into()];
    assert_eq!(next_rfd_number(&names), 13);
    assert_eq!(next_rfd_number(&vec![]), 1);
}

fn state() -> DiscussState {
    DiscussState { padded: "0005".into(), branch: "rfd/0005".into(), main_branch: "main".into(), title: String::new() }
}

#[test]
fn discussion_flow_with_a_new_pull_request() {
    let (st, acts) = discuss_next(state(), DiscussEvent::Started { current_branch: "main".into() });
    assert!(matches!(&acts[..], [DiscussAction::Checkout(b), DiscussAction::LoadRfd] if b == "rfd/0005"));
    let (st, acts) = discuss_next(st, DiscussEvent::Loaded { state: State::Prediscussion, title: "Cache".into() });
    assert_eq!(st.title, "Cache");
    assert_eq!(acts.len(), 4);
    assert!(matches!(&acts[1], DiscussAction::Commit(m) if m == "rfd: move RFD 0005 to discussion"));
    assert!(matches!(&acts[3], DiscussAction::CheckGh));
    let (st, acts) = discuss_next(st, DiscussEvent::GhChecked { available: true });
    assert!(matches!(&acts[..], [DiscussAction::FindExistingPr]));
    let (st, acts) = discuss_next(st, DiscussEvent::ExistingPr { url: String::new() });
    match &acts[..] {
        [DiscussAction::CreatePr { base, head, title, body }] => {
            assert_eq!(base, "main");
            assert_eq!(head, "rfd/0005");
            assert_eq!(title, "RFD 0005: Cache");
            assert!(body.starts_with("Discussion for RFD 0005: **Cache**"));
        }
        _ => panic!("expected CreatePr"),
    }
    let (_, acts) = discuss_next(st, DiscussEvent::PrCreated { url: "https://x/pr/9".into() });
    assert_eq!(acts.len(), 5);
    assert!(matches!(&acts[4], DiscussAction::WriteRefCommit(m) if m == "State: discussion\n\nDiscussion: https://x/pr/9"));
}

#[test]
fn discussion_flow_without_gh_or_with_existing_pr() {
    let st = DiscussState { title: "Cache".into(), ..state() };
    let (_, acts) = discuss_next(st.clone(), DiscussEvent::Started { current_branch: "rfd/0005".into() });
    assert!(matches!(&acts[..], [DiscussAction::LoadRfd]));
    let (_, acts) = discuss_next(st.clone(), DiscussEvent::Loaded { state: State::Discussion, title: "Cache".into() });
    assert!(matches!(&acts[..], [DiscussAction::Push(_), DiscussAction::CheckGh]));
    let (_, acts) = discuss_next(st.clone(), DiscussEvent::GhChecked { available: false });
    assert!(matches!(&acts[..], [DiscussAction::ReportManual { title, .. }] if title == "RFD 0005: Cache"));
    let (_, acts) = discuss_next(st.clone(), DiscussEvent::ExistingPr { url: "https://x/pr/1".into() });
    assert!(matches!(&acts[1], DiscussAction::SetField { field, value } if field == "discussion" && value == "https://x/pr/1"));
    let (_, acts) = discuss_next(st.clone(), DiscussEvent::LinkChanged { changed: false });
    assert!(acts.is_empty());
    let (_, acts) = discuss_next(st, DiscussEvent::LinkChanged { changed: true });
    assert!(matches!(&acts[0], DiscussAction::Commit(m) if m == "rfd: update RFD 0005 discussion link"));
}

#[test]
fn quote_context_takes_twenty_bytes_each_side() {
    let body = "0123456789abcdefghijKLMNOPQRSTqrstuvwxyz0123456789ABCDEFGHIJ";
    let (p, s) = quote_context(body, 25, 30);
    assert_eq!(p.as_deref(), Some("56789abcdefghijKLMNO"));
    assert_eq!(s.as_deref(), Some("qrstuvwxyz0123456789"));
    let (p, s) = quote_context("abc", 1, 3);
    assert_eq!(p.as_deref(), Some("a"));
    assert_eq!(s, None);
    let (p, s) = quote_context("abc", 0, 1);
    assert_eq!(p, None);
    assert_eq!(s.as_deref(), Some("bc"));
}

#[test]
fn annotate_builds_the_cli_annotation() {
    let a = quote_annotation_of(
        "urn:openrfd:0001:x".into(),
        "Ann".into(),
        Some("ann@example.com".into()),
        Timestamp { seconds: 5, nanos: 0 },
        "Why?",
        "rfd/0001/README.md".into(),
        "deadbeef".into(),
        Some("rfd/0001".into()),
        "quote",
        Some("pre".into()),
        None,
        3,
        10,
        15,
    );
    assert_eq!(a.motivation, Motivation::Commenting);
    assert_eq!(a.body.value, "Why?");
    match &a.target {
        AnnotationTarget::Resource(r) => {
            assert_eq!(r.selector.len(), 3);
            assert!(matches!(&r.selector[1], Selector::FragmentSelector { value, .. } if value == "line=3,3"));
            assert!(matches!(&r.selector[2], Selector::TextPositionSelector { start: 10, end: 15 }));
        }
        _ => panic!("expected a resource"),
    }
}

#[test]
fn resolving_marks_the_first_match_only() {
    let mut c = AnnotationCollection::new("Test");
    let make = |id: &str| quote_annotation_of(id.into(), "n".into(), None, Timestamp { seconds: 1, nanos: 0 }, "b", "s".into(), "c".into(), None, "q", None, None, 1, 0, 1);
    c.items.push(make("a"));
    c.items.push(make("b"));
    c.items.push(make("a"));
    let now = Timestamp { seconds: 99, nanos: 0 };
    assert!(resolve_in(&mut c, "a", now));
    assert_eq!(c.items[0].resolved, Some(now));
    assert!(c.items[1].resolved.is_none());
    assert!(c.items[2].resolved.is_none());
    assert!(!resolve_in(&mut c, "zzz", now));
}

#[test]
fn listing_helpers() {
    assert_eq!(source_stem("pr-47.json"), "pr-47");
    assert_eq!(source_stem("x.json.json"), "x");
    assert_eq!(source_stem("notes"), "notes");
    let long = "a".repeat(70);
    assert_eq!(quote_preview(&long), format!("{}...", "a".repeat(60)));
    assert_eq!(quote_preview("short"), "short");
}

#[test]
fn annotating_adds_after_the_stored_items_or_starts_a_collection() {
    let make = |id: &str| quote_annotation_of(id.into(), "n".into(), None, Timestamp { seconds: 1, nanos: 0 }, "b", "s".into(), "c".into(), None, "q", None, None, 1, 0, 1);
    let fresh = with_annotation(None, make("first"));
    assert_eq!(fresh.label, "CLI Annotations");
    assert_eq!(fresh.collection_type, "AnnotationCollection");
    assert_eq!(fresh.items.len(), 1);
    assert_eq!(fresh.items[0].id, "first");

    let mut stored = AnnotationCollection::new("Review");
    stored.items.push(make("old"));
    let next = with_annotation(Some(stored), make("new"));
    assert_eq!(next.label, "Review");
    let ids: Vec<&str> = next.items.iter().map(|a| a.id.as_str()).collect();
    assert_eq!(ids, vec!["old", "new"]);
}
