use openrfd::rfd::{
    get_frontmatter_field, invalid_frontmatter, missing_frontmatter, set_frontmatter_field,
    split_frontmatter, frontmatter_in, FieldEditError, Frontmatter, FrontmatterDecodeError, FrontmatterSplitError, MdBlock, Rfd,
};
use openrfd::render::MdPosition;
use openrfd::state::State;

fn rfd_with_body(body: &str) -> Rfd {
    Rfd {
        number: 42,
        frontmatter: Frontmatter {
            authors: None,
            state: State::Prediscussion,
            visibility: None,
            labels: vec![],
        },
        body: body.into(),
        path: "rfd/0042/README.md".into(),
    }
}

#[test]
fn test_parse_frontmatter() {
    let content = "---\nauthors: Jane\nstate: discussion\n---\n\n# RFD 0001 Test\n";
    let split = split_frontmatter(content).unwrap();
    let yaml: serde_yaml::Value = serde_yaml::from_str(&split.yaml).unwrap();
    let state = State::from_str(yaml["state"].as_str().unwrap()).unwrap();
    assert_eq!(state, State::Discussion);
    assert_eq!(yaml["authors"].as_str(), Some("Jane"));
    assert!(split.body.contains("# RFD 0001 Test"));
}

#[test]
fn test_get_field() {
    let content = "---\nauthors: Jane\nstate: discussion\n---\nbody";
    assert_eq!(get_frontmatter_field(content, "state"), Some("discussion".into()));
    assert_eq!(get_frontmatter_field(content, "authors"), Some("Jane".into()));
    assert_eq!(get_frontmatter_field(content, "missing"), None);
}

#[test]
fn test_set_field() {
    let content = "---\nauthors: Jane\nstate: prediscussion\n---\nbody";
    let updated = set_frontmatter_field(content, "state", "discussion").unwrap();
    assert!(updated.contains("state: discussion"));
    assert!(!updated.contains("prediscussion"));
}

#[test]
fn test_title_extraction() {
    let rfd = rfd_with_body("\n# RFD 0042 Service Mesh Design\n\nContent here.\n");
    assert_eq!(rfd.title(), "Service Mesh Design");
}

#[test]
fn title_without_number_prefix_and_without_heading() {
    assert_eq!(rfd_with_body("intro\n## Plain Title  \n").title(), "Plain Title");
    assert_eq!(rfd_with_body("no heading at all\n").title(), "");
    // a number with nothing after it is kept as the title
    assert_eq!(rfd_with_body("# RFD 12 \n").title(), "RFD 12");
    assert_eq!(rfd_with_body("# RFD Roadmap\n").title(), "RFD Roadmap");
    assert_eq!(rfd_with_body("# RFD 7 Roadmap\n").title(), "Roadmap");
}

#[test]
fn set_then_get_reads_back_the_value() {
    let content = "\u{feff}---\nauthors: Jane\r\nstate: prediscussion\n---\nbody\n";
    for (field, value) in [("state", "discussion"), ("discussion", " https://x/pr/1 "), ("labels", "a, b")] {
        let updated = set_frontmatter_field(content, field, value).unwrap();
        assert_eq!(get_frontmatter_field(&updated, field), Some(value.trim().to_string()));
    }
    let cleared = set_frontmatter_field(content, "state", "   ").unwrap();
    assert_eq!(get_frontmatter_field(&cleared, "state"), None);
}

#[test]
fn set_field_appends_a_missing_field_and_keeps_the_body() {
    let content = "---\nauthors: Jane\n---\nbody text";
    let updated = set_frontmatter_field(content, "discussion", "https://x").unwrap();
    assert_eq!(updated, "---\nauthors: Jane\ndiscussion: https://x\n---\nbody text");
}

#[test]
fn set_field_errors() {
    assert_eq!(
        set_frontmatter_field("no frontmatter", "state", "x"),
        Err(FieldEditError::MissingFrontmatter)
    );
    assert_eq!(
        set_frontmatter_field("---\nstate: x\nbody", "state", "y"),
        Err(FieldEditError::UnterminatedFrontmatter)
    );
}

#[test]
fn get_field_without_frontmatter_or_value() {
    assert_eq!(get_frontmatter_field("body only", "state"), None);
    assert_eq!(get_frontmatter_field("---\nstate:\n---\n", "state"), None);
    assert_eq!(get_frontmatter_field("---\n  state:  open  \n---\n", "state"), Some("open".into()));
}

#[test]
fn split_frontmatter_finds_yaml_and_body() {
    let split = split_frontmatter("\u{feff}---\nstate: ideation\n---\nBody\n").unwrap();
    assert_eq!(split.yaml, "state: ideation");
    assert_eq!(split.yaml_offset, 4);
    assert_eq!(split.body, "Body\n");
}

#[test]
fn split_frontmatter_without_block() {
    assert_eq!(
        split_frontmatter("# Just a heading\n").unwrap_err(),
        FrontmatterSplitError::Missing
    );
}

#[test]
fn frontmatter_diagnostics_point_into_the_text() {
    let m = missing_frontmatter("a.md", "\u{feff}# Heading only, which is long enough to be cut\n");
    assert_eq!(m.span_offset, 0);
    assert_eq!(m.span_len, 40);
    assert!(m.src.starts_with("# Heading"));
    let short = missing_frontmatter("b.md", "short");
    assert_eq!(short.span_len, 5);

    let split = split_frontmatter("---\nstate: [\n---\n").unwrap();
    let at = invalid_frontmatter("c.md", "---\nstate: [\n---\n", &split, Some(3), "bad");
    assert_eq!((at.span_offset, at.span_len), (split.yaml_offset + 3, 1));
    let whole = invalid_frontmatter("c.md", "---\nstate: [\n---\n", &split, None, "bad");
    assert_eq!((whole.span_offset, whole.span_len), (split.yaml_offset, split.yaml.len()));
    assert_eq!(whole.reason, "bad");
    assert!(whole.advice.unwrap().starts_with("required fields: `state`"));
}

#[test]
fn parse_takes_the_decoded_front_matter_and_the_body() {
    let content = "\u{feff}---\nstate: discussion\n---\n\n# RFD 0001 Test\n";
    let fm = Frontmatter { authors: Some("Jane".into()), state: State::Discussion, visibility: None, labels: vec![] };
    let source = split_frontmatter(content).unwrap();
    let rfd = Rfd::parse(1, content, "rfd/0001/README.md".into(), source.clone(), Ok(fm)).unwrap();
    assert_eq!(rfd.number, 1);
    assert_eq!(rfd.frontmatter.state, State::Discussion);
    assert_eq!(rfd.frontmatter.authors.as_deref(), Some("Jane"));
    assert_eq!(rfd.body, "\n# RFD 0001 Test\n");
    assert_eq!(rfd.path, "rfd/0001/README.md");

    let err = FrontmatterDecodeError { location: Some(2), reason: "bad".into() };
    let diag = Rfd::parse(1, content, "x.md".into(), source.clone(), Err(err)).unwrap_err();
    assert_eq!(diag.span_offset, source.yaml_offset + 2);
    assert_eq!(diag.span_len, 1);
    assert_eq!(diag.reason, "bad");
    assert_eq!(diag.src_name, "x.md");
    assert_eq!(diag.src, "---\nstate: discussion\n---\n\n# RFD 0001 Test\n");
    let whole = Rfd::parse(1, content, "x.md".into(), source.clone(), Err(FrontmatterDecodeError { location: None, reason: "r".into() }))
        .unwrap_err();
    assert_eq!((whole.span_offset, whole.span_len), (source.yaml_offset, source.yaml.len()));
}

#[test]
fn setting_a_field_keeps_the_others() {
    let content = "---\nauthors: Jane\nstate: prediscussion\nlabels: x\n---\n\n# RFD 0001 Test\n";
    let updated = set_frontmatter_field(content, "state", "discussion").unwrap();
    assert_eq!(get_frontmatter_field(&updated, "state"), Some("discussion".into()));
    assert_eq!(get_frontmatter_field(&updated, "authors"), Some("Jane".into()));
    assert_eq!(get_frontmatter_field(&updated, "labels"), Some("x".into()));
    assert_eq!(get_frontmatter_field(&updated, "discussion"), None);
    let added = set_frontmatter_field(&updated, "discussion", "https://example.com/pr/1").unwrap();
    assert_eq!(get_frontmatter_field(&added, "discussion"), Some("https://example.com/pr/1".into()));
    assert_eq!(get_frontmatter_field(&added, "state"), Some("discussion".into()));
    assert_eq!(get_frontmatter_field(&added, "authors"), Some("Jane".into()));
}

fn at(start: usize, end: usize) -> Option<MdPosition> {
    Some(MdPosition { start_offset: start, end_offset: end, start_line: 1, end_line: 1 })
}

#[test]
fn front_matter_is_the_first_yaml_block() {
    let text = "---\na: 1\n---\n\nbody";
    let blocks = vec![
        MdBlock { yaml: None, position: at(0, 0) },
        MdBlock { yaml: Some("a: 1".into()), position: at(0, 12) },
        MdBlock { yaml: Some("b: 2".into()), position: at(14, 18) },
    ];
    let s = frontmatter_in(text, &blocks).unwrap();
    assert_eq!(s.yaml, "a: 1");
    assert_eq!(s.yaml_offset, 4);
    assert_eq!(s.body, "\nbody");
    // A block without a position has no body after it.
    let s = frontmatter_in(text, &vec![MdBlock { yaml: Some("a: 1".into()), position: None }]).unwrap();
    assert_eq!((s.yaml_offset, s.body.as_str()), (4, ""));
    // An end inside a character gives no body.
    let s = frontmatter_in("é", &vec![MdBlock { yaml: Some(String::new()), position: at(0, 1) }]).unwrap();
    assert_eq!(s.body, "");
    let none = frontmatter_in(text, &vec![MdBlock { yaml: None, position: None }]);
    assert!(matches!(none, Err(FrontmatterSplitError::Missing)));
}

#[test]
fn a_field_set_in_an_empty_block_gets_its_own_line() {
    let updated = set_frontmatter_field("---\n---\nbody", "state", "discussion").unwrap();
    assert_eq!(updated, "---\nstate: discussion\n---\nbody");
    assert_eq!(get_frontmatter_field(&updated, "state"), Some("discussion".into()));
}

#[test]
fn content_wraps_the_yaml_in_fences_before_the_body() {
    let rfd = rfd_with_body("\n# RFD 0042 Test\n");
    assert_eq!(
        rfd.to_content("state: prediscussion\n"),
        "---\nstate: prediscussion\n---\n\n# RFD 0042 Test\n"
    );
    assert_eq!(rfd_with_body("").to_content(""), "---\n---\n");
}
