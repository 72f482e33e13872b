use openrfd::rfd::{Frontmatter, Rfd};
use openrfd::state::State;
use openrfd::validate::{summarize_validation, validate_content, ValidationResult, ValidationSummary};

fn parsed(authors: Option<&str>, state: State, body: &str) -> Result<Rfd, String> {
    Ok(Rfd {
        number: 0,
        frontmatter: Frontmatter {
            authors: authors.map(|a| a.to_string()),
            state,
            visibility: None,
            labels: vec![],
        },
        body: body.into(),
        path: "README.md".into(),
    })
}

#[test]
fn test_validate_valid_rfd() {
    let content = "---\nauthors: Alice\nstate: discussion\n---\n\n# RFD 0001 Test\n\nContent here.\n";
    let result = validate_content(
        "README.md",
        content,
        &parsed(Some("Alice"), State::Discussion, "\n# RFD 0001 Test\n\nContent here.\n"),
    );
    assert!(result.is_ok());
    assert!(result.warnings.is_empty());
}

#[test]
fn test_validate_missing_frontmatter() {
    let result = validate_content(
        "README.md",
        "# No frontmatter\n\nJust a heading.\n",
        &Err("missing YAML frontmatter".into()),
    );
    assert!(!result.is_ok());
    assert!(result.errors[0].contains("missing YAML frontmatter"));
    assert!(!result.diagnostics.is_empty());
}

#[test]
fn test_validate_missing_authors_warns() {
    let content = "---\nstate: prediscussion\n---\n\n# RFD 0001 Test\n";
    let result = validate_content(
        "README.md",
        content,
        &parsed(None, State::Prediscussion, "\n# RFD 0001 Test\n"),
    );
    assert!(result.is_ok());
    assert!(result.warnings.iter().any(|w| w.contains("authors")));
    assert!(result.diagnostics.iter().any(|d| d.message.contains("authors")));
}

#[test]
fn test_validate_missing_title_warns() {
    let content = "---\nauthors: Bob\nstate: prediscussion\n---\n\nNo heading here.\n";
    let result = validate_content(
        "README.md",
        content,
        &parsed(Some("Bob"), State::Prediscussion, "\nNo heading here.\n"),
    );
    assert!(result.warnings.iter().any(|w| w.contains("title")));
}

#[test]
fn test_validate_nonexistent_file() {
    let result = ValidationResult::unreadable("No such file or directory (os error 2)");
    assert!(!result.is_ok());
    assert!(result.errors[0].contains("cannot read file"));
}

#[test]
fn diagnostics_point_at_the_right_bytes() {
    let content = "---\nauthors:  \nstate: x\n---\nNo heading.\n";
    let result = validate_content("r.md", content, &parsed(Some("  "), State::Ideation, "No heading.\n"));
    assert_eq!(result.warnings, vec!["missing 'authors' field", "no title heading found"]);
    assert_eq!(result.diagnostics.len(), 2);
    let fm_end = content.find("\n---").unwrap() + 4;
    assert_eq!((result.diagnostics[0].span_offset, result.diagnostics[0].span_len), (0, fm_end));
    assert_eq!(result.diagnostics[1].span_offset, fm_end);
    assert_eq!(result.diagnostics[1].span_len, content.len() - fm_end);
    assert_eq!(result.diagnostics[1].src_name, "r.md");
    assert_eq!(result.diagnostics[1].src, content);
}

#[test]
fn undecodable_frontmatter_is_an_error() {
    let result = validate_content("r.md", "\u{feff}---\nstate: [\n---\n", &Err("bad yaml".into()));
    assert_eq!(result.errors, vec!["invalid frontmatter: bad yaml"]);
    assert!(result.diagnostics.is_empty());
}

#[test]
fn missing_frontmatter_span_is_capped() {
    let long = "x".repeat(100);
    let result = validate_content("r.md", &long, &Err(String::new()));
    assert_eq!(result.diagnostics[0].span_len, 40);
    let result = validate_content("r.md", "abc", &Err(String::new()));
    assert_eq!(result.diagnostics[0].span_len, 3);
}

fn findings(errors: usize, warnings: usize) -> ValidationResult {
    let mut r = ValidationResult::new();
    for i in 0..errors {
        r.errors.push(format!("error {}", i));
    }
    for i in 0..warnings {
        r.warnings.push(format!("warning {}", i));
    }
    r
}

#[test]
fn repository_with_only_valid_documents_validates() {
    let outcomes = vec![Some(findings(0, 0)), Some(findings(0, 2)), Some(findings(0, 1))];
    let (summary, valid) = summarize_validation(&outcomes);
    assert_eq!(summary, ValidationSummary { count: 3, errors: 0, warnings: 3 });
    assert!(valid);
}

#[test]
fn directory_without_document_counts_as_one_error() {
    let outcomes = vec![Some(findings(0, 1)), None, Some(findings(0, 0))];
    let (summary, valid) = summarize_validation(&outcomes);
    assert_eq!(summary, ValidationSummary { count: 2, errors: 1, warnings: 1 });
    assert!(!valid);
}

#[test]
fn errors_and_warnings_add_up_over_documents() {
    let outcomes = vec![Some(findings(1, 0)), Some(findings(0, 2)), None, Some(findings(2, 1))];
    let (summary, valid) = summarize_validation(&outcomes);
    assert_eq!(summary, ValidationSummary { count: 3, errors: 4, warnings: 3 });
    assert!(!valid);
}

#[test]
fn empty_repository_validates() {
    let (summary, valid) = summarize_validation(&Vec::new());
    assert_eq!(summary, ValidationSummary { count: 0, errors: 0, warnings: 0 });
    assert!(valid);
}
