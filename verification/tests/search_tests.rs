use openrfd::rfd::{Frontmatter, Rfd};
use openrfd::search::{index_entry, index_header, index_row, search_index, search_rfd, strip_markdown};
use openrfd::state::State;

fn rfd(body: &str, authors: Option<&str>) -> Rfd {
    Rfd {
        number: 7,
        frontmatter: Frontmatter {
            authors: authors.map(|a| a.to_string()),
            state: State::Published,
            visibility: None,
            labels: vec!["api".into(), "db".into()],
        },
        body: body.into(),
        path: "rfd/0007/README.md".into(),
    }
}

#[test]
fn test_strip_markdown_headings() {
    let md = "# Title\n## Subtitle\nParagraph text.";
    let stripped = strip_markdown(md);
    assert!(stripped.contains("Title"));
    assert!(stripped.contains("Subtitle"));
    assert!(stripped.contains("Paragraph text."));
    assert!(!stripped.contains('#'));
}

#[test]
fn test_strip_markdown_code_fences() {
    let md = "Before\n```rust\nlet x = 1;\n```\nAfter";
    let stripped = strip_markdown(md);
    assert!(stripped.contains("Before"));
    assert!(stripped.contains("After"));
    assert!(!stripped.contains("```"));
    assert!(stripped.contains("let x = 1;"));
}

#[test]
fn test_strip_markdown_frontmatter_delimiters() {
    let md = "---\nauthors: Alice\nstate: published\n---\n\nContent";
    let stripped = strip_markdown(md);
    assert!(stripped.contains("Content"));
    assert!(stripped.contains("authors: Alice"));
    assert!(!stripped.contains("---"));
}

#[test]
fn test_strip_markdown_empty() {
    assert_eq!(strip_markdown("").trim(), "");
}

#[test]
fn search_reports_matching_lines_with_metadata() {
    let r = rfd("# RFD 0007 Caching\n\nWe add a CACHE layer.\nNothing here.\n  cache again  \n", Some("Ann"));
    let hits = search_rfd("0007", &r, "Cache");
    // "Caching" does not contain "cache"
    assert_eq!(hits.len(), 2);
    assert_eq!(hits[0].line, 3);
    assert_eq!(hits[0].context, "We add a CACHE layer.");
    assert_eq!(hits[1].context, "cache again");
    assert_eq!(hits[1].line, 5);
    for h in &hits {
        assert_eq!(h.number, "0007");
        assert_eq!(h.title, "Caching");
        assert_eq!(h.state, "published");
        assert_eq!(h.authors, "Ann");
    }
    assert!(search_rfd("0007", &r, "absent").is_empty());
}

#[test]
fn index_entries_and_rows() {
    let r = rfd("# RFD 0007 Caching\nText\n", None);
    let e = index_entry(7, "0007", &r);
    assert_eq!(e.id, 7);
    assert_eq!(e.title, "Caching");
    assert_eq!(e.authors, "");
    assert_eq!(e.labels, vec!["api".to_string(), "db".to_string()]);
    assert!(!e.body.contains('#'));
    let row = index_row("0007", &r, &Some("https://x/pr/7".into()));
    assert_eq!(row, vec!["0007", "Caching", "published", "", "https://x/pr/7"]);
    assert_eq!(index_header(), vec!["number", "title", "state", "authors", "discussion"]);
}

#[test]
fn search_index_lists_numbered_directories_in_order() {
    let dirs = vec![
        ("0002".to_string(), rfd("# RFD 0002 Second\n", Some("Bo"))),
        ("drafts".to_string(), rfd("# Draft\n", None)),
        ("0010".to_string(), rfd("# RFD 0010 Tenth\nBody", None)),
    ];
    let index = search_index(&dirs);
    assert_eq!(index.len(), 2);
    assert_eq!((index[0].id, index[0].number.as_str(), index[0].title.as_str()), (2, "0002", "Second"));
    assert_eq!(index[0].authors, "Bo");
    assert_eq!((index[1].id, index[1].number.as_str(), index[1].title.as_str()), (10, "0010", "Tenth"));
    assert_eq!(index[1].state, "published");
    assert!(search_index(&Vec::new()).is_empty());
}
