use openrfd::source_map::{line_number_at, RenderedDocument, SourceSpan};

#[test]
fn test_line_number_at_first_line() {
    assert_eq!(line_number_at("hello\nworld", 0), 1);
    assert_eq!(line_number_at("hello\nworld", 3), 1);
}

#[test]
fn test_line_number_at_second_line() {
    assert_eq!(line_number_at("hello\nworld", 6), 2);
    assert_eq!(line_number_at("hello\nworld", 10), 2);
}

#[test]
fn test_line_number_at_newline_boundary() {
    assert_eq!(line_number_at("hello\nworld", 5), 1);
    assert_eq!(line_number_at("hello\nworld\nfoo", 11), 2);
    assert_eq!(line_number_at("hello\nworld\nfoo", 12), 3);
}

#[test]
fn test_line_number_at_beyond_end() {
    assert_eq!(line_number_at("hello\nworld", 999), 2);
}

#[test]
fn test_line_number_at_empty_string() {
    assert_eq!(line_number_at("", 0), 1);
}

#[test]
fn test_rendered_document_lookup() {
    let doc = RenderedDocument {
        html: "<p>hello</p><p>world</p>".into(),
        source_map: vec![
            SourceSpan { source_range: 0..5, output_range: 0..12, line_range: 1..2 },
            SourceSpan { source_range: 6..11, output_range: 12..24, line_range: 2..3 },
        ],
    };

    let span = doc.source_for_output(5).unwrap();
    assert_eq!(span.source_range, 0..5);

    let span = doc.source_for_output(15).unwrap();
    assert_eq!(span.source_range, 6..11);

    assert!(doc.source_for_output(99).is_none());

    let span = doc.output_for_source(3).unwrap();
    assert_eq!(span.output_range, 0..12);

    let span = doc.output_for_source(8).unwrap();
    assert_eq!(span.output_range, 12..24);

    assert!(doc.output_for_source(99).is_none());
}

#[test]
fn line_numbers_count_newlines_in_multibyte_text() {
    let text = "héllo\nwörld\n";
    assert_eq!(line_number_at(text, 7), 2);
    assert_eq!(line_number_at(text, text.len()), 3);
}

#[test]
fn lookup_takes_the_first_span_that_holds_the_offset() {
    let doc = RenderedDocument {
        html: String::new(),
        source_map: vec![
            SourceSpan { source_range: 0..10, output_range: 5..8, line_range: 1..2 },
            SourceSpan { source_range: 2..4, output_range: 0..20, line_range: 1..1 },
        ],
    };
    assert_eq!(doc.source_for_output(6).unwrap().source_range, 0..10);
    assert_eq!(doc.source_for_output(8).unwrap().source_range, 2..4);
    assert_eq!(doc.output_for_source(3).unwrap().output_range, 5..8);
    assert!(doc.output_for_source(10).is_none());
}
