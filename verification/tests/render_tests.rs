use openrfd::render::{render_document, render_markdown, MdKind, MdNode, MdPosition};

fn node(kind: MdKind, position: Option<MdPosition>, children: Vec<MdNode>) -> MdNode {
    MdNode { kind, position, children }
}

fn pos(start: usize, end: usize, l1: usize, l2: usize) -> Option<MdPosition> {
    Some(MdPosition { start_offset: start, end_offset: end, start_line: l1, end_line: l2 })
}

#[test]
fn test_basic_render() {
    let doc = render_markdown("# Hello\n\nA paragraph.\n");
    assert!(doc.html.contains("data-source="));
    assert!(doc.html.contains("<h1"));
    assert!(doc.html.contains("Hello"));
    assert!(doc.html.contains("<p"));
    assert!(doc.html.contains("A paragraph."));
}

#[test]
fn test_source_map_populated() {
    let doc = render_markdown("# Title\n\nParagraph one.\n\nParagraph two.\n");
    assert!(!doc.source_map.is_empty());
}

#[test]
fn render_markdown_exact_output() {
    let doc = render_markdown("# Hi\n\nA 1 < 2 & \"q\".\n");
    assert_eq!(
        doc.html,
        "<h1 data-source=\"0-4\">Hi</h1>\n<p data-source=\"6-20\">A 1 &lt; 2 &amp; &quot;q&quot;.</p>\n"
    );
    let p_at = doc.html.find("<p").unwrap();
    assert_eq!(doc.source_map.len(), 2);
    assert_eq!(doc.source_map[0].source_range, 0..4);
    assert_eq!(doc.source_map[0].output_range, 0..p_at);
    assert_eq!(doc.source_map[0].line_range, 1..1);
    assert_eq!(doc.source_map[1].source_range, 6..20);
    assert_eq!(doc.source_map[1].output_range, p_at..doc.html.len());
    assert_eq!(doc.source_map[1].line_range, 3..3);
}

#[test]
fn render_lists_code_and_tables() {
    let doc = render_markdown("- [x] done\n- todo\n\n```rust\nlet a = 1 < 2;\n```\n\n| a | b |\n|---|---|\n| 1 | 2 |\n");
    assert!(doc.html.contains("<ul data-source="));
    assert!(doc.html.contains("<input type=\"checkbox\" checked=\"\" disabled=\"\" /> "));
    assert!(doc.html.contains("<code class=\"language-rust\">let a = 1 &lt; 2;</code></pre>"));
    assert!(doc.html.contains("<thead>\n<tr><th>a</th><th>b</th></tr>\n</thead>\n<tbody>\n<tr><td>1</td><td>2</td></tr>\n</tbody>\n</table>"));
}

#[test]
fn front_matter_is_not_rendered() {
    let doc = render_markdown("---\nstate: x\n---\n\nBody\n");
    assert!(!doc.html.contains("state"));
    assert!(doc.html.contains("Body"));
}

#[test]
fn render_document_of_a_tree() {
    let text = node(MdKind::Text("a<b".into()), None, vec![]);
    let em = node(MdKind::Emphasis, None, vec![node(MdKind::Text("x".into()), None, vec![])]);
    let link = node(
        MdKind::Link { url: "http://e/?a=1&b=2".into(), title: Some("T\"".into()) },
        None,
        vec![node(MdKind::Text("l".into()), None, vec![])],
    );
    let para = node(MdKind::Paragraph, pos(0, 9, 1, 1), vec![text, em, link]);
    let hr = node(MdKind::ThematicBreak, pos(10, 13, 2, 2), vec![]);
    let hidden = node(MdKind::LinkReference, None, vec![node(MdKind::Text("no".into()), None, vec![])]);
    let root = node(MdKind::Root, None, vec![para, hr, hidden]);
    let doc = render_document(&root);
    assert_eq!(
        doc.html,
        "<p data-source=\"0-9\">a&lt;b<em>x</em><a href=\"http://e/?a=1&amp;b=2\" title=\"T&quot;\">l</a></p>\n<hr />\n"
    );
    // only the paragraph records a span; a thematic break does not
    assert_eq!(doc.source_map.len(), 1);
    assert_eq!(doc.source_map[0].output_range, 0..(doc.html.len() - "<hr />\n".len()));
}

#[test]
fn nested_spans_come_before_their_parent() {
    let item = node(MdKind::ListItem { checked: None }, pos(0, 3, 1, 1), vec![node(MdKind::Text("a".into()), None, vec![])]);
    let list = node(MdKind::List { ordered: true, start: Some(3) }, pos(0, 4, 1, 2), vec![item]);
    let doc = render_document(&node(MdKind::Root, None, vec![list]));
    assert_eq!(doc.html, "<ol start=\"3\" data-source=\"0-4\">\n<li data-source=\"0-3\">a</li>\n</ol>\n");
    assert_eq!(doc.source_map.len(), 2);
    assert_eq!(doc.source_map[0].source_range, 0..3);
    assert_eq!(doc.source_map[1].source_range, 0..4);
    assert_eq!(doc.source_map[1].output_range, 0..doc.html.len());
}

#[test]
fn escaping_leaves_no_markup() {
    let doc = render_document(&node(MdKind::Text("<script>\"x\" & y</script>".into()), None, vec![]));
    assert_eq!(doc.html, "&lt;script&gt;&quot;x&quot; &amp; y&lt;/script&gt;");
    assert!(!doc.html.contains('<') && !doc.html.contains('>') && !doc.html.contains('"'));
}

#[test]
fn footnotes_and_images() {
    let fref = node(MdKind::FootnoteReference { identifier: "n<1".into() }, None, vec![]);
    let img = node(MdKind::Image { url: "i.png".into(), alt: "A&B".into(), title: None }, None, vec![]);
    let doc = render_document(&node(MdKind::Root, None, vec![fref, img]));
    assert_eq!(
        doc.html,
        "<sup class=\"footnote-ref\"><a href=\"#fn-n&lt;1\">[n&lt;1]</a></sup><img src=\"i.png\" alt=\"A&amp;B\" />"
    );
}

#[test]
fn front_matter_renders_as_nothing() {
    let yaml = node(MdKind::Yaml("state: x".into()), None, vec![]);
    let root = node(MdKind::Root, None, vec![yaml]);
    assert_eq!(render_document(&root).html, "");
    let doc = render_markdown("---\nstate: x\n---\n\nHello\n");
    assert!(!doc.html.contains("state"));
    assert!(doc.html.contains("Hello"));
}
