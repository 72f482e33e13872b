//! Rendering markdown to HTML with a source map: every block element
//! carries a `data-source="start-end"` attribute and a span relating its
//! source bytes to its output bytes.
use std::ops::Range;

use markdown::mdast::Node;
use vstd::prelude::*;
use vstd::utf8::encode_utf8;

use crate::number::{decimal, decimal_chars};
use crate::source_map::{RenderedDocument, SourceSpan};
use crate::text::string_of;

verus! {

/// Where a markdown node stands in its source: byte offsets and 1-based lines.
#[derive(Debug, Clone, Copy)]
pub struct MdPosition {
    pub start_offset: usize,
    pub end_offset: usize,
    pub start_line: usize,
    pub end_line: usize,
}

/// What a markdown node is, with the data that rendering reads from it.
#[derive(Debug, Clone)]
pub enum MdKind {
    Root,
    Paragraph,
    Heading(u8),
    Blockquote,
    Code { lang: Option<String>, value: String },
    List { ordered: bool, start: Option<u32> },
    ListItem { checked: Option<bool> },
    Table,
    ThematicBreak,
    FootnoteDefinition { identifier: String },
    Text(String),
    InlineCode(String),
    Emphasis,
    Strong,
    Delete,
    Link { url: String, title: Option<String> },
    Image { url: String, alt: String, title: Option<String> },
    Break,
    Html(String),
    FootnoteReference { identifier: String },
    /// A YAML front matter block, with its text: rendered as nothing.
    Yaml(String),
    /// A TOML front matter block: rendered as nothing.
    Toml,
    /// A link reference definition: rendered as nothing.
    Definition,
    /// An image by reference: rendered as nothing.
    ImageReference,
    /// A link by reference: rendered as nothing, its text included.
    LinkReference,
    /// Any other node: rendered as its children.
    Other,
}

/// A node of a markdown syntax tree.
#[derive(Debug)]
pub struct MdNode {
    pub kind: MdKind,
    pub position: Option<MdPosition>,
    pub children: Vec<MdNode>,
}

// ---------------------------------------------------------------------------
// What is rendered
// ---------------------------------------------------------------------------

/// The HTML escape of one character.
pub open spec fn escape_char(c: char) -> Seq<char> {
    if c == '&' {
        "&amp;"@
    } else if c == '<' {
        "&lt;"@
    } else if c == '>' {
        "&gt;"@
    } else if c == '"' {
        "&quot;"@
    } else {
        seq![c]
    }
}

/// `s` with `&`, `<`, `>` and `"` escaped for HTML.
pub open spec fn escaped(s: Seq<char>) -> Seq<char>
    decreases s.len(),
{
    if s.len() == 0 {
        seq![]
    } else {
        escaped(s.drop_last()) + escape_char(s.last())
    }
}

/// ` data-source="start-end"` for a node with a position, else nothing.
pub open spec fn data_source(pos: Option<MdPosition>) -> Seq<char> {
    match pos {
        Some(p) => " data-source=\""@ + decimal(p.start_offset as nat) + "-"@ + decimal(
            p.end_offset as nat,
        ) + "\""@,
        None => seq![],
    }
}

/// ` class="language-<lang>"` for a code block with a non-empty language.
pub open spec fn lang_attr(lang: Option<String>) -> Seq<char> {
    match lang {
        Some(l) => if l@.len() > 0 {
            " class=\"language-"@ + l@ + "\""@
        } else {
            seq![]
        },
        None => seq![],
    }
}

/// ` title="<title>"` for a non-empty title.
pub open spec fn title_attr(title: Option<String>) -> Seq<char> {
    match title {
        Some(t) => if t@.len() > 0 {
            " title=\""@ + escaped(t@) + "\""@
        } else {
            seq![]
        },
        None => seq![],
    }
}

/// The checkbox of a task-list item.
pub open spec fn checkbox(checked: Option<bool>) -> Seq<char> {
    match checked {
        Some(true) => "<input type=\"checkbox\" checked=\"\" disabled=\"\" /> "@,
        Some(false) => "<input type=\"checkbox\" disabled=\"\" /> "@,
        None => seq![],
    }
}

/// The cell tag of a table row.
pub open spec fn cell_tag(head: bool) -> Seq<char> {
    if head {
        "th"@
    } else {
        "td"@
    }
}

/// What a node writes before its children.
pub open spec fn opening(n: MdNode) -> Seq<char> {
    let ds = data_source(n.position);
    match n.kind {
        MdKind::Paragraph => "<p"@ + ds + ">"@,
        MdKind::Heading(d) => "<h"@ + decimal(d as nat) + ds + ">"@,
        MdKind::Blockquote => "<blockquote"@ + ds + ">\n"@,
        MdKind::List { ordered, start } => if ordered {
            "<ol start=\""@ + decimal(
                match start {
                    Some(s) => s as nat,
                    None => 1nat,
                },
            ) + "\""@ + ds + ">\n"@
        } else {
            "<ul"@ + ds + ">\n"@
        },
        MdKind::ListItem { checked } => "<li"@ + ds + ">"@ + checkbox(checked),
        MdKind::Table => "<table"@ + ds + ">\n"@,
        MdKind::FootnoteDefinition { identifier } => "<div class=\"footnote\" id=\"fn-"@ + escaped(
            identifier@,
        ) + "\">\n<p>"@ + escaped(identifier@) + ": "@,
        MdKind::Emphasis => "<em>"@,
        MdKind::Strong => "<strong>"@,
        MdKind::Delete => "<del>"@,
        MdKind::Link { url, title } => "<a href=\""@ + escaped(url@) + "\""@ + title_attr(title)
            + ">"@,
        _ => seq![],
    }
}

/// What a node writes after its children.
pub open spec fn closing(n: MdNode) -> Seq<char> {
    match n.kind {
        MdKind::Paragraph => "</p>\n"@,
        MdKind::Heading(d) => "</h"@ + decimal(d as nat) + ">\n"@,
        MdKind::Blockquote => "</blockquote>\n"@,
        MdKind::List { ordered, start } => if ordered {
            "</ol>\n"@
        } else {
            "</ul>\n"@
        },
        MdKind::ListItem { checked } => "</li>\n"@,
        MdKind::Table => "</table>\n"@,
        MdKind::FootnoteDefinition { identifier } => "</p>\n</div>\n"@,
        MdKind::Emphasis => "</em>"@,
        MdKind::Strong => "</strong>"@,
        MdKind::Delete => "</del>"@,
        MdKind::Link { url, title } => "</a>"@,
        _ => seq![],
    }
}

/// What a node that has no children rendered writes.
pub open spec fn leaf_html(n: MdNode) -> Seq<char> {
    match n.kind {
        MdKind::Code { lang, value } => "<pre"@ + data_source(n.position) + "><code"@ + lang_attr(
            lang,
        ) + ">"@ + escaped(value@) + "</code></pre>\n"@,
        MdKind::ThematicBreak => "<hr />\n"@,
        MdKind::Text(v) => escaped(v@),
        MdKind::InlineCode(v) => "<code>"@ + escaped(v@) + "</code>"@,
        MdKind::Image { url, alt, title } => "<img src=\""@ + escaped(url@) + "\" alt=\""@
            + escaped(alt@) + "\""@ + title_attr(title) + " />"@,
        MdKind::Break => "<br />\n"@,
        MdKind::Html(v) => v@,
        MdKind::FootnoteReference { identifier } => "<sup class=\"footnote-ref\"><a href=\"#fn-"@
            + escaped(identifier@) + "\">["@ + escaped(identifier@) + "]</a></sup>"@,
        _ => seq![],
    }
}

/// How a node renders what it holds.
pub enum Layout {
    /// Nothing of its children: `leaf_html`.
    Leaf,
    /// Its children between `opening` and `closing`.
    Wrapped,
    /// Its children as the rows of a table, between `opening` and `closing`.
    Rows,
}

pub open spec fn layout(k: MdKind) -> Layout {
    match k {
        MdKind::Code { .. } | MdKind::ThematicBreak | MdKind::Text(_) | MdKind::InlineCode(_)
        | MdKind::Image { .. } | MdKind::Break | MdKind::Html(_) | MdKind::FootnoteReference {
            ..
        } | MdKind::Yaml(_) | MdKind::Toml | MdKind::Definition | MdKind::ImageReference
        | MdKind::LinkReference => Layout::Leaf,
        MdKind::Table => Layout::Rows,
        _ => Layout::Wrapped,
    }
}

/// Whether a node records a span in the source map.
pub open spec fn has_span(k: MdKind) -> bool {
    match k {
        MdKind::Paragraph | MdKind::Heading(_) | MdKind::Blockquote | MdKind::Code { .. }
        | MdKind::List { .. } | MdKind::ListItem { .. } | MdKind::Table => true,
        _ => false,
    }
}

/// The HTML of a node.
pub open spec fn node_html(n: MdNode) -> Seq<char>
    decreases n,
{
    match layout(n.kind) {
        Layout::Leaf => leaf_html(n),
        Layout::Wrapped => opening(n) + nodes_html(n.children@) + closing(n),
        Layout::Rows => opening(n) + table_html(n.children@) + closing(n),
    }
}

/// The HTML of a sequence of nodes.
pub open spec fn nodes_html(cs: Seq<MdNode>) -> Seq<char>
    decreases cs,
{
    if cs.len() == 0 {
        seq![]
    } else {
        nodes_html(cs.drop_last()) + node_html(cs.last())
    }
}

/// The cells of a table row.
pub open spec fn cells_html(cells: Seq<MdNode>, head: bool) -> Seq<char>
    decreases cells,
{
    if cells.len() == 0 {
        seq![]
    } else {
        cells_html(cells.drop_last(), head) + "<"@ + cell_tag(head) + ">"@ + nodes_html(
            cells.last().children@,
        ) + "</"@ + cell_tag(head) + ">"@
    }
}

/// A table row.
pub open spec fn row_html(row: MdNode, head: bool) -> Seq<char>
    decreases row,
{
    "<tr>"@ + cells_html(row.children@, head) + "</tr>\n"@
}

/// Body rows of a table.
pub open spec fn body_rows_html(rows: Seq<MdNode>) -> Seq<char>
    decreases rows,
{
    if rows.len() == 0 {
        seq![]
    } else {
        body_rows_html(rows.drop_last()) + row_html(rows.last(), false)
    }
}

/// The rows of a table: the first as its head, the others as its body.
pub open spec fn table_html(rows: Seq<MdNode>) -> Seq<char>
    decreases rows,
{
    if rows.len() == 0 {
        seq![]
    } else {
        "<thead>\n"@ + row_html(rows[0], true) + "</thead>\n<tbody>\n"@ + body_rows_html(
            rows.drop_first(),
        ) + "</tbody>\n"@
    }
}

// ---------------------------------------------------------------------------
// The source map
// ---------------------------------------------------------------------------

/// The length in bytes of the UTF-8 encoding of `s`.
pub open spec fn utf8_len(s: Seq<char>) -> int {
    encode_utf8(s).len() as int
}

/// The span of a node at `pos` whose output `out` follows the output `pre`.
pub open spec fn span_at(pos: MdPosition, pre: Seq<char>, out: Seq<char>) -> SourceSpan {
    SourceSpan {
        source_range: Range { start: pos.start_offset, end: pos.end_offset },
        output_range: Range { start: utf8_len(pre) as usize, end: utf8_len(pre + out) as usize },
        line_range: Range { start: pos.start_line as u32, end: pos.end_line as u32 },
    }
}

/// The span a node records itself, if any.
pub open spec fn own_span(n: MdNode, pre: Seq<char>) -> Seq<SourceSpan> {
    if has_span(n.kind) {
        match n.position {
            Some(p) => seq![span_at(p, pre, node_html(n))],
            None => seq![],
        }
    } else {
        seq![]
    }
}

/// The spans of a node rendered after the output `pre`: those of its
/// descendants in the order they end, then its own.
pub open spec fn node_spans(n: MdNode, pre: Seq<char>) -> Seq<SourceSpan>
    decreases n,
{
    match layout(n.kind) {
        Layout::Leaf => own_span(n, pre),
        Layout::Wrapped => nodes_spans(n.children@, pre + opening(n)) + own_span(n, pre),
        Layout::Rows => table_spans(n.children@, pre + opening(n)) + own_span(n, pre),
    }
}

/// The spans of a sequence of nodes rendered after `pre`.
pub open spec fn nodes_spans(cs: Seq<MdNode>, pre: Seq<char>) -> Seq<SourceSpan>
    decreases cs,
{
    if cs.len() == 0 {
        seq![]
    } else {
        nodes_spans(cs.drop_last(), pre) + node_spans(cs.last(), pre + nodes_html(cs.drop_last()))
    }
}

/// The spans of the cells of a table row.
pub open spec fn cells_spans(cells: Seq<MdNode>, head: bool, pre: Seq<char>) -> Seq<SourceSpan>
    decreases cells,
{
    if cells.len() == 0 {
        seq![]
    } else {
        cells_spans(cells.drop_last(), head, pre) + nodes_spans(
            cells.last().children@,
            pre + cells_html(cells.drop_last(), head) + "<"@ + cell_tag(head) + ">"@,
        )
    }
}

/// The spans of a table row.
pub open spec fn row_spans(row: MdNode, head: bool, pre: Seq<char>) -> Seq<SourceSpan>
    decreases row,
{
    cells_spans(row.children@, head, pre + "<tr>"@)
}

/// The spans of the body rows of a table.
pub open spec fn body_rows_spans(rows: Seq<MdNode>, pre: Seq<char>) -> Seq<SourceSpan>
    decreases rows,
{
    if rows.len() == 0 {
        seq![]
    } else {
        body_rows_spans(rows.drop_last(), pre) + row_spans(
            rows.last(),
            false,
            pre + body_rows_html(rows.drop_last()),
        )
    }
}

/// The spans of the rows of a table.
pub open spec fn table_spans(rows: Seq<MdNode>, pre: Seq<char>) -> Seq<SourceSpan>
    decreases rows,
{
    if rows.len() == 0 {
        seq![]
    } else {
        row_spans(rows[0], true, pre + "<thead>\n"@) + body_rows_spans(
            rows.drop_first(),
            pre + "<thead>\n"@ + row_html(rows[0], true) + "</thead>\n<tbody>\n"@,
        )
    }
}

// ---------------------------------------------------------------------------
// Writing
// ---------------------------------------------------------------------------

/// Appends the HTML escape of `s`.
fn append_escaped(html: &mut String, s: &str)
    ensures
        final(html)@ == old(html)@ + escaped(s@),
{
    let ghost start = html@;
    let mut buf: Vec<char> = Vec::new();
    let mut i: usize = 0;
    let cs = crate::text::chars_of(s);
    while i < cs.len()
        invariant
            i <= cs.len(),
            cs@ == s@,
            buf@ == escaped(cs@.take(i as int)),
        decreases cs.len() - i,
    {
        let c = cs[i];
        let ghost before = buf@;
        if c == '&' {
            let e = crate::text::chars_of("&amp;");
            crate::text::extend_from(&mut buf, &e);
        } else if c == '<' {
            let e = crate::text::chars_of("&lt;");
            crate::text::extend_from(&mut buf, &e);
        } else if c == '>' {
            let e = crate::text::chars_of("&gt;");
            crate::text::extend_from(&mut buf, &e);
        } else if c == '"' {
            let e = crate::text::chars_of("&quot;");
            crate::text::extend_from(&mut buf, &e);
        } else {
            buf.push(c);
        }
        assert(cs@.take(i + 1).drop_last() =~= cs@.take(i as int));
        assert(buf@ =~= before + escape_char(c));
        i += 1;
    }
    assert(cs@.take(i as int) =~= s@);
    let out = string_of(&buf);
    html.append(out.as_str());
}

/// Appends the decimal digits of `n`.
fn append_decimal(html: &mut String, n: u64)
    ensures
        final(html)@ == old(html)@ + decimal(n as nat),
{
    let d = decimal_chars(n);
    let out = string_of(&d);
    html.append(out.as_str());
}

/// Appends the `data-source` attribute of a node.
fn append_data_source(html: &mut String, pos: &Option<MdPosition>)
    ensures
        final(html)@ == old(html)@ + data_source(*pos),
{
    let ghost start = html@;
    match pos {
        Some(p) => {
            html.append(" data-source=\"");
            append_decimal(html, p.start_offset as u64);
            html.append("-");
            append_decimal(html, p.end_offset as u64);
            html.append("\"");
            assert(html@ =~= start + data_source(*pos));
        },
        None => {
            assert(html@ =~= start + data_source(*pos));
        },
    }
}

/// Appends the `title` attribute, if the title is not empty.
fn append_title(html: &mut String, title: &Option<String>)
    ensures
        final(html)@ == old(html)@ + title_attr(*title),
{
    let ghost start = html@;
    match title {
        Some(t) => {
            if !t.as_str().is_empty() {
                html.append(" title=\"");
                append_escaped(html, t.as_str());
                html.append("\"");
            }
        },
        None => {},
    }
    assert(html@ =~= start + title_attr(*title));
}

/// How a node of kind `k` is laid out.
fn kind_layout(k: &MdKind) -> (r: Layout)
    ensures
        r == layout(*k),
{
    match k {
        MdKind::Code { .. } | MdKind::ThematicBreak | MdKind::Text(_) | MdKind::InlineCode(_)
        | MdKind::Image { .. } | MdKind::Break | MdKind::Html(_) | MdKind::FootnoteReference {
            ..
        } | MdKind::Yaml(_) | MdKind::Toml | MdKind::Definition | MdKind::ImageReference
        | MdKind::LinkReference => Layout::Leaf,
        MdKind::Table => Layout::Rows,
        _ => Layout::Wrapped,
    }
}

/// Whether a node of kind `k` records a span.
fn kind_has_span(k: &MdKind) -> (r: bool)
    ensures
        r == has_span(*k),
{
    match k {
        MdKind::Paragraph | MdKind::Heading(_) | MdKind::Blockquote | MdKind::Code { .. }
        | MdKind::List { .. } | MdKind::ListItem { .. } | MdKind::Table => true,
        _ => false,
    }
}

/// Writes what a node puts before its children.
fn write_opening(node: &MdNode, html: &mut String)
    ensures
        final(html)@ == old(html)@ + opening(*node),
{
    let ghost start = html@;
    match &node.kind {
        MdKind::Paragraph => {
            html.append("<p");
            append_data_source(html, &node.position);
            html.append(">");
        },
        MdKind::Heading(d) => {
            html.append("<h");
            append_decimal(html, *d as u64);
            append_data_source(html, &node.position);
            html.append(">");
        },
        MdKind::Blockquote => {
            html.append("<blockquote");
            append_data_source(html, &node.position);
            html.append(">\n");
        },
        MdKind::List { ordered, start: first } => {
            if *ordered {
                html.append("<ol start=\"");
                let n: u64 = match first {
                    Some(v) => *v as u64,
                    None => 1,
                };
                append_decimal(html, n);
                html.append("\"");
                append_data_source(html, &node.position);
                html.append(">\n");
            } else {
                html.append("<ul");
                append_data_source(html, &node.position);
                html.append(">\n");
            }
        },
        MdKind::ListItem { checked } => {
            html.append("<li");
            append_data_source(html, &node.position);
            html.append(">");
            match checked {
                Some(true) => html.append(
                    "<input type=\"checkbox\" checked=\"\" disabled=\"\" /> ",
                ),
                Some(false) => html.append("<input type=\"checkbox\" disabled=\"\" /> "),
                None => {},
            }
        },
        MdKind::Table => {
            html.append("<table");
            append_data_source(html, &node.position);
            html.append(">\n");
        },
        MdKind::FootnoteDefinition { identifier } => {
            html.append("<div class=\"footnote\" id=\"fn-");
            append_escaped(html, identifier.as_str());
            html.append("\">\n<p>");
            append_escaped(html, identifier.as_str());
            html.append(": ");
        },
        MdKind::Emphasis => html.append("<em>"),
        MdKind::Strong => html.append("<strong>"),
        MdKind::Delete => html.append("<del>"),
        MdKind::Link { url, title } => {
            html.append("<a href=\"");
            append_escaped(html, url.as_str());
            html.append("\"");
            append_title(html, title);
            html.append(">");
        },
        _ => {},
    }
    assert(html@ =~= start + opening(*node));
}

/// Writes what a node puts after its children.
fn write_closing(node: &MdNode, html: &mut String)
    ensures
        final(html)@ == old(html)@ + closing(*node),
{
    let ghost start = html@;
    match &node.kind {
        MdKind::Paragraph => html.append("</p>\n"),
        MdKind::Heading(d) => {
            html.append("</h");
            append_decimal(html, *d as u64);
            html.append(">\n");
        },
        MdKind::Blockquote => html.append("</blockquote>\n"),
        MdKind::List { ordered, .. } => {
            if *ordered {
                html.append("</ol>\n");
            } else {
                html.append("</ul>\n");
            }
        },
        MdKind::ListItem { .. } => html.append("</li>\n"),
        MdKind::Table => html.append("</table>\n"),
        MdKind::FootnoteDefinition { .. } => html.append("</p>\n</div>\n"),
        MdKind::Emphasis => html.append("</em>"),
        MdKind::Strong => html.append("</strong>"),
        MdKind::Delete => html.append("</del>"),
        MdKind::Link { .. } => html.append("</a>"),
        _ => {},
    }
    assert(html@ =~= start + closing(*node));
}

/// Writes a node that renders none of its children.
fn write_leaf(node: &MdNode, html: &mut String)
    ensures
        final(html)@ == old(html)@ + leaf_html(*node),
{
    let ghost start = html@;
    match &node.kind {
        MdKind::Code { lang, value } => {
            html.append("<pre");
            append_data_source(html, &node.position);
            html.append("><code");
            match lang {
                Some(l) => {
                    if !l.as_str().is_empty() {
                        html.append(" class=\"language-");
                        html.append(l.as_str());
                        html.append("\"");
                    }
                },
                None => {},
            }
            html.append(">");
            append_escaped(html, value.as_str());
            html.append("</code></pre>\n");
        },
        MdKind::ThematicBreak => html.append("<hr />\n"),
        MdKind::Text(v) => append_escaped(html, v.as_str()),
        MdKind::InlineCode(v) => {
            html.append("<code>");
            append_escaped(html, v.as_str());
            html.append("</code>");
        },
        MdKind::Image { url, alt, title } => {
            html.append("<img src=\"");
            append_escaped(html, url.as_str());
            html.append("\" alt=\"");
            append_escaped(html, alt.as_str());
            html.append("\"");
            append_title(html, title);
            html.append(" />");
        },
        MdKind::Break => html.append("<br />\n"),
        MdKind::Html(v) => html.append(v.as_str()),
        MdKind::FootnoteReference { identifier } => {
            html.append("<sup class=\"footnote-ref\"><a href=\"#fn-");
            append_escaped(html, identifier.as_str());
            html.append("\">[");
            append_escaped(html, identifier.as_str());
            html.append("]</a></sup>");
        },
        _ => {},
    }
    assert(html@ =~= start + leaf_html(*node));
}

/// Renders a node after the output in `html`, recording its spans.
#[verifier::spinoff_prover]
#[verifier::rlimit(40)]
fn render_node(node: &MdNode, html: &mut String, source_map: &mut Vec<SourceSpan>)
    ensures
        final(html)@ == old(html)@ + node_html(*node),
        final(source_map)@ == old(source_map)@ + node_spans(*node, old(html)@),
    decreases node,
{
    let ghost pre = html@;
    let ghost map0 = source_map@;
    let out_start = html.as_str().len();
    match kind_layout(&node.kind) {
        Layout::Leaf => write_leaf(node, html),
        Layout::Wrapped => {
            write_opening(node, html);
            render_nodes(&node.children, html, source_map);
            write_closing(node, html);
        },
        Layout::Rows => {
            write_opening(node, html);
            render_table(&node.children, html, source_map);
            write_closing(node, html);
        },
    }
    assert(html@ =~= pre + node_html(*node));
    let ghost inner = source_map@;
    if kind_has_span(&node.kind) {
        match &node.position {
            Some(p) => {
                let out_end = html.as_str().len();
                source_map.push(
                    SourceSpan {
                        source_range: Range { start: p.start_offset, end: p.end_offset },
                        output_range: Range { start: out_start, end: out_end },
                        line_range: Range {
                            start: p.start_line as u32,
                            end: p.end_line as u32,
                        },
                    },
                );
            },
            None => {},
        }
    }
    assert(source_map@ =~= map0 + node_spans(*node, pre));
}

/// Renders a sequence of nodes.
fn render_nodes(cs: &Vec<MdNode>, html: &mut String, source_map: &mut Vec<SourceSpan>)
    ensures
        final(html)@ == old(html)@ + nodes_html(cs@),
        final(source_map)@ == old(source_map)@ + nodes_spans(cs@, old(html)@),
    decreases cs,
{
    let ghost pre = html@;
    let ghost map0 = source_map@;
    let mut i: usize = 0;
    while i < cs.len()
        invariant
            i <= cs.len(),
            html@ == pre + nodes_html(cs@.take(i as int)),
            source_map@ == map0 + nodes_spans(cs@.take(i as int), pre),
        decreases cs.len() - i,
    {
        assert(cs@.take(i + 1).drop_last() =~= cs@.take(i as int));
        render_node(&cs[i], html, source_map);
        assert(html@ =~= pre + nodes_html(cs@.take(i + 1)));
        assert(source_map@ =~= map0 + nodes_spans(cs@.take(i + 1), pre));
        i += 1;
    }
    assert(cs@.take(i as int) =~= cs@);
}

/// Renders a table row.
fn render_row(row: &MdNode, head: bool, html: &mut String, source_map: &mut Vec<SourceSpan>)
    ensures
        final(html)@ == old(html)@ + row_html(*row, head),
        final(source_map)@ == old(source_map)@ + row_spans(*row, head, old(html)@),
    decreases row,
{
    let ghost pre = html@;
    let ghost map0 = source_map@;
    html.append("<tr>");
    let ghost pre2 = html@;
    let cells = &row.children;
    let mut j: usize = 0;
    while j < cells.len()
        invariant
            j <= cells.len(),
            cells == &row.children,
            html@ == pre2 + cells_html(cells@.take(j as int), head),
            source_map@ == map0 + cells_spans(cells@.take(j as int), head, pre2),
        decreases cells.len() - j,
    {
        assert(cells@.take(j + 1).drop_last() =~= cells@.take(j as int));
        html.append("<");
        if head {
            html.append("th");
        } else {
            html.append("td");
        }
        html.append(">");
        let ghost inner = html@;
        render_nodes(&cells[j].children, html, source_map);
        html.append("</");
        if head {
            html.append("th");
        } else {
            html.append("td");
        }
        html.append(">");
        assert(html@ =~= pre2 + cells_html(cells@.take(j + 1), head));
        assert(inner =~= pre2 + cells_html(cells@.take(j as int), head) + "<"@ + cell_tag(head)
            + ">"@);
        assert(source_map@ =~= map0 + cells_spans(cells@.take(j + 1), head, pre2));
        j += 1;
    }
    assert(cells@.take(j as int) =~= cells@);
    html.append("</tr>\n");
    assert(html@ =~= pre + row_html(*row, head));
}

/// Renders the rows of a table: the first as its head, the rest as its body.
#[verifier::spinoff_prover]
#[verifier::rlimit(40)]
fn render_table(rows: &Vec<MdNode>, html: &mut String, source_map: &mut Vec<SourceSpan>)
    ensures
        final(html)@ == old(html)@ + table_html(rows@),
        final(source_map)@ == old(source_map)@ + table_spans(rows@, old(html)@),
    decreases rows,
{
    let ghost pre = html@;
    let ghost map0 = source_map@;
    if rows.len() == 0 {
        assert(html@ =~= pre + table_html(rows@));
        assert(source_map@ =~= map0 + table_spans(rows@, pre));
        return ;
    }
    html.append("<thead>\n");
    render_row(&rows[0], true, html, source_map);
    html.append("</thead>\n<tbody>\n");
    let ghost pre2 = html@;
    let ghost map1 = source_map@;
    let mut i: usize = 1;
    while i < rows.len()
        invariant
            1 <= i <= rows.len(),
            html@ == pre2 + body_rows_html(rows@.subrange(1, i as int)),
            source_map@ == map1 + body_rows_spans(rows@.subrange(1, i as int), pre2),
        decreases rows.len() - i,
    {
        assert(rows@.subrange(1, i + 1).drop_last() =~= rows@.subrange(1, i as int));
        render_row(&rows[i], false, html, source_map);
        assert(html@ =~= pre2 + body_rows_html(rows@.subrange(1, i + 1)));
        assert(source_map@ =~= map1 + body_rows_spans(rows@.subrange(1, i + 1), pre2));
        i += 1;
    }
    assert(rows@.subrange(1, i as int) =~= rows@.drop_first());
    html.append("</tbody>\n");
    proof {
        let head = row_html(rows@[0], true);
        let body = body_rows_html(rows@.drop_first());
        assert(table_html(rows@) == "<thead>\n"@ + head + "</thead>\n<tbody>\n"@ + body
            + "</tbody>\n"@);
        assert(pre2 =~= pre + "<thead>\n"@ + head + "</thead>\n<tbody>\n"@);
        assert(html@ =~= pre + table_html(rows@));
        assert(table_spans(rows@, pre) == row_spans(rows@[0], true, pre + "<thead>\n"@)
            + body_rows_spans(rows@.drop_first(), pre2));
        assert(source_map@ =~= map0 + table_spans(rows@, pre));
    }
}

/// Renders a markdown syntax tree to HTML with its source map.
pub fn render_document(root: &MdNode) -> (r: RenderedDocument)
    ensures
        r.html@ == node_html(*root),
        r.source_map@ == node_spans(*root, seq![]),
{
    let mut html = String::new();
    let mut source_map: Vec<SourceSpan> = Vec::new();
    render_node(root, &mut html, &mut source_map);
    assert(html@ =~= node_html(*root));
    assert(source_map@ =~= node_spans(*root, seq![]));
    RenderedDocument { html, source_map }
}

// ---------------------------------------------------------------------------
// Parsing, by the `markdown` crate
// ---------------------------------------------------------------------------

/// A node of the syntax tree that `markdown::to_mdast` builds.
#[verifier::external_type_specification]
#[verifier::external_body]
pub struct ExMdastNode(Node);

/// A name for the syntax tree that `markdown::to_mdast` builds from
/// `source`, node for node in the library's form: with front matter and
/// either the GFM constructs (`gfm`) or the default ones; none where it
/// reports an error.
pub uninterp spec fn markdown_tree(source: Seq<char>, gfm: bool) -> Option<MdNode>;

/// `markdown::to_mdast` with the GFM constructs and front matter, its tree
/// copied node for node (by `md_tree`): the name `markdown_tree` of the
/// text. The crate documents that parsing without MDX never fails.
#[verifier::external_body]
fn parse_mdast(source: &str) -> (r: Option<MdNode>)
    ensures
        r == markdown_tree(source@, true),
        r is Some,
{
    let options = markdown::ParseOptions {
        constructs: markdown::Constructs { frontmatter: true, ..markdown::Constructs::gfm() },
        ..markdown::ParseOptions::gfm()
    };
    markdown::to_mdast(source, &options).ok().map(|ast| md_tree(&ast, usize::MAX))
}

/// `Node::children`: the children of a parent node. Nothing is stated.
#[verifier::external_body]
pub(crate) fn mdast_children(n: &Node) -> Option<&Vec<Node>> {
    n.children()
}

/// `Node::position`, as byte offsets and lines. Nothing is stated.
#[verifier::external_body]
pub(crate) fn mdast_position(n: &Node) -> Option<MdPosition> {
    match n.position() {
        Some(p) => Some(
            MdPosition {
                start_offset: p.start.offset,
                end_offset: p.end.offset,
                start_line: p.start.line,
                end_line: p.end.line,
            },
        ),
        None => None,
    }
}

/// The kind of a container node without text of its own (reading the
/// variant of `Node`). Nothing is stated.
#[verifier::external_body]
pub(crate) fn mdast_container_kind(n: &Node) -> Option<MdKind> {
    match n {
        Node::Root(_) => Some(MdKind::Root),
        Node::Paragraph(_) => Some(MdKind::Paragraph),
        Node::Blockquote(_) => Some(MdKind::Blockquote),
        Node::Table(_) => Some(MdKind::Table),
        Node::Emphasis(_) => Some(MdKind::Emphasis),
        Node::Strong(_) => Some(MdKind::Strong),
        Node::Delete(_) => Some(MdKind::Delete),
        Node::Heading(h) => Some(MdKind::Heading(h.depth)),
        _ => None,
    }
}

/// The kind of a block node with data (reading the variant of `Node` and
/// copying its fields). Nothing is stated.
#[verifier::external_body]
fn mdast_block_kind(n: &Node) -> Option<MdKind> {
    match n {
        Node::List(l) => Some(MdKind::List { ordered: l.ordered, start: l.start }),
        Node::ListItem(i) => Some(MdKind::ListItem { checked: i.checked }),
        Node::Code(c) => Some(MdKind::Code { lang: c.lang.clone(), value: c.value.clone() }),
        Node::FootnoteDefinition(d) => Some(
            MdKind::FootnoteDefinition { identifier: d.identifier.clone() },
        ),
        Node::ThematicBreak(_) => Some(MdKind::ThematicBreak),
        Node::Break(_) => Some(MdKind::Break),
        Node::Yaml(y) => Some(MdKind::Yaml(y.value.clone())),
        _ => None,
    }
}

/// The kind of an inline node with data (reading the variant of `Node` and
/// copying its fields). Nothing is stated.
#[verifier::external_body]
fn mdast_inline_kind(n: &Node) -> Option<MdKind> {
    match n {
        Node::Text(t) => Some(MdKind::Text(t.value.clone())),
        Node::InlineCode(c) => Some(MdKind::InlineCode(c.value.clone())),
        Node::Html(h) => Some(MdKind::Html(h.value.clone())),
        Node::Link(l) => Some(MdKind::Link { url: l.url.clone(), title: l.title.clone() }),
        Node::Image(i) => Some(
            MdKind::Image { url: i.url.clone(), alt: i.alt.clone(), title: i.title.clone() },
        ),
        Node::FootnoteReference(r) => Some(
            MdKind::FootnoteReference { identifier: r.identifier.clone() },
        ),
        _ => None,
    }
}

/// The kind of a TOML front matter, definition or reference node (reading
/// the variant of `Node`). Nothing is stated.
#[verifier::external_body]
fn mdast_reference_kind(n: &Node) -> Option<MdKind> {
    match n {
        Node::Toml(_) => Some(MdKind::Toml),
        Node::Definition(_) => Some(MdKind::Definition),
        Node::ImageReference(_) => Some(MdKind::ImageReference),
        Node::LinkReference(_) => Some(MdKind::LinkReference),
        _ => None,
    }
}

/// `markdown::to_mdast` with the default constructs and front matter, its
/// tree copied node for node (by `md_tree`): the name `markdown_tree` of the
/// text. The crate documents that parsing without MDX never fails.
#[verifier::external_body]
pub(crate) fn parse_mdast_frontmatter(source: &str) -> (r: Option<MdNode>)
    ensures
        r == markdown_tree(source@, false),
        r is Some,
{
    let options = markdown::ParseOptions {
        constructs: markdown::Constructs { frontmatter: true, ..markdown::Constructs::default() },
        ..markdown::ParseOptions::default()
    };
    markdown::to_mdast(source, &options).ok().map(|ast| md_tree(&ast, usize::MAX))
}

/// The kind of a parsed node.
fn mdast_kind(n: &Node) -> MdKind {
    if let Some(k) = mdast_container_kind(n) {
        k
    } else if let Some(k) = mdast_block_kind(n) {
        k
    } else if let Some(k) = mdast_inline_kind(n) {
        k
    } else if let Some(k) = mdast_reference_kind(n) {
        k
    } else {
        MdKind::Other
    }
}

/// The tree `n` reaches no deeper than `d` levels below it: at level `d`
/// nodes have no children.
pub open spec fn within_depth(n: MdNode, d: nat) -> bool
    decreases n,
{
    if d == 0 {
        n.children@.len() == 0
    } else {
        all_within_depth(n.children@, (d - 1) as nat)
    }
}

/// Every tree of `cs` reaches no deeper than `d` levels.
pub open spec fn all_within_depth(cs: Seq<MdNode>, d: nat) -> bool
    decreases cs,
{
    if cs.len() == 0 {
        true
    } else {
        all_within_depth(cs.drop_last(), d) && within_depth(cs.last(), d)
    }
}

/// The library's copy of a parsed tree, down to `depth` levels below `n`:
/// what lies deeper is left out.
fn md_tree(n: &Node, depth: usize) -> (r: MdNode)
    ensures
        within_depth(r, depth as nat),
    decreases depth,
{
    let kind = mdast_kind(n);
    let position = mdast_position(n);
    let mut children: Vec<MdNode> = Vec::new();
    if depth > 0 {
        if let Some(cs) = mdast_children(n) {
            let mut i: usize = 0;
            while i < cs.len()
                invariant
                    i <= cs.len(),
                    depth > 0,
                    all_within_depth(children@, (depth - 1) as nat),
                decreases cs.len() - i,
            {
                let ghost before = children@;
                children.push(md_tree(&cs[i], depth - 1));
                assert(children@.drop_last() =~= before);
                i += 1;
            }
        }
    }
    MdNode { kind, position, children }
}

/// `t` is a root holding the whole text `source` as one text node.
pub open spec fn is_text_root(t: MdNode, source: Seq<char>) -> bool {
    &&& t.kind == MdKind::Root
    &&& t.position is None
    &&& t.children@.len() == 1
    &&& t.children@[0].kind matches MdKind::Text(v) && v@ == source
    &&& t.children@[0].position is None
    &&& t.children@[0].children@.len() == 0
}

/// The syntax tree of a markdown text (GFM with front matter). Where the
/// parser fails, a root holding the whole text as one text node.
fn parse_markdown(source: &str) -> (r: MdNode)
    ensures
        match markdown_tree(source@, true) {
            Some(t) => r == t,
            None => is_text_root(r, source@),
        },
{
    match parse_mdast(source) {
        Some(tree) => tree,
        None => {
            let text = MdNode {
                kind: MdKind::Text(source.to_owned()),
                position: None,
                children: Vec::new(),
            };
            let mut children: Vec<MdNode> = Vec::new();
            children.push(text);
            MdNode { kind: MdKind::Root, position: None, children }
        },
    }
}

/// Render markdown to HTML with source mapping via `data-source` attributes:
/// the rendering of the tree the parser builds.
pub fn render_markdown(source: &str) -> (r: RenderedDocument)
    ensures
        match markdown_tree(source@, true) {
            Some(t) => r.html@ == node_html(t) && r.source_map@ == node_spans(t, seq![]),
            None => exists|t: MdNode|
                is_text_root(t, source@) && r.html@ == node_html(t) && r.source_map@ == node_spans(t, seq![]),
        },
{
    let tree = parse_markdown(source);
    render_document(&tree)
}

/// Whether `c` could end an attribute or open or close a tag.
pub open spec fn is_markup_char(c: char) -> bool {
    c == '<' || c == '>' || c == '"'
}

/// Escaped text holds no `<`, `>` or `"`: text and attribute values that
/// are escaped cannot open a tag or end an attribute.
pub proof fn law_escaped_is_inert(s: Seq<char>)
    ensures
        forall|i: int| 0 <= i < escaped(s).len() ==> !is_markup_char(#[trigger] escaped(s)[i]),
    decreases s.len(),
{
    if s.len() > 0 {
        law_escaped_is_inert(s.drop_last());
        reveal_strlit("&amp;");
        reveal_strlit("&lt;");
        reveal_strlit("&gt;");
        reveal_strlit("&quot;");
        let a = escaped(s.drop_last());
        let b = escape_char(s.last());
        assert forall|i: int| 0 <= i < escaped(s).len() implies !is_markup_char(
            #[trigger] escaped(s)[i],
        ) by {
            if i < a.len() {
                assert(escaped(s)[i] == a[i]);
            } else {
                assert(escaped(s)[i] == b[i - a.len()]);
            }
        }
    }
}

} // verus!
