//! RFD documents: YAML frontmatter and markdown body.
use vstd::prelude::*;

use vstd::string::StringSliceAdditionalSpecFns;
use vstd::utf8::{encode_utf8, is_char_boundary};

use crate::diagnostic::{InvalidFrontmatter, MissingFrontmatter};
use crate::render::{markdown_tree, parse_mdast_frontmatter, MdKind, MdNode, MdPosition};
use crate::state::{State, Visibility};
use crate::text::{
    chars_of, concat, copy_range, extend_from, extend_from_range, find, find_exec, is_ascii_digit,
    lemma_lines_acc_end, lines, lines_acc, next_line, skip_leading, skip_trailing, starts_with,
    starts_with_at, string_of, string_of_range, strip_leading, strip_trailing, trim, trim_bounds,
};

verus! {

/// YAML frontmatter for an RFD document.
#[derive(Debug, Clone)]
pub struct Frontmatter {
    pub authors: Option<String>,
    pub state: State,
    pub visibility: Option<Visibility>,
    pub labels: Vec<String>,
}

/// A parsed RFD document.
#[derive(Debug, Clone)]
pub struct Rfd {
    pub number: u32,
    pub frontmatter: Frontmatter,
    /// Raw markdown content after frontmatter.
    pub body: String,
    /// Path to the RFD file.
    pub path: String,
}

/// Why a frontmatter field could not be set.
#[derive(Debug, Clone, Copy, PartialEq, Eq, Structural)]
pub enum FieldEditError {
    /// The text does not start with `---`.
    MissingFrontmatter,
    /// No line starting with `---` closes the frontmatter.
    UnterminatedFrontmatter,
}

// ---------------------------------------------------------------------------
// Titles
// ---------------------------------------------------------------------------

/// The index of the first character of `s` at or after `i` that is not an ASCII digit.
pub open spec fn non_digit_from(s: Seq<char>, i: int) -> Option<int>
    decreases s.len() - i,
{
    if i < 0 || i >= s.len() {
        None
    } else if !is_ascii_digit(s[i]) {
        Some(i)
    } else {
        non_digit_from(s, i + 1)
    }
}

/// The `RFD ` marker that may precede the number in a heading.
pub open spec fn rfd_marker() -> Seq<char> {
    seq!['R', 'F', 'D', ' ']
}

/// The title in a (trimmed) heading line: the text after the `#`s, without
/// an `RFD NNNN ` prefix (`RFD ` followed by at least one digit and then
/// something else).
pub open spec fn heading_title(t: Seq<char>) -> Seq<char> {
    let title = trim(strip_leading(t, '#'));
    if starts_with(title, rfd_marker()) {
        let rest = title.skip(4);
        match non_digit_from(rest, 0) {
            Some(p) => if p > 0 {
                trim(rest.skip(p))
            } else {
                title
            },
            None => title,
        }
    } else {
        title
    }
}

/// The title from the first heading among `ls`, or nothing.
pub open spec fn title_of_lines(ls: Seq<Seq<char>>) -> Seq<char>
    decreases ls.len(),
{
    if ls.len() == 0 {
        seq![]
    } else if starts_with(trim(ls[0]), seq!['#']) {
        heading_title(trim(ls[0]))
    } else {
        title_of_lines(ls.drop_first())
    }
}

proof fn lemma_lines_step_title(t: Seq<char>, start: int, line: Seq<char>, next: int)
    requires
        lines_acc(t, start, start) == seq![line] + lines_acc(t, next, next),
        !starts_with(trim(line), seq!['#']),
    ensures
        title_of_lines(lines_acc(t, start, start)) == title_of_lines(lines_acc(t, next, next)),
{
    let ls = lines_acc(t, start, start);
    assert(ls[0] == line);
    assert(ls.drop_first() =~= lines_acc(t, next, next));
}

/// The title of the heading `t[a..b]`, which starts with `#`.
fn heading_title_exec(t: &Vec<char>, a: usize, b: usize) -> (r: String)
    requires
        a <= b <= t.len(),
    ensures
        r@ == heading_title(t@.subrange(a as int, b as int)),
{
    let c = skip_leading(t, a, b, '#');
    let (x, y) = trim_bounds(t, c, b);
    let marker = vec!['R', 'F', 'D', ' '];
    assert(marker@ =~= rfd_marker());
    if starts_with_at(t, x, y, &marker) {
        let ghost title = t@.subrange(x as int, y as int);
        let ghost rest = title.skip(4);
        assert(rest =~= t@.subrange(x + 4, y as int));
        let mut p = x + 4;
        while p < y && '0' <= t[p] && t[p] <= '9'
            invariant
                x + 4 <= p <= y <= t.len(),
                rest == t@.subrange(x + 4, y as int),
                non_digit_from(rest, 0) == non_digit_from(rest, p - (x + 4)),
            decreases y - p,
        {
            p += 1;
        }
        if p < y && p > x + 4 {
            let (u, v) = trim_bounds(t, p, y);
            assert(rest.skip(p - (x + 4)) =~= t@.subrange(p as int, y as int));
            string_of_range(t, u, v)
        } else {
            string_of_range(t, x, y)
        }
    } else {
        string_of_range(t, x, y)
    }
}

impl Rfd {
    /// The full markdown content: the front matter block around `yaml`,
    /// the YAML text that encoding `self.frontmatter` gave, then the body.
    pub fn to_content(&self, yaml: &str) -> (r: String)
        ensures
            r@ == "---\n"@ + yaml@ + "---\n"@ + self.body@,
    {
        let head = concat("---\n", yaml);
        let block = concat(head.as_str(), "---\n");
        concat(block.as_str(), self.body.as_str())
    }

    /// Extract the title from the first markdown heading.
    pub fn title(&self) -> (r: String)
        ensures
            r@ == title_of_lines(lines(self.body@)),
    {
        let t = chars_of(self.body.as_str());
        let mut start: usize = 0;
        while start < t.len()
            invariant
                start <= t.len(),
                t@ == self.body@,
                title_of_lines(lines(t@)) == title_of_lines(lines_acc(t@, start as int, start as int)),
            decreases t.len() - start,
        {
            let (e, next) = next_line(&t, start);
            let (a, b) = trim_bounds(&t, start, e);
            if a < b && t[a] == '#' {
                proof {
                    let ls = lines_acc(t@, start as int, start as int);
                    assert(ls[0] == t@.subrange(start as int, e as int));
                    assert(t@.subrange(a as int, b as int).take(1) =~= seq!['#']);
                }
                return heading_title_exec(&t, a, b);
            }
            proof {
                let sub = t@.subrange(a as int, b as int);
                if starts_with(sub, seq!['#']) {
                    assert(sub.take(1)[0] == seq!['#'][0]);
                    assert(sub[0] == t@[a as int]);
                }
                assert(!starts_with(sub, seq!['#']));
                lemma_lines_step_title(t@, start as int, t@.subrange(start as int, e as int), next as int);
            }
            start = next;
        }
        proof {
            lemma_lines_acc_end(t@);
        }
        String::new()
    }
}

// ---------------------------------------------------------------------------
// Frontmatter fields
// ---------------------------------------------------------------------------

/// The byte order mark that may precede a document.
pub open spec fn bom() -> char {
    '\u{feff}'
}

/// The `---` fence that opens the frontmatter.
pub open spec fn fence() -> Seq<char> {
    seq!['-', '-', '-']
}

/// The `\n---` that closes the frontmatter.
pub open spec fn closing_fence() -> Seq<char> {
    seq!['\n', '-', '-', '-']
}

/// `field:`, the start of the line that holds a field.
pub open spec fn field_prefix(field: Seq<char>) -> Seq<char> {
    field.push(':')
}

/// The YAML text between the fences of `content`, and where the text after
/// it (starting at the closing `\n---`) begins, in `strip_leading(content, BOM)`.
pub open spec fn yaml_block(content: Seq<char>) -> Option<(Seq<char>, int)> {
    let c = strip_leading(content, bom());
    if !starts_with(c, fence()) {
        None
    } else {
        match find(c.skip(3), closing_fence()) {
            Some(end) => Some((c.skip(3).take(end), 3 + end)),
            None => None,
        }
    }
}

/// The value of the first line among `ls` that holds the field with this
/// prefix, trimmed; nothing if that value is empty or no line holds it.
pub open spec fn field_value_in(ls: Seq<Seq<char>>, prefix: Seq<char>) -> Option<Seq<char>>
    decreases ls.len(),
{
    if ls.len() == 0 {
        None
    } else if starts_with(trim(ls[0]), prefix) {
        let v = trim(trim(ls[0]).skip(prefix.len() as int));
        if v.len() == 0 {
            None
        } else {
            Some(v)
        }
    } else {
        field_value_in(ls.drop_first(), prefix)
    }
}

/// The value of a frontmatter field, read without parsing the YAML.
pub open spec fn frontmatter_field(content: Seq<char>, field: Seq<char>) -> Option<Seq<char>> {
    match yaml_block(content) {
        Some((yaml, _)) => field_value_in(lines(yaml), field_prefix(field)),
        None => None,
    }
}

/// The line that holds `field` with `value`.
pub open spec fn field_line(field: Seq<char>, value: Seq<char>) -> Seq<char> {
    field + seq![':', ' '] + value
}

/// Some line among `ls` holds the field with this prefix.
pub open spec fn holds_field(ls: Seq<Seq<char>>, prefix: Seq<char>) -> bool {
    exists|i: int| 0 <= i < ls.len() && starts_with(trim(#[trigger] ls[i]), prefix)
}

/// The lines `ls`, each followed by `\n`, with every line that holds the
/// field replaced by `line`.
pub open spec fn rewrite_lines(ls: Seq<Seq<char>>, prefix: Seq<char>, line: Seq<char>) -> Seq<char>
    decreases ls.len(),
{
    if ls.len() == 0 {
        seq![]
    } else {
        (if starts_with(trim(ls[0]), prefix) {
            line
        } else {
            ls[0]
        }) + seq!['\n'] + rewrite_lines(ls.drop_first(), prefix, line)
    }
}

/// What follows the opening fence before the lines of the front matter:
/// a newline where the block was empty, so that the first line stands on
/// its own.
pub open spec fn opening_break(yaml: Seq<char>) -> Seq<char> {
    if yaml.len() == 0 {
        seq!['\n']
    } else {
        seq![]
    }
}

/// `content` with the frontmatter field set to `value`: every line holding
/// the field replaced, or the field appended at the end of the frontmatter;
/// other lines kept as they were (without `\r`), the BOM dropped.
pub open spec fn with_frontmatter_field(content: Seq<char>, field: Seq<char>, value: Seq<char>) -> Result<
    Seq<char>,
    FieldEditError,
> {
    let c = strip_leading(content, bom());
    if !starts_with(c, fence()) {
        Err(FieldEditError::MissingFrontmatter)
    } else {
        match yaml_block(content) {
            None => Err(FieldEditError::UnterminatedFrontmatter),
            Some((yaml, rest_at)) => {
                let ls = lines(yaml);
                let prefix = field_prefix(field);
                let line = field_line(field, value);
                let body = rewrite_lines(ls, prefix, line);
                let body = if holds_field(ls, prefix) {
                    body
                } else {
                    body + line + seq!['\n']
                };
                Ok(fence() + opening_break(yaml) + strip_trailing(body, '\n') + c.skip(rest_at))
            },
        }
    }
}

/// The frontmatter of `t`: where the text after the BOM starts, and the
/// YAML text between the fences, if there is a frontmatter.
fn locate_yaml(t: &Vec<char>) -> (r: (usize, Option<(Vec<char>, usize)>))
    ensures
        r.0 <= t.len(),
        t@.subrange(r.0 as int, t@.len() as int) == strip_leading(t@, bom()),
        match yaml_block(t@) {
            Some((yaml, end)) => r.1 matches Some((y, e)) && y@ == yaml && e == end && r.0 + e
                <= t.len(),
            None => r.1 is None,
        },
{
    let a = skip_leading(t, 0, t.len(), '\u{feff}');
    assert(t@.subrange(0, t@.len() as int) =~= t@);
    let fence_v = vec!['-', '-', '-'];
    assert(fence_v@ =~= fence());
    if !starts_with_at(t, a, t.len(), &fence_v) {
        return (a, None);
    }
    let after = copy_range(t, a + 3, t.len());
    let ghost c = t@.subrange(a as int, t@.len() as int);
    assert(after@ =~= c.skip(3));
    let closing = vec!['\n', '-', '-', '-'];
    assert(closing@ =~= closing_fence());
    match find_exec(&after, &closing, 0) {
        Some(end) => {
            proof {
                crate::text::lemma_find_from_props(after@, closing@, 0);
            }
            let yaml = copy_range(&after, 0, end);
            assert(yaml@ =~= after@.take(end as int));
            (a, Some((yaml, 3 + end)))
        },
        None => (a, None),
    }
}

proof fn lemma_field_step(t: Seq<char>, start: int, line: Seq<char>, next: int, prefix: Seq<char>)
    requires
        lines_acc(t, start, start) == seq![line] + lines_acc(t, next, next),
        !starts_with(trim(line), prefix),
    ensures
        field_value_in(lines_acc(t, start, start), prefix) == field_value_in(
            lines_acc(t, next, next),
            prefix,
        ),
{
    let ls = lines_acc(t, start, start);
    assert(ls[0] == line);
    assert(ls.drop_first() =~= lines_acc(t, next, next));
}

/// `field:` as characters.
fn prefix_of(field: &str) -> (r: Vec<char>)
    ensures
        r@ == field_prefix(field@),
{
    let mut p = chars_of(field);
    p.push(':');
    p
}

/// Get a field value from frontmatter without full parsing.
pub fn get_frontmatter_field(content: &str, field: &str) -> (r: Option<String>)
    ensures
        match frontmatter_field(content@, field@) {
            Some(v) => r matches Some(s) && s@ == v,
            None => r is None,
        },
{
    let t = chars_of(content);
    let (_, located) = locate_yaml(&t);
    let yaml = match located {
        Some((y, _)) => y,
        None => return None,
    };
    let prefix = prefix_of(field);
    let mut start: usize = 0;
    while start < yaml.len()
        invariant
            start <= yaml.len(),
            prefix@ == field_prefix(field@),
            yaml_block(content@) matches Some((y, _)) && y == yaml@,
            field_value_in(lines(yaml@), prefix@) == field_value_in(
                lines_acc(yaml@, start as int, start as int),
                prefix@,
            ),
        decreases yaml.len() - start,
    {
        let (e, next) = next_line(&yaml, start);
        let (x, y) = trim_bounds(&yaml, start, e);
        if starts_with_at(&yaml, x, y, &prefix) {
            let ghost ls = lines_acc(yaml@, start as int, start as int);
            assert(ls[0] == yaml@.subrange(start as int, e as int));
            let (v0, v1) = trim_bounds(&yaml, x + prefix.len(), y);
            assert(yaml@.subrange(x as int, y as int).skip(prefix@.len() as int) =~= yaml@.subrange(
                x + prefix@.len(),
                y as int,
            ));
            if v0 == v1 {
                return None;
            }
            return Some(string_of_range(&yaml, v0, v1));
        }
        proof {
            lemma_field_step(
                yaml@,
                start as int,
                yaml@.subrange(start as int, e as int),
                next as int,
                prefix@,
            );
        }
        start = next;
    }
    proof {
        lemma_lines_acc_end(yaml@);
    }
    None
}

proof fn lemma_rewrite_step(
    t: Seq<char>,
    start: int,
    line: Seq<char>,
    next: int,
    prefix: Seq<char>,
    new_line: Seq<char>,
)
    requires
        lines_acc(t, start, start) == seq![line] + lines_acc(t, next, next),
    ensures
        rewrite_lines(lines_acc(t, start, start), prefix, new_line) == (if starts_with(
            trim(line),
            prefix,
        ) {
            new_line
        } else {
            line
        }) + seq!['\n'] + rewrite_lines(lines_acc(t, next, next), prefix, new_line),
        holds_field(lines_acc(t, start, start), prefix) == (starts_with(trim(line), prefix)
            || holds_field(lines_acc(t, next, next), prefix)),
{
    let ls = lines_acc(t, start, start);
    let rest = lines_acc(t, next, next);
    assert(ls[0] == line);
    assert(ls.drop_first() =~= rest);
    if holds_field(ls, prefix) {
        let i = choose|i: int| 0 <= i < ls.len() && starts_with(trim(#[trigger] ls[i]), prefix);
        if i > 0 {
            assert(rest[i - 1] == ls[i]);
        }
    }
    if holds_field(rest, prefix) {
        let i = choose|i: int| 0 <= i < rest.len() && starts_with(trim(#[trigger] rest[i]), prefix);
        assert(ls[i + 1] == rest[i]);
    }
}

/// Set a field value in frontmatter, preserving formatting.
pub fn set_frontmatter_field(content: &str, field: &str, value: &str) -> (r: Result<
    String,
    FieldEditError,
>)
    ensures
        match with_frontmatter_field(content@, field@, value@) {
            Ok(s) => r matches Ok(out) && out@ == s,
            Err(e) => r == Err::<String, FieldEditError>(e),
        },
{
    let t = chars_of(content);
    let (a, located) = locate_yaml(&t);
    let fence_v = vec!['-', '-', '-'];
    assert(fence_v@ =~= fence());
    let (yaml, rest_at) = match located {
        Some((y, e)) => (y, e),
        None => {
            if starts_with_at(&t, a, t.len(), &fence_v) {
                return Err(FieldEditError::UnterminatedFrontmatter);
            }
            return Err(FieldEditError::MissingFrontmatter);
        },
    };
    let prefix = prefix_of(field);
    let mut line = chars_of(field);
    line.push(':');
    line.push(' ');
    let value_chars = chars_of(value);
    extend_from(&mut line, &value_chars);
    assert(line@ =~= field_line(field@, value@));
    let mut out: Vec<char> = Vec::new();
    let mut found = false;
    let mut start: usize = 0;
    while start < yaml.len()
        invariant
            start <= yaml.len(),
            prefix@ == field_prefix(field@),
            line@ == field_line(field@, value@),
            rewrite_lines(lines(yaml@), prefix@, line@) == out@ + rewrite_lines(
                lines_acc(yaml@, start as int, start as int),
                prefix@,
                line@,
            ),
            holds_field(lines(yaml@), prefix@) == (found || holds_field(
                lines_acc(yaml@, start as int, start as int),
                prefix@,
            )),
        decreases yaml.len() - start,
    {
        let (e, next) = next_line(&yaml, start);
        let (x, y) = trim_bounds(&yaml, start, e);
        proof {
            lemma_rewrite_step(
                yaml@,
                start as int,
                yaml@.subrange(start as int, e as int),
                next as int,
                prefix@,
                line@,
            );
        }
        let ghost out0 = out@;
        if starts_with_at(&yaml, x, y, &prefix) {
            extend_from(&mut out, &line);
            found = true;
        } else {
            extend_from_range(&mut out, &yaml, start, e);
        }
        out.push('\n');
        proof {
            let l = yaml@.subrange(start as int, e as int);
            let piece = (if starts_with(trim(l), prefix@) {
                line@
            } else {
                l
            }) + seq!['\n'];
            assert(out@ =~= out0 + piece);
            assert(out0 + (piece + rewrite_lines(lines_acc(yaml@, next as int, next as int), prefix@, line@))
                =~= out@ + rewrite_lines(lines_acc(yaml@, next as int, next as int), prefix@, line@));
        }
        start = next;
    }
    proof {
        lemma_lines_acc_end(yaml@);
        assert(out@ + Seq::<char>::empty() =~= out@);
        assert(rewrite_lines(lines(yaml@), prefix@, line@) == out@);
        assert(!holds_field(Seq::<Seq<char>>::empty(), prefix@));
        assert(holds_field(lines(yaml@), prefix@) == found);
    }
    let ghost out_lines = out@;
    if !found {
        extend_from(&mut out, &line);
        out.push('\n');
    }
    proof {
        if !found {
            assert(out@ =~= out_lines + line@ + seq!['\n']);
        }
    }
    let end = skip_trailing(&out, 0, out.len(), '\n');
    assert(out@.subrange(0, out@.len() as int) =~= out@);
    let mut result = fence_v;
    if yaml.len() == 0 {
        result.push('\n');
    }
    extend_from_range(&mut result, &out, 0, end);
    extend_from_range(&mut result, &t, a + rest_at, t.len());
    proof {
        let c = t@.subrange(a as int, t@.len() as int);
        assert(c.skip(rest_at as int) =~= t@.subrange(a + rest_at, t@.len() as int));
        assert(result@ =~= fence() + opening_break(yaml@) + strip_trailing(out@, '\n') + c.skip(rest_at as int));
    }
    Ok(string_of(&result))
}

// ---------------------------------------------------------------------------
// The front matter block, as the markdown parser finds it
// ---------------------------------------------------------------------------

/// The front matter block of an RFD and the markdown after it.
#[derive(Debug, Clone)]
pub struct FrontmatterSource {
    /// The YAML text between the fences.
    pub yaml: String,
    /// Byte offset, in the text without its byte order marks, where the
    /// YAML text starts.
    pub yaml_offset: usize,
    /// The markdown after the block, without the newline that ends it.
    pub body: String,
}

/// Why no front matter block was found.
#[derive(Debug, Clone, Copy, PartialEq, Eq, Structural)]
pub enum FrontmatterSplitError {
    /// The markdown parser reported an error.
    ParseFailed,
    /// The parser did not give a root node.
    NotRoot,
    /// The document has no YAML front matter.
    Missing,
}

/// `s` without one leading newline.
pub open spec fn drop_newline(s: Seq<char>) -> Seq<char> {
    if s.len() > 0 && s[0] == '\n' {
        s.drop_first()
    } else {
        s
    }
}

/// The text without its leading byte order marks.
fn without_boms(content: &str) -> (r: String)
    ensures
        r@ == strip_leading(content@, bom()),
{
    let t = chars_of(content);
    let a = skip_leading(&t, 0, t.len(), '\u{feff}');
    assert(t@.subrange(0, t@.len() as int) =~= t@);
    string_of_range(&t, a, t.len())
}

/// `body` is the part of `text` after byte offset `end`, without one
/// leading newline; empty where `end` is not a character boundary of `text`.
pub open spec fn is_text_after(text: Seq<char>, end: int, body: Seq<char>) -> bool {
    let b = encode_utf8(text);
    if is_char_boundary(b, end) {
        exists|a: Seq<char>| encode_utf8(a) == b.subrange(end, b.len() as int) && body == drop_newline(a)
    } else {
        body.len() == 0
    }
}

/// The part of `text` after byte offset `end` without one leading newline;
/// empty where `end` is not a character boundary of `text`.
fn text_after(text: &str, end: usize) -> (r: String)
    ensures
        is_text_after(text@, end as int, r@),
{
    if !text.is_char_boundary(end) {
        return String::new();
    }
    let (_, after) = text.split_at(end);
    let cs = chars_of(after);
    assert(encode_utf8(after@) == after.spec_bytes());
    if cs.len() > 0 && cs[0] == '\n' {
        let r = string_of_range(&cs, 1, cs.len());
        assert(r@ =~= drop_newline(after@));
        r
    } else {
        let r = string_of(&cs);
        assert(r@ =~= drop_newline(after@));
        r
    }
}

/// A block at the top level of a parsed document, as splitting off the
/// front matter sees it: its text, if it is a YAML front matter block, and
/// where it stands.
#[derive(Debug, Clone)]
pub struct MdBlock {
    pub yaml: Option<String>,
    pub position: Option<MdPosition>,
}

/// The first YAML block among `blocks[i..]`.
pub open spec fn first_yaml_from(blocks: Seq<MdBlock>, i: int) -> Option<int>
    decreases blocks.len() - i,
{
    if i < 0 || i >= blocks.len() {
        None
    } else if blocks[i].yaml is Some {
        Some(i)
    } else {
        first_yaml_from(blocks, i + 1)
    }
}

/// Where the YAML text of a block at `pos` starts: after the opening `---\n`.
pub open spec fn yaml_start(pos: Option<MdPosition>) -> int {
    match pos {
        Some(p) => if p.start_offset + 4 <= usize::MAX {
            p.start_offset + 4
        } else {
            usize::MAX as int
        },
        None => 4,
    }
}

/// `r` is the front matter of `text` whose top-level blocks are `blocks`:
/// that of the first YAML block, with the body after it; or none.
pub open spec fn split_of_blocks(
    text: Seq<char>,
    blocks: Seq<MdBlock>,
    r: Result<FrontmatterSource, FrontmatterSplitError>,
) -> bool {
    match first_yaml_from(blocks, 0) {
        Some(i) => r matches Ok(s) && {
            &&& blocks[i].yaml matches Some(y) && s.yaml@ == y@
            &&& s.yaml_offset == yaml_start(blocks[i].position)
            &&& match blocks[i].position {
                Some(p) => is_text_after(text, p.end_offset as int, s.body@),
                None => s.body@.len() == 0,
            }
        },
        None => r == Err::<FrontmatterSource, FrontmatterSplitError>(FrontmatterSplitError::Missing),
    }
}

/// The front matter of `text`, given its top-level blocks as the markdown
/// parser found them: the first YAML block, with where its text starts and
/// the body after it.
pub fn frontmatter_in(text: &str, blocks: &Vec<MdBlock>) -> (r: Result<FrontmatterSource, FrontmatterSplitError>)
    ensures
        split_of_blocks(text@, blocks@, r),
{
    let mut i: usize = 0;
    while i < blocks.len()
        invariant
            i <= blocks@.len(),
            first_yaml_from(blocks@, 0) == first_yaml_from(blocks@, i as int),
        decreases blocks.len() - i,
    {
        let block = &blocks[i];
        if let Some(yaml) = &block.yaml {
            assert(first_yaml_from(blocks@, i as int) == Some(i as int));
            let yaml_offset = match block.position {
                Some(p) => if p.start_offset <= usize::MAX - 4 {
                    p.start_offset + 4
                } else {
                    usize::MAX
                },
                None => 4,
            };
            let body = match block.position {
                Some(p) => text_after(text, p.end_offset),
                None => String::new(),
            };
            return Ok(FrontmatterSource { yaml: yaml.clone(), yaml_offset, body });
        }
        i += 1;
    }
    Err(FrontmatterSplitError::Missing)
}

/// The top-level blocks of a tree, as splitting off the front matter sees
/// them: each one's YAML text, if it is a YAML front matter block, and where
/// it stands.
pub open spec fn blocks_of(cs: Seq<MdNode>) -> Seq<MdBlock> {
    cs.map_values(
        |n: MdNode|
            MdBlock {
                yaml: match n.kind {
                    MdKind::Yaml(v) => Some(v),
                    _ => None,
                },
                position: n.position,
            },
    )
}

/// What splitting `text` gives when the markdown parser, with front matter
/// on, gives `tree`: a failure where it gives none, an error where the tree
/// is no root, else the split of the root's top-level blocks.
pub open spec fn split_of_tree(
    text: Seq<char>,
    tree: Option<MdNode>,
    r: Result<FrontmatterSource, FrontmatterSplitError>,
) -> bool {
    match tree {
        None => r == Err::<FrontmatterSource, FrontmatterSplitError>(FrontmatterSplitError::ParseFailed),
        Some(t) => if t.kind == MdKind::Root {
            split_of_blocks(text, blocks_of(t.children@), r)
        } else {
            r == Err::<FrontmatterSource, FrontmatterSplitError>(FrontmatterSplitError::NotRoot)
        },
    }
}

/// Parse YAML frontmatter from markdown content using markdown-rs.
/// Returns the YAML text, where it starts, and the body after the block:
/// the split of the top-level blocks the parser finds in the text without
/// its byte order marks.
pub fn split_frontmatter(content: &str) -> (r: Result<FrontmatterSource, FrontmatterSplitError>)
    ensures
        split_of_tree(
            strip_leading(content@, bom()),
            markdown_tree(strip_leading(content@, bom()), false),
            r,
        ),
{
    let text = without_boms(content);
    let tree = match parse_mdast_frontmatter(text.as_str()) {
        Some(t) => t,
        None => return Err(FrontmatterSplitError::ParseFailed),
    };
    match tree.kind {
        MdKind::Root => {},
        _ => return Err(FrontmatterSplitError::NotRoot),
    }
    let cs = &tree.children;
    let mut blocks: Vec<MdBlock> = Vec::new();
    let mut i: usize = 0;
    while i < cs.len()
        invariant
            i <= cs@.len(),
            blocks@ =~= blocks_of(cs@.take(i as int)),
        decreases cs.len() - i,
    {
        let c = &cs[i];
        let yaml = match &c.kind {
            MdKind::Yaml(v) => Some(v.clone()),
            _ => None,
        };
        blocks.push(MdBlock { yaml, position: c.position });
        assert(cs@.take(i + 1) =~= cs@.take(i as int).push(cs@[i as int]));
        i += 1;
    }
    assert(cs@.take(cs@.len() as int) =~= cs@);
    let ts = text.as_str();
    frontmatter_in(ts, &blocks)
}

/// The advice of an undecodable front matter.
pub open spec fn frontmatter_advice() -> Seq<char> {
    "required fields: `state` (prediscussion, ideation, discussion, published, committed, abandoned)"@
}

/// The diagnostic of a document without front matter: it points at the
/// first 40 bytes of the text without its byte order marks.
pub fn missing_frontmatter(filename: &str, content: &str) -> (r: MissingFrontmatter)
    ensures
        r.src_name@ == filename@,
        r.src@ == strip_leading(content@, bom()),
        r.span_offset == 0,
        r.span_len == if encode_utf8(r.src@).len() < 40 {
            encode_utf8(r.src@).len() as int
        } else {
            40
        },
{
    let text = without_boms(content);
    let n = text.as_str().as_bytes().len();
    MissingFrontmatter {
        src_name: filename.to_owned(),
        src: text,
        span_offset: 0,
        span_len: if n < 40 {
            n
        } else {
            40
        },
    }
}

/// The diagnostic of a front matter that does not decode: it points at the
/// byte the decoder names (`location`, relative to the YAML text), or else
/// at the whole YAML text.
pub fn invalid_frontmatter(
    filename: &str,
    content: &str,
    source: &FrontmatterSource,
    location: Option<usize>,
    reason: &str,
) -> (r: InvalidFrontmatter)
    requires
        location matches Some(l) ==> source.yaml_offset + l <= usize::MAX,
    ensures
        r.src_name@ == filename@,
        r.src@ == strip_leading(content@, bom()),
        r.reason@ == reason@,
        r.advice matches Some(a) && a@ == frontmatter_advice(),
        match location {
            Some(l) => r.span_offset == source.yaml_offset + l && r.span_len == 1,
            None => r.span_offset == source.yaml_offset && r.span_len == encode_utf8(
                source.yaml@,
            ).len(),
        },
{
    let text = without_boms(content);
    let (offset, len) = match location {
        Some(l) => (source.yaml_offset + l, 1),
        None => (source.yaml_offset, source.yaml.as_str().as_bytes().len()),
    };
    InvalidFrontmatter {
        src_name: filename.to_owned(),
        src: text,
        span_offset: offset,
        span_len: len,
        reason: reason.to_owned(),
        advice: Some(
            "required fields: `state` (prediscussion, ideation, discussion, published, committed, abandoned)".to_owned(),
        ),
    }
}


/// Why the YAML text of a front matter did not decode: the decoder's
/// message, and the byte of the YAML text it points at, if any.
#[derive(Debug, Clone)]
pub struct FrontmatterDecodeError {
    pub location: Option<usize>,
    pub reason: String,
}

impl Rfd {
    /// Parse an RFD from its raw content, given the front matter block the
    /// markdown parser found in it and what decoding its YAML text gave:
    /// the decoded front matter and the body after the block, or the
    /// diagnostic of an undecodable front matter.
    pub fn parse(
        number: u32,
        content: &str,
        path: String,
        source: FrontmatterSource,
        decoded: Result<Frontmatter, FrontmatterDecodeError>,
    ) -> (r: Result<Rfd, InvalidFrontmatter>)
        requires
            decoded matches Err(e) ==> (e.location matches Some(l) ==> source.yaml_offset + l <= usize::MAX),
        ensures
            match decoded {
                Ok(f) => r matches Ok(rfd) && rfd.number == number && rfd.frontmatter == f && rfd.body@
                    == source.body@ && rfd.path@ == path@,
                Err(e) => r matches Err(d) && {
                    &&& d.src_name@ == path@
                    &&& d.src@ == strip_leading(content@, bom())
                    &&& d.reason@ == e.reason@
                    &&& d.advice matches Some(a) && a@ == frontmatter_advice()
                    &&& match e.location {
                        Some(l) => d.span_offset == source.yaml_offset + l && d.span_len == 1,
                        None => d.span_offset == source.yaml_offset && d.span_len == encode_utf8(
                            source.yaml@,
                        ).len(),
                    }
                },
            },
    {
        match decoded {
            Ok(frontmatter) => Ok(Rfd { number, frontmatter, body: source.body, path }),
            Err(e) => Err(invalid_frontmatter(path.as_str(), content, &source, e.location, e.reason.as_str())),
        }
    }
}

} // verus!
