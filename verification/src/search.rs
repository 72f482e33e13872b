//! Full-text search over RFD bodies, and plain-text extraction for the
//! static site's search index.
use vstd::prelude::*;

use crate::number::{parse_u32, parsed_u32};
use crate::rfd::{title_of_lines, Rfd};
use crate::state::state_name;

use crate::text::{
    chars_of, extend_from_range, find, find_exec, lemma_lines_acc_end, lines, lines_acc,
    lowercase_of, next_line, skip_leading, starts_with, starts_with_at, string_of,
    string_of_range, strip_leading, to_lowercase, trim, trim_bounds,
};

verus! {

/// A search result entry.
#[derive(Debug, Clone)]
pub struct SearchEntry {
    pub number: String,
    pub title: String,
    pub state: String,
    pub authors: String,
    /// Matching line with context.
    pub context: String,
    pub line: u32,
}

/// An entry of the JSON search index for the static site's client-side search.
#[derive(Debug, Clone)]
pub struct SearchIndexEntry {
    pub id: u32,
    pub number: String,
    pub title: String,
    pub state: String,
    pub authors: String,
    pub body: String,
    pub labels: Vec<String>,
}

/// A line of a body that contains the query.
#[derive(Debug, Clone)]
pub struct LineMatch {
    /// 1-based line number.
    pub line: usize,
    /// The line, trimmed.
    pub context: String,
}

/// The plain text a markdown line contributes to the search index: a
/// heading without its `#`s, nothing for a code fence or a `---` rule, any
/// other line trimmed.
pub open spec fn plain_line(line: Seq<char>) -> Option<Seq<char>> {
    let t = trim(line);
    if starts_with(t, seq!['#']) {
        Some(trim(strip_leading(t, '#')))
    } else if starts_with(t, seq!['`', '`', '`']) {
        None
    } else if starts_with(t, seq!['-', '-', '-']) {
        None
    } else {
        Some(t)
    }
}

/// The plain text of `ls`: each kept line followed by a space.
pub open spec fn plain_lines(ls: Seq<Seq<char>>) -> Seq<char>
    decreases ls.len(),
{
    if ls.len() == 0 {
        seq![]
    } else {
        match plain_line(ls[0]) {
            Some(t) => t + seq![' '] + plain_lines(ls.drop_first()),
            None => plain_lines(ls.drop_first()),
        }
    }
}

proof fn lemma_plain_step(t: Seq<char>, start: int, line: Seq<char>, next: int)
    requires
        lines_acc(t, start, start) == seq![line] + lines_acc(t, next, next),
    ensures
        plain_lines(lines_acc(t, start, start)) == match plain_line(line) {
            Some(x) => x + seq![' '] + plain_lines(lines_acc(t, next, next)),
            None => plain_lines(lines_acc(t, next, next)),
        },
{
    let ls = lines_acc(t, start, start);
    assert(ls[0] == line);
    assert(ls.drop_first() =~= lines_acc(t, next, next));
}

/// Rough markdown stripping for search indexing.
pub fn strip_markdown(md: &str) -> (r: String)
    ensures
        r@ == plain_lines(lines(md@)),
{
    let t = chars_of(md);
    let hash = vec!['#'];
    let ticks = vec!['`', '`', '`'];
    let dashes = vec!['-', '-', '-'];
    assert(hash@ =~= seq!['#']);
    assert(ticks@ =~= seq!['`', '`', '`']);
    assert(dashes@ =~= seq!['-', '-', '-']);
    let mut out: Vec<char> = Vec::new();
    let mut start: usize = 0;
    while start < t.len()
        invariant
            start <= t.len(),
            t@ == md@,
            hash@ == seq!['#'],
            ticks@ == seq!['`', '`', '`'],
            dashes@ == seq!['-', '-', '-'],
            plain_lines(lines(t@)) == out@ + plain_lines(
                lines_acc(t@, start as int, start as int),
            ),
        decreases t.len() - start,
    {
        let (e, next) = next_line(&t, start);
        let (a, b) = trim_bounds(&t, start, e);
        proof {
            lemma_plain_step(t@, start as int, t@.subrange(start as int, e as int), next as int);
        }
        let ghost out0 = out@;
        let ghost rest = plain_lines(lines_acc(t@, next as int, next as int));
        if starts_with_at(&t, a, b, &hash) {
            let c = skip_leading(&t, a, b, '#');
            let (x, y) = trim_bounds(&t, c, b);
            extend_from_range(&mut out, &t, x, y);
            out.push(' ');
            assert(out0 + (t@.subrange(x as int, y as int) + seq![' '] + rest) =~= out@ + rest);
        } else if starts_with_at(&t, a, b, &ticks) {
        } else if starts_with_at(&t, a, b, &dashes) {
        } else {
            extend_from_range(&mut out, &t, a, b);
            out.push(' ');
            assert(out0 + (t@.subrange(a as int, b as int) + seq![' '] + rest) =~= out@ + rest);
        }
        start = next;
    }
    proof {
        lemma_lines_acc_end(t@);
        assert(out@ + Seq::<char>::empty() =~= out@);
    }
    string_of(&out)
}

/// The lines of `ls` (numbered from `first`) whose lowercase form contains
/// `query`, trimmed.
pub open spec fn matching_lines_from(ls: Seq<Seq<char>>, query: Seq<char>, first: int) -> Seq<
    (int, Seq<char>),
>
    decreases ls.len(),
{
    if ls.len() == 0 {
        seq![]
    } else {
        let rest = matching_lines_from(ls.drop_first(), query, first + 1);
        if find(lowercase_of(ls[0]), query) is Some {
            seq![(first, trim(ls[0]))] + rest
        } else {
            rest
        }
    }
}

/// The view of a line match: its number and context.
pub open spec fn line_match_view(m: LineMatch) -> (int, Seq<char>) {
    (m.line as int, m.context@)
}

/// The lines of `body` that contain `query_lower` once lowercased, with
/// their 1-based numbers, as the full-text search reports them.
pub fn matching_lines(body: &str, query_lower: &str) -> (r: Vec<LineMatch>)
    ensures
        r@.map_values(|m: LineMatch| line_match_view(m)) == matching_lines_from(
            lines(body@),
            query_lower@,
            1,
        ),
{
    let t = chars_of(body);
    let q = chars_of(query_lower);
    let mut out: Vec<LineMatch> = Vec::new();
    let mut start: usize = 0;
    let mut count: usize = 0;
    while start < t.len()
        invariant
            start <= t.len(),
            t@ == body@,
            q@ == query_lower@,
            count <= start,
            matching_lines_from(lines(t@), q@, 1) == out@.map_values(
                |m: LineMatch| line_match_view(m),
            ) + matching_lines_from(lines_acc(t@, start as int, start as int), q@, count + 1),
        decreases t.len() - start,
    {
        let (e, next) = next_line(&t, start);
        let ghost l = t@.subrange(start as int, e as int);
        let ghost ls = lines_acc(t@, start as int, start as int);
        let ghost rest = matching_lines_from(lines_acc(t@, next as int, next as int), q@, count + 2);
        proof {
            assert(ls[0] == l);
            assert(ls.drop_first() =~= lines_acc(t@, next as int, next as int));
        }
        let line_text = string_of_range(&t, start, e);
        let lower = to_lowercase(line_text.as_str());
        let lower_chars = chars_of(lower.as_str());
        let ghost before = out@.map_values(|m: LineMatch| line_match_view(m));
        let number = count + 1;
        if find_exec(&lower_chars, &q, 0).is_some() {
            let (a, b) = trim_bounds(&t, start, e);
            out.push(LineMatch { line: number, context: string_of_range(&t, a, b) });
            assert(out@.map_values(|m: LineMatch| line_match_view(m)) =~= before + seq![
                (number as int, trim(l)),
            ]);
            assert(before + (seq![(number as int, trim(l))] + rest) =~= out@.map_values(
                |m: LineMatch| line_match_view(m),
            ) + rest);
        }
        start = next;
        count = count + 1;
    }
    proof {
        lemma_lines_acc_end(t@);
        assert(out@.map_values(|m: LineMatch| line_match_view(m)) + Seq::<(int, Seq<char>)>::empty()
            =~= out@.map_values(|m: LineMatch| line_match_view(m)));
    }
    out
}

// ---------------------------------------------------------------------------
// Entries of one RFD
// ---------------------------------------------------------------------------

/// The text of an optional field, empty when absent.
pub open spec fn or_empty(o: Option<String>) -> Seq<char> {
    match o {
        Some(s) => s@,
        None => seq![],
    }
}

/// An owned copy of an optional field's text, empty when absent.
fn copy_or_empty(o: &Option<String>) -> (r: String)
    ensures
        r@ == or_empty(*o),
{
    match o {
        Some(s) => s.clone(),
        None => String::new(),
    }
}

/// Copies of the labels.
fn copy_labels(labels: &Vec<String>) -> (r: Vec<String>)
    ensures
        r@.len() == labels@.len(),
        forall|i: int| 0 <= i < r@.len() ==> (#[trigger] r@[i])@ == labels@[i]@,
{
    let mut out: Vec<String> = Vec::new();
    let mut i: usize = 0;
    while i < labels.len()
        invariant
            i <= labels@.len(),
            out@.len() == i,
            forall|k: int| 0 <= k < i ==> (#[trigger] out@[k])@ == labels@[k]@,
        decreases labels.len() - i,
    {
        out.push(labels[i].clone());
        i += 1;
    }
    out
}

/// The search results in RFD `name` for `query`: one per line whose
/// lowercase form contains the lowercased query, with the RFD's metadata.
pub fn search_rfd(name: &str, rfd: &Rfd, query: &str) -> (r: Vec<SearchEntry>)
    ensures
        ({
            let m = matching_lines_from(lines(rfd.body@), lowercase_of(query@), 1);
            &&& r@.len() == m.len()
            &&& forall|k: int|
                0 <= k < r@.len() ==> {
                    let e = #[trigger] r@[k];
                    &&& e.number@ == name@
                    &&& e.title@ == title_of_lines(lines(rfd.body@))
                    &&& e.state@ == state_name(rfd.frontmatter.state)
                    &&& e.authors@ == or_empty(rfd.frontmatter.authors)
                    &&& e.context@ == m[k].1
                    &&& e.line == m[k].0 as u32
                }
        }),
{
    let q = to_lowercase(query);
    let matches = matching_lines(rfd.body.as_str(), q.as_str());
    let ghost m = matching_lines_from(lines(rfd.body@), lowercase_of(query@), 1);
    assert(matches@.len() == m.len()) by {
        assert(matches@.map_values(|x: LineMatch| line_match_view(x)).len() == matches@.len());
    }
    let mut out: Vec<SearchEntry> = Vec::new();
    let mut i: usize = 0;
    while i < matches.len()
        invariant
            i <= matches@.len(),
            matches@.len() == m.len(),
            m == matching_lines_from(lines(rfd.body@), lowercase_of(query@), 1),
            matches@.map_values(|x: LineMatch| line_match_view(x)) == m,
            out@.len() == i,
            forall|k: int|
                0 <= k < i ==> {
                    let e = #[trigger] out@[k];
                    &&& e.number@ == name@
                    &&& e.title@ == title_of_lines(lines(rfd.body@))
                    &&& e.state@ == state_name(rfd.frontmatter.state)
                    &&& e.authors@ == or_empty(rfd.frontmatter.authors)
                    &&& e.context@ == m[k].1
                    &&& e.line == m[k].0 as u32
                },
        decreases matches.len() - i,
    {
        let lm = &matches[i];
        assert(line_match_view(matches@[i as int]) == m[i as int]);
        out.push(
            SearchEntry {
                number: name.to_owned(),
                title: rfd.title(),
                state: rfd.frontmatter.state.to_string(),
                authors: copy_or_empty(&rfd.frontmatter.authors),
                context: lm.context.clone(),
                line: lm.line as u32,
            },
        );
        i += 1;
    }
    out
}

/// `r` is the search index entry of RFD `name`, numbered `id`: its
/// metadata and its body as plain text.
pub open spec fn is_index_entry(r: SearchIndexEntry, id: u32, name: Seq<char>, rfd: Rfd) -> bool {
    &&& r.id == id
    &&& r.number@ == name
    &&& r.title@ == title_of_lines(lines(rfd.body@))
    &&& r.state@ == state_name(rfd.frontmatter.state)
    &&& r.authors@ == or_empty(rfd.frontmatter.authors)
    &&& r.body@ == plain_lines(lines(rfd.body@))
    &&& r.labels@.len() == rfd.frontmatter.labels@.len()
    &&& forall|i: int| 0 <= i < r.labels@.len() ==> (#[trigger] r.labels@[i])@
        == rfd.frontmatter.labels@[i]@
}

/// The search index entry of RFD `name`, numbered `id`.
pub fn index_entry(id: u32, name: &str, rfd: &Rfd) -> (r: SearchIndexEntry)
    ensures
        is_index_entry(r, id, name@, *rfd),
{
    SearchIndexEntry {
        id,
        number: name.to_owned(),
        title: rfd.title(),
        state: rfd.frontmatter.state.to_string(),
        authors: copy_or_empty(&rfd.frontmatter.authors),
        body: strip_markdown(rfd.body.as_str()),
        labels: copy_labels(&rfd.frontmatter.labels),
    }
}

/// The RFDs that the search index lists, in order: of the loaded documents
/// and the names of their directories, those whose name is a number, with
/// that number.
pub open spec fn indexed(dirs: Seq<(String, Rfd)>) -> Seq<(u32, Seq<char>, Rfd)>
    decreases dirs.len(),
{
    if dirs.len() == 0 {
        seq![]
    } else {
        let rest = indexed(dirs.drop_last());
        let (name, rfd) = dirs.last();
        match parsed_u32(name@) {
            Some(id) => rest.push((id, name@, rfd)),
            None => rest,
        }
    }
}

/// The search index of a repository, from its documents, each with the
/// name of its directory (in the directories' order): one entry for each
/// directory named by a number, others skipped.
pub fn search_index(dirs: &Vec<(String, Rfd)>) -> (r: Vec<SearchIndexEntry>)
    ensures
        r@.len() == indexed(dirs@).len(),
        forall|k: int| 0 <= k < r@.len() ==> {
            let (id, name, rfd) = #[trigger] indexed(dirs@)[k];
            is_index_entry(r@[k], id, name, rfd)
        },
{
    let mut out: Vec<SearchIndexEntry> = Vec::new();
    let mut i: usize = 0;
    while i < dirs.len()
        invariant
            i <= dirs@.len(),
            out@.len() == indexed(dirs@.take(i as int)).len(),
            forall|k: int| 0 <= k < out@.len() ==> {
                let (id, name, rfd) = #[trigger] indexed(dirs@.take(i as int))[k];
                is_index_entry(out@[k], id, name, rfd)
            },
        decreases dirs.len() - i,
    {
        let ghost before = indexed(dirs@.take(i as int));
        proof {
            assert(dirs@.take(i + 1).drop_last() =~= dirs@.take(i as int));
            assert(dirs@.take(i + 1).last() == dirs@[i as int]);
        }
        let name = &dirs[i].0;
        let rfd = &dirs[i].1;
        if let Some(id) = parse_u32(name.as_str()) {
            out.push(index_entry(id, name.as_str(), rfd));
            assert forall|k: int| 0 <= k < out@.len() implies {
                let (id, name, rfd) = #[trigger] indexed(dirs@.take(i + 1))[k];
                is_index_entry(out@[k], id, name, rfd)
            } by {
                if k < before.len() {
                    assert(indexed(dirs@.take(i + 1))[k] == before[k]);
                }
            }
        }
        i += 1;
    }
    proof {
        assert(dirs@.take(i as int) =~= dirs@);
    }
    out
}

/// The row of RFD `name` in the `rfd.csv` index: number, title, state,
/// authors and discussion link.
pub fn index_row(name: &str, rfd: &Rfd, discussion: &Option<String>) -> (r: Vec<String>)
    ensures
        r@.len() == 5,
        r@[0]@ == name@,
        r@[1]@ == title_of_lines(lines(rfd.body@)),
        r@[2]@ == state_name(rfd.frontmatter.state),
        r@[3]@ == or_empty(rfd.frontmatter.authors),
        r@[4]@ == or_empty(*discussion),
{
    let mut row: Vec<String> = Vec::new();
    row.push(name.to_owned());
    row.push(rfd.title());
    row.push(rfd.frontmatter.state.as_str().to_owned());
    row.push(copy_or_empty(&rfd.frontmatter.authors));
    row.push(copy_or_empty(discussion));
    row
}

/// The header of the `rfd.csv` index.
pub fn index_header() -> (r: Vec<String>)
    ensures
        r@.len() == 5,
        r@[0]@ == "number"@,
        r@[1]@ == "title"@,
        r@[2]@ == "state"@,
        r@[3]@ == "authors"@,
        r@[4]@ == "discussion"@,
{
    let mut row: Vec<String> = Vec::new();
    row.push("number".to_owned());
    row.push("title".to_owned());
    row.push("state".to_owned());
    row.push("authors".to_owned());
    row.push("discussion".to_owned());
    row
}


// ---------------------------------------------------------------------------
// Laws
// ---------------------------------------------------------------------------

proof fn lemma_plain_lines_append(a: Seq<Seq<char>>, b: Seq<Seq<char>>)
    ensures
        plain_lines(a + b) == plain_lines(a) + plain_lines(b),
    decreases a.len(),
{
    if a.len() == 0 {
        assert(a + b =~= b);
    } else {
        lemma_plain_lines_append(a.drop_first(), b);
        assert((a + b).drop_first() =~= a.drop_first() + b);
        assert((a + b)[0] == a[0]);
        match plain_line(a[0]) {
            Some(t) => {
                assert(t + seq![' '] + plain_lines(a.drop_first()) + plain_lines(b) =~= t + seq![' ']
                    + (plain_lines(a.drop_first()) + plain_lines(b)));
            },
            None => {},
        }
    }
}

/// The plain text of a body is made line by line, in order: a heading
/// line gives its text without the leading `#`s, trimmed; a line that opens
/// a code fence (```) or is a `---` rule gives nothing; any other line gives
/// itself trimmed. Each line that gives text is followed by a space.
pub proof fn law_plain_text_line_by_line(ls: Seq<Seq<char>>, i: int)
    requires
        0 <= i < ls.len(),
    ensures
        ({
            let t = trim(ls[i]);
            let before = plain_lines(ls.take(i));
            let after = plain_lines(ls.skip(i + 1));
            &&& starts_with(t, seq!['#']) ==> plain_lines(ls) == before + trim(strip_leading(t, '#'))
                + seq![' '] + after
            &&& (starts_with(t, seq!['`', '`', '`']) || starts_with(t, seq!['-', '-', '-']))
                ==> plain_lines(ls) == before + after
            &&& (!starts_with(t, seq!['#']) && !starts_with(t, seq!['`', '`', '`']) && !starts_with(
                t,
                seq!['-', '-', '-'],
            )) ==> plain_lines(ls) == before + t + seq![' '] + after
        }),
{
    let one = seq![ls[i]];
    assert(ls =~= ls.take(i) + one + ls.skip(i + 1));
    lemma_plain_lines_append(ls.take(i) + one, ls.skip(i + 1));
    lemma_plain_lines_append(ls.take(i), one);
    assert(one.drop_first() =~= Seq::<Seq<char>>::empty());
    assert(plain_lines(one.drop_first()) == Seq::<char>::empty());
    let t = trim(ls[i]);
    if starts_with(t, seq!['`', '`', '`']) {
        assert(t[0] == '`');
        if starts_with(t, seq!['#']) {
            assert(t.take(1)[0] == '#');
        }
    }
    if starts_with(t, seq!['-', '-', '-']) {
        assert(t[0] == '-');
        if starts_with(t, seq!['#']) {
            assert(t.take(1)[0] == '#');
        }
        assert(t.take(3)[0] == '-');
    }
    match plain_line(ls[i]) {
        Some(x) => {
            assert(plain_lines(one) =~= x + seq![' ']);
        },
        None => {
            assert(plain_lines(one) =~= Seq::<char>::empty());
        },
    }
}

/// `e` reports the line numbered `line` with text `text`.
pub open spec fn reports(e: (int, Seq<char>), line: int, text: Seq<char>) -> bool {
    e.0 == line && e.1 == text
}

/// The line at `i` of `ls` contains `query` once lowercased.
pub open spec fn line_hit(ls: Seq<Seq<char>>, query: Seq<char>, i: int) -> bool {
    find(lowercase_of(ls[i]), query) is Some
}

proof fn lemma_matching_shift(ls: Seq<Seq<char>>, query: Seq<char>, first: int)
    requires
        ls.len() > 0,
    ensures
        ({
            let m = matching_lines_from(ls, query, first);
            let rest = matching_lines_from(ls.drop_first(), query, first + 1);
            let d: int = if line_hit(ls, query, 0) { 1 } else { 0 };
            &&& m.len() == rest.len() + d
            &&& line_hit(ls, query, 0) ==> reports(m[0], first, trim(ls[0]))
            &&& forall|k: int| 0 <= k < rest.len() ==> m[k + d] == #[trigger] rest[k]
        }),
{
}

proof fn lemma_matching_complete(ls: Seq<Seq<char>>, query: Seq<char>, first: int)
    ensures
        forall|i: int|
            0 <= i < ls.len() && #[trigger] line_hit(ls, query, i) ==> exists|k: int|
                0 <= k < matching_lines_from(ls, query, first).len() && reports(#[trigger] matching_lines_from(
                    ls,
                    query,
                    first,
                )[k], first + i, trim(ls[i])),
    decreases ls.len(),
{
    let m = matching_lines_from(ls, query, first);
    if ls.len() > 0 {
        let tl = ls.drop_first();
        let rest = matching_lines_from(tl, query, first + 1);
        lemma_matching_complete(tl, query, first + 1);
        lemma_matching_shift(ls, query, first);
        let d: int = if line_hit(ls, query, 0) { 1 } else { 0 };
        assert forall|i: int| 0 <= i < ls.len() && #[trigger] line_hit(ls, query, i) implies exists|k: int|
            0 <= k < m.len() && reports(#[trigger] m[k], first + i, trim(ls[i])) by {
            if i == 0 {
                assert(reports(m[0], first, trim(ls[0])));
            } else {
                assert(tl[i - 1] == ls[i]);
                assert(line_hit(tl, query, i - 1));
                let k = choose|k: int| 0 <= k < rest.len() && reports(#[trigger] rest[k], first + 1 + (i - 1), trim(tl[i - 1]));
                assert(m[k + d] == rest[k]);
            }
        }
    }
}

/// Each entry of `m` reports a line of `ls`, numbered from `first`, that
/// contains the query, with its trimmed text.
pub open spec fn reports_hit(ls: Seq<Seq<char>>, query: Seq<char>, first: int, e: (int, Seq<char>)) -> bool {
    let i = e.0 - first;
    &&& 0 <= i < ls.len()
    &&& line_hit(ls, query, i)
    &&& e.1 == trim(ls[i])
}

proof fn lemma_matching_sound(ls: Seq<Seq<char>>, query: Seq<char>, first: int)
    ensures
        forall|k: int|
            0 <= k < matching_lines_from(ls, query, first).len() ==> reports_hit(
                ls,
                query,
                first,
                #[trigger] matching_lines_from(ls, query, first)[k],
            ),
    decreases ls.len(),
{
    let m = matching_lines_from(ls, query, first);
    if ls.len() > 0 {
        let tl = ls.drop_first();
        let rest = matching_lines_from(tl, query, first + 1);
        lemma_matching_sound(tl, query, first + 1);
        lemma_matching_shift(ls, query, first);
        let d: int = if line_hit(ls, query, 0) { 1 } else { 0 };
        assert forall|k: int| 0 <= k < m.len() implies reports_hit(ls, query, first, #[trigger] m[k]) by {
            if d == 1 && k == 0 {
            } else {
                assert(m[k] == rest[k - d]);
                assert(reports_hit(tl, query, first + 1, rest[k - d]));
                let i = rest[k - d].0 - (first + 1);
                assert(ls[i + 1] == tl[i]);
            }
        }
    }
}

proof fn lemma_matching_ordered(ls: Seq<Seq<char>>, query: Seq<char>, first: int)
    ensures
        forall|k1: int, k2: int|
            0 <= k1 < k2 < matching_lines_from(ls, query, first).len() ==> (#[trigger] matching_lines_from(
                ls,
                query,
                first,
            )[k1]).0 < (#[trigger] matching_lines_from(ls, query, first)[k2]).0,
    decreases ls.len(),
{
    let m = matching_lines_from(ls, query, first);
    if ls.len() > 0 {
        let tl = ls.drop_first();
        let rest = matching_lines_from(tl, query, first + 1);
        lemma_matching_ordered(tl, query, first + 1);
        lemma_matching_sound(tl, query, first + 1);
        lemma_matching_shift(ls, query, first);
        let d: int = if line_hit(ls, query, 0) { 1 } else { 0 };
        assert forall|k1: int, k2: int| 0 <= k1 < k2 < m.len() implies (#[trigger] m[k1]).0 < (#[trigger] m[k2]).0 by {
            assert(m[k2] == rest[k2 - d]);
            if d == 1 && k1 == 0 {
                assert(reports_hit(tl, query, first + 1, rest[k2 - d]));
            } else {
                assert(m[k1] == rest[k1 - d]);
            }
        }
    }
}

/// Full-text search reports exactly the lines of the body whose lowercase
/// form contains the (lowercase) query, headings included: every such line
/// is reported with its 1-based number and its trimmed text; every result
/// is such a line; and the results follow the body's order, each line once.
pub proof fn law_search_reports_every_matching_line(body: Seq<char>, query: Seq<char>)
    ensures
        ({
            let ls = lines(body);
            let m = matching_lines_from(ls, query, 1);
            &&& forall|i: int|
                0 <= i < ls.len() && find(lowercase_of(#[trigger] ls[i]), query) is Some ==> exists|k: int|
                    0 <= k < m.len() && reports(#[trigger] m[k], i + 1, trim(ls[i]))
            &&& forall|k: int|
                0 <= k < m.len() ==> {
                    let n = (#[trigger] m[k]).0;
                    &&& 1 <= n <= ls.len()
                    &&& find(lowercase_of(ls[n - 1]), query) is Some
                    &&& m[k].1 == trim(ls[n - 1])
                }
            &&& forall|k1: int, k2: int| 0 <= k1 < k2 < m.len() ==> (#[trigger] m[k1]).0 < (#[trigger] m[k2]).0
        }),
{
    let ls = lines(body);
    let m = matching_lines_from(ls, query, 1);
    lemma_matching_complete(ls, query, 1);
    lemma_matching_sound(ls, query, 1);
    lemma_matching_ordered(ls, query, 1);
    assert forall|i: int| 0 <= i < ls.len() && find(lowercase_of(#[trigger] ls[i]), query) is Some implies exists|k: int|
        0 <= k < m.len() && reports(#[trigger] m[k], i + 1, trim(ls[i])) by {
        assert(line_hit(ls, query, i));
        let k = choose|k: int| 0 <= k < m.len() && reports(#[trigger] m[k], 1 + i, trim(ls[i]));
        assert(reports(m[k], i + 1, trim(ls[i])));
    }
    assert forall|k: int| 0 <= k < m.len() implies {
        let n = (#[trigger] m[k]).0;
        &&& 1 <= n <= ls.len()
        &&& find(lowercase_of(ls[n - 1]), query) is Some
        &&& m[k].1 == trim(ls[n - 1])
    } by {
        assert(reports_hit(ls, query, 1, m[k]));
    }
}

} // verus!
