//! Front matter fields read back: what `set_frontmatter_field` writes,
//! `get_frontmatter_field` reads.
use vstd::prelude::*;

use crate::rfd::{
    bom, closing_fence, fence, field_line, field_prefix, field_value_in, frontmatter_field,
    holds_field, opening_break, rewrite_lines, with_frontmatter_field, yaml_block,
};
use crate::text::{
    find, find_from, is_whitespace_char, lemma_find_from_props, lines, lines_acc, occurs_at,
    starts_with, strip_cr, strip_leading, strip_trailing, trim, trim_end, trim_start,
};

verus! {

/// `x` holds no newline.
pub open spec fn no_newline(x: Seq<char>) -> bool {
    forall|j: int| 0 <= j < x.len() ==> x[j] != '\n'
}

/// No `\n---` occurs in `x`.
pub open spec fn fence_free(x: Seq<char>) -> bool {
    forall|p: int| 0 <= p ==> !occurs_at(x, closing_fence(), p)
}

// ---------------------------------------------------------------------------
// Lines of joined text
// ---------------------------------------------------------------------------

proof fn lemma_lines_acc_shift(p: Seq<char>, b: Seq<char>, s: int, i: int)
    requires
        0 <= s <= i <= b.len(),
    ensures
        lines_acc(p + b, p.len() + s, p.len() + i) == lines_acc(b, s, i),
    decreases b.len() - i,
{
    let x = p + b;
    if i >= b.len() {
        if s < b.len() {
            assert(x.subrange(p.len() + s, x.len() as int) =~= b.subrange(s, b.len() as int));
        }
    } else {
        assert(x[p.len() + i] == b[i]);
        if b[i] == '\n' {
            assert(x.subrange(p.len() + s, p.len() + i) =~= b.subrange(s, i));
            lemma_lines_acc_shift(p, b, i + 1, i + 1);
        } else {
            lemma_lines_acc_shift(p, b, s, i + 1);
        }
    }
}

proof fn lemma_lines_acc_scan(x: Seq<char>, s: int, i: int, k: int)
    requires
        0 <= s <= i <= k <= x.len(),
        forall|j: int| i <= j < k ==> x[j] != '\n',
    ensures
        lines_acc(x, s, i) == lines_acc(x, s, k),
    decreases k - i,
{
    if i < k {
        lemma_lines_acc_scan(x, s, i + 1, k);
    }
}

/// The lines of `a\nb`, for `a` without newlines.
proof fn lemma_lines_split(a: Seq<char>, b: Seq<char>)
    requires
        no_newline(a),
    ensures
        lines(a + seq!['\n'] + b) == seq![strip_cr(a)] + lines(b),
{
    let x = a + seq!['\n'] + b;
    lemma_lines_acc_scan(x, 0, 0, a.len() as int);
    assert(x[a.len() as int] == '\n');
    assert(x.subrange(0, a.len() as int) =~= a);
    assert(x =~= (a + seq!['\n']) + b);
    lemma_lines_acc_shift(a + seq!['\n'], b, 0, 0);
}

/// The lines of a non-empty `a` without newlines: `a` itself.
proof fn lemma_lines_single(a: Seq<char>)
    requires
        no_newline(a),
        a.len() > 0,
    ensures
        lines(a) == seq![a],
{
    lemma_lines_acc_scan(a, 0, 0, a.len() as int);
    assert(a.subrange(0, a.len() as int) =~= a);
}

/// Line `l`, the `k`-th of a text from `s` on, is found at some `q` in
/// `x`: at `s` itself if `k` is 0, else right after a newline.
pub open spec fn line_starts_ok(x: Seq<char>, s: int, l: Seq<char>, k: int) -> bool {
    exists|q: int|
        s <= q <= x.len() && (k == 0 ==> q == s) && (k > 0 ==> q > s && x[q - 1] == '\n')
            && starts_with(#[trigger] x.subrange(q, x.len() as int), l)
}

/// The lines of a text hold no newline, and every line after the first
/// starts right after a newline.
proof fn lemma_lines_acc_shape(x: Seq<char>, s: int, i: int)
    requires
        0 <= s <= i <= x.len(),
        forall|j: int| s <= j < i ==> x[j] != '\n',
    ensures
        forall|k: int|
            0 <= k < lines_acc(x, s, i).len() ==> no_newline(#[trigger] lines_acc(x, s, i)[k]),
        forall|k: int|
            0 <= k < lines_acc(x, s, i).len() ==> #[trigger] line_starts_ok(
                x,
                s,
                lines_acc(x, s, i)[k],
                k,
            ),
    decreases x.len() - i,
{
    let l = lines_acc(x, s, i);
    if i >= x.len() {
        if s < x.len() {
            let seg = x.subrange(s, x.len() as int);
            assert(l =~= seq![seg]);
            assert(no_newline(seg));
            assert(x.subrange(s, x.len() as int).take(seg.len() as int) =~= seg);
            assert(line_starts_ok(x, s, l[0], 0));
        } else {
            assert(l.len() == 0);
        }
    } else if x[i] == '\n' {
        lemma_lines_acc_shape(x, i + 1, i + 1);
        let seg = x.subrange(s, i);
        let rest = lines_acc(x, i + 1, i + 1);
        assert(l =~= seq![strip_cr(seg)] + rest);
        assert(no_newline(strip_cr(seg)));
        assert forall|k: int| 0 <= k < l.len() implies no_newline(#[trigger] l[k]) by {
            if k > 0 {
                assert(l[k] == rest[k - 1]);
            }
        }
        assert forall|k: int| 0 <= k < l.len() implies #[trigger] line_starts_ok(x, s, l[k], k) by {
            if k == 0 {
                let c = strip_cr(seg);
                assert(x.subrange(s, x.len() as int).take(c.len() as int) =~= c);
                assert(s <= s <= x.len() && starts_with(x.subrange(s, x.len() as int), l[k]));
            } else {
                assert(l[k] == rest[k - 1]);
                assert(line_starts_ok(x, i + 1, rest[k - 1], k - 1));
                let q = choose|q: int|
                    i + 1 <= q <= x.len() && (k - 1 == 0 ==> q == i + 1) && (k - 1 > 0 ==> q > i
                        + 1 && x[q - 1] == '\n') && starts_with(
                        #[trigger] x.subrange(q, x.len() as int),
                        rest[k - 1],
                    );
                assert(q > s && x[q - 1] == '\n');
            }
        }
    } else {
        lemma_lines_acc_shape(x, s, i + 1);
        assert(l == lines_acc(x, s, i + 1));
    }
}

// ---------------------------------------------------------------------------
// Trimming
// ---------------------------------------------------------------------------

proof fn lemma_strip_trailing_append(a: Seq<char>, b: Seq<char>, c: char)
    requires
        a.len() > 0,
        a.last() != c,
    ensures
        strip_trailing(a + b, c) == a + strip_trailing(b, c),
    decreases b.len(),
{
    if b.len() > 0 && b.last() == c {
        assert((a + b).drop_last() =~= a + b.drop_last());
        lemma_strip_trailing_append(a, b.drop_last(), c);
    } else if b.len() == 0 {
        assert(a + b =~= a);
        assert(a + strip_trailing(b, c) =~= a);
    } else {
        assert((a + b).last() == b.last());
    }
}

proof fn lemma_strip_trailing_shape(b: Seq<char>, c: char)
    ensures
        strip_trailing(b, c).len() <= b.len(),
        b.take(strip_trailing(b, c).len() as int) == strip_trailing(b, c),
        strip_trailing(b, c).len() > 0 ==> strip_trailing(b, c).last() != c,
    decreases b.len(),
{
    if b.len() > 0 && b.last() == c {
        lemma_strip_trailing_shape(b.drop_last(), c);
        let t = strip_trailing(b.drop_last(), c);
        assert(b.take(t.len() as int) =~= b.drop_last().take(t.len() as int));
    } else {
        assert(b.take(b.len() as int) =~= b);
    }
}

proof fn lemma_trim_end_append(a: Seq<char>, b: Seq<char>)
    requires
        a.len() > 0,
        !is_whitespace_char(a.last()),
    ensures
        trim_end(a + b) == a + trim_end(b),
    decreases b.len(),
{
    if b.len() > 0 && is_whitespace_char(b.last()) {
        assert((a + b).drop_last() =~= a + b.drop_last());
        lemma_trim_end_append(a, b.drop_last());
    } else if b.len() == 0 {
        assert(a + b =~= a);
        assert(a + trim_end(b) =~= a);
    } else {
        assert((a + b).last() == b.last());
    }
}

proof fn lemma_trim_end_ws_prefix(w: char, b: Seq<char>)
    requires
        is_whitespace_char(w),
    ensures
        trim_end(seq![w] + b) == if trim_end(b).len() > 0 {
            seq![w] + trim_end(b)
        } else {
            Seq::<char>::empty()
        },
    decreases b.len(),
{
    let x = seq![w] + b;
    if b.len() > 0 && is_whitespace_char(b.last()) {
        assert(x.drop_last() =~= seq![w] + b.drop_last());
        lemma_trim_end_ws_prefix(w, b.drop_last());
    } else if b.len() == 0 {
        assert(x.drop_last() =~= Seq::<char>::empty());
        assert(trim_end(Seq::<char>::empty()) =~= Seq::<char>::empty());
        assert(trim_end(b) =~= Seq::<char>::empty());
    } else {
        assert(x.last() == b.last());
    }
}

proof fn lemma_trim_start_ws_prefix(w: char, b: Seq<char>)
    requires
        is_whitespace_char(w),
    ensures
        trim_start(seq![w] + b) == trim_start(b),
{
    assert((seq![w] + b).drop_first() =~= b);
}

/// Trimming the start and trimming the end commute.
proof fn lemma_trim_commutes(s: Seq<char>)
    ensures
        trim_end(trim_start(s)) == trim_start(trim_end(s)),
    decreases s.len(),
{
    if s.len() > 0 {
        let w = s[0];
        let t = s.drop_first();
        assert(s =~= seq![w] + t);
        if is_whitespace_char(w) {
            lemma_trim_commutes(t);
            lemma_trim_end_ws_prefix(w, t);
            if trim_end(t).len() > 0 {
                lemma_trim_start_ws_prefix(w, trim_end(t));
            }
        } else {
            lemma_trim_end_append(seq![w], t);
            assert((seq![w] + trim_end(t))[0] == w);
        }
    }
}

/// A `\r` at the end of a line does not change it trimmed.
proof fn lemma_trim_strip_cr(x: Seq<char>)
    ensures
        trim(strip_cr(x)) == trim(x),
{
    if x.len() > 0 && x.last() == '\r' {
        lemma_trim_commutes(x);
        lemma_trim_commutes(x.drop_last());
        assert(trim_end(x) == trim_end(x.drop_last()));
    }
}

/// The value a line holding the field gives.
pub open spec fn line_value(line: Seq<char>, prefix: Seq<char>) -> Option<Seq<char>> {
    let v = trim(trim(line).skip(prefix.len() as int));
    if v.len() == 0 {
        None
    } else {
        Some(v)
    }
}

/// The line `field: value` holds the field, with the value trimmed.
proof fn lemma_field_line_value(field: Seq<char>, value: Seq<char>)
    requires
        field.len() == 0 || !is_whitespace_char(field[0]),
    ensures
        starts_with(trim(field_line(field, value)), field_prefix(field)),
        line_value(field_line(field, value), field_prefix(field)) == if trim(value).len() > 0 {
            Some(trim(value))
        } else {
            None::<Seq<char>>
        },
{
    let line = field_line(field, value);
    let head = field.push(':');
    let tail = seq![' '] + value;
    assert(line =~= head + tail);
    assert(trim_start(line) == line) by {
        if field.len() > 0 {
            assert(line[0] == field[0]);
        } else {
            assert(line[0] == ':');
        }
    }
    lemma_trim_end_append(head, tail);
    lemma_trim_end_ws_prefix(' ', value);
    let tl = trim(line);
    assert(tl == head + trim_end(tail));
    assert(tl.take(head.len() as int) =~= head);
    assert(tl.skip(head.len() as int) =~= trim_end(tail));
    lemma_trim_commutes(value);
    if trim_end(value).len() > 0 {
        lemma_trim_start_ws_prefix(' ', trim_end(value));
        lemma_trim_commutes(seq![' '] + trim_end(value));
        lemma_trim_commutes(trim_end(value));
        assert(trim_end(trim_end(value)) == trim_end(value)) by {
            lemma_strip_trim_end_idem(value);
        }
    } else {
        assert(trim_end(tail) =~= Seq::<char>::empty());
        assert(trim_start(trim_end(value)).len() == 0);
    }
}

proof fn lemma_strip_trim_end_idem(s: Seq<char>)
    ensures
        trim_end(trim_end(s)) == trim_end(s),
    decreases s.len(),
{
    if s.len() > 0 && is_whitespace_char(s.last()) {
        lemma_strip_trim_end_idem(s.drop_last());
    }
}

// ---------------------------------------------------------------------------
// The rewritten front matter
// ---------------------------------------------------------------------------

proof fn lemma_strip_trailing_keep(a: Seq<char>, b: Seq<char>, c: char)
    requires
        strip_trailing(b, c).len() > 0,
    ensures
        strip_trailing(a + b, c) == a + strip_trailing(b, c),
    decreases b.len(),
{
    if b.len() > 0 && b.last() == c {
        assert((a + b).drop_last() =~= a + b.drop_last());
        lemma_strip_trailing_keep(a, b.drop_last(), c);
    } else {
        assert((a + b).last() == b.last());
    }
}

/// What the lines of the rewritten front matter give for the field: the
/// value of the written line.
proof fn lemma_rewrite_value(ls: Seq<Seq<char>>, prefix: Seq<char>, line: Seq<char>, tail: Seq<char>)
    requires
        forall|k: int| 0 <= k < ls.len() ==> no_newline(#[trigger] ls[k]),
        no_newline(line),
        line.len() > 0,
        starts_with(trim(line), prefix),
        (tail == Seq::<char>::empty() && holds_field(ls, prefix)) || tail == line + seq!['\n'],
    ensures
        strip_trailing(rewrite_lines(ls, prefix, line) + tail, '\n').len() > 0,
        strip_trailing(rewrite_lines(ls, prefix, line) + tail, '\n').last() != '\n',
        field_value_in(lines(strip_trailing(rewrite_lines(ls, prefix, line) + tail, '\n')), prefix)
            == line_value(line, prefix),
    decreases ls.len(),
{
    let r = rewrite_lines(ls, prefix, line) + tail;
    assert(line.last() != '\n') by {
        assert(line[line.len() - 1] != '\n');
    }
    if ls.len() == 0 {
        assert(!holds_field(ls, prefix));
        assert(r =~= line + seq!['\n']);
        assert(r.drop_last() =~= line);
        assert(strip_trailing(line, '\n') == line);
        assert(strip_trailing(r, '\n') == line);
        lemma_lines_single(line);
        assert(lines(line)[0] == line);
    } else {
        let x0 = if starts_with(trim(ls[0]), prefix) {
            line
        } else {
            ls[0]
        };
        let ls2 = ls.drop_first();
        let r2 = rewrite_lines(ls2, prefix, line) + tail;
        assert(r =~= x0 + seq!['\n'] + r2);
        if starts_with(trim(ls[0]), prefix) {
            assert(r =~= line + (seq!['\n'] + r2));
            lemma_strip_trailing_append(line, seq!['\n'] + r2, '\n');
            let w = strip_trailing(seq!['\n'] + r2, '\n');
            lemma_strip_trailing_shape(seq!['\n'] + r2, '\n');
            assert(strip_trailing(r, '\n') == line + w);
            if w.len() == 0 {
                assert(line + w =~= line);
                lemma_lines_single(line);
                assert(lines(line + w)[0] == line);
            } else {
                assert(w[0] == (seq!['\n'] + r2)[0]);
                assert(line + w =~= line + seq!['\n'] + w.drop_first());
                lemma_lines_split(line, w.drop_first());
                lemma_trim_strip_cr(line);
                assert(lines(line + w)[0] == strip_cr(line));
                assert((line + w).last() == w.last());
            }
        } else {
            assert forall|k: int| 0 <= k < ls2.len() implies no_newline(#[trigger] ls2[k]) by {
                assert(ls2[k] == ls[k + 1]);
            }
            if tail == Seq::<char>::empty() && holds_field(ls, prefix) {
                let i = choose|i: int| 0 <= i < ls.len() && starts_with(trim(#[trigger] ls[i]), prefix);
                assert(i > 0);
                assert(ls2[i - 1] == ls[i]);
                assert(holds_field(ls2, prefix));
            }
            lemma_rewrite_value(ls2, prefix, line, tail);
            let t2 = strip_trailing(r2, '\n');
            lemma_strip_trailing_keep(x0 + seq!['\n'], r2, '\n');
            assert(x0 + seq!['\n'] + r2 =~= (x0 + seq!['\n']) + r2);
            assert((x0 + seq!['\n']) + t2 =~= x0 + seq!['\n'] + t2);
            assert(strip_trailing(r, '\n') == x0 + seq!['\n'] + t2);
            lemma_lines_split(x0, t2);
            lemma_trim_strip_cr(x0);
            assert(lines(x0 + seq!['\n'] + t2).drop_first() =~= lines(t2));
            assert((x0 + seq!['\n'] + t2).last() == t2.last());
        }
    }
}

/// A text made of lines that end in newlines, none but the first starting
/// with `---`, holds no `\n---`.
proof fn lemma_rewrite_fence_free(ls: Seq<Seq<char>>, prefix: Seq<char>, line: Seq<char>, tail: Seq<char>)
    requires
        forall|k: int| 0 <= k < ls.len() ==> no_newline(#[trigger] ls[k]),
        forall|k: int| 1 <= k < ls.len() ==> !starts_with(#[trigger] ls[k], fence()),
        no_newline(line),
        !starts_with(line, fence()),
        tail == Seq::<char>::empty() || tail == line + seq!['\n'],
    ensures
        fence_free(rewrite_lines(ls, prefix, line) + tail),
        ls.len() > 0 ==> (!starts_with(ls[0], fence()) ==> !starts_with(
            rewrite_lines(ls, prefix, line) + tail,
            fence(),
        )),
        ls.len() == 0 ==> !starts_with(tail, fence()),
    decreases ls.len(),
{
    let r = rewrite_lines(ls, prefix, line) + tail;
    if ls.len() == 0 {
        assert(r =~= tail);
        assert forall|p: int| 0 <= p implies !occurs_at(r, closing_fence(), p) by {
            if occurs_at(r, closing_fence(), p) {
                assert(r.subrange(p, p + 4)[0] == r[p]);
                assert(r[p] == '\n');
                assert(r[p] == line[p]);
            }
        }
        if starts_with(tail, fence()) {
            assert(tail.take(3)[0] == '-');
            if line.len() >= 3 {
                assert(line.take(3) =~= tail.take(3));
            } else {
                assert(tail.take(3)[line.len() as int] == tail[line.len() as int]);
            }
        }
    } else {
        let x0 = if starts_with(trim(ls[0]), prefix) {
            line
        } else {
            ls[0]
        };
        let ls2 = ls.drop_first();
        let r2 = rewrite_lines(ls2, prefix, line) + tail;
        assert(r =~= x0 + seq!['\n'] + r2);
        assert forall|k: int| 0 <= k < ls2.len() implies no_newline(#[trigger] ls2[k]) by {
            assert(ls2[k] == ls[k + 1]);
        }
        assert forall|k: int| 1 <= k < ls2.len() implies !starts_with(#[trigger] ls2[k], fence()) by {
            assert(ls2[k] == ls[k + 1]);
        }
        lemma_rewrite_fence_free(ls2, prefix, line, tail);
        // what follows the first newline does not start with `---`
        assert(!starts_with(r2, fence())) by {
            if ls2.len() > 0 {
                assert(ls2[0] == ls[1]);
                assert(!starts_with(ls2[0], fence()));
            }
        }
        assert forall|p: int| 0 <= p implies !occurs_at(r, closing_fence(), p) by {
            if occurs_at(r, closing_fence(), p) {
                assert(r.subrange(p, p + 4)[0] == r[p]);
                if p < x0.len() {
                    assert(r[p] == x0[p]);
                } else if p == x0.len() {
                    assert(r2.len() >= 3);
                    assert forall|j: int| 0 <= j < 3 implies r2.take(3)[j] == fence()[j] by {
                        assert(r.subrange(p, p + 4)[j + 1] == r2[j]);
                    }
                    assert(r2.take(3) =~= fence());
                } else {
                    let q = p - x0.len() - 1;
                    assert(r2.subrange(q, q + 4) =~= r.subrange(p, p + 4));
                    assert(occurs_at(r2, closing_fence(), q));
                }
            }
        }
        if !starts_with(ls[0], fence()) {
            assert(!starts_with(x0, fence()));
            if starts_with(r, fence()) {
                if x0.len() >= 3 {
                    assert(x0.take(3) =~= r.take(3));
                } else {
                    assert(r.take(3)[x0.len() as int] == r[x0.len() as int]);
                }
            }
        }
    }
}

/// In the YAML text between the fences, no line but the first starts with
/// `---`: the first `\n---` ends the front matter.
proof fn lemma_yaml_lines_unfenced(c3: Seq<char>, end: int)
    requires
        find(c3, closing_fence()) == Some(end),
    ensures
        forall|k: int|
            1 <= k < lines(c3.take(end)).len() ==> !starts_with(
                #[trigger] lines(c3.take(end))[k],
                fence(),
            ),
{
    lemma_find_from_props(c3, closing_fence(), 0);
    let yaml = c3.take(end);
    let ls = lines(yaml);
    lemma_lines_acc_shape(yaml, 0, 0);
    assert forall|k: int| 1 <= k < ls.len() implies !starts_with(#[trigger] ls[k], fence()) by {
        assert(line_starts_ok(yaml, 0, ls[k], k));
        let q = choose|q: int|
            0 <= q <= yaml.len() && (k == 0 ==> q == 0) && (k > 0 ==> q > 0 && yaml[q - 1] == '\n')
                && starts_with(#[trigger] yaml.subrange(q, yaml.len() as int), ls[k]);
        if starts_with(ls[k], fence()) {
            let tail = yaml.subrange(q, yaml.len() as int);
            assert(tail.take(3) =~= fence());
            assert(c3.subrange(q - 1, q + 3) =~= closing_fence()) by {
                assert(c3[q - 1] == yaml[q - 1]);
                assert(c3[q] == tail[0]);
                assert(c3[q + 1] == tail[1]);
                assert(c3[q + 2] == tail[2]);
            }
            assert(occurs_at(c3, closing_fence(), q - 1));
        }
    }
}

/// A text without `\n---` and not ending in a newline, followed by text
/// that starts with `\n---`: the first `\n---` is where the second begins.
proof fn lemma_find_after(t: Seq<char>, rest: Seq<char>)
    requires
        fence_free(t),
        t.len() > 0 ==> t.last() != '\n',
        starts_with(rest, closing_fence()),
    ensures
        find(t + rest, closing_fence()) == Some(t.len() as int),
{
    let x = t + rest;
    let cf = closing_fence();
    assert(x.subrange(t.len() as int, t.len() + 4int) =~= rest.take(4));
    assert(occurs_at(x, cf, t.len() as int));
    assert forall|p: int| 0 <= p < t.len() implies !occurs_at(x, cf, p) by {
        if occurs_at(x, cf, p) {
            assert(x.subrange(p, p + 4)[0] == x[p]);
            if p + 4 <= t.len() {
                assert(t.subrange(p, p + 4) =~= x.subrange(p, p + 4));
                assert(occurs_at(t, cf, p));
            } else if p == t.len() - 1 {
                assert(x[p] == t.last());
            } else {
                assert(x.subrange(p, p + 4)[t.len() - p] == x[t.len() as int]);
                assert(x[t.len() as int] == rest[0]);
                assert(rest.take(4)[0] == rest[0]);
            }
        }
    }
    lemma_find_from_props(x, cf, 0);
}

/// The YAML text of the front matter after setting a field: the lines of
/// the old one, each line holding the field replaced by the written line
/// (or that line added at the end), with trailing newlines dropped.
proof fn lemma_set_block(content: Seq<char>, field: Seq<char>, value: Seq<char>)
    requires
        with_frontmatter_field(content, field, value) is Ok,
        no_newline(field),
        no_newline(value),
        field.len() == 0 || !is_whitespace_char(field[0]),
        !starts_with(field, fence()),
    ensures
        ({
            let c3 = strip_leading(content, bom()).skip(3);
            let ls = lines(c3.take(find(c3, closing_fence()).unwrap()));
            let prefix = field_prefix(field);
            let line = field_line(field, value);
            let tail = if holds_field(ls, prefix) {
                Seq::<char>::empty()
            } else {
                line + seq!['\n']
            };
            &&& yaml_block(content) == Some((ls_text(content), 3 + find(c3, closing_fence()).unwrap()))
            &&& yaml_block(with_frontmatter_field(content, field, value).unwrap()) matches Some((y, _))
                && y == opening_break(ls_text(content)) + strip_trailing(rewrite_lines(ls, prefix, line) + tail, '\n')
        }),
{
    let c = strip_leading(content, bom());
    let c3 = c.skip(3);
    let end = find(c3, closing_fence()).unwrap();
    let yaml = c3.take(end);
    let rest = c.skip(3 + end);
    let ls = lines(yaml);
    let prefix = field_prefix(field);
    let line = field_line(field, value);
    let tail = if holds_field(ls, prefix) {
        Seq::<char>::empty()
    } else {
        line + seq!['\n']
    };
    let r = rewrite_lines(ls, prefix, line) + tail;
    let t0 = strip_trailing(r, '\n');
    let t = opening_break(yaml) + t0;
    let new = fence() + t + rest;
    assert(rewrite_lines(ls, prefix, line) + tail == if holds_field(ls, prefix) {
        rewrite_lines(ls, prefix, line)
    } else {
        rewrite_lines(ls, prefix, line) + line + seq!['\n']
    });
    assert(with_frontmatter_field(content, field, value) == Ok::<Seq<char>, crate::rfd::FieldEditError>(
        new,
    )) by {
        assert(fence() + opening_break(yaml) + t0 + rest =~= new);
    }
    // the written line
    assert(no_newline(line)) by {
        assert forall|j: int| 0 <= j < line.len() implies line[j] != '\n' by {
            if j < field.len() {
                assert(line[j] == field[j]);
            } else if j >= field.len() + 2 {
                assert(line[j] == value[j - field.len() - 2]);
            }
        }
    }
    assert(!starts_with(line, fence())) by {
        if starts_with(line, fence()) {
            if field.len() >= 3 {
                assert(field.take(3) =~= line.take(3));
            } else {
                assert(line.take(3)[field.len() as int] == line[field.len() as int]);
            }
        }
    }
    lemma_field_line_value(field, value);
    // the lines of the YAML text
    lemma_lines_acc_shape(yaml, 0, 0);
    assert forall|k: int| 0 <= k < ls.len() implies no_newline(#[trigger] ls[k]) by {}
    lemma_yaml_lines_unfenced(c3, end);
    lemma_rewrite_value(ls, prefix, line, tail);
    lemma_rewrite_fence_free(ls, prefix, line, tail);
    // the rewritten text has no `\n---` of its own
    lemma_strip_trailing_shape(r, '\n');
    assert(fence_free(t0)) by {
        assert forall|p: int| 0 <= p implies !occurs_at(t0, closing_fence(), p) by {
            if occurs_at(t0, closing_fence(), p) {
                assert(r.subrange(p, p + 4) =~= t0.subrange(p, p + 4));
                assert(occurs_at(r, closing_fence(), p));
            }
        }
    }
    if yaml.len() == 0 {
        assert(ls =~= Seq::<Seq<char>>::empty());
        assert(!holds_field(ls, prefix));
        assert(r =~= line + seq!['\n']);
        assert(r.drop_last() =~= line);
        assert(line.last() != '\n') by {
            assert(line[line.len() - 1] != '\n');
        }
        assert(strip_trailing(line, '\n') == line);
        assert(t0 == line);
        assert(t =~= seq!['\n'] + line);
        assert(fence_free(t)) by {
            assert forall|p: int| 0 <= p implies !occurs_at(t, closing_fence(), p) by {
                if occurs_at(t, closing_fence(), p) {
                    let w = t.subrange(p, p + 4);
                    assert(w[1] == '-' && w[2] == '-' && w[3] == '-');
                    if p == 0 {
                        assert(line.take(3) =~= fence()) by {
                            assert(line[0] == t[1] && line[1] == t[2] && line[2] == t[3]);
                        }
                    } else {
                        assert(w[0] == '\n');
                        assert(t[p] == line[p - 1]);
                    }
                }
            }
        }
        assert(t.last() == line.last());
    } else {
        assert(t =~= t0);
    }
    // what follows the front matter starts with the closing fence
    lemma_find_from_props(c3, closing_fence(), 0);
    assert(rest =~= c3.skip(end));
    assert(starts_with(rest, closing_fence())) by {
        assert(rest.take(4) =~= c3.subrange(end, end + 4));
    }
    lemma_find_after(t, rest);
    // the new text
    assert(new[0] == '-');
    assert(strip_leading(new, bom()) == new);
    assert(new.take(3) =~= fence());
    assert(new.skip(3) =~= t + rest);
    assert((t + rest).take(t.len() as int) =~= t);
    assert(yaml_block(new) == Some((t, 3 + t.len() as int)));
    assert(yaml == ls_text(content));
}

/// A leading newline adds an empty first line, which holds no field.
proof fn lemma_break_lines(t: Seq<char>, prefix: Seq<char>)
    requires
        prefix.len() > 0,
    ensures
        field_value_in(lines(seq!['\n'] + t), prefix) == field_value_in(lines(t), prefix),
{
    lemma_lines_split(Seq::<char>::empty(), t);
    assert(Seq::<char>::empty() + seq!['\n'] + t =~= seq!['\n'] + t);
    let l = lines(seq!['\n'] + t);
    assert(l[0] == strip_cr(Seq::<char>::empty()));
    assert(trim(l[0]) =~= Seq::<char>::empty());
    assert(l.drop_first() =~= lines(t));
}

/// The YAML text between the fences of a text whose front matter is closed.
spec fn ls_text(content: Seq<char>) -> Seq<char> {
    let c3 = strip_leading(content, bom()).skip(3);
    c3.take(find(c3, closing_fence()).unwrap())
}

/// Writing a field and reading it back gives the value written, trimmed
/// (nothing, where that is empty): `get_frontmatter_field` of what
/// `set_frontmatter_field` returns. Field and value are single-line, the
/// field starts with no whitespace and not with `---` (a line starting
/// with `---` would end the front matter).
pub proof fn law_set_then_get_field(content: Seq<char>, field: Seq<char>, value: Seq<char>)
    requires
        with_frontmatter_field(content, field, value) is Ok,
        no_newline(field),
        no_newline(value),
        field.len() == 0 || !is_whitespace_char(field[0]),
        !starts_with(field, fence()),
    ensures
        frontmatter_field(with_frontmatter_field(content, field, value).unwrap(), field) == if trim(
            value,
        ).len() > 0 {
            Some(trim(value))
        } else {
            None::<Seq<char>>
        },
{
    lemma_set_block(content, field, value);
    let c3 = strip_leading(content, bom()).skip(3);
    let ls = lines(c3.take(find(c3, closing_fence()).unwrap()));
    let prefix = field_prefix(field);
    let line = field_line(field, value);
    let tail = if holds_field(ls, prefix) {
        Seq::<char>::empty()
    } else {
        line + seq!['\n']
    };
    lemma_field_line_value(field, value);
    lemma_lines_acc_shape(c3.take(find(c3, closing_fence()).unwrap()), 0, 0);
    assert(no_newline(line)) by {
        assert forall|j: int| 0 <= j < line.len() implies line[j] != '\n' by {
            if j < field.len() {
                assert(line[j] == field[j]);
            } else if j >= field.len() + 2 {
                assert(line[j] == value[j - field.len() - 2]);
            }
        }
    }
    lemma_rewrite_value(ls, prefix, line, tail);
    lemma_break_lines(strip_trailing(rewrite_lines(ls, prefix, line) + tail, '\n'), prefix);
}

/// Two field prefixes that a text both starts with are one, for fields
/// without `:`.
proof fn lemma_one_field(s: Seq<char>, f: Seq<char>, g: Seq<char>)
    requires
        no_colon(f),
        no_colon(g),
        starts_with(s, field_prefix(f)),
        starts_with(s, field_prefix(g)),
    ensures
        f == g,
{
    let pf = field_prefix(f);
    let pg = field_prefix(g);
    assert(s[f.len() as int] == pf[f.len() as int]);
    assert(s[g.len() as int] == pg[g.len() as int]);
    if f.len() < g.len() {
        assert(s[f.len() as int] == pg[f.len() as int]);
        assert(false);
    }
    if g.len() < f.len() {
        assert(s[g.len() as int] == pf[g.len() as int]);
        assert(false);
    }
    assert forall|i: int| 0 <= i < f.len() implies f[i] == g[i] by {
        assert(s[i] == pf[i] && s[i] == pg[i]);
    }
    assert(f =~= g);
}

/// `x` holds no `:`.
pub open spec fn no_colon(x: Seq<char>) -> bool {
    forall|j: int| 0 <= j < x.len() ==> x[j] != ':'
}

/// Stripping the newlines that follow a line without newlines keeps the line.
proof fn lemma_strip_after_line(x0: Seq<char>, r2: Seq<char>)
    requires
        no_newline(x0),
        strip_trailing(r2, '\n').len() == 0,
    ensures
        strip_trailing(x0 + seq!['\n'] + r2, '\n') == x0,
    decreases r2.len(),
{
    let x = x0 + seq!['\n'] + r2;
    if r2.len() == 0 {
        assert(x.len() > 0 && x.last() == '\n');
        assert(x.drop_last() =~= x0);
        if x0.len() > 0 {
            assert(x0.last() == x0[x0.len() - 1]);
            assert(x0.last() != '\n');
        }
        assert(strip_trailing(x0, '\n') == x0);
    } else {
        assert(r2.last() == '\n');
        assert(x.last() == r2.last());
        assert(x.drop_last() =~= x0 + seq!['\n'] + r2.drop_last());
        lemma_strip_after_line(x0, r2.drop_last());
    }
}

/// What the lines of the rewritten front matter give for another field:
/// what the old lines gave.
proof fn lemma_rewrite_other(
    ls: Seq<Seq<char>>,
    prefix: Seq<char>,
    line: Seq<char>,
    tail: Seq<char>,
    q: Seq<char>,
)
    requires
        forall|k: int| 0 <= k < ls.len() ==> no_newline(#[trigger] ls[k]),
        forall|k: int| 0 <= k < ls.len() ==> starts_with(trim(#[trigger] ls[k]), prefix) ==> !starts_with(trim(ls[k]), q),
        no_newline(line),
        line.len() > 0,
        !starts_with(trim(line), q),
        q.len() > 0,
        tail == Seq::<char>::empty() || tail == line + seq!['\n'],
    ensures
        field_value_in(lines(strip_trailing(rewrite_lines(ls, prefix, line) + tail, '\n')), q)
            == field_value_in(ls, q),
    decreases ls.len(),
{
    let r = rewrite_lines(ls, prefix, line) + tail;
    assert(line.last() != '\n') by {
        assert(line[line.len() - 1] != '\n');
    }
    if ls.len() == 0 {
        assert(field_value_in(ls, q) == None::<Seq<char>>);
        if tail.len() == 0 {
            assert(r =~= Seq::<char>::empty());
            assert(strip_trailing(r, '\n') == r);
            assert(lines(r) =~= Seq::<Seq<char>>::empty());
        } else {
            assert(r =~= line + seq!['\n']);
            assert(r.last() == '\n');
            assert(r.drop_last() =~= line);
            assert(strip_trailing(line, '\n') == line);
            assert(strip_trailing(r, '\n') == line);
            lemma_lines_single(line);
            let l1 = lines(line);
            assert(l1[0] == line);
            assert(l1.drop_first() =~= Seq::<Seq<char>>::empty());
            assert(field_value_in(l1, q) == field_value_in(l1.drop_first(), q));
        }
    } else {
        let x0 = if starts_with(trim(ls[0]), prefix) {
            line
        } else {
            ls[0]
        };
        let ls2 = ls.drop_first();
        let r2 = rewrite_lines(ls2, prefix, line) + tail;
        assert(r =~= x0 + seq!['\n'] + r2);
        assert forall|k: int| 0 <= k < ls2.len() implies no_newline(#[trigger] ls2[k]) by {
            assert(ls2[k] == ls[k + 1]);
        }
        assert forall|k: int| 0 <= k < ls2.len() implies (starts_with(trim(#[trigger] ls2[k]), prefix)
            ==> !starts_with(trim(ls2[k]), q)) by {
            assert(ls2[k] == ls[k + 1]);
        }
        lemma_rewrite_other(ls2, prefix, line, tail, q);
        assert(no_newline(x0));
        let t2 = strip_trailing(r2, '\n');
        lemma_strip_trailing_shape(r2, '\n');
        let first = if t2.len() > 0 {
            strip_cr(x0)
        } else {
            x0
        };
        let rest = if t2.len() > 0 {
            lines(t2)
        } else {
            Seq::<Seq<char>>::empty()
        };
        let lt = lines(strip_trailing(r, '\n'));
        if t2.len() > 0 {
            lemma_strip_trailing_keep(x0 + seq!['\n'], r2, '\n');
            assert(x0 + seq!['\n'] + r2 =~= (x0 + seq!['\n']) + r2);
            assert((x0 + seq!['\n']) + t2 =~= x0 + seq!['\n'] + t2);
            lemma_lines_split(x0, t2);
            lemma_trim_strip_cr(x0);
            assert(lt =~= seq![first] + rest);
        } else {
            assert(lines(t2) =~= Seq::<Seq<char>>::empty()) by {
                assert(t2 =~= Seq::<char>::empty());
            }
            lemma_strip_after_line(x0, r2);
            if x0.len() > 0 {
                lemma_lines_single(x0);
                assert(lt =~= seq![first] + rest);
            } else {
                assert(lt =~= Seq::<Seq<char>>::empty());
                assert(trim(x0) =~= Seq::<char>::empty());
                assert(!starts_with(trim(ls[0]), q));
                assert(field_value_in(ls, q) == field_value_in(ls2, q));
            }
        }
        if lt.len() > 0 {
            assert(lt[0] == first);
            assert(lt.drop_first() =~= rest);
            assert(trim(first) == trim(x0));
            if starts_with(trim(x0), q) {
                assert(x0 == ls[0]);
            } else {
                assert(!starts_with(trim(ls[0]), q));
                assert(field_value_in(lt, q) == field_value_in(rest, q));
                assert(field_value_in(ls, q) == field_value_in(ls2, q));
            }
        }
    }
}

/// Setting a field leaves every other field as it reads: fields without
/// `:`, single-line field and value, the field set starting with no
/// whitespace and not with `---`.
pub proof fn law_set_keeps_other_fields(content: Seq<char>, field: Seq<char>, value: Seq<char>, other: Seq<char>)
    requires
        with_frontmatter_field(content, field, value) is Ok,
        no_newline(field),
        no_newline(value),
        field.len() == 0 || !is_whitespace_char(field[0]),
        !starts_with(field, fence()),
        no_colon(field),
        no_colon(other),
        other != field,
    ensures
        frontmatter_field(with_frontmatter_field(content, field, value).unwrap(), other)
            == frontmatter_field(content, other),
{
    lemma_set_block(content, field, value);
    let c3 = strip_leading(content, bom()).skip(3);
    let ls = lines(c3.take(find(c3, closing_fence()).unwrap()));
    let prefix = field_prefix(field);
    let q = field_prefix(other);
    let line = field_line(field, value);
    let tail = if holds_field(ls, prefix) {
        Seq::<char>::empty()
    } else {
        line + seq!['\n']
    };
    lemma_field_line_value(field, value);
    lemma_lines_acc_shape(c3.take(find(c3, closing_fence()).unwrap()), 0, 0);
    assert(no_newline(line)) by {
        assert forall|j: int| 0 <= j < line.len() implies line[j] != '\n' by {
            if j < field.len() {
                assert(line[j] == field[j]);
            } else if j >= field.len() + 2 {
                assert(line[j] == value[j - field.len() - 2]);
            }
        }
    }
    assert(!starts_with(trim(line), q)) by {
        if starts_with(trim(line), q) {
            lemma_one_field(trim(line), field, other);
        }
    }
    assert forall|k: int| 0 <= k < ls.len() implies starts_with(trim(#[trigger] ls[k]), prefix)
        ==> !starts_with(trim(ls[k]), q) by {
        if starts_with(trim(ls[k]), prefix) && starts_with(trim(ls[k]), q) {
            lemma_one_field(trim(ls[k]), field, other);
        }
    }
    lemma_rewrite_other(ls, prefix, line, tail, q);
    lemma_break_lines(strip_trailing(rewrite_lines(ls, prefix, line) + tail, '\n'), q);
}

} // verus!
