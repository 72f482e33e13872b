//! The contents of the trees kept on custom refs (e.g. `refs/rfd/0042`):
//! which files a commit holds, how they nest into directories, and the
//! footers of commit messages.
use vstd::prelude::*;

use crate::text::{
    chars_of, lemma_lines_acc_end, lines, lines_acc, next_line, starts_with, starts_with_at,
    str_eq, string_of_range, trim, trim_bounds,
};

verus! {

/// A file to write into the ref's tree. Path is relative to tree root
/// (e.g., "annotations/pr-47.json").
#[derive(Debug, Clone)]
pub struct TreeEntry {
    pub path: String,
    pub content: Vec<u8>,
}

/// A commit log entry.
#[derive(Debug, Clone)]
pub struct LogEntry {
    /// The commit id, in hexadecimal.
    pub oid: String,
    pub message: String,
    pub author: String,
    pub timestamp: i64,
}

// ---------------------------------------------------------------------------
// Footers
// ---------------------------------------------------------------------------

/// The value of the first line among `ls` that, trimmed, starts with `prefix`.
pub open spec fn footer_in(ls: Seq<Seq<char>>, prefix: Seq<char>) -> Option<Seq<char>>
    decreases ls.len(),
{
    if ls.len() == 0 {
        None
    } else if starts_with(trim(ls[0]), prefix) {
        Some(trim(ls[0]).subrange(prefix.len() as int, trim(ls[0]).len() as int))
    } else {
        footer_in(ls.drop_first(), prefix)
    }
}

impl LogEntry {
    /// Parse a structured footer value from the commit message.
    /// Footers are lines in the format "Key: Value" after the first blank line.
    pub fn footer(&self, key: &str) -> (r: Option<String>)
        ensures
            match footer_in(lines(self.message@), key@ + ": "@) {
                Some(v) => r matches Some(s) && s@ == v,
                None => r is None,
            },
    {
        let t = chars_of(self.message.as_str());
        let mut prefix = chars_of(key);
        let sep = chars_of(": ");
        crate::text::extend_from(&mut prefix, &sep);
        let mut start: usize = 0;
        while start < t.len()
            invariant
                start <= t.len(),
                t@ == self.message@,
                prefix@ == key@ + ": "@,
                footer_in(lines(t@), prefix@) == footer_in(
                    lines_acc(t@, start as int, start as int),
                    prefix@,
                ),
            decreases t.len() - start,
        {
            let (e, next) = next_line(&t, start);
            let (a, b) = trim_bounds(&t, start, e);
            let ghost line = t@.subrange(start as int, e as int);
            proof {
                let rest = lines_acc(t@, start as int, start as int);
                assert(rest =~= seq![line] + lines_acc(t@, next as int, next as int));
                assert(rest[0] == line);
                assert(rest.drop_first() =~= lines_acc(t@, next as int, next as int));
            }
            if starts_with_at(&t, a, b, &prefix) {
                assert(t@.subrange(a as int, b as int) == trim(line));
                let r = string_of_range(&t, a + prefix.len(), b);
                assert(r@ =~= trim(line).subrange(prefix@.len() as int, trim(line).len() as int));
                return Some(r);
            }
            start = next;
        }
        proof {
            lemma_lines_acc_end(t@);
        }
        None
    }
}

// ---------------------------------------------------------------------------
// The files of a tree
// ---------------------------------------------------------------------------

/// The files of a tree as a map from path to content, the later of two
/// entries with one path winning.
pub open spec fn file_map<T>(files: Seq<(String, T)>) -> Map<Seq<char>, T>
    decreases files.len(),
{
    if files.len() == 0 {
        Map::empty()
    } else {
        file_map(files.drop_last()).insert(files.last().0@, files.last().1)
    }
}

/// No two entries share a path.
pub open spec fn distinct_paths<T>(files: Seq<(String, T)>) -> bool {
    forall|i: int, j: int| 0 <= i < j < files.len() ==> (#[trigger] files[i]).0@ != (#[trigger] files[j]).0@
}

/// The files of a commit: those of its parent without the removed paths,
/// then the new entries written over them.
pub open spec fn merged_files<T>(
    existing: Seq<(String, T)>,
    removals: Seq<String>,
    entries: Seq<(String, T)>,
) -> Map<Seq<char>, T> {
    file_map(existing).remove_keys(removals.map_values(|r: String| r@).to_set()).union_prefer_right(
        file_map(entries),
    )
}

proof fn lemma_file_map_distinct<T>(s: Seq<(String, T)>)
    requires
        distinct_paths(s),
    ensures
        forall|k: Seq<char>|
            #[trigger] file_map(s).dom().contains(k) <==> exists|i: int|
                0 <= i < s.len() && (#[trigger] s[i]).0@ == k,
        forall|i: int| 0 <= i < s.len() ==> file_map(s)[(#[trigger] s[i]).0@] == s[i].1,
    decreases s.len(),
{
    if s.len() > 0 {
        let t = s.drop_last();
        assert(distinct_paths(t)) by {
            assert forall|i: int, j: int| 0 <= i < j < t.len() implies (#[trigger] t[i]).0@ != (
            #[trigger] t[j]).0@ by {
                assert(t[i] == s[i] && t[j] == s[j]);
            }
        }
        lemma_file_map_distinct(t);
        let last = s[s.len() - 1];
        assert(file_map(s) == file_map(t).insert(last.0@, last.1));
        assert forall|k: Seq<char>|
            #[trigger] file_map(s).dom().contains(k) <==> exists|i: int|
                0 <= i < s.len() && (#[trigger] s[i]).0@ == k by {
            if file_map(s).dom().contains(k) {
                if k == last.0@ {
                    assert(s[s.len() - 1].0@ == k);
                } else {
                    assert(file_map(t).dom().contains(k));
                    let i = choose|i: int| 0 <= i < t.len() && (#[trigger] t[i]).0@ == k;
                    assert(s[i] == t[i]);
                }
            }
            if exists|i: int| 0 <= i < s.len() && (#[trigger] s[i]).0@ == k {
                let i = choose|i: int| 0 <= i < s.len() && (#[trigger] s[i]).0@ == k;
                if i < s.len() - 1 {
                    assert(t[i] == s[i]);
                    assert(file_map(t).dom().contains(k));
                }
            }
        }
        assert forall|i: int| 0 <= i < s.len() implies file_map(s)[(#[trigger] s[i]).0@] == s[i].1 by {
            if i < s.len() - 1 {
                assert(t[i] == s[i]);
                assert(s[i].0@ != s[s.len() - 1].0@);
            }
        }
    }
}

/// Where `path` is among the files.
fn find_path<T>(files: &Vec<(String, T)>, path: &str) -> (r: Option<usize>)
    ensures
        match r {
            Some(i) => i < files@.len() && files@[i as int].0@ == path@,
            None => forall|j: int| 0 <= j < files@.len() ==> (#[trigger] files@[j]).0@ != path@,
        },
{
    let mut i: usize = 0;
    while i < files.len()
        invariant
            i <= files@.len(),
            forall|j: int| 0 <= j < i ==> (#[trigger] files@[j]).0@ != path@,
        decreases files.len() - i,
    {
        if str_eq(files[i].0.as_str(), path) {
            return Some(i);
        }
        i += 1;
    }
    None
}

/// Sets the content of `path`.
fn upsert<T>(files: &mut Vec<(String, T)>, path: String, content: T)
    requires
        distinct_paths(old(files)@),
    ensures
        distinct_paths(final(files)@),
        file_map(final(files)@) == file_map(old(files)@).insert(path@, content),
{
    let ghost before = files@;
    let ghost k = path@;
    proof {
        lemma_file_map_distinct(before);
    }
    match find_path(files, path.as_str()) {
        Some(i) => {
            files.set(i, (path, content));
            proof {
                let after = files@;
                assert(after == before.update(i as int, after[i as int]));
                assert(distinct_paths(after)) by {
                    assert forall|a: int, b: int| 0 <= a < b < after.len() implies (
                    #[trigger] after[a]).0@ != (#[trigger] after[b]).0@ by {
                        assert(after[a].0@ == before[a].0@);
                        assert(after[b].0@ == before[b].0@);
                        assert(before[a].0@ != before[b].0@);
                    }
                }
                lemma_file_map_distinct(after);
                let m = file_map(before).insert(k, content);
                assert forall|x: Seq<char>| #[trigger] file_map(after).dom().contains(x) <==> m.dom().contains(x) by {
                    if file_map(after).dom().contains(x) {
                        let j = choose|j: int| 0 <= j < after.len() && (#[trigger] after[j]).0@ == x;
                        assert(before[j].0@ == x);
                        assert(file_map(before).dom().contains(x));
                    }
                    if file_map(before).dom().contains(x) {
                        let j = choose|j: int| 0 <= j < before.len() && (#[trigger] before[j]).0@ == x;
                        assert(after[j].0@ == x);
                    }
                    if x == k {
                        assert(after[i as int].0@ == x);
                    }
                }
                assert forall|x: Seq<char>| #[trigger] file_map(after).dom().contains(x) implies file_map(after)[x]
                    == m[x] by {
                    let j = choose|j: int| 0 <= j < after.len() && (#[trigger] after[j]).0@ == x;
                    if j != i {
                        assert(after[j] == before[j]);
                        assert(x != k);
                    }
                }
                assert(file_map(after) =~= m);
            }
        },
        None => {
            files.push((path, content));
            proof {
                let after = files@;
                assert(after.drop_last() =~= before);
                assert(distinct_paths(after)) by {
                    assert forall|a: int, b: int| 0 <= a < b < after.len() implies (
                    #[trigger] after[a]).0@ != (#[trigger] after[b]).0@ by {
                        assert(after[a] == before[a]);
                        if b < after.len() - 1 {
                            assert(after[b] == before[b]);
                        }
                    }
                }
            }
        },
    }
}

/// Drops the file at `path`, if there is one.
fn remove_path<T>(files: &mut Vec<(String, T)>, path: &str)
    requires
        distinct_paths(old(files)@),
    ensures
        distinct_paths(final(files)@),
        file_map(final(files)@) == file_map(old(files)@).remove(path@),
{
    let ghost before = files@;
    proof {
        lemma_file_map_distinct(before);
    }
    match find_path(files, path) {
        Some(i) => {
            let _ = files.remove(i);
            proof {
                let after = files@;
                assert(after == before.remove(i as int));
                assert(distinct_paths(after)) by {
                    assert forall|a: int, b: int| 0 <= a < b < after.len() implies (
                    #[trigger] after[a]).0@ != (#[trigger] after[b]).0@ by {
                        let a2 = if a < i { a } else { a + 1 };
                        let b2 = if b < i { b } else { b + 1 };
                        assert(after[a] == before[a2] && after[b] == before[b2]);
                        assert(before[a2].0@ != before[b2].0@);
                    }
                }
                lemma_file_map_distinct(after);
                let m = file_map(before).remove(path@);
                assert forall|x: Seq<char>| #[trigger] file_map(after).dom().contains(x) <==> m.dom().contains(x) by {
                    if file_map(after).dom().contains(x) {
                        let j = choose|j: int| 0 <= j < after.len() && (#[trigger] after[j]).0@ == x;
                        let j2 = if j < i { j } else { j + 1 };
                        assert(after[j] == before[j2]);
                        assert(before[j2].0@ != before[i as int].0@);
                        assert(file_map(before).dom().contains(x));
                    }
                    if m.dom().contains(x) {
                        assert(file_map(before).dom().contains(x));
                        let j = choose|j: int| 0 <= j < before.len() && (#[trigger] before[j]).0@ == x;
                        assert(j != i);
                        let j2 = if j < i { j } else { j - 1 };
                        assert(after[j2] == before[j]);
                    }
                }
                assert forall|x: Seq<char>| #[trigger] file_map(after).dom().contains(x) implies file_map(after)[x]
                    == m[x] by {
                    let j = choose|j: int| 0 <= j < after.len() && (#[trigger] after[j]).0@ == x;
                    let j2 = if j < i { j } else { j + 1 };
                    assert(after[j] == before[j2]);
                    assert(before[j2].0@ != before[i as int].0@);
                }
                assert(file_map(after) =~= m);
            }
        },
        None => {
            proof {
                if file_map(before).dom().contains(path@) {
                    let j = choose|j: int| 0 <= j < before.len() && (#[trigger] before[j]).0@ == path@;
                    assert(files@[j].0@ != path@);
                }
                assert(file_map(before).remove(path@) =~= file_map(before));
            }
        },
    }
}

/// The files of a new commit on a ref: those of its parent, without the
/// removed paths, with the new entries written over them; each path once.
pub fn merge_files<T>(
    existing: Vec<(String, T)>,
    removals: &Vec<String>,
    entries: Vec<(String, T)>,
) -> (r: Vec<(String, T)>)
    ensures
        distinct_paths(r@),
        file_map(r@) == merged_files(existing@, removals@, entries@),
{
    let ghost ex = existing@;
    let ghost en = entries@;
    let mut out: Vec<(String, T)> = Vec::new();
    let mut rest = existing;
    let mut taken: usize = 0;
    assert(rest@.len() == rest.len());
    assert(ex.skip(0) =~= ex);
    assert(ex.take(0) =~= Seq::<(String, T)>::empty());
    while rest.len() > 0
        invariant
            ex.len() <= usize::MAX,
            distinct_paths(out@),
            taken + rest@.len() == ex.len(),
            rest@ == ex.skip(taken as int),
            file_map(out@) == file_map(ex.take(taken as int)),
        decreases rest.len(),
    {
        let ghost r0 = rest@;
        let (p, v) = rest.remove(0);
        assert(ex.take(taken + 1).drop_last() =~= ex.take(taken as int));
        assert(ex.take(taken + 1).last() == ex[taken as int]);
        assert(r0[0] == ex[taken as int]);
        upsert(&mut out, p, v);
        taken += 1;
        assert(rest@ =~= ex.skip(taken as int));
    }
    assert(ex.take(taken as int) =~= ex);
    let ghost keys = removals@.map_values(|r: String| r@);
    let mut j: usize = 0;
    assert(keys.take(0).to_set() =~= Set::<Seq<char>>::empty());
    assert(file_map(ex).remove_keys(Set::<Seq<char>>::empty()) =~= file_map(ex));
    while j < removals.len()
        invariant
            j <= removals@.len(),
            keys == removals@.map_values(|r: String| r@),
            distinct_paths(out@),
            file_map(out@) == file_map(ex).remove_keys(keys.take(j as int).to_set()),
        decreases removals.len() - j,
    {
        remove_path(&mut out, removals[j].as_str());
        assert(keys[j as int] == removals@[j as int]@);
        assert(keys.take(j + 1).to_set() =~= keys.take(j as int).to_set().insert(keys[j as int])) by {
            let a = keys.take(j + 1);
            let b = keys.take(j as int);
            assert forall|x: Seq<char>| a.contains(x) <==> (b.contains(x) || x == keys[j as int]) by {
                if a.contains(x) {
                    let m = choose|m: int| 0 <= m < a.len() && a[m] == x;
                    if m < j {
                        assert(b[m] == x);
                    }
                }
                if b.contains(x) {
                    let m = choose|m: int| 0 <= m < b.len() && b[m] == x;
                    assert(a[m] == x);
                }
                if x == keys[j as int] {
                    assert(a[j as int] == x);
                }
            }
        }
        assert(file_map(out@) =~= file_map(ex).remove_keys(keys.take(j + 1).to_set()));
        j += 1;
    }
    assert(keys.take(j as int) =~= keys);
    let ghost base = file_map(out@);
    let mut rest2 = entries;
    let mut done: usize = 0;
    assert(rest2@.len() == rest2.len());
    assert(en.skip(0) =~= en);
    assert(en.take(0) =~= Seq::<(String, T)>::empty());
    assert(base.union_prefer_right(file_map(en.take(0))) =~= base);
    while rest2.len() > 0
        invariant
            en.len() <= usize::MAX,
            distinct_paths(out@),
            done + rest2@.len() == en.len(),
            rest2@ == en.skip(done as int),
            file_map(out@) == base.union_prefer_right(file_map(en.take(done as int))),
        decreases rest2.len(),
    {
        let ghost r0 = rest2@;
        let (p, v) = rest2.remove(0);
        assert(en.take(done + 1).drop_last() =~= en.take(done as int));
        assert(en.take(done + 1).last() == en[done as int]);
        assert(r0[0] == en[done as int]);
        upsert(&mut out, p, v);
        assert(file_map(out@) =~= base.union_prefer_right(file_map(en.take(done + 1))));
        done += 1;
        assert(rest2@ =~= en.skip(done as int));
    }
    assert(en.take(done as int) =~= en);
    out
}


// ---------------------------------------------------------------------------
// Nesting files into directories
// ---------------------------------------------------------------------------

/// `p` holds no '/'.
pub open spec fn slash_free(p: Seq<char>) -> bool {
    forall|k: int| 0 <= k < p.len() ==> p[k] != '/'
}

/// `k` is a path inside the directory `d`.
pub open spec fn in_dir(k: Seq<char>, d: Seq<char>) -> bool {
    starts_with(k, d + seq!['/'])
}

/// The files at the top level of a tree: those whose path holds no '/'.
pub open spec fn top_files<T>(m: Map<Seq<char>, T>) -> Map<Seq<char>, T> {
    m.restrict(Set::new(|k: Seq<char>| slash_free(k)))
}

/// The files under the directory `d`, by their path below it.
pub open spec fn dir_files<T>(m: Map<Seq<char>, T>, d: Seq<char>) -> Map<Seq<char>, T> {
    Map::new(|r: Seq<char>| m.dom().contains(d + seq!['/'] + r), |r: Seq<char>| m[d + seq!['/'] + r])
}

/// A path lies in at most one top-level directory.
proof fn lemma_one_dir(k: Seq<char>, a: Seq<char>, b: Seq<char>)
    requires
        slash_free(a),
        slash_free(b),
        in_dir(k, a),
        in_dir(k, b),
    ensures
        a == b,
{
    let pa = a + seq!['/'];
    let pb = b + seq!['/'];
    assert(k[a.len() as int] == pa[a.len() as int]);
    assert(k[b.len() as int] == pb[b.len() as int]);
    if a.len() < b.len() {
        assert(k[a.len() as int] == pb[a.len() as int]);
        assert(false);
    }
    if b.len() < a.len() {
        assert(k[b.len() as int] == pa[b.len() as int]);
        assert(false);
    }
    assert forall|i: int| 0 <= i < a.len() implies a[i] == b[i] by {
        assert(k[i] == pa[i] && k[i] == pb[i]);
    }
    assert(a =~= b);
}

/// `d + '/' + r` lies in the directory `d`, and only there.
proof fn lemma_join_in_dir(d: Seq<char>, r: Seq<char>)
    ensures
        in_dir(d + seq!['/'] + r, d),
        !slash_free(d + seq!['/'] + r),
{
    let k = d + seq!['/'] + r;
    assert(k.take((d + seq!['/']).len() as int) =~= d + seq!['/']);
    assert(k[d.len() as int] == '/');
}

/// The index of the first '/' among `t`.
fn first_slash(t: &Vec<char>) -> (r: Option<usize>)
    ensures
        match r {
            Some(i) => i < t@.len() && t@[i as int] == '/' && slash_free(t@.take(i as int)),
            None => slash_free(t@),
        },
{
    let mut i: usize = 0;
    while i < t.len()
        invariant
            i <= t@.len(),
            slash_free(t@.take(i as int)),
        decreases t.len() - i,
    {
        if t[i] == '/' {
            return Some(i);
        }
        assert(slash_free(t@.take(i + 1))) by {
            assert forall|k: int| 0 <= k < i + 1 implies #[trigger] t@.take(i + 1)[k] != '/' by {
                if k < i {
                    assert(t@.take(i as int)[k] == t@[k]);
                }
            }
        }
        i += 1;
    }
    assert(t@.take(i as int) =~= t@);
    None
}

/// Where the directory `name` is among `dirs`.
fn find_dir<T>(dirs: &Vec<(String, Vec<(String, T)>)>, name: &str) -> (r: Option<usize>)
    ensures
        match r {
            Some(i) => i < dirs@.len() && dirs@[i as int].0@ == name@,
            None => forall|j: int| 0 <= j < dirs@.len() ==> (#[trigger] dirs@[j]).0@ != name@,
        },
{
    let mut i: usize = 0;
    while i < dirs.len()
        invariant
            i <= dirs@.len(),
            forall|j: int| 0 <= j < i ==> (#[trigger] dirs@[j]).0@ != name@,
        decreases dirs.len() - i,
    {
        if str_eq(dirs[i].0.as_str(), name) {
            return Some(i);
        }
        i += 1;
    }
    None
}

/// What holds of a split of the files `m` into the top-level files `blobs`
/// and the directories `dirs`.
pub open spec fn splits<T>(
    m: Map<Seq<char>, T>,
    blobs: Seq<(String, T)>,
    dirs: Seq<(String, Vec<(String, T)>)>,
) -> bool {
    &&& distinct_paths(blobs)
    &&& file_map(blobs) == top_files(m)
    &&& forall|i: int, j: int| 0 <= i < j < dirs.len() ==> (#[trigger] dirs[i]).0@ != (#[trigger] dirs[j]).0@
    &&& forall|i: int|
        0 <= i < dirs.len() ==> {
            &&& slash_free((#[trigger] dirs[i]).0@)
            &&& distinct_paths(dirs[i].1@)
            &&& file_map(dirs[i].1@) == dir_files(m, dirs[i].0@)
        }
    &&& forall|k: Seq<char>|
        m.dom().contains(k) && !slash_free(k) ==> exists|i: int|
            0 <= i < dirs.len() && #[trigger] in_dir(k, (#[trigger] dirs[i]).0@)
}

/// Splits the files of a tree into those at its top level and, for each
/// top-level directory, the files below it by their path inside it. Of two
/// entries with one path the later wins.
pub fn split_tree<T>(files: Vec<(String, T)>) -> (r: (Vec<(String, T)>, Vec<(String, Vec<(String, T)>)>))
    ensures
        splits(file_map(files@), r.0@, r.1@),
{
    let ghost fs = files@;
    let mut blobs: Vec<(String, T)> = Vec::new();
    let mut dirs: Vec<(String, Vec<(String, T)>)> = Vec::new();
    let mut rest = files;
    let mut taken: usize = 0;
    assert(rest@.len() == rest.len());
    assert(fs.skip(0) =~= fs);
    assert(fs.take(0) =~= Seq::<(String, T)>::empty());
    assert(top_files(file_map(fs.take(0))) =~= Map::<Seq<char>, T>::empty());
    while rest.len() > 0
        invariant
            fs.len() <= usize::MAX,
            taken + rest@.len() == fs.len(),
            rest@ == fs.skip(taken as int),
            splits(file_map(fs.take(taken as int)), blobs@, dirs@),
        decreases rest.len(),
    {
        let ghost r0 = rest@;
        let ghost m = file_map(fs.take(taken as int));
        let ghost d0 = dirs@;
        let (p, v) = rest.remove(0);
        assert(fs.take(taken + 1).drop_last() =~= fs.take(taken as int));
        assert(fs.take(taken + 1).last() == fs[taken as int]);
        assert(r0[0] == fs[taken as int]);
        let ghost m2 = m.insert(p@, v);
        assert(file_map(fs.take(taken + 1)) == m2);
        let cs = chars_of(p.as_str());
        match first_slash(&cs) {
            None => {
                upsert(&mut blobs, p, v);
                proof {
                    assert(top_files(m2) =~= top_files(m).insert(cs@, v));
                    assert forall|i: int| 0 <= i < dirs@.len() implies file_map(
                        (#[trigger] dirs@[i]).1@,
                    ) == dir_files(m2, dirs@[i].0@) by {
                        let d = dirs@[i].0@;
                        assert forall|r: Seq<char>| d + seq!['/'] + r != cs@ by {
                            lemma_join_in_dir(d, r);
                        }
                        assert(dir_files(m2, d) =~= dir_files(m, d));
                    }
                    assert forall|k: Seq<char>| m2.dom().contains(k) && !slash_free(k) implies exists|i: int|
                        0 <= i < dirs@.len() && #[trigger] in_dir(k, (#[trigger] dirs@[i]).0@) by {
                        assert(k != cs@);
                        assert(m.dom().contains(k));
                    }
                }
            },
            Some(i) => {
                let n = cs.len();
                assert(i < n);
                let d = string_of_range(&cs, 0, i);
                let r = string_of_range(&cs, i + 1, n);
                let ghost dv = d@;
                let ghost rv = r@;
                proof {
                    assert(cs@ =~= dv + seq!['/'] + rv);
                    assert(cs@.take(i as int) =~= dv);
                    lemma_join_in_dir(dv, rv);
                }
                match find_dir(&dirs, d.as_str()) {
                    Some(j) => {
                        let mut entry = dirs.remove(j);
                        upsert(&mut entry.1, r, v);
                        dirs.insert(j, entry);
                        proof {
                            let d1 = dirs@;
                            assert(d1 =~= d0.update(j as int, d1[j as int]));
                            assert(d1[j as int].0@ == dv);
                            assert(file_map(d1[j as int].1@) == file_map(d0[j as int].1@).insert(rv, v));
                            assert(top_files(m2) =~= top_files(m));
                            assert forall|a: int, b: int| 0 <= a < b < d1.len() implies (#[trigger] d1[a]).0@
                                != (#[trigger] d1[b]).0@ by {
                                assert(d0[a].0@ == d1[a].0@ && d0[b].0@ == d1[b].0@);
                            }
                            assert forall|a: int| 0 <= a < d1.len() implies {
                                &&& slash_free((#[trigger] d1[a]).0@)
                                &&& distinct_paths(d1[a].1@)
                                &&& file_map(d1[a].1@) == dir_files(m2, d1[a].0@)
                            } by {
                                let e = d1[a].0@;
                                assert(slash_free(d0[a].0@));
                                if a == j {
                                    assert forall|x: Seq<char>| #[trigger] (e + seq!['/'] + x) == cs@ <==> x == rv by {
                                        if e + seq!['/'] + x == cs@ {
                                            assert(x =~= cs@.skip(e.len() as int + 1));
                                            assert(rv =~= cs@.skip(e.len() as int + 1));
                                        }
                                    }
                                    assert(dir_files(m2, e) =~= dir_files(m, e).insert(rv, v));
                                } else {
                                    assert(d1[a] == d0[a]);
                                    assert forall|x: Seq<char>| #[trigger] (e + seq!['/'] + x) != cs@ by {
                                        lemma_join_in_dir(e, x);
                                        if e + seq!['/'] + x == cs@ {
                                            lemma_one_dir(cs@, e, dv);
                                        }
                                    }
                                    assert(dir_files(m2, e) =~= dir_files(m, e));
                                }
                            }
                            assert forall|k: Seq<char>| m2.dom().contains(k) && !slash_free(k) implies exists|a: int|
                                0 <= a < d1.len() && #[trigger] in_dir(k, (#[trigger] d1[a]).0@) by {
                                if k == cs@ {
                                    assert(in_dir(k, d1[j as int].0@));
                                } else {
                                    assert(m.dom().contains(k));
                                    let a = choose|a: int| 0 <= a < d0.len() && #[trigger] in_dir(k, (#[trigger] d0[a]).0@);
                                    assert(d1[a].0@ == d0[a].0@);
                                    assert(in_dir(k, d1[a].0@));
                                }
                            }
                        }
                    },
                    None => {
                        let mut sub: Vec<(String, T)> = Vec::new();
                        upsert(&mut sub, r, v);
                        dirs.push((d, sub));
                        proof {
                            let d1 = dirs@;
                            assert(top_files(m2) =~= top_files(m));
                            assert forall|a: int, b: int| 0 <= a < b < d1.len() implies (#[trigger] d1[a]).0@
                                != (#[trigger] d1[b]).0@ by {
                                assert(d0[a].0@ == d1[a].0@);
                                if b < d0.len() {
                                    assert(d0[b].0@ == d1[b].0@);
                                }
                            }
                            assert forall|a: int| 0 <= a < d1.len() implies {
                                &&& slash_free((#[trigger] d1[a]).0@)
                                &&& distinct_paths(d1[a].1@)
                                &&& file_map(d1[a].1@) == dir_files(m2, d1[a].0@)
                            } by {
                                let e = d1[a].0@;
                                if a == d0.len() {
                                    assert(e == dv);
                                    assert(file_map(Seq::<(String, T)>::empty()) =~= Map::<Seq<char>, T>::empty());
                                    assert forall|x: Seq<char>| !m.dom().contains(#[trigger] (e + seq!['/'] + x)) by {
                                        lemma_join_in_dir(e, x);
                                        if m.dom().contains(e + seq!['/'] + x) {
                                            let k = e + seq!['/'] + x;
                                            let c = choose|c: int| 0 <= c < d0.len() && #[trigger] in_dir(k, (#[trigger] d0[c]).0@);
                                            lemma_one_dir(k, e, d0[c].0@);
                                        }
                                    }
                                    assert forall|x: Seq<char>| #[trigger] (e + seq!['/'] + x) == cs@ <==> x == rv by {
                                        if e + seq!['/'] + x == cs@ {
                                            assert(x =~= cs@.skip(e.len() as int + 1));
                                            assert(rv =~= cs@.skip(e.len() as int + 1));
                                        }
                                    }
                                    assert(dir_files(m2, e) =~= Map::<Seq<char>, T>::empty().insert(rv, v));
                                } else {
                                    assert(d1[a] == d0[a]);
                                    assert forall|x: Seq<char>| #[trigger] (e + seq!['/'] + x) != cs@ by {
                                        lemma_join_in_dir(e, x);
                                        if e + seq!['/'] + x == cs@ {
                                            lemma_one_dir(cs@, e, dv);
                                        }
                                    }
                                    assert(dir_files(m2, e) =~= dir_files(m, e));
                                }
                            }
                            assert forall|k: Seq<char>| m2.dom().contains(k) && !slash_free(k) implies exists|a: int|
                                0 <= a < d1.len() && #[trigger] in_dir(k, (#[trigger] d1[a]).0@) by {
                                if k == cs@ {
                                    assert(in_dir(k, d1[d0.len() as int].0@));
                                } else {
                                    assert(m.dom().contains(k));
                                    let a = choose|a: int| 0 <= a < d0.len() && #[trigger] in_dir(k, (#[trigger] d0[a]).0@);
                                    assert(d1[a].0@ == d0[a].0@);
                                    assert(in_dir(k, d1[a].0@));
                                }
                            }
                        }
                    },
                }
            },
        }
        taken += 1;
        assert(rest@ =~= fs.skip(taken as int));
    }
    assert(fs.take(taken as int) =~= fs);
    (blobs, dirs)
}

} // verus!
