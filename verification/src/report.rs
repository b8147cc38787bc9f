//! The marked lines of files: picking them out of a file's text, describing
//! each as a `Line`, and gathering them per file into a `Report`.

use vstd::prelude::*;
use vstd::string::StringSliceAdditionalSpecFns;
use vstd::utf8::*;

use crate::scan::{find_todo, fixme_marker, handle_t, holds_fixme, marker, todo_column, todo_priority};
use crate::text::{contains_text, occurs_in, same_text};

verus! {

broadcast use vstd::utf8::encode_utf8_valid_utf8, vstd::utf8::encode_utf8_decode_utf8;

/// One marked line of a file.
#[derive(Clone, Debug)]
pub struct Line {
    /// The whole text of the line.
    pub line_text: String,
    /// The line's number in its file.
    pub line_num: usize,
    /// How strongly the marker is drawn out (see `scan::todo_priority`).
    pub priority: usize,
    /// The file the line comes from.
    pub filename: String,
    /// The byte column at which the marker starts.
    pub row_index: usize,
}

/// The characters of each text in a list.
pub open spec fn texts(v: Seq<String>) -> Seq<Seq<char>> {
    v.map_values(|s: String| s@)
}

/// A line of text is a marked line: it holds one of the two markers, the
/// letters T, O, D, O or the letters F, I, X, M, E. (Such a line is never
/// empty.)
pub open spec fn is_marked(text: Seq<char>) -> bool {
    occurs_in(encode_utf8(text), marker()) || occurs_in(encode_utf8(text), fixme_marker())
}

/// The indices of the marked lines of a text, in order.
pub open spec fn marked_indices(lines: Seq<Seq<char>>) -> Seq<int>
    decreases lines.len(),
{
    if lines.len() == 0 {
        seq![]
    } else {
        let prev = marked_indices(lines.drop_last());
        if is_marked(lines.last()) {
            prev.push(lines.len() - 1)
        } else {
            prev
        }
    }
}

/// `marked_indices` lists every marked line once, in increasing order, and
/// nothing else.
pub proof fn lemma_marked_indices(lines: Seq<Seq<char>>)
    ensures
        forall|k: int|
            0 <= k < marked_indices(lines).len() ==> 0 <= #[trigger] marked_indices(lines)[k]
                < lines.len() && is_marked(lines[marked_indices(lines)[k]]),
        forall|k1: int, k2: int|
            0 <= k1 < k2 < marked_indices(lines).len() ==> marked_indices(lines)[k1]
                < marked_indices(lines)[k2],
        forall|i: int|
            0 <= i < lines.len() && is_marked(#[trigger] lines[i]) ==> marked_indices(
                lines,
            ).contains(i),
    decreases lines.len(),
{
    if lines.len() > 0 {
        let prev_lines = lines.drop_last();
        lemma_marked_indices(prev_lines);
        let prev = marked_indices(prev_lines);
        assert forall|i: int|
            0 <= i < lines.len() && is_marked(#[trigger] lines[i]) implies marked_indices(
            lines,
        ).contains(i) by {
            if i < lines.len() - 1 {
                assert(prev_lines[i] == lines[i]);
                let k = choose|k: int| 0 <= k < prev.len() && prev[k] == i;
                assert(marked_indices(lines)[k] == i);
            } else {
                assert(marked_indices(lines)[prev.len() as int] == i);
            }
        }
    }
}

/// `l` describes line `text`, numbered `num`, of the file `filename`: where
/// the line holds the first marker, its column and priority; 0 for both where
/// it holds only the second.
pub open spec fn describes(l: Line, filename: Seq<char>, text: Seq<char>, num: int) -> bool {
    &&& l.line_text@ == text
    &&& l.line_num == num
    &&& l.filename@ == filename
    &&& occurs_in(encode_utf8(text), marker()) ==> {
        &&& l.row_index == todo_column(encode_utf8(text))
        &&& l.priority == todo_priority(encode_utf8(text))
    }
    &&& !occurs_in(encode_utf8(text), marker()) ==> l.row_index == 0 && l.priority == 0
}

/// `ls` describes, in order, the marked lines of the text `lines` of the file
/// `filename`, numbering them from `first` on.
pub open spec fn describes_all(
    ls: Seq<Line>,
    filename: Seq<char>,
    lines: Seq<Seq<char>>,
    first: int,
) -> bool {
    let idx = marked_indices(lines);
    &&& ls.len() == idx.len()
    &&& forall|k: int|
        0 <= k < ls.len() ==> describes(#[trigger] ls[k], filename, lines[idx[k]], idx[k] + first)
}

/// The marked lines of a file's text, each with its index (counting from 0):
/// the lines that are not empty and hold one of the two markers, in order.
pub fn get_comment_lines(lines: &Vec<String>) -> (r: Vec<(usize, String)>)
    ensures
        r@.len() == marked_indices(texts(lines@)).len(),
        forall|k: int|
            0 <= k < r@.len() ==> #[trigger] r@[k].0 == marked_indices(texts(lines@))[k]
                && r@[k].1@ == lines@[r@[k].0 as int]@,
{
    let ghost all = texts(lines@);
    let n = lines.len();
    let mut found: Vec<(usize, String)> = Vec::new();
    let mut i: usize = 0;
    while i < n
        invariant
            n == lines@.len(),
            all == texts(lines@),
            i <= n,
            found@.len() == marked_indices(all.take(i as int)).len(),
            forall|k: int|
                0 <= k < found@.len() ==> #[trigger] found@[k].0 == marked_indices(
                    all.take(i as int),
                )[k] && found@[k].1@ == lines@[found@[k].0 as int]@,
        decreases n - i,
    {
        let line = &lines[i];
        let ghost before = all.take(i as int);
        assert(all.take(i + 1).drop_last() =~= before);
        assert(all.take(i + 1).last() == line@);
        if !line.as_str().is_empty() && (find_todo(line.as_str()).is_ok() || holds_fixme(
            line.as_str(),
        )) {
            found.push((i, line.clone()));
        } else {
            proof {
                if line@.len() == 0 {
                    assert(encode_utf8(line@) =~= Seq::<u8>::empty());
                }
            }
        }
        i = i + 1;
    }
    assert(all.take(n as int) =~= all);
    found
}

/// Describes one marked line.
fn describe(filename: &str, text: &String, num: usize) -> (l: Line)
    ensures
        describes(l, filename@, text@, num as int),
{
    let (column, priority, _proper) = handle_t(text.as_str(), "");
    Line {
        line_text: text.clone(),
        line_num: num,
        priority,
        filename: filename.to_owned(),
        row_index: column,
    }
}

/// Describes the marked lines of a file's text, numbering them from `first`
/// on.
fn describe_marked(filename: &str, lines: &Vec<String>, first: usize) -> (r: Vec<Line>)
    requires
        first <= 1,
    ensures
        describes_all(r@, filename@, texts(lines@), first as int),
{
    let comments = get_comment_lines(lines);
    let ghost all = texts(lines@);
    let ghost idx = marked_indices(all);
    proof {
        lemma_marked_indices(all);
    }
    let m = comments.len();
    let n = lines.len();
    let mut out: Vec<Line> = Vec::new();
    let mut k: usize = 0;
    while k < m
        invariant
            m == comments@.len(),
            m == idx.len(),
            all == texts(lines@),
            n == lines@.len(),
            all.len() == n,
            idx == marked_indices(all),
            first <= 1,
            k <= m,
            out@.len() == k,
            forall|t: int|
                0 <= t < m ==> #[trigger] comments@[t].0 == idx[t] && comments@[t].1@
                    == lines@[comments@[t].0 as int]@,
            forall|t: int| 0 <= t < m ==> 0 <= #[trigger] idx[t] < all.len() && is_marked(all[idx[t]]),
            forall|t: int|
                0 <= t < k ==> describes(#[trigger] out@[t], filename@, all[idx[t]], idx[t] + first),
        decreases m - k,
    {
        let (num, text) = &comments[k];
        assert(idx[k as int] < all.len());
        assert(all[idx[k as int]] == text@);
        let l = describe(filename, text, *num + first);
        out.push(l);
        k = k + 1;
    }
    out
}

/// The marked lines of the file `filename`, numbered from 0 as they are
/// counted in its text, or an error where its text could not be read
/// (`contents` is `None`).
pub fn walk_file_for_lines(filename: &str, pattern: &str, contents: Option<&Vec<String>>) -> (r:
    Result<Vec<Line>, String>)
    ensures
        contents is None <==> r is Err,
        r matches Err(e) ==> e@ == "No lines"@,
        r matches Ok(ls) ==> describes_all(ls@, filename@, texts(contents.unwrap()@), 0),
{
    match contents {
        Some(lines) => Ok(describe_marked(filename, lines, 0)),
        None => Err("No lines".to_owned()),
    }
}

/// The marked lines of the file at `path`, with line numbers counted from 1.
pub fn file_lines(path: &str, contents: &Vec<String>) -> (r: Vec<Line>)
    ensures
        describes_all(r@, path@, texts(contents@), 1),
{
    describe_marked(path, contents, 1)
}

/// Whether a file path is one to examine: it holds `pattern` (such as an
/// extension), as `str::contains` decides it.
pub fn path_matches(path: &str, pattern: &str) -> (b: bool)
    ensures
        b == occurs_in(path.spec_bytes(), pattern.spec_bytes()),
{
    contains_text(path, pattern)
}

/// No two entries of a report share a file.
pub open spec fn distinct_keys(e: Seq<(String, Vec<Line>)>) -> bool {
    forall|i: int, j: int| 0 <= i < j < e.len() ==> #[trigger] e[i].0@ != #[trigger] e[j].0@
}

/// The position of the entry for file `k`.
pub open spec fn entry_index(e: Seq<(String, Vec<Line>)>, k: Seq<char>) -> int {
    choose|i: int| 0 <= i < e.len() && e[i].0@ == k
}

/// The entries of a report, as a map from file to its marked lines.
pub open spec fn entries_map(e: Seq<(String, Vec<Line>)>) -> Map<Seq<char>, Seq<Line>> {
    Map::new(
        |k: Seq<char>| exists|i: int| 0 <= i < e.len() && e[i].0@ == k,
        |k: Seq<char>| e[entry_index(e, k)].1@,
    )
}

/// A report has entries for finitely many files.
proof fn lemma_entries_map_finite(e: Seq<(String, Vec<Line>)>)
    ensures
        entries_map(e).dom().finite(),
{
    let keys = e.map_values(|p: (String, Vec<Line>)| p.0@);
    assert(entries_map(e).dom() =~= keys.to_set()) by {
        assert forall|k: Seq<char>| entries_map(e).dom().contains(k) implies keys.to_set().contains(k) by {
            let j = choose|j: int| 0 <= j < e.len() && e[j].0@ == k;
            assert(keys[j] == k);
        }
        assert forall|k: Seq<char>| keys.to_set().contains(k) implies entries_map(e).dom().contains(k) by {
            let j = choose|j: int| 0 <= j < keys.len() && keys[j] == k;
            assert(e[j].0@ == k);
        }
    }
    vstd::seq_lib::seq_to_set_is_finite(keys);
}

/// Where files are distinct, the entry for the file of entry `j` is entry `j`.
proof fn lemma_entry_index(e: Seq<(String, Vec<Line>)>, j: int)
    requires
        distinct_keys(e),
        0 <= j < e.len(),
    ensures
        entry_index(e, e[j].0@) == j,
{
    let i = entry_index(e, e[j].0@);
    assert(0 <= i < e.len() && e[i].0@ == e[j].0@);
    if i < j {
        assert(e[i].0@ != e[j].0@);
    } else if j < i {
        assert(e[j].0@ != e[i].0@);
    }
}

/// The marked lines of a set of files, per file.
pub struct Report {
    entries: Vec<(String, Vec<Line>)>,
}

impl Report {
    #[verifier::type_invariant]
    spec fn well_formed(self) -> bool {
        distinct_keys(self.entries@)
    }
}

impl View for Report {
    type V = Map<Seq<char>, Seq<Line>>;

    closed spec fn view(&self) -> Map<Seq<char>, Seq<Line>> {
        entries_map(self.entries@)
    }
}

impl Report {
    /// An empty report.
    pub fn new() -> (r: Self)
        ensures
            r@ == Map::<Seq<char>, Seq<Line>>::empty(),
    {
        let r = Report { entries: Vec::new() };
        assert(r@ =~= Map::<Seq<char>, Seq<Line>>::empty());
        r
    }

    /// Sets the marked lines of file `key`, in place of any it had.
    pub fn insert(&mut self, key: String, value: Vec<Line>)
        ensures
            final(self)@ == old(self)@.insert(key@, value@),
    {
        proof {
            use_type_invariant(&*self);
        }
        let mut entries: Vec<(String, Vec<Line>)> = Vec::new();
        std::mem::swap(&mut entries, &mut self.entries);
        let ghost e = entries@;
        assert(e == old(self).entries@);
        let n = entries.len();
        let mut i: usize = 0;
        while i < n
            invariant
                n == e.len(),
                e == entries@,
                old(self)@ == entries_map(e),
                self.entries@.len() == 0,
                distinct_keys(e),
                i <= n,
                forall|j: int| 0 <= j < i ==> #[trigger] e[j].0@ != key@,
            decreases n - i,
        {
            if entries[i].0 == key {
                let ghost e2 = e.update(i as int, (key, value));
                assert(distinct_keys(e2)) by {
                    assert forall|a: int, b: int| 0 <= a < b < e2.len() implies #[trigger] e2[a].0@
                        != #[trigger] e2[b].0@ by {
                        if a != i && b != i {
                            assert(e2[a] == e[a] && e2[b] == e[b]);
                        } else if a == i {
                            assert(e2[b] == e[b]);
                            assert(e[a].0@ != e[b].0@);
                        } else {
                            assert(e2[a] == e[a]);
                            assert(e[a].0@ != e[b].0@);
                        }
                    }
                }
                entries.set(i, (key, value));
                self.entries = entries;
                proof {
                    assert(self.entries@ == e2);
                    let m0 = entries_map(e);
                    let m1 = entries_map(e2);
                    assert forall|k: Seq<char>| #[trigger] m1.contains_key(k) == m0.insert(key@, value@).contains_key(k) by {
                        if k == key@ {
                            assert(e2[i as int].0@ == k);
                            assert(e[i as int].0@ == k);
                        } else if m0.contains_key(k) {
                            let j = choose|j: int| 0 <= j < e.len() && e[j].0@ == k;
                            assert(e2[j] == e[j]);
                        } else if m1.contains_key(k) {
                            let j = choose|j: int| 0 <= j < e2.len() && e2[j].0@ == k;
                            assert(e2[j] == e[j]);
                        }
                    }
                    assert forall|k: Seq<char>| m1.contains_key(k) implies #[trigger] m1[k] == m0.insert(key@, value@)[k] by {
                        if k == key@ {
                            lemma_entry_index(e2, i as int);
                        } else {
                            let j = choose|j: int| 0 <= j < e2.len() && e2[j].0@ == k;
                            assert(e2[j] == e[j]);
                            lemma_entry_index(e2, j);
                            lemma_entry_index(e, j);
                        }
                    }
                    assert(m1 =~= m0.insert(key@, value@));
                }
                return;
            }
            i = i + 1;
        }
        let ghost e2 = e.push((key, value));
        assert(distinct_keys(e2)) by {
            assert forall|a: int, b: int| 0 <= a < b < e2.len() implies #[trigger] e2[a].0@
                != #[trigger] e2[b].0@ by {
                if b < n {
                    assert(e2[a] == e[a] && e2[b] == e[b]);
                } else {
                    assert(e2[a] == e[a]);
                }
            }
        }
        entries.push((key, value));
        self.entries = entries;
        proof {
            assert(self.entries@ == e2);
            let m0 = entries_map(e);
            let m1 = entries_map(e2);
            assert forall|k: Seq<char>| #[trigger] m1.contains_key(k) == m0.insert(key@, value@).contains_key(k) by {
                if k == key@ {
                    assert(e2[n as int].0@ == k);
                } else if m0.contains_key(k) {
                    let j = choose|j: int| 0 <= j < e.len() && e[j].0@ == k;
                    assert(e2[j] == e[j]);
                } else if m1.contains_key(k) {
                    let j = choose|j: int| 0 <= j < e2.len() && e2[j].0@ == k;
                    assert(e2[j] == e[j]);
                }
            }
            assert forall|k: Seq<char>| m1.contains_key(k) implies #[trigger] m1[k] == m0.insert(key@, value@)[k] by {
                if k == key@ {
                    lemma_entry_index(e2, n as int);
                } else {
                    let j = choose|j: int| 0 <= j < e2.len() && e2[j].0@ == k;
                    assert(e2[j] == e[j]);
                    lemma_entry_index(e2, j);
                    lemma_entry_index(e, j);
                }
            }
            assert(m1 =~= m0.insert(key@, value@));
        }
    }

    /// The marked lines of file `key`, or `None` where the report has no
    /// entry for it.
    pub fn get(&self, key: &str) -> (r: Option<&Vec<Line>>)
        ensures
            match r {
                Some(v) => self@.contains_key(key@) && v@ == self@[key@],
                None => !self@.contains_key(key@),
            },
    {
        proof {
            use_type_invariant(self);
        }
        let n = self.entries.len();
        let mut i: usize = 0;
        while i < n
            invariant
                n == self.entries@.len(),
                distinct_keys(self.entries@),
                i <= n,
                forall|j: int| 0 <= j < i ==> #[trigger] self.entries@[j].0@ != key@,
            decreases n - i,
        {
            if same_text(self.entries[i].0.as_str(), key) {
                proof {
                    lemma_entry_index(self.entries@, i as int);
                }
                return Some(&self.entries[i].1);
            }
            i = i + 1;
        }
        None
    }

    /// How many files the report has an entry for.
    pub fn len(&self) -> (n: usize)
        ensures
            n == self@.dom().len(),
    {
        proof {
            use_type_invariant(self);
            let e = self.entries@;
            let keys = e.map_values(|p: (String, Vec<Line>)| p.0@);
            assert(keys.no_duplicates()) by {
                assert forall|a: int, b: int| 0 <= a < keys.len() && 0 <= b < keys.len() && a != b implies keys[a] != keys[b] by {
                    if a < b {
                        assert(e[a].0@ != e[b].0@);
                    } else {
                        assert(e[b].0@ != e[a].0@);
                    }
                }
            }
            assert(self@.dom() =~= keys.to_set()) by {
                assert forall|k: Seq<char>| self@.dom().contains(k) implies keys.to_set().contains(k) by {
                    let j = choose|j: int| 0 <= j < e.len() && e[j].0@ == k;
                    assert(keys[j] == k);
                }
                assert forall|k: Seq<char>| keys.to_set().contains(k) implies self@.dom().contains(k) by {
                    let j = choose|j: int| 0 <= j < keys.len() && keys[j] == k;
                    assert(e[j].0@ == k);
                }
            }
            keys.unique_seq_to_set();
        }
        self.entries.len()
    }

    /// The entries of the report, one per file.
    pub fn into_entries(self) -> (r: Vec<(String, Vec<Line>)>)
        ensures
            distinct_keys(r@),
            entries_map(r@) == self@,
    {
        proof {
            use_type_invariant(&self);
        }
        self.entries
    }
}

/// A file of a listing is examined: its path holds `pattern`, and its text
/// could be read.
pub open spec fn is_examined(file: (String, Option<Vec<String>>), pattern: Seq<char>) -> bool {
    &&& occurs_in(encode_utf8(file.0@), encode_utf8(pattern))
    &&& file.1 is Some
}

/// Among the first `upto` files of a listing, file `i` is the last examined
/// one with the path `k`.
pub open spec fn last_examined(
    files: Seq<(String, Option<Vec<String>>)>,
    pattern: Seq<char>,
    k: Seq<char>,
    i: int,
    upto: int,
) -> bool {
    &&& 0 <= i < upto
    &&& is_examined(files[i], pattern)
    &&& files[i].0@ == k
    &&& forall|j: int| i < j < upto ==> !(is_examined(#[trigger] files[j], pattern) && files[j].0@ == k)
}

/// The report over the first `upto` files of a listing: an entry for each
/// examined path, holding the marked lines (numbered from 1) of the last
/// examined file with that path.
pub open spec fn reports_files(
    m: Map<Seq<char>, Seq<Line>>,
    files: Seq<(String, Option<Vec<String>>)>,
    pattern: Seq<char>,
    upto: int,
) -> bool {
    &&& forall|k: Seq<char>|
        #[trigger] m.contains_key(k) <==> exists|i: int|
            0 <= i < upto && is_examined(#[trigger] files[i], pattern) && files[i].0@ == k
    &&& forall|k: Seq<char>|
        #[trigger] m.contains_key(k) ==> exists|i: int|
            last_examined(files, pattern, k, i, upto) && describes_all(
                m[k],
                k,
                texts(#[trigger] files[i].1.unwrap()@),
                1,
            )
}

/// Gathers the marked lines of a listing of files, each given by its path
/// and its text (`None` where it could not be read): one entry per path that
/// holds `pattern` and whose text was read; where a path is listed twice,
/// the later text counts.
pub fn gather_comments(files: &Vec<(String, Option<Vec<String>>)>, pattern: &str) -> (r: Report)
    ensures
        reports_files(r@, files@, pattern@, files@.len() as int),
        r@.dom().finite(),
{
    let mut report = Report::new();
    let n = files.len();
    let mut t: usize = 0;
    while t < n
        invariant
            n == files@.len(),
            t <= n,
            reports_files(report@, files@, pattern@, t as int),
        decreases n - t,
    {
        let (path, contents) = &files[t];
        let ghost f = files@[t as int];
        let ghost old_map = report@;
        if path_matches(path.as_str(), pattern) {
            match contents {
                Some(lines) => {
                    let found = file_lines(path.as_str(), lines);
                    report.insert(path.clone(), found);
                    proof {
                        assert(is_examined(f, pattern@));
                        let m = report@;
                        assert forall|k: Seq<char>| #[trigger] m.contains_key(k) <==> exists|i: int|
                            0 <= i < t + 1 && is_examined(#[trigger] files@[i], pattern@)
                                && files@[i].0@ == k by {
                            if k == path@ {
                                assert(is_examined(files@[t as int], pattern@) && files@[t as int].0@ == k);
                            } else if old_map.contains_key(k) {
                                let i = choose|i: int|
                                    0 <= i < t && is_examined(#[trigger] files@[i], pattern@)
                                        && files@[i].0@ == k;
                                assert(is_examined(files@[i], pattern@));
                            } else if exists|i: int|
                                0 <= i < t + 1 && is_examined(#[trigger] files@[i], pattern@)
                                    && files@[i].0@ == k {
                                let i = choose|i: int|
                                    0 <= i < t + 1 && is_examined(#[trigger] files@[i], pattern@)
                                        && files@[i].0@ == k;
                                assert(i != t);
                                assert(is_examined(files@[i], pattern@));
                            }
                        }
                        assert forall|k: Seq<char>| #[trigger] m.contains_key(k) implies exists|i: int|
                            last_examined(files@, pattern@, k, i, t + 1) && describes_all(
                                m[k],
                                k,
                                texts(#[trigger] files@[i].1.unwrap()@),
                                1,
                            ) by {
                            if k == path@ {
                                assert(last_examined(files@, pattern@, k, t as int, t + 1));
                                assert(describes_all(m[k], k, texts(files@[t as int].1.unwrap()@), 1));
                            } else {
                                assert(old_map.contains_key(k));
                                let i = choose|i: int|
                                    last_examined(files@, pattern@, k, i, t as int) && describes_all(
                                        old_map[k],
                                        k,
                                        texts(#[trigger] files@[i].1.unwrap()@),
                                        1,
                                    );
                                assert(last_examined(files@, pattern@, k, i, t + 1));
                                assert(describes_all(m[k], k, texts(files@[i].1.unwrap()@), 1));
                            }
                        }
                    }
                },
                None => {
                    proof {
                        assert(!is_examined(f, pattern@));
                        lemma_reports_extend(report@, files@, pattern@, t as int);
                    }
                },
            }
        } else {
            proof {
                assert(!is_examined(f, pattern@));
                lemma_reports_extend(report@, files@, pattern@, t as int);
            }
        }
        t = t + 1;
    }
    proof {
        lemma_entries_map_finite(report.entries@);
    }
    report
}

/// A file that is not examined changes nothing in the report over a listing.
proof fn lemma_reports_extend(
    m: Map<Seq<char>, Seq<Line>>,
    files: Seq<(String, Option<Vec<String>>)>,
    pattern: Seq<char>,
    t: int,
)
    requires
        0 <= t < files.len(),
        reports_files(m, files, pattern, t),
        !is_examined(files[t], pattern),
    ensures
        reports_files(m, files, pattern, t + 1),
{
    assert forall|k: Seq<char>| #[trigger] m.contains_key(k) <==> exists|i: int|
        0 <= i < t + 1 && is_examined(#[trigger] files[i], pattern) && files[i].0@ == k by {
        if exists|i: int| 0 <= i < t + 1 && is_examined(#[trigger] files[i], pattern) && files[i].0@ == k {
            let i = choose|i: int| 0 <= i < t + 1 && is_examined(#[trigger] files[i], pattern) && files[i].0@ == k;
            assert(i != t);
            assert(is_examined(files[i], pattern));
        }
        if m.contains_key(k) {
            let i = choose|i: int| 0 <= i < t && is_examined(#[trigger] files[i], pattern) && files[i].0@ == k;
            assert(is_examined(files[i], pattern));
        }
    }
    assert forall|k: Seq<char>| #[trigger] m.contains_key(k) implies exists|i: int|
        last_examined(files, pattern, k, i, t + 1) && describes_all(
            m[k],
            k,
            texts(#[trigger] files[i].1.unwrap()@),
            1,
        ) by {
        let i = choose|i: int|
            last_examined(files, pattern, k, i, t) && describes_all(
                m[k],
                k,
                texts(#[trigger] files[i].1.unwrap()@),
                1,
            );
        assert(last_examined(files, pattern, k, i, t + 1));
    }
}

/// Among the first `upto` files of a directory listing, file `i` is the last
/// examined one, whatever its name.
pub open spec fn last_examined_any(
    files: Seq<(String, Option<Vec<String>>)>,
    pattern: Seq<char>,
    i: int,
    upto: int,
) -> bool {
    &&& 0 <= i < upto
    &&& is_examined(files[i], pattern)
    &&& forall|j: int| i < j < upto ==> !is_examined(#[trigger] files[j], pattern)
}

/// The one report over the first `upto` files of a directory listing that
/// `examine_dir` builds: at most one entry, under `key`, holding the marked
/// lines (numbered from 1, named by the file's name) of the last examined
/// file; no entry where no file is examined.
pub open spec fn reports_dir(
    m: Map<Seq<char>, Seq<Line>>,
    files: Seq<(String, Option<Vec<String>>)>,
    pattern: Seq<char>,
    key: Seq<char>,
    upto: int,
) -> bool {
    &&& forall|k: Seq<char>| #[trigger] m.contains_key(k) ==> k == key
    &&& m.contains_key(key) <==> exists|i: int| 0 <= i < upto && is_examined(#[trigger] files[i], pattern)
    &&& m.contains_key(key) ==> exists|i: int|
        last_examined_any(files, pattern, i, upto) && describes_all(
            m[key],
            #[trigger] files[i].0@,
            texts(files[i].1.unwrap()@),
            1,
        )
}

/// Examines a directory, given as the listing of its files, each by its name
/// and its text (`None` where it could not be read): every examined file
/// (its name holds `pattern`, its text was read) puts its marked lines,
/// numbered from 1, under the one key `Todo`, in place of those that were
/// there, so that the last examined file's lines remain.
pub fn examine_dir(files: &Vec<(String, Option<Vec<String>>)>, pattern: &str) -> (r: Report)
    ensures
        reports_dir(r@, files@, pattern@, "Todo"@, files@.len() as int),
        r@.dom().finite(),
{
    let mut report = Report::new();
    let n = files.len();
    let mut t: usize = 0;
    while t < n
        invariant
            n == files@.len(),
            t <= n,
            reports_dir(report@, files@, pattern@, "Todo"@, t as int),
        decreases n - t,
    {
        let (name, contents) = &files[t];
        let ghost f = files@[t as int];
        let ghost old_map = report@;
        if path_matches(name.as_str(), pattern) {
            match contents {
                Some(lines) => {
                    let found = file_lines(name.as_str(), lines);
                    let key = "Todo".to_owned();
                    report.insert(key, found);
                    proof {
                        assert(is_examined(f, pattern@));
                        assert(last_examined_any(files@, pattern@, t as int, t + 1));
                        assert(describes_all(report@["Todo"@], files@[t as int].0@, texts(files@[t as int].1.unwrap()@), 1));
                    }
                },
                None => {
                    proof {
                        assert(!is_examined(f, pattern@));
                        lemma_reports_dir_extend(report@, files@, pattern@, "Todo"@, t as int);
                    }
                },
            }
        } else {
            proof {
                assert(!is_examined(f, pattern@));
                lemma_reports_dir_extend(report@, files@, pattern@, "Todo"@, t as int);
            }
        }
        t = t + 1;
    }
    proof {
        lemma_entries_map_finite(report.entries@);
    }
    report
}

/// A file that is not examined changes nothing in the report over a
/// directory listing.
proof fn lemma_reports_dir_extend(
    m: Map<Seq<char>, Seq<Line>>,
    files: Seq<(String, Option<Vec<String>>)>,
    pattern: Seq<char>,
    key: Seq<char>,
    t: int,
)
    requires
        0 <= t < files.len(),
        reports_dir(m, files, pattern, key, t),
        !is_examined(files[t], pattern),
    ensures
        reports_dir(m, files, pattern, key, t + 1),
{
    if exists|i: int| 0 <= i < t + 1 && is_examined(#[trigger] files[i], pattern) {
        let i = choose|i: int| 0 <= i < t + 1 && is_examined(#[trigger] files[i], pattern);
        assert(i != t);
        assert(0 <= i < t && is_examined(files[i], pattern));
    }
    if m.contains_key(key) {
        let i = choose|i: int|
            last_examined_any(files, pattern, i, t) && describes_all(
                m[key],
                #[trigger] files[i].0@,
                texts(files[i].1.unwrap()@),
                1,
            );
        assert(last_examined_any(files, pattern, i, t + 1));
        assert(is_examined(files[i], pattern));
    }
}

} // verus!
