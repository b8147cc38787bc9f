//! Properties of the library as a whole, stated over the models that the
//! functions' contracts use.

use vstd::prelude::*;
use vstd::utf8::*;

use crate::report::{
    describes, describes_all, is_examined, is_marked, last_examined, lemma_marked_indices,
    marked_indices, reports_dir, reports_files, texts, Line,
};
use crate::runs::{lemma_run_from, lemma_run_length_positive, run_length};
use crate::scan::{chars_after, comment_symbol_of, is_proper, marker, todo_column, todo_priority};
use crate::text::{
    is_first_occurrence, lemma_first_exists, lemma_first_occurrence, occurs_at, occurs_in,
};

verus! {

broadcast use vstd::utf8::encode_utf8_valid_utf8, vstd::utf8::encode_utf8_decode_utf8;

/// Every line that holds the marker has a priority of at least one: the
/// character after the marker's first three letters is its last `O`, which
/// counts itself.
pub proof fn lemma_marked_priority_positive(line: Seq<char>)
    requires
        occurs_in(encode_utf8(line), marker()),
    ensures
        todo_priority(encode_utf8(line)) >= 1,
        chars_after(encode_utf8(line), todo_column(encode_utf8(line)) + 3)[0] == 'O',
{
    let b = encode_utf8(line);
    let i0 = choose|i: int| occurs_at(b, marker(), i);
    lemma_first_exists(b, marker(), i0);
    let c = todo_column(b);
    assert(is_first_occurrence(b, marker(), c));
    assert(b[c + 3] == b.subrange(c, c + 4)[3]);
    let rest = b.subrange(c + 3, b.len() as int);
    assert(rest[0] == 79u8);
    is_char_boundary_iff_not_is_continuation_byte(b, c + 3);
    valid_utf8_split(b, c + 3);
    lemma_decode_ascii_first(rest);
    lemma_run_length_positive(chars_after(b, c + 3));
}

/// The lines that describe a text's marked lines name each of them by its
/// number, which climbs strictly: line `k` is the marked line
/// `line_num - first` of the text, word for word.
pub proof fn lemma_described_lines_are_marked(
    ls: Seq<Line>,
    filename: Seq<char>,
    lines: Seq<Seq<char>>,
    first: int,
)
    requires
        describes_all(ls, filename, lines, first),
    ensures
        forall|k: int|
            0 <= k < ls.len() ==> {
                let i = #[trigger] ls[k].line_num - first;
                &&& 0 <= i < lines.len()
                &&& is_marked(lines[i])
                &&& ls[k].line_text@ == lines[i]
                &&& ls[k].filename@ == filename
            },
        forall|k1: int, k2: int|
            0 <= k1 < k2 < ls.len() ==> #[trigger] ls[k1].line_num < #[trigger] ls[k2].line_num,
        forall|i: int|
            0 <= i < lines.len() && is_marked(#[trigger] lines[i]) ==> exists|k: int|
                0 <= k < ls.len() && ls[k].line_num == i + first,
{
    lemma_marked_indices(lines);
    let idx = marked_indices(lines);
    assert forall|k1: int, k2: int| 0 <= k1 < k2 < ls.len() implies #[trigger] ls[k1].line_num
        < #[trigger] ls[k2].line_num by {
        assert(idx[k1] < idx[k2]);
    }
    assert forall|i: int| 0 <= i < lines.len() && is_marked(#[trigger] lines[i]) implies exists|k: int|
        0 <= k < ls.len() && ls[k].line_num == i + first by {
        assert(idx.contains(i));
        let k = choose|k: int| 0 <= k < idx.len() && idx[k] == i;
        assert(ls[k].line_num == idx[k] + first);
    }
}

/// The same text gives the same marked lines whether they are numbered from
/// 0 (`walk_file_for_lines`) or from 1 (`file_lines`): only the numbers
/// differ, by one.
pub proof fn lemma_numbering_shift(
    from_zero: Seq<Line>,
    from_one: Seq<Line>,
    name0: Seq<char>,
    name1: Seq<char>,
    lines: Seq<Seq<char>>,
)
    requires
        describes_all(from_zero, name0, lines, 0),
        describes_all(from_one, name1, lines, 1),
    ensures
        from_zero.len() == from_one.len(),
        forall|k: int|
            0 <= k < from_zero.len() ==> {
                &&& #[trigger] from_one[k].line_num == from_zero[k].line_num + 1
                &&& from_one[k].line_text@ == from_zero[k].line_text@
                &&& from_one[k].priority == from_zero[k].priority
                &&& from_one[k].row_index == from_zero[k].row_index
            },
{
}

/// Two lists of lines say the same: line by line, the same text, number,
/// file, priority and column.
pub open spec fn same_lines(a: Seq<Line>, b: Seq<Line>) -> bool {
    &&& a.len() == b.len()
    &&& forall|k: int|
        0 <= k < a.len() ==> {
            &&& #[trigger] a[k].line_text@ == b[k].line_text@
            &&& a[k].line_num == b[k].line_num
            &&& a[k].filename@ == b[k].filename@
            &&& a[k].priority == b[k].priority
            &&& a[k].row_index == b[k].row_index
        }
}

/// Two reports over a listing of files say the same: the same files, and
/// for each the same lines.
pub open spec fn same_report(m1: Map<Seq<char>, Seq<Line>>, m2: Map<Seq<char>, Seq<Line>>) -> bool {
    &&& m1.dom() == m2.dom()
    &&& forall|k: Seq<char>| #[trigger] m1.contains_key(k) ==> same_lines(m1[k], m2[k])
}

/// The marked lines of a text are described in one way only.
proof fn lemma_describes_all_unique(
    a: Seq<Line>,
    b: Seq<Line>,
    filename: Seq<char>,
    lines: Seq<Seq<char>>,
    first: int,
)
    requires
        describes_all(a, filename, lines, first),
        describes_all(b, filename, lines, first),
    ensures
        same_lines(a, b),
{
    assert forall|k: int| 0 <= k < a.len() implies {
        &&& #[trigger] a[k].line_text@ == b[k].line_text@
        &&& a[k].line_num == b[k].line_num
        &&& a[k].filename@ == b[k].filename@
        &&& a[k].priority == b[k].priority
        &&& a[k].row_index == b[k].row_index
    } by {
        assert(describes(a[k], filename, lines[marked_indices(lines)[k]], marked_indices(lines)[k] + first));
        assert(describes(b[k], filename, lines[marked_indices(lines)[k]], marked_indices(lines)[k] + first));
    }
}

/// A path has one last examined listing.
proof fn lemma_last_examined_unique(
    files: Seq<(String, Option<Vec<String>>)>,
    pattern: Seq<char>,
    k: Seq<char>,
    i: int,
    j: int,
    upto: int,
)
    requires
        last_examined(files, pattern, k, i, upto),
        last_examined(files, pattern, k, j, upto),
    ensures
        i == j,
{
    if i < j {
        assert(!(is_examined(files[j], pattern) && files[j].0@ == k));
    } else if j < i {
        assert(!(is_examined(files[i], pattern) && files[i].0@ == k));
    }
}

/// Gathering is a function of the listing: two reports over the same
/// listing of files (whatever order the files were read in) say the same.
pub proof fn lemma_gather_deterministic(
    m1: Map<Seq<char>, Seq<Line>>,
    m2: Map<Seq<char>, Seq<Line>>,
    files: Seq<(String, Option<Vec<String>>)>,
    pattern: Seq<char>,
)
    requires
        reports_files(m1, files, pattern, files.len() as int),
        reports_files(m2, files, pattern, files.len() as int),
    ensures
        same_report(m1, m2),
{
    assert(m1.dom() =~= m2.dom()) by {
        assert forall|k: Seq<char>| m1.dom().contains(k) <==> m2.dom().contains(k) by {
            assert(m1.contains_key(k) == m2.contains_key(k));
        }
    }
    assert forall|k: Seq<char>| #[trigger] m1.contains_key(k) implies same_lines(m1[k], m2[k]) by {
        assert(m2.contains_key(k));
        let i = choose|i: int|
            last_examined(files, pattern, k, i, files.len() as int) && describes_all(
                m1[k],
                k,
                texts(#[trigger] files[i].1.unwrap()@),
                1,
            );
        let j = choose|j: int|
            last_examined(files, pattern, k, j, files.len() as int) && describes_all(
                m2[k],
                k,
                texts(#[trigger] files[j].1.unwrap()@),
                1,
            );
        lemma_last_examined_unique(files, pattern, k, i, j, files.len() as int);
        lemma_describes_all_unique(m1[k], m2[k], k, texts(files[i].1.unwrap()@), 1);
    }
}

/// Listing a file again, with the text it had when first listed, changes
/// nothing: the report over the listing with file `i` added once more at
/// its end says the same as the report over the listing itself, provided
/// that every examined listing of that path carries the same text.
pub proof fn lemma_relisting(
    once: Map<Seq<char>, Seq<Line>>,
    twice: Map<Seq<char>, Seq<Line>>,
    files: Seq<(String, Option<Vec<String>>)>,
    pattern: Seq<char>,
    i: int,
)
    requires
        0 <= i < files.len(),
        is_examined(files[i], pattern),
        forall|j: int|
            0 <= j < files.len() && is_examined(#[trigger] files[j], pattern) && files[j].0@
                == files[i].0@ ==> texts(files[j].1.unwrap()@) == texts(files[i].1.unwrap()@),
        reports_files(once, files, pattern, files.len() as int),
        reports_files(twice, files.push(files[i]), pattern, (files.len() + 1) as int),
    ensures
        same_report(twice, once),
{
    let n = files.len() as int;
    let g = files.push(files[i]);
    assert(g[n] == files[i]);
    assert forall|k: Seq<char>| twice.contains_key(k) == once.contains_key(k) by {
        if twice.contains_key(k) {
            let j = choose|j: int| 0 <= j < n + 1 && is_examined(#[trigger] g[j], pattern) && g[j].0@ == k;
            if j < n {
                assert(g[j] == files[j]);
                assert(is_examined(files[j], pattern));
            } else {
                assert(is_examined(files[i], pattern));
            }
        }
        if once.contains_key(k) {
            let j = choose|j: int| 0 <= j < n && is_examined(#[trigger] files[j], pattern) && files[j].0@ == k;
            assert(g[j] == files[j]);
            assert(is_examined(g[j], pattern));
        }
    }
    assert(twice.dom() =~= once.dom());
    assert forall|k: Seq<char>| #[trigger] twice.contains_key(k) implies same_lines(twice[k], once[k]) by {
        let a = choose|a: int|
            last_examined(g, pattern, k, a, n + 1) && describes_all(
                twice[k],
                k,
                texts(#[trigger] g[a].1.unwrap()@),
                1,
            );
        let b = choose|b: int|
            last_examined(files, pattern, k, b, n) && describes_all(
                once[k],
                k,
                texts(#[trigger] files[b].1.unwrap()@),
                1,
            );
        assert(is_examined(files[b], pattern));
        if k == files[i].0@ {
            if a < n {
                assert(is_examined(g[n], pattern) && g[n].0@ == k);
            }
            assert(a == n);
            assert(texts(files[b].1.unwrap()@) == texts(files[i].1.unwrap()@));
            lemma_describes_all_unique(twice[k], once[k], k, texts(files[i].1.unwrap()@), 1);
        } else {
            assert(a < n);
            assert(g[a] == files[a]);
            assert forall|j: int| a < j < n implies !(is_examined(#[trigger] files[j], pattern) && files[j].0@ == k) by {
                assert(g[j] == files[j]);
                assert(!(is_examined(g[j], pattern) && g[j].0@ == k));
            }
            assert(last_examined(files, pattern, k, a, n));
            lemma_last_examined_unique(files, pattern, k, a, b, n);
            lemma_describes_all_unique(twice[k], once[k], k, texts(files[a].1.unwrap()@), 1);
        }
    }
}

/// The empty text occurs in every text (at its start).
pub proof fn lemma_empty_occurs(hay: Seq<u8>)
    ensures
        occurs_in(hay, Seq::<u8>::empty()),
{
    assert(hay.subrange(0, 0) =~= Seq::<u8>::empty());
    assert(occurs_at(hay, Seq::<u8>::empty(), 0));
}

/// A report over a listing has an entry for a path exactly when some listing
/// of that path was read and its path's bytes hold those of the pattern.
/// With the empty pattern, every file that was read has an entry.
pub proof fn lemma_gather_entries(
    m: Map<Seq<char>, Seq<Line>>,
    files: Seq<(String, Option<Vec<String>>)>,
    pattern: Seq<char>,
)
    requires
        reports_files(m, files, pattern, files.len() as int),
    ensures
        forall|k: Seq<char>|
            #[trigger] m.contains_key(k) <==> exists|i: int|
                0 <= i < files.len() && files[i].0@ == k && (#[trigger] files[i].1) is Some
                    && occurs_in(encode_utf8(files[i].0@), encode_utf8(pattern)),
        forall|i: int|
            0 <= i < files.len() && (#[trigger] files[i].1) is Some && occurs_in(
                encode_utf8(files[i].0@),
                encode_utf8(pattern),
            ) ==> m.contains_key(files[i].0@),
        pattern.len() == 0 ==> forall|i: int|
            0 <= i < files.len() && (#[trigger] files[i].1) is Some ==> m.contains_key(
                files[i].0@,
            ),
{
    assert forall|k: Seq<char>| #[trigger] m.contains_key(k) <==> exists|i: int|
        0 <= i < files.len() && files[i].0@ == k && (#[trigger] files[i].1) is Some && occurs_in(
            encode_utf8(files[i].0@),
            encode_utf8(pattern),
        ) by {
        if m.contains_key(k) {
            let i = choose|i: int|
                0 <= i < files.len() && is_examined(#[trigger] files[i], pattern) && files[i].0@ == k;
            assert(files[i].1 is Some);
        } else if exists|i: int|
            0 <= i < files.len() && files[i].0@ == k && (#[trigger] files[i].1) is Some && occurs_in(
                encode_utf8(files[i].0@),
                encode_utf8(pattern),
            ) {
            let i = choose|i: int|
                0 <= i < files.len() && files[i].0@ == k && (#[trigger] files[i].1) is Some
                    && occurs_in(encode_utf8(files[i].0@), encode_utf8(pattern));
            assert(is_examined(files[i], pattern));
        }
    }
    assert forall|i: int|
        0 <= i < files.len() && (#[trigger] files[i].1) is Some && occurs_in(
            encode_utf8(files[i].0@),
            encode_utf8(pattern),
        ) implies m.contains_key(files[i].0@) by {
        assert(is_examined(files[i], pattern));
    }
    if pattern.len() == 0 {
        assert(encode_utf8(pattern) =~= Seq::<u8>::empty());
        assert forall|i: int| 0 <= i < files.len() && (#[trigger] files[i].1) is Some implies m.contains_key(
            files[i].0@,
        ) by {
            lemma_empty_occurs(encode_utf8(files[i].0@));
            assert(is_examined(files[i], pattern));
        }
    }
}

/// The report over a directory listing has the entry `key`, and no other,
/// exactly when some file was read and its name's bytes hold those of the
/// pattern. With the empty pattern, any file that was read gives the entry.
pub proof fn lemma_examine_entries(
    m: Map<Seq<char>, Seq<Line>>,
    files: Seq<(String, Option<Vec<String>>)>,
    pattern: Seq<char>,
    key: Seq<char>,
)
    requires
        reports_dir(m, files, pattern, key, files.len() as int),
    ensures
        forall|k: Seq<char>| #[trigger] m.contains_key(k) ==> k == key,
        m.contains_key(key) <==> exists|i: int|
            0 <= i < files.len() && (#[trigger] files[i].1) is Some && occurs_in(
                encode_utf8(files[i].0@),
                encode_utf8(pattern),
            ),
        pattern.len() == 0 ==> (m.contains_key(key) <==> exists|i: int|
            0 <= i < files.len() && (#[trigger] files[i].1) is Some),
{
    if m.contains_key(key) {
        let i = choose|i: int| 0 <= i < files.len() && is_examined(#[trigger] files[i], pattern);
        assert(files[i].1 is Some);
    }
    if exists|i: int|
        0 <= i < files.len() && (#[trigger] files[i].1) is Some && occurs_in(
            encode_utf8(files[i].0@),
            encode_utf8(pattern),
        ) {
        let i = choose|i: int|
            0 <= i < files.len() && (#[trigger] files[i].1) is Some && occurs_in(
                encode_utf8(files[i].0@),
                encode_utf8(pattern),
            );
        assert(is_examined(files[i], pattern));
    }
    if pattern.len() == 0 {
        assert(encode_utf8(pattern) =~= Seq::<u8>::empty());
        if exists|i: int| 0 <= i < files.len() && (#[trigger] files[i].1) is Some {
            let i = choose|i: int| 0 <= i < files.len() && (#[trigger] files[i].1) is Some;
            lemma_empty_occurs(encode_utf8(files[i].0@));
            assert(is_examined(files[i], pattern));
        }
    }
}

/// The run at the start of a text, said directly: its length `n` counts
/// characters equal to the first, none other follows it unbroken, and a
/// non-empty text has a run of at least one.
pub proof fn lemma_run_length_exact(s: Seq<char>)
    ensures
        run_length(s) <= s.len(),
        s.len() > 0 ==> run_length(s) >= 1,
        forall|j: int| 0 <= j < run_length(s) ==> #[trigger] s[j] == s[0],
        run_length(s) < s.len() ==> s[run_length(s) as int] != s[0],
{
    if s.len() > 0 {
        lemma_run_from(s, s[0]);
        lemma_run_length_positive(s);
    }
}

/// The column and priority of a line, said directly: where the line's bytes
/// hold T, O, D, O first at byte `c`, its column is `c`, and its priority is
/// the number of `O`s that follow byte `c + 3` unbroken, counting the
/// marker's own last `O`: at least one, all `O`, and not followed by
/// another `O`. Nothing after the first other character counts.
pub proof fn lemma_column_and_priority(line: Seq<char>, c: int)
    requires
        is_first_occurrence(encode_utf8(line), seq![84u8, 79u8, 68u8, 79u8], c),
    ensures
        todo_column(encode_utf8(line)) == c,
        ({
            let b = encode_utf8(line);
            let rest = decode_utf8(b.subrange(c + 3, b.len() as int));
            let p = todo_priority(b);
            &&& 1 <= p <= rest.len()
            &&& forall|j: int| 0 <= j < p ==> rest[j] == 'O'
            &&& p < rest.len() ==> rest[p as int] != 'O'
        }),
{
    let b = encode_utf8(line);
    assert(marker() =~= seq![84u8, 79u8, 68u8, 79u8]);
    lemma_first_occurrence(b, marker(), c);
    lemma_marked_priority_positive(line);
    lemma_run_length_exact(chars_after(b, c + 3));
}

/// Each described line, said directly: its column is the first byte at which
/// T, O, D, O occurs in its own whole text, and its priority the unbroken
/// run of `O`s from byte column + 3 on; a line without those letters has
/// column and priority 0.
pub proof fn lemma_described_columns(
    ls: Seq<Line>,
    filename: Seq<char>,
    lines: Seq<Seq<char>>,
    first: int,
)
    requires
        describes_all(ls, filename, lines, first),
    ensures
        forall|k: int|
            0 <= k < ls.len() ==> {
                let b = encode_utf8(#[trigger] ls[k].line_text@);
                let c = ls[k].row_index as int;
                let rest = decode_utf8(b.subrange(c + 3, b.len() as int));
                &&& occurs_in(b, seq![84u8, 79u8, 68u8, 79u8]) ==> {
                    &&& is_first_occurrence(b, seq![84u8, 79u8, 68u8, 79u8], c)
                    &&& 1 <= ls[k].priority <= rest.len()
                    &&& forall|j: int| 0 <= j < ls[k].priority ==> rest[j] == 'O'
                    &&& ls[k].priority < rest.len() ==> rest[ls[k].priority as int] != 'O'
                }
                &&& !occurs_in(b, seq![84u8, 79u8, 68u8, 79u8]) ==> ls[k].row_index == 0
                    && ls[k].priority == 0
            },
{
    assert(marker() =~= seq![84u8, 79u8, 68u8, 79u8]);
    let idx = marked_indices(lines);
    assert forall|k: int| 0 <= k < ls.len() implies {
        let b = encode_utf8(#[trigger] ls[k].line_text@);
        let c = ls[k].row_index as int;
        let rest = decode_utf8(b.subrange(c + 3, b.len() as int));
        &&& occurs_in(b, seq![84u8, 79u8, 68u8, 79u8]) ==> {
            &&& is_first_occurrence(b, seq![84u8, 79u8, 68u8, 79u8], c)
            &&& 1 <= ls[k].priority <= rest.len()
            &&& forall|j: int| 0 <= j < ls[k].priority ==> rest[j] == 'O'
            &&& ls[k].priority < rest.len() ==> rest[ls[k].priority as int] != 'O'
        }
        &&& !occurs_in(b, seq![84u8, 79u8, 68u8, 79u8]) ==> ls[k].row_index == 0 && ls[k].priority
            == 0
    } by {
        let t = ls[k].line_text@;
        let b = encode_utf8(t);
        assert(describes(ls[k], filename, lines[idx[k]], idx[k] + first));
        if occurs_in(b, marker()) {
            let i0 = choose|i: int| occurs_at(b, marker(), i);
            lemma_first_exists(b, marker(), i0);
            lemma_column_and_priority(t, todo_column(b));
        }
    }
}

/// A line is marked exactly when its bytes hold T, O, D, O or F, I, X, M, E,
/// whatever comes before or after; and the indices that pick out marked
/// lines are exactly those of such lines.
pub proof fn lemma_marked_exact(lines: Seq<Seq<char>>)
    ensures
        forall|t: Seq<char>|
            #[trigger] is_marked(t) <==> (occurs_in(encode_utf8(t), seq![84u8, 79u8, 68u8, 79u8])
                || occurs_in(encode_utf8(t), seq![70u8, 73u8, 88u8, 77u8, 69u8])),
        forall|i: int|
            0 <= i < lines.len() ==> (marked_indices(lines).contains(i) <==> (occurs_in(
                encode_utf8(#[trigger] lines[i]),
                seq![84u8, 79u8, 68u8, 79u8],
            ) || occurs_in(encode_utf8(lines[i]), seq![70u8, 73u8, 88u8, 77u8, 69u8]))),
{
    assert(marker() =~= seq![84u8, 79u8, 68u8, 79u8]);
    assert(crate::scan::fixme_marker() =~= seq![70u8, 73u8, 88u8, 77u8, 69u8]);
    lemma_marked_indices(lines);
    assert forall|i: int| 0 <= i < lines.len() implies (marked_indices(lines).contains(i) <==> (
    occurs_in(encode_utf8(#[trigger] lines[i]), seq![84u8, 79u8, 68u8, 79u8]) || occurs_in(
        encode_utf8(lines[i]),
        seq![70u8, 73u8, 88u8, 77u8, 69u8],
    ))) by {
        if marked_indices(lines).contains(i) {
            let k = choose|k: int|
                0 <= k < marked_indices(lines).len() && marked_indices(lines)[k] == i;
            assert(is_marked(lines[marked_indices(lines)[k]]));
        }
        if is_marked(lines[i]) {
            assert(marked_indices(lines).contains(i));
        }
    }
}

/// A marker is proper, said directly: the pattern names a comment sign, and
/// the last characters before the marker are that sign and then one space.
/// For `.rs` this means the text before the marker ends in `/`, `/`, space.
pub proof fn lemma_proper_exact(pattern: Seq<char>, before: Seq<char>)
    ensures
        is_proper(pattern, before) <==> (comment_symbol_of(pattern) is Some && {
            let sym = comment_symbol_of(pattern)->0;
            &&& before.len() >= sym.len() + 1
            &&& before.subrange(before.len() - sym.len() - 1, before.len() as int) == sym.push(' ')
        }),
        pattern == ".rs"@ ==> (is_proper(pattern, before) <==> (before.len() >= 3
            && before.subrange(before.len() - 3, before.len() as int) == seq!['/', '/', ' '])),
{
    if pattern == ".rs"@ {
        reveal_strlit("//");
        assert(comment_symbol_of(pattern) == Some("//"@));
        assert("//"@.push(' ') =~= seq!['/', '/', ' ']);
    }
}

/// Decoding UTF-8 bytes that start with the letter `O` gives characters
/// that start with `O`.
proof fn lemma_decode_ascii_first(bytes: Seq<u8>)
    requires
        valid_utf8(bytes),
        bytes.len() > 0,
        bytes[0] == 79u8,
    ensures
        decode_utf8(bytes).len() > 0,
        decode_utf8(bytes)[0] == 'O',
{
    assert((79u8 & 0x7Fu8) == 79u8) by (bit_vector);
    assert(decode_first_scalar(bytes) == 79u32);
}

} // verus!
