//! Reading one line: where its marker stands, how strongly it is drawn out
//! (its priority), and whether a comment sign of the file's language comes
//! right before it.

use vstd::prelude::*;
use vstd::string::StringSliceAdditionalSpecFns;
use vstd::string::StringExecFns;
use vstd::utf8::*;

use crate::runs::{lemma_run_length_positive, run_length, SequentialCount};
use crate::text::{
    ends_with, ends_with_text, find_bytes, first_occurrence, is_first_occurrence,
    lemma_first_occurrence, occurs_in, same_text, chars_of,
};

verus! {

broadcast use vstd::utf8::encode_utf8_valid_utf8, vstd::utf8::encode_utf8_decode_utf8;

/// The UTF-8 bytes of the marker: the letters T, O, D, O.
pub open spec fn marker() -> Seq<u8> {
    seq![84u8, 79u8, 68u8, 79u8]
}

/// The UTF-8 bytes of the second marker: the letters F, I, X, M, E.
pub open spec fn fixme_marker() -> Seq<u8> {
    seq![70u8, 73u8, 88u8, 77u8, 69u8]
}

/// The characters of a text that follow its first `n` bytes.
pub open spec fn chars_after(bytes: Seq<u8>, n: int) -> Seq<char> {
    decode_utf8(bytes.subrange(n, bytes.len() as int))
}

/// The characters of a text that come before its byte `n`.
pub open spec fn chars_before(bytes: Seq<u8>, n: int) -> Seq<char> {
    decode_utf8(bytes.subrange(0, n))
}

/// The comment sign of the language that a file pattern (an extension such
/// as `.rs`) names, where this library knows it.
pub open spec fn comment_symbol_of(pattern: Seq<char>) -> Option<Seq<char>> {
    if pattern == ".rs"@ || pattern == ".c"@ || pattern == ".h"@ || pattern == ".cpp"@
        || pattern == ".go"@ || pattern == ".java"@ || pattern == ".js"@ || pattern == ".ts"@ {
        Some("//"@)
    } else if pattern == ".py"@ || pattern == ".sh"@ || pattern == ".rb"@ || pattern == ".toml"@ {
        Some("#"@)
    } else {
        None
    }
}

/// The text before a marker is a proper comment: it ends with the comment
/// sign of the pattern's language followed by one space.
pub open spec fn is_proper(pattern: Seq<char>, before: Seq<char>) -> bool {
    match comment_symbol_of(pattern) {
        Some(sym) => ends_with(before, sym.push(' ')),
        None => false,
    }
}

/// The byte column of the first marker in a line.
pub open spec fn todo_column(line: Seq<u8>) -> int {
    first_occurrence(line, marker())
}

/// The priority of a line with a marker: how many times the character after
/// the marker's first three letters repeats in a row, that character
/// included (one for a plain marker, more for a drawn-out one).
pub open spec fn todo_priority(line: Seq<u8>) -> nat {
    run_length(chars_after(line, todo_column(line) + 3))
}

/// Whether the marker of a line stands in a proper comment for `pattern`.
pub open spec fn todo_is_proper(line: Seq<u8>, pattern: Seq<char>) -> bool {
    is_proper(pattern, chars_before(line, todo_column(line)))
}

/// The byte index of the first marker in `line`, or an error where the line
/// holds none.
pub fn find_todo(line: &str) -> (r: Result<usize, &str>)
    ensures
        match r {
            Ok(i) => is_first_occurrence(line.spec_bytes(), marker(), i as int),
            Err(e) => !occurs_in(line.spec_bytes(), marker()) && e@ == "No Todo Found"@,
        },
{
    let needle: [u8; 4] = [84u8, 79u8, 68u8, 79u8];
    assert(needle@ =~= marker());
    match find_bytes(line.as_bytes(), needle.as_slice()) {
        Some(idx) => Ok(idx),
        None => Err("No Todo Found"),
    }
}

/// Whether `line` holds the second marker (F, I, X, M, E).
pub fn holds_fixme(line: &str) -> (b: bool)
    ensures
        b == occurs_in(line.spec_bytes(), fixme_marker()),
{
    let needle: [u8; 5] = [70u8, 73u8, 88u8, 77u8, 69u8];
    assert(needle@ =~= fixme_marker());
    find_bytes(line.as_bytes(), needle.as_slice()).is_some()
}

/// The priority of the text that starts at a marker: skipping the first
/// three bytes, how many times the next character repeats in a row, that
/// character included; 0 where nothing follows.
pub fn get_priority(line: &str) -> (count: usize)
    requires
        is_char_boundary(line.spec_bytes(), 3),
    ensures
        count == run_length(chars_after(line.spec_bytes(), 3)),
{
    let (_one, two) = line.split_at(3);
    assert(two@ == chars_after(line.spec_bytes(), 3)) by {
        assert(two.spec_bytes() =~= line.spec_bytes().subrange(3, line.spec_bytes().len() as int));
    }
    let chars = chars_of(two);
    let n = chars.len();
    proof {
        if n > 0 {
            lemma_run_length_positive(chars@);
        }
    }
    let mut counter = SequentialCount::new(chars);
    match counter.next() {
        Some((_head, count)) => count,
        None => 0,
    }
}

/// The comment sign of the language that `pattern` names, where known.
pub fn comment_symbol(pattern: &str) -> (r: Option<&'static str>)
    ensures
        match r {
            Some(sym) => comment_symbol_of(pattern@) == Some(sym@),
            None => comment_symbol_of(pattern@) is None,
        },
{
    if same_text(pattern, ".rs") || same_text(pattern, ".c") || same_text(pattern, ".h")
        || same_text(pattern, ".cpp") || same_text(pattern, ".go") || same_text(pattern, ".java")
        || same_text(pattern, ".js") || same_text(pattern, ".ts") {
        Some("//")
    } else if same_text(pattern, ".py") || same_text(pattern, ".sh") || same_text(pattern, ".rb")
        || same_text(pattern, ".toml") {
        Some("#")
    } else {
        None
    }
}

/// The priority of the text `rem` that starts at a marker, and whether the
/// text `old` before it makes the marker a proper comment for `pattern`.
pub fn get_priority_and_proper(pattern: &str, old: &str, rem: &str) -> (r: (usize, bool))
    requires
        is_char_boundary(rem.spec_bytes(), 3),
    ensures
        r.0 == run_length(chars_after(rem.spec_bytes(), 3)),
        r.1 == is_proper(pattern@, old@),
{
    let priority = get_priority(rem);
    let proper = match comment_symbol(pattern) {
        Some(sym) => {
            let mut sign = sym.to_owned();
            sign.append(" ");
            proof {
                reveal_strlit(" ");
                assert(sign@ =~= sym@.push(' '));
            }
            ends_with_text(old, sign.as_str())
        },
        None => false,
    };
    (priority, proper)
}

/// Reads one line: the byte column of its first marker, its priority, and
/// whether the marker stands in a proper comment for `pattern`; `(0, 0,
/// false)` for a line without a marker.
pub fn handle_t(line: &str, pattern: &str) -> (r: (usize, usize, bool))
    ensures
        occurs_in(line.spec_bytes(), marker()) ==> {
            &&& r.0 == todo_column(line.spec_bytes())
            &&& r.1 == todo_priority(line.spec_bytes())
            &&& r.2 == todo_is_proper(line.spec_bytes(), pattern@)
        },
        !occurs_in(line.spec_bytes(), marker()) ==> r == (0usize, 0usize, false),
{
    match find_todo(line) {
        Ok(idx) => {
            let ghost bytes = line.spec_bytes();
            proof {
                lemma_first_occurrence(bytes, marker(), idx as int);
                assert(bytes[idx as int] == bytes.subrange(idx as int, idx + 4)[0]);
                assert(bytes[idx + 3] == bytes.subrange(idx as int, idx + 4)[3]);
                is_char_boundary_iff_not_is_continuation_byte(bytes, idx as int);
            }
            let (old, rem) = line.split_at(idx);
            proof {
                let rb = rem.spec_bytes();
                assert(rb =~= bytes.subrange(idx as int, bytes.len() as int));
                assert(old.spec_bytes() =~= bytes.subrange(0, idx as int));
                assert(rb[3] == bytes[idx + 3]);
                is_char_boundary_iff_not_is_continuation_byte(rb, 3);
                assert(rb.subrange(3, rb.len() as int) =~= bytes.subrange(idx + 3, bytes.len() as int));
            }
            let (priority, proper) = get_priority_and_proper(pattern, old, rem);
            (idx, priority, proper)
        },
        Err(_) => (0, 0, false),
    }
}

} // verus!
