//! Runs of equal characters: how many times the first character of a text
//! repeats at its start, and the split of a whole text into such runs.

use vstd::prelude::*;

verus! {

/// How many times `c` repeats at the start of `s`.
pub open spec fn run_from(s: Seq<char>, c: char) -> nat
    decreases s.len(),
{
    if s.len() > 0 && s[0] == c {
        1 + run_from(s.drop_first(), c)
    } else {
        0
    }
}

/// How many times the first character of `s` repeats at its start
/// (0 for the empty text).
pub open spec fn run_length(s: Seq<char>) -> nat {
    if s.len() == 0 {
        0
    } else {
        run_from(s, s[0])
    }
}

/// The run of `c` at the start of `s` is as long as it can be.
pub proof fn lemma_run_from(s: Seq<char>, c: char)
    ensures
        run_from(s, c) <= s.len(),
        forall|j: int| 0 <= j < run_from(s, c) ==> s[j] == c,
        run_from(s, c) < s.len() ==> s[run_from(s, c) as int] != c,
    decreases s.len(),
{
    if s.len() > 0 && s[0] == c {
        lemma_run_from(s.drop_first(), c);
        assert forall|j: int| 0 <= j < run_from(s, c) implies s[j] == c by {
            if j > 0 {
                assert(s[j] == s.drop_first()[j - 1]);
            }
        }
    }
}

/// A prefix of `k` copies of `c`, followed by the end of `s` or by another
/// character, is exactly the run of `c` at the start of `s`.
pub proof fn lemma_run_from_exact(s: Seq<char>, c: char, k: int)
    requires
        0 <= k <= s.len(),
        forall|j: int| 0 <= j < k ==> s[j] == c,
        k == s.len() || s[k] != c,
    ensures
        run_from(s, c) == k,
{
    lemma_run_from(s, c);
    let r = run_from(s, c) as int;
    if r < k {
        assert(s[r] == c);
    } else if k < r {
        assert(s[k] == c);
    }
}

/// A non-empty text starts with a run of at least one character.
pub proof fn lemma_run_length_positive(s: Seq<char>)
    requires
        s.len() > 0,
    ensures
        1 <= run_length(s) <= s.len(),
{
    lemma_run_from(s, s[0]);
}

/// The runs of equal characters that make up `s`, in order, each as the
/// character and how many times it repeats.
pub open spec fn runs(s: Seq<char>) -> Seq<(char, nat)>
    decreases s.len(),
{
    if s.len() == 0 {
        seq![]
    } else {
        let n = run_length(s);
        proof {
            lemma_run_length_positive(s);
        }
        seq![(s[0], n)] + runs(s.skip(n as int))
    }
}

/// The text that a sequence of runs stands for.
pub open spec fn expand(rs: Seq<(char, nat)>) -> Seq<char>
    decreases rs.len(),
{
    if rs.len() == 0 {
        seq![]
    } else {
        Seq::new(rs[0].1, |_j: int| rs[0].0) + expand(rs.drop_first())
    }
}

/// Splitting a text into its runs loses nothing: the runs, written out
/// again, give back the text; every run is at least one character long, and
/// two neighbouring runs never repeat the same character.
pub proof fn lemma_runs_partition(s: Seq<char>)
    ensures
        expand(runs(s)) == s,
        forall|i: int| 0 <= i < runs(s).len() ==> #[trigger] runs(s)[i].1 >= 1,
        forall|i: int|
            0 <= i < runs(s).len() - 1 ==> #[trigger] runs(s)[i].0 != runs(s)[i + 1].0,
    decreases s.len(),
{
    if s.len() > 0 {
        let n = run_length(s);
        lemma_run_length_positive(s);
        lemma_run_from(s, s[0]);
        let rest = s.skip(n as int);
        lemma_runs_partition(rest);
        let rs = runs(s);
        assert(rs.drop_first() =~= runs(rest));
        assert(Seq::new(n, |_j: int| s[0]) =~= s.take(n as int));
        assert(s =~= s.take(n as int) + rest);
        assert forall|i: int| 0 <= i < rs.len() implies #[trigger] rs[i].1 >= 1 by {
            if i > 0 {
                assert(rs[i] == runs(rest)[i - 1]);
            }
        }
        assert forall|i: int| 0 <= i < rs.len() - 1 implies #[trigger] rs[i].0 != rs[i + 1].0 by {
            if i > 0 {
                assert(rs[i] == runs(rest)[i - 1]);
                assert(rs[i + 1] == runs(rest)[i]);
            } else {
                assert(rs[1] == runs(rest)[0]);
                assert(rest[0] == s[n as int]);
            }
        }
    }
}

/// Walking a text run by run: its first run is its first character with the
/// length of its run, and the runs after it are those of the rest of the
/// text; the rest is shorter, so the walk ends.
pub proof fn lemma_runs_step(s: Seq<char>)
    requires
        s.len() > 0,
    ensures
        runs(s).len() > 0,
        runs(s)[0] == (s[0], run_length(s)),
        runs(s).drop_first() == runs(s.skip(run_length(s) as int)),
        s.skip(run_length(s) as int).len() < s.len(),
{
    lemma_run_length_positive(s);
    assert(runs(s).drop_first() =~= runs(s.skip(run_length(s) as int)));
}

/// Walks a sequence of characters run by run: each step hands out the next
/// character together with how many times it repeats in a row.
pub struct SequentialCount {
    items: Vec<char>,
    pos: usize,
}

impl SequentialCount {
    #[verifier::type_invariant]
    spec fn well_formed(self) -> bool {
        self.pos <= self.items@.len()
    }
}

impl View for SequentialCount {
    type V = Seq<char>;

    /// The characters not yet handed out.
    closed spec fn view(&self) -> Seq<char> {
        self.items@.skip(self.pos as int)
    }
}

impl SequentialCount {
    /// Starts a walk over `items`.
    pub fn new(items: Vec<char>) -> (r: Self)
        ensures
            r@ == items@,
            r@.len() <= usize::MAX,
    {
        let _len = items.len();
        let r = SequentialCount { items, pos: 0 };
        assert(r.items@.skip(0) =~= r.items@);
        r
    }

    /// The next run: its character and length, or `None` once every
    /// character has been handed out. The run is consumed, so that the calls
    /// hand out `runs` of the text in order, one each, and then `None`.
    pub fn next(&mut self) -> (r: Option<(char, usize)>)
        ensures
            old(self)@.len() <= usize::MAX,
            final(self)@.len() <= usize::MAX,
            old(self)@.len() == 0 ==> r is None && final(self)@ == old(self)@,
            old(self)@.len() > 0 ==> r == Some((old(self)@[0], run_length(old(self)@) as usize))
                && final(self)@ == old(self)@.skip(run_length(old(self)@) as int),
            old(self)@.len() > 0 ==> run_length(old(self)@) <= usize::MAX,
            r is None <==> runs(old(self)@).len() == 0,
            r matches Some(p) ==> runs(old(self)@)[0] == (p.0, p.1 as nat),
            runs(final(self)@) == if runs(old(self)@).len() == 0 {
                runs(old(self)@)
            } else {
                runs(old(self)@).drop_first()
            },
    {
        proof {
            use_type_invariant(&*self);
        }
        let len = self.items.len();
        if self.pos >= len {
            assert(self@.len() == 0);
            return None;
        }
        let ghost rest = self@;
        let start = self.pos;
        let head = self.items[start];
        let mut count: usize = 1;
        while start + count < len && self.items[start + count] == head
            invariant
                len == self.items@.len(),
                start == self.pos,
                start < len,
                1 <= count <= len - start,
                rest == self.items@.skip(start as int),
                head == rest[0],
                forall|j: int| 0 <= j < count ==> rest[j] == head,
            decreases len - start - count,
        {
            count = count + 1;
        }
        proof {
            lemma_run_from_exact(rest, head, count as int);
            lemma_runs_step(rest);
        }
        self.pos = start + count;
        assert(self.items@.skip((start + count) as int) =~= rest.skip(count as int));
        Some((head, count))
    }
}

} // verus!
