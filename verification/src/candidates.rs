//! Candidate set: the words the secret could still be, each carried with
//! its likelihood as an opaque weight. Keys are unique. The set only ever
//! shrinks: narrowing removes every entry whose feedback against the
//! guessed word differs from the observed score.

use vstd::prelude::*;
use crate::codec::Word;
use crate::scorer::{wf_word, score_spec, score_guess};

verus! {

/// The words that remain consistent with all feedback observed so far,
/// each mapped to a caller-supplied plausibility weight that the solver
/// carries but never interprets.
pub struct CandidateSet {
    entries: Vec<(Word, u64)>,
}

impl View for CandidateSet {
    type V = Seq<(Word, u64)>;

    closed spec fn view(&self) -> Seq<(Word, u64)> {
        self.entries@
    }
}

impl CandidateSet {
    /// Well-formedness: every word is five lowercase letters, and no word
    /// occurs twice.
    pub open spec fn wf(self) -> bool {
        &&& forall|i: int| 0 <= i < self@.len() ==> wf_word((#[trigger] self@[i]).0@)
        &&& forall|a: int, b: int|
            0 <= a < b < self@.len() ==> (#[trigger] self@[a]).0@ != (#[trigger] self@[b]).0@
    }

    /// Whether some entry's word spells w.
    pub open spec fn contains_word(self, w: Seq<char>) -> bool {
        exists|i: int| 0 <= i < self@.len() && (#[trigger] self@[i]).0@ == w
    }

    /// An empty candidate set.
    pub fn new() -> (s: CandidateSet)
        ensures
            s.wf(),
            s@.len() == 0,
    {
        CandidateSet { entries: Vec::new() }
    }

    /// How many candidates remain.
    pub fn len(&self) -> (n: usize)
        ensures
            n == self@.len(),
    {
        self.entries.len()
    }

    /// The word of the entry at position i.
    pub fn word_at(&self, i: usize) -> (w: Word)
        requires
            i < self@.len(),
        ensures
            w == self@[i as int].0,
    {
        let e = self.entries[i];
        e.0
    }

    /// The weight of the entry at position i.
    pub fn weight_at(&self, i: usize) -> (x: u64)
        requires
            i < self@.len(),
        ensures
            x == self@[i as int].1,
    {
        let e = self.entries[i];
        e.1
    }

    /// Position of the entry whose word spells the same as the given one.
    fn index_of(&self, word: &Word) -> (r: Option<usize>)
        ensures
            match r {
                Some(i) => i < self@.len() && self@[i as int].0@ == word@,
                None => forall|j: int| 0 <= j < self@.len() ==> (#[trigger] self@[j]).0@ != word@,
            },
    {
        let n = self.entries.len();
        let mut i: usize = 0;
        while i < n
            invariant
                n == self@.len(),
                i <= n,
                forall|j: int| 0 <= j < i ==> (#[trigger] self@[j]).0@ != word@,
            decreases n - i,
        {
            let e = self.entries[i];
            if words_equal(&e.0, word) {
                return Some(i);
            }
            i = i + 1;
        }
        None
    }

    /// Whether the set still holds the given word.
    pub fn contains(&self, word: &Word) -> (r: bool)
        ensures
            r == self.contains_word(word@),
    {
        match self.index_of(word) {
            Some(_) => true,
            None => false,
        }
    }

    /// Adds a word with its weight; a word already present keeps a single
    /// entry and takes the new weight.
    pub fn insert(&mut self, word: Word, weight: u64)
        requires
            old(self).wf(),
            wf_word(word@),
        ensures
            final(self).wf(),
            final(self).contains_word(word@),
            forall|w: Seq<char>|
                #[trigger] final(self).contains_word(w) <==> (old(self).contains_word(w) || w
                    == word@),
            !old(self).contains_word(word@) ==> final(self)@ == old(self)@.push((word, weight)),
            old(self).contains_word(word@) ==> final(self)@.len() == old(self)@.len(),
    {
        match self.index_of(&word) {
            Some(i) => {
                self.entries.set(i, (word, weight));
                proof {
                    assert(self@ == old(self)@.update(i as int, (word, weight)));
                    assert(self@[i as int].0@ == word@);
                    assert(old(self)@[i as int].0@ == word@);
                    assert forall|j: int| 0 <= j < self@.len() implies (#[trigger] self@[j]).0@
                        == old(self)@[j].0@ by {
                        if j != i {
                            assert(self@[j] == old(self)@[j]);
                        }
                    }
                    assert(self.contains_word(word@));
                    assert forall|j: int| 0 <= j < self@.len() implies wf_word(
                        (#[trigger] self@[j]).0@,
                    ) by {
                        assert(wf_word(old(self)@[j].0@));
                    }
                    assert forall|a: int, b: int| 0 <= a < b < self@.len() implies (
                    #[trigger] self@[a]).0@ != (#[trigger] self@[b]).0@ by {
                        assert(self@[a].0@ == old(self)@[a].0@);
                        assert(self@[b].0@ == old(self)@[b].0@);
                        assert(old(self)@[a].0@ != old(self)@[b].0@);
                    }
                    assert forall|w: Seq<char>| #[trigger] self.contains_word(w) implies (old(
                        self,
                    ).contains_word(w) || w == word@) by {
                        let j = choose|j: int| 0 <= j < self@.len() && self@[j].0@ == w;
                        assert(old(self)@[j].0@ == w);
                    }
                    assert forall|w: Seq<char>|
                        old(self).contains_word(w) || w == word@ implies #[trigger] self.contains_word(
                        w,
                    ) by {
                        if old(self).contains_word(w) {
                            let j = choose|j: int|
                                0 <= j < old(self)@.len() && old(self)@[j].0@ == w;
                            assert(self@[j].0@ == w);
                        } else {
                            assert(self@[i as int].0@ == w);
                        }
                    }
                }
            },
            None => {
                self.entries.push((word, weight));
                proof {
                    assert(self@ == old(self)@.push((word, weight)));
                    assert(self@[self@.len() - 1].0@ == word@);
                    assert(forall|j: int| 0 <= j < self@.len() - 1 ==> self@[j] == old(self)@[j]);
                    assert forall|j: int| 0 <= j < self@.len() implies wf_word(
                        (#[trigger] self@[j]).0@,
                    ) by {
                        if j < self@.len() - 1 {
                            assert(wf_word(old(self)@[j].0@));
                        }
                    }
                    assert forall|a: int, b: int| 0 <= a < b < self@.len() implies (
                    #[trigger] self@[a]).0@ != (#[trigger] self@[b]).0@ by {
                        if b < self@.len() - 1 {
                            assert(old(self)@[a].0@ != old(self)@[b].0@);
                        } else {
                            assert(old(self)@[a].0@ != word@);
                        }
                    }
                    assert forall|w: Seq<char>| #[trigger] self.contains_word(w) implies (old(
                        self,
                    ).contains_word(w) || w == word@) by {
                        let j = choose|j: int| 0 <= j < self@.len() && self@[j].0@ == w;
                        if j < self@.len() - 1 {
                            assert(old(self)@[j].0@ == w);
                        }
                    }
                    assert forall|w: Seq<char>|
                        old(self).contains_word(w) || w == word@ implies #[trigger] self.contains_word(
                        w,
                    ) by {
                        if old(self).contains_word(w) {
                            let j = choose|j: int|
                                0 <= j < old(self)@.len() && old(self)@[j].0@ == w;
                            assert(self@[j].0@ == w);
                        } else {
                            assert(self@[self@.len() - 1].0@ == w);
                        }
                    }
                }
            },
        }
    }
}

/// Compares two words letter for letter.
fn words_equal(a: &Word, b: &Word) -> (r: bool)
    ensures
        r == (a@ == b@),
{
    let r = a[0] == b[0] && a[1] == b[1] && a[2] == b[2] && a[3] == b[3] && a[4] == b[4];
    proof {
        if r {
            assert(a@ =~= b@);
        }
    }
    r
}

/// Keeps an entry iff its word's feedback against the guess g is exactly
/// the observed score sc.
pub open spec fn keeps(g: Seq<char>, sc: int) -> spec_fn((Word, u64)) -> bool {
    |e: (Word, u64)| score_spec(g, e.0@) == sc
}

/// The entries that survive the observation (g, sc).
pub open spec fn narrow_seq(s: Seq<(Word, u64)>, g: Seq<char>, sc: int) -> Seq<(Word, u64)> {
    s.filter(keeps(g, sc))
}

/// Filtering a sequence extended by one entry keeps the filtered prefix
/// and appends the entry iff it satisfies the predicate.
pub proof fn lemma_narrow_push(s: Seq<(Word, u64)>, e: (Word, u64), g: Seq<char>, sc: int)
    ensures
        score_spec(g, e.0@) == sc ==> narrow_seq(s.push(e), g, sc) =~= narrow_seq(s, g, sc).push(e),
        score_spec(g, e.0@) != sc ==> narrow_seq(s.push(e), g, sc) =~= narrow_seq(s, g, sc),
{
    reveal(Seq::filter);
    assert(s.push(e).drop_last() =~= s);
    assert(s.push(e).last() == e);
}

/// Every element of a filtered sequence occurs in the original.
proof fn lemma_filter_elements(s: Seq<(Word, u64)>, pred: spec_fn((Word, u64)) -> bool)
    ensures
        forall|a: int| 0 <= a < s.filter(pred).len() ==> s.contains(#[trigger] s.filter(pred)[a]),
    decreases s.len(),
{
    reveal(Seq::filter);
    if s.len() > 0 {
        let d = s.drop_last();
        lemma_filter_elements(d, pred);
        assert forall|a: int| 0 <= a < s.filter(pred).len() implies s.contains(
            #[trigger] s.filter(pred)[a],
        ) by {
            if pred(s.last()) && a == s.filter(pred).len() - 1 {
                assert(s.filter(pred)[a] == s.last());
                assert(s[s.len() - 1] == s.last());
            } else {
                assert(s.filter(pred)[a] == d.filter(pred)[a]);
                assert(d.contains(d.filter(pred)[a]));
                let j = choose|j: int| 0 <= j < d.len() && d[j] == d.filter(pred)[a];
                assert(s[j] == s.filter(pred)[a]);
            }
        }
    }
}

/// Filtering preserves key uniqueness.
proof fn lemma_filter_distinct_keys(s: Seq<(Word, u64)>, pred: spec_fn((Word, u64)) -> bool)
    requires
        forall|a: int, b: int| 0 <= a < b < s.len() ==> (#[trigger] s[a]).0@ != (#[trigger] s[b]).0@,
    ensures
        forall|a: int, b: int|
            0 <= a < b < s.filter(pred).len() ==> (#[trigger] s.filter(pred)[a]).0@ != (
            #[trigger] s.filter(pred)[b]).0@,
    decreases s.len(),
{
    reveal(Seq::filter);
    if s.len() > 0 {
        let d = s.drop_last();
        assert(forall|j: int| 0 <= j < d.len() ==> d[j] == s[j]);
        lemma_filter_distinct_keys(d, pred);
        lemma_filter_elements(d, pred);
        assert forall|a: int, b: int| 0 <= a < b < s.filter(pred).len() implies (
        #[trigger] s.filter(pred)[a]).0@ != (#[trigger] s.filter(pred)[b]).0@ by {
            if pred(s.last()) && b == s.filter(pred).len() - 1 {
                assert(s.filter(pred)[b] == s.last());
                assert(s.filter(pred)[a] == d.filter(pred)[a]);
                assert(d.contains(d.filter(pred)[a]));
                let j = choose|j: int| 0 <= j < d.len() && d[j] == d.filter(pred)[a];
                assert(s[j].0@ != s[s.len() - 1].0@);
            } else {
                assert(s.filter(pred)[a] == d.filter(pred)[a]);
                assert(s.filter(pred)[b] == d.filter(pred)[b]);
            }
        }
    }
}

/// Filtering with a predicate that holds nowhere empties the sequence.
pub(crate) proof fn lemma_filter_all_false(s: Seq<(Word, u64)>, pred: spec_fn((Word, u64)) -> bool)
    requires
        forall|i: int| 0 <= i < s.len() ==> !pred(#[trigger] s[i]),
    ensures
        s.filter(pred) =~= Seq::<(Word, u64)>::empty(),
    decreases s.len(),
{
    reveal(Seq::filter);
    if s.len() > 0 {
        let d = s.drop_last();
        assert(forall|j: int| 0 <= j < d.len() ==> d[j] == s[j]);
        lemma_filter_all_false(d, pred);
        assert(!pred(s.last()));
    }
}

/// Filtering with a predicate that holds everywhere changes nothing.
pub(crate) proof fn lemma_filter_all_true(s: Seq<(Word, u64)>, pred: spec_fn((Word, u64)) -> bool)
    requires
        forall|i: int| 0 <= i < s.len() ==> pred(#[trigger] s[i]),
    ensures
        s.filter(pred) =~= s,
    decreases s.len(),
{
    reveal(Seq::filter);
    if s.len() > 0 {
        let d = s.drop_last();
        assert(forall|j: int| 0 <= j < d.len() ==> d[j] == s[j]);
        lemma_filter_all_true(d, pred);
        assert(pred(s.last()));
        assert(s.filter(pred) =~= d.push(s.last()));
        assert(d.push(s.last()) =~= s);
    }
}

/// Removes every entry whose feedback against the guessed word differs
/// from the observed score; surviving entries keep word, weight and
/// relative order. This is the narrowing step applied once per observed
/// (guess, feedback) pair.
pub fn filter_candidates(word: &Word, score: u16, candidates: &mut CandidateSet)
    requires
        old(candidates).wf(),
        wf_word(word@),
    ensures
        final(candidates).wf(),
        final(candidates)@ == narrow_seq(old(candidates)@, word@, score as int),
        final(candidates)@.len() <= old(candidates)@.len(),
        forall|i: int|
            0 <= i < final(candidates)@.len() ==> score_spec(
                word@,
                (#[trigger] final(candidates)@[i]).0@,
            ) == score,
        forall|w: Seq<char>|
            #[trigger] final(candidates).contains_word(w) <==> (old(candidates).contains_word(w)
                && score_spec(word@, w) == score),
{
    let ghost s0 = candidates@;
    let ghost sc = score as int;
    let mut kept: Vec<(Word, u64)> = Vec::new();
    let n = candidates.entries.len();
    let mut i: usize = 0;
    while i < n
        invariant
            candidates@ == s0,
            candidates.wf(),
            wf_word(word@),
            n == s0.len(),
            i <= n,
            sc == score as int,
            kept@ =~= narrow_seq(s0.subrange(0, i as int), word@, sc),
        decreases n - i,
    {
        let e = candidates.entries[i];
        let s = score_guess(word, &e.0);
        proof {
            assert(s0.subrange(0, i as int + 1).drop_last() =~= s0.subrange(0, i as int));
            assert(s0.subrange(0, i as int + 1) =~= s0.subrange(0, i as int).push(e));
            lemma_narrow_push(s0.subrange(0, i as int), e, word@, sc);
        }
        if s == score {
            kept.push(e);
        }
        i = i + 1;
    }
    proof {
        assert(s0.subrange(0, n as int) =~= s0);
    }
    candidates.entries = kept;
    proof {
        let out = narrow_seq(s0, word@, sc);
        lemma_filter_distinct_keys(s0, keeps(word@, sc));
        lemma_filter_elements(s0, keeps(word@, sc));
        s0.lemma_filter_len(keeps(word@, sc));
        assert forall|i2: int| 0 <= i2 < out.len() implies wf_word((#[trigger] out[i2]).0@)
            && score_spec(word@, out[i2].0@) == sc by {
            assert(s0.contains(out[i2]));
            let j = choose|j: int| 0 <= j < s0.len() && s0[j] == out[i2];
            s0.lemma_filter_pred(keeps(word@, sc), i2);
        }
        assert forall|w: Seq<char>| #[trigger] candidates.contains_word(w) implies (exists|j: int|
            0 <= j < s0.len() && (#[trigger] s0[j]).0@ == w) && score_spec(word@, w) == sc by {
            let a = choose|a: int| 0 <= a < out.len() && out[a].0@ == w;
            assert(s0.contains(out[a]));
            let j = choose|j: int| 0 <= j < s0.len() && s0[j] == out[a];
            assert(s0[j].0@ == w);
            s0.lemma_filter_pred(keeps(word@, sc), a);
        }
        assert forall|w: Seq<char>|
            (exists|j: int| 0 <= j < s0.len() && (#[trigger] s0[j]).0@ == w) && score_spec(
                word@,
                w,
            ) == sc implies #[trigger] candidates.contains_word(w) by {
            let j = choose|j: int| 0 <= j < s0.len() && s0[j].0@ == w;
            assert(keeps(word@, sc)(s0[j]));
            s0.lemma_filter_contains(keeps(word@, sc), j);
            assert(out.contains(s0[j]));
            let a = choose|a: int| 0 <= a < out.len() && out[a] == s0[j];
            assert(out[a].0@ == w);
        }
    }
}

/// Law: narrowing is monotonic — it never grows the set, and every
/// surviving entry's feedback against the guess equals the observed
/// score.
pub proof fn lemma_narrow_monotonic(s: Seq<(Word, u64)>, g: Seq<char>, sc: int)
    ensures
        narrow_seq(s, g, sc).len() <= s.len(),
        forall|i: int|
            0 <= i < narrow_seq(s, g, sc).len() ==> score_spec(
                g,
                (#[trigger] narrow_seq(s, g, sc)[i]).0@,
            ) == sc,
{
    s.lemma_filter_len(keeps(g, sc));
    assert forall|i: int| 0 <= i < narrow_seq(s, g, sc).len() implies score_spec(
        g,
        (#[trigger] narrow_seq(s, g, sc)[i]).0@,
    ) == sc by {
        s.lemma_filter_pred(keeps(g, sc), i);
    }
}

/// Law: which words survive narrowing depends only on which words were
/// present and on their feedback against the guess — not on the order or
/// the weights with which the set stores them. A word is in the narrowed
/// entries iff it was in the original entries and its feedback equals the
/// observed score.
pub proof fn lemma_narrow_membership(s: Seq<(Word, u64)>, g: Seq<char>, sc: int, w: Seq<char>)
    ensures
        (exists|a: int|
            0 <= a < narrow_seq(s, g, sc).len() && (#[trigger] narrow_seq(s, g, sc)[a]).0@ == w)
            <==> ((exists|j: int| 0 <= j < s.len() && (#[trigger] s[j]).0@ == w) && score_spec(
            g,
            w,
        ) == sc),
{
    let out = narrow_seq(s, g, sc);
    lemma_filter_elements(s, keeps(g, sc));
    if exists|a: int| 0 <= a < out.len() && (#[trigger] out[a]).0@ == w {
        let a = choose|a: int| 0 <= a < out.len() && (#[trigger] out[a]).0@ == w;
        s.lemma_filter_pred(keeps(g, sc), a);
        assert(s.contains(out[a]));
        let j = choose|j: int| 0 <= j < s.len() && s[j] == out[a];
        assert(s[j].0@ == w);
    }
    if (exists|j: int| 0 <= j < s.len() && (#[trigger] s[j]).0@ == w) && score_spec(g, w) == sc {
        let j = choose|j: int| 0 <= j < s.len() && (#[trigger] s[j]).0@ == w;
        assert(keeps(g, sc)(s[j]));
        s.lemma_filter_contains(keeps(g, sc), j);
        assert(out.contains(s[j]));
        let a = choose|a: int| 0 <= a < out.len() && out[a] == s[j];
        assert(out[a].0@ == w);
    }
}

/// Law: narrowing twice with the same observation yields the same result
/// as narrowing once.
pub proof fn lemma_narrow_idempotent(s: Seq<(Word, u64)>, g: Seq<char>, sc: int)
    ensures
        narrow_seq(narrow_seq(s, g, sc), g, sc) == narrow_seq(s, g, sc),
{
    let t = narrow_seq(s, g, sc);
    lemma_narrow_monotonic(s, g, sc);
    assert(forall|i: int| 0 <= i < t.len() ==> keeps(g, sc)(#[trigger] t[i]));
    lemma_filter_all_true(t, keeps(g, sc));
}

} // verus!
