//! Feedback-outcome distribution: for a hypothetical guess, how the
//! current candidate population splits across the 243 possible feedback
//! scores. The caller turns the distribution into Shannon entropy and
//! ranks guesses by it; those steps are floating-point arithmetic and sit
//! outside this crate's core.

use vstd::prelude::*;
use vstd::pervasive::VecAdditionalExecFns;
use crate::codec::Word;
use crate::scorer::{wf_word, score_spec, score_guess, lemma_score_range};
use crate::candidates::{CandidateSet, keeps, narrow_seq, lemma_narrow_push};

verus! {

/// Number of distinct feedback scores: 3^5.
pub const MAX_SCORE: usize = 243;

/// Sum of the first k buckets.
pub open spec fn sum_prefix(b: Seq<i32>, k: int) -> int
    decreases k,
{
    if 0 < k <= b.len() {
        sum_prefix(b, k - 1) + b[k - 1]
    } else {
        0
    }
}

/// Changing one bucket changes the sum by the difference, and only when
/// the bucket lies in the summed range.
proof fn lemma_sum_prefix_update(b: Seq<i32>, j: int, v: i32, k: int)
    requires
        0 <= j < b.len(),
        0 <= k <= b.len(),
    ensures
        sum_prefix(b.update(j, v), k) == sum_prefix(b, k) + (if j < k {
            v - b[j]
        } else {
            0
        }),
    decreases k,
{
    if k > 0 {
        lemma_sum_prefix_update(b, j, v, k - 1);
    }
}

/// A run of empty buckets sums to zero.
proof fn lemma_sum_prefix_zero(b: Seq<i32>, k: int)
    requires
        0 <= k <= b.len(),
        forall|s: int| 0 <= s < k ==> b[s] == 0,
    ensures
        sum_prefix(b, k) == 0,
    decreases k,
{
    if k > 0 {
        lemma_sum_prefix_zero(b, k - 1);
    }
}

/// Counts, for every feedback score, how many candidate words would
/// produce that score against the guess. Bucket s holds exactly the
/// number of entries the observation (guess, s) would keep.
pub fn score_against_dictionary(guess: &Word, dictionary: &CandidateSet) -> (buckets: Vec<i32>)
    requires
        wf_word(guess@),
        dictionary.wf(),
        dictionary@.len() < 0x8000_0000,
    ensures
        buckets@.len() == MAX_SCORE,
        forall|s: int|
            0 <= s < MAX_SCORE ==> buckets@[s] == narrow_seq(dictionary@, guess@, s).len(),
        sum_prefix(buckets@, MAX_SCORE as int) == dictionary@.len(),
{
    let ghost d = dictionary@;
    let mut buckets: Vec<i32> = Vec::new();
    let mut k: usize = 0;
    while k < MAX_SCORE
        invariant
            k <= MAX_SCORE,
            buckets@.len() == k,
            forall|s: int| 0 <= s < k ==> buckets@[s] == 0,
        decreases MAX_SCORE - k,
    {
        buckets.push(0);
        k = k + 1;
    }
    proof {
        assert forall|s: int| 0 <= s < MAX_SCORE implies buckets@[s] == narrow_seq(
            d.subrange(0, 0),
            guess@,
            s,
        ).len() by {
            assert(d.subrange(0, 0) =~= Seq::<(Word, u64)>::empty());
            d.subrange(0, 0).lemma_filter_len(keeps(guess@, s));
        }
        lemma_sum_prefix_zero(buckets@, MAX_SCORE as int);
    }
    let n = dictionary.len();
    let mut i: usize = 0;
    while i < n
        invariant
            d == dictionary@,
            dictionary.wf(),
            wf_word(guess@),
            n == d.len(),
            n < 0x8000_0000,
            i <= n,
            buckets@.len() == MAX_SCORE,
            forall|s: int|
                0 <= s < MAX_SCORE ==> buckets@[s] == narrow_seq(
                    d.subrange(0, i as int),
                    guess@,
                    s,
                ).len(),
            forall|s: int| 0 <= s < MAX_SCORE ==> 0 <= #[trigger] buckets@[s] <= i,
            sum_prefix(buckets@, MAX_SCORE as int) == i,
        decreases n - i,
    {
        let w = dictionary.word_at(i);
        proof {
            assert(wf_word(d[i as int].0@));
            lemma_score_range(guess@, w@);
        }
        let sc = score_guess(guess, &w);
        let ghost before = buckets@;
        let cur = buckets[sc as usize];
        buckets.set(sc as usize, cur + 1);
        proof {
            let prefix = d.subrange(0, i as int);
            let e = d[i as int];
            assert(d.subrange(0, i as int + 1) =~= prefix.push(e));
            assert forall|s: int| 0 <= s < MAX_SCORE implies buckets@[s] == narrow_seq(
                d.subrange(0, i as int + 1),
                guess@,
                s,
            ).len() && 0 <= #[trigger] buckets@[s] <= i + 1 by {
                lemma_narrow_push(prefix, e, guess@, s);
                if s == sc {
                    assert(buckets@[s] == before[s] + 1);
                } else {
                    assert(buckets@[s] == before[s]);
                }
            }
            lemma_sum_prefix_update(before, sc as int, (cur + 1) as i32, MAX_SCORE as int);
        }
        i = i + 1;
    }
    proof {
        assert(d.subrange(0, n as int) =~= d);
    }
    buckets
}

/// Law: a guess that yields the same feedback against every candidate
/// puts the whole population in a single bucket and leaves every other
/// bucket empty — the distribution under which entropy is zero.
pub proof fn lemma_uniform_feedback_distribution(s: Seq<(Word, u64)>, g: Seq<char>, sc: int)
    requires
        forall|i: int| 0 <= i < s.len() ==> score_spec(g, (#[trigger] s[i]).0@) == sc,
    ensures
        narrow_seq(s, g, sc).len() == s.len(),
        forall|t: int| t != sc ==> narrow_seq(s, g, t).len() == 0,
{
    assert(forall|i: int| 0 <= i < s.len() ==> keeps(g, sc)(#[trigger] s[i]));
    crate::candidates::lemma_filter_all_true(s, keeps(g, sc));
    assert forall|t: int| t != sc implies narrow_seq(s, g, t).len() == 0 by {
        assert(forall|i: int| 0 <= i < s.len() ==> !keeps(g, t)(#[trigger] s[i]));
        crate::candidates::lemma_filter_all_false(s, keeps(g, t));
    }
}

} // verus!
