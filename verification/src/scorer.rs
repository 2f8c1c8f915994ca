//! Guess scorer: the feedback a guess would receive against a candidate
//! word, with duplicate-letter-aware semantics. A letter of the candidate
//! is consumed by the match it takes part in, so it is never counted as
//! "present" more often than it occurs.
//!
//! The score is computed in two passes over scratch copies of both words:
//! an exact-match pass that consumes both positions of every positional
//! match, then a present-elsewhere pass that scans the candidate's
//! unconsumed positions left to right.

use vstd::prelude::*;
use crate::codec::{Word, decode5, encode5, char_of_digit, lemma_pattern_round_trip};

verus! {

/// A lowercase ASCII letter.
pub open spec fn is_lower(c: char) -> bool {
    97 <= c as u32 <= 122
}

/// A well-formed word: exactly five lowercase ASCII letters.
pub open spec fn wf_word(w: Seq<char>) -> bool {
    w.len() == 5 && forall|i: int| 0 <= i < 5 ==> is_lower(#[trigger] w[i])
}

/// Base-3 place value of feedback position i (leftmost position is the
/// most significant digit).
pub open spec fn place(i: int) -> int {
    if i == 0 {
        81
    } else if i == 1 {
        27
    } else if i == 2 {
        9
    } else if i == 3 {
        3
    } else {
        1
    }
}

/// Sum of the place values of positions i through 4.
pub open spec fn places_left(i: int) -> int
    decreases 5 - i,
{
    if 0 <= i < 5 {
        place(i) + places_left(i + 1)
    } else {
        0
    }
}

/// The guess after the exact-match pass: every positional match is
/// consumed, marked ':' so it can never match a candidate letter again.
pub open spec fn mask_guess(g: Seq<char>, c: Seq<char>) -> Seq<char> {
    Seq::new(5, |i: int| if g[i] == c[i] { ':' } else { g[i] })
}

/// The candidate after the exact-match pass: every positional match is
/// consumed, marked '?'.
pub open spec fn mask_cand(g: Seq<char>, c: Seq<char>) -> Seq<char> {
    Seq::new(5, |i: int| if g[i] == c[i] { '?' } else { c[i] })
}

/// A scratch candidate mid-scoring: five characters, each either an
/// unconsumed lowercase letter or the consumed mark '?'.
pub open spec fn masked_ok(c: Seq<char>) -> bool {
    c.len() == 5 && forall|i: int| 0 <= i < 5 ==> (#[trigger] c[i]) == '?' || is_lower(c[i])
}

/// Points earned by the exact-match pass at positions i through 4: each
/// positional match contributes twice its place value (digit Correct).
pub open spec fn exact_score(g: Seq<char>, c: Seq<char>, i: int) -> int
    decreases 5 - i,
{
    if 0 <= i < 5 {
        (if g[i] == c[i] {
            2 * place(i)
        } else {
            0
        }) + exact_score(g, c, i + 1)
    } else {
        0
    }
}

/// Index of the first position at or after j where the scratch candidate
/// holds ch, or -1 if there is none.
pub open spec fn find_from(c: Seq<char>, ch: char, j: int) -> int
    decreases 5 - j,
{
    if 0 <= j < 5 {
        if c[j] == ch {
            j
        } else {
            find_from(c, ch, j + 1)
        }
    } else {
        -1
    }
}

/// Points earned by the present-elsewhere pass from position i on, over
/// the masked guess g and the evolving scratch candidate c: the first
/// unconsumed candidate position holding g[i] is consumed and contributes
/// the place value of i (digit Present); with no such position the digit
/// stays Absent.
pub open spec fn present_score(g: Seq<char>, c: Seq<char>, i: int) -> int
    decreases 5 - i,
{
    if 0 <= i < 5 {
        let j = find_from(c, g[i], 0);
        if j >= 0 {
            place(i) + present_score(g, c.update(j, '?'), i + 1)
        } else {
            present_score(g, c, i + 1)
        }
    } else {
        0
    }
}

/// The feedback score of a guess against a candidate: the exact-match
/// pass over the original words, then the present-elsewhere pass over the
/// masked copies.
pub open spec fn score_spec(g: Seq<char>, c: Seq<char>) -> int
    recommends
        wf_word(g),
        wf_word(c),
{
    exact_score(g, c, 0) + present_score(mask_guess(g, c), mask_cand(g, c), 0)
}

/// What `find_from` promises: -1 means ch is absent from position j on;
/// a non-negative result is the first position at or after j holding ch.
proof fn lemma_find_from_props(c: Seq<char>, ch: char, j: int)
    requires
        0 <= j <= 5,
    ensures
        find_from(c, ch, j) == -1 ==> forall|k: int| j <= k < 5 ==> c[k] != ch,
        find_from(c, ch, j) != -1 ==> j <= find_from(c, ch, j) < 5 && c[find_from(c, ch, j)] == ch,
    decreases 5 - j,
{
    if j < 5 && c[j] != ch {
        lemma_find_from_props(c, ch, j + 1);
    }
}

/// The consumed mark ':' of the guess matches nothing in a scratch
/// candidate, whose characters are lowercase letters or '?'.
proof fn lemma_find_no_colon(c: Seq<char>, j: int)
    requires
        masked_ok(c),
        0 <= j <= 5,
    ensures
        find_from(c, ':', j) == -1,
    decreases 5 - j,
{
    if j < 5 {
        assert(c[j] != ':');
        lemma_find_no_colon(c, j + 1);
    }
}

/// The exact-match pass earns between 0 and twice the remaining place
/// values.
proof fn lemma_exact_bounds(g: Seq<char>, c: Seq<char>, i: int)
    requires
        0 <= i <= 5,
    ensures
        0 <= exact_score(g, c, i) <= 2 * places_left(i),
    decreases 5 - i,
{
    if i < 5 {
        lemma_exact_bounds(g, c, i + 1);
    }
}

/// The present-elsewhere pass earns between 0 and the remaining place
/// values.
proof fn lemma_present_bounds(g: Seq<char>, c: Seq<char>, i: int)
    requires
        0 <= i <= 5,
    ensures
        0 <= present_score(g, c, i) <= places_left(i),
    decreases 5 - i,
{
    if i < 5 {
        let j = find_from(c, g[i], 0);
        if j >= 0 {
            lemma_present_bounds(g, c.update(j, '?'), i + 1);
        } else {
            lemma_present_bounds(g, c, i + 1);
        }
    }
}

/// Each position contributes at most twice its place value across both
/// passes: an exact match contributes 2 * place and its ':' mark earns
/// nothing later; any other position earns at most place in the second
/// pass. Holds for every scratch candidate state cm.
proof fn lemma_score_bound(g: Seq<char>, c: Seq<char>, cm: Seq<char>, i: int)
    requires
        wf_word(g),
        wf_word(c),
        masked_ok(cm),
        0 <= i <= 5,
    ensures
        0 <= exact_score(g, c, i) + present_score(mask_guess(g, c), cm, i) <= 2 * places_left(i),
    decreases 5 - i,
{
    if i < 5 {
        let mg = mask_guess(g, c);
        if g[i] == c[i] {
            assert(mg[i] == ':');
            lemma_find_no_colon(cm, 0);
            lemma_score_bound(g, c, cm, i + 1);
        } else {
            assert(mg[i] == g[i]);
            let j = find_from(cm, g[i], 0);
            lemma_find_from_props(cm, g[i], 0);
            if j >= 0 {
                let cm2 = cm.update(j, '?');
                assert(masked_ok(cm2));
                lemma_score_bound(g, c, cm2, i + 1);
            } else {
                lemma_score_bound(g, c, cm, i + 1);
            }
        }
    }
}

/// The sum of all five place values.
proof fn lemma_places_left_total()
    ensures
        places_left(0) == 121,
{
    assert(places_left(5) == 0);
    assert(places_left(4) == 1);
    assert(places_left(3) == 4);
    assert(places_left(2) == 13);
    assert(places_left(1) == 40);
    assert(places_left(0) == 121);
}

/// A score is always in the ternary range [0, 242].
pub proof fn lemma_score_range(g: Seq<char>, c: Seq<char>)
    requires
        wf_word(g),
        wf_word(c),
    ensures
        0 <= score_spec(g, c) <= 242,
{
    assert(masked_ok(mask_cand(g, c)));
    lemma_score_bound(g, c, mask_cand(g, c), 0);
    lemma_places_left_total();
}

/// Base-3 place value of feedback position idx, executable form.
fn place_u16(idx: usize) -> (p: u16)
    requires
        idx < 5,
    ensures
        p == place(idx as int),
        p <= 81,
{
    if idx == 0 {
        81
    } else if idx == 1 {
        27
    } else if idx == 2 {
        9
    } else if idx == 3 {
        3
    } else {
        1
    }
}

/// First position of the scratch candidate holding ch, scanning left to
/// right, or None if every position differs from ch.
fn find_in(c: &Word, ch: char) -> (r: Option<usize>)
    ensures
        match r {
            Some(j) => j < 5 && find_from(c@, ch, 0) == j as int,
            None => find_from(c@, ch, 0) == -1,
        },
{
    let mut j: usize = 0;
    while j < 5
        invariant
            j <= 5,
            find_from(c@, ch, 0) == find_from(c@, ch, j as int),
        decreases 5 - j,
    {
        if c[j] == ch {
            return Some(j);
        }
        j = j + 1;
    }
    None
}

/// Checks that a word is five lowercase ASCII letters.
pub fn is_valid_word(w: &Word) -> (b: bool)
    ensures
        b == wf_word(w@),
{
    let b = 97 <= w[0] as u32 && w[0] as u32 <= 122 && 97 <= w[1] as u32 && w[1] as u32 <= 122
        && 97 <= w[2] as u32 && w[2] as u32 <= 122 && 97 <= w[3] as u32 && w[3] as u32 <= 122 && 97
        <= w[4] as u32 && w[4] as u32 <= 122;
    proof {
        if b {
            assert forall|i: int| 0 <= i < 5 implies is_lower(w@[i]) by {
                if i == 0 {
                } else if i == 1 {
                } else if i == 2 {
                } else if i == 3 {
                } else {
                }
            }
        }
    }
    b
}

/// Scores a guess against a candidate word: the exact-match pass consumes
/// every positional match in both scratch copies, then the
/// present-elsewhere pass consumes, for each remaining guess position in
/// order, the leftmost unconsumed candidate position holding that letter.
/// The result is the base-3 feedback score.
pub fn score_guess(guess: &Word, candidate: &Word) -> (ret: u16)
    requires
        wf_word(guess@),
        wf_word(candidate@),
    ensures
        ret == score_spec(guess@, candidate@),
        ret <= 242,
{
    let ghost g0 = guess@;
    let ghost c0 = candidate@;
    let mut ret: u16 = 0;
    let mut g: Word = *guess;
    let mut c: Word = *candidate;

    let mut idx: usize = 0;
    while idx < 5
        invariant
            idx <= 5,
            wf_word(g0),
            wf_word(c0),
            forall|j: int| 0 <= j < idx ==> g@[j] == mask_guess(g0, c0)[j] && c@[j] == mask_cand(
                g0,
                c0,
            )[j],
            forall|j: int| idx <= j < 5 ==> g@[j] == g0[j] && c@[j] == c0[j],
            ret == exact_score(g0, c0, 0) - exact_score(g0, c0, idx as int),
            0 <= ret <= 242,
        decreases 5 - idx,
    {
        if g[idx] == c[idx] {
            g[idx] = ':';
            c[idx] = '?';
            let p = place_u16(idx);
            proof {
                assert(exact_score(g0, c0, idx as int) == 2 * place(idx as int) + exact_score(
                    g0,
                    c0,
                    idx as int + 1,
                ));
                lemma_exact_bounds(g0, c0, 0);
                lemma_exact_bounds(g0, c0, idx as int + 1);
                lemma_places_left_total();
            }
            ret = ret + 2 * p;
        } else {
            proof {
                assert(exact_score(g0, c0, idx as int) == exact_score(g0, c0, idx as int + 1));
            }
        }
        idx = idx + 1;
    }
    proof {
        assert(g@ =~= mask_guess(g0, c0));
        assert(c@ =~= mask_cand(g0, c0));
        assert(exact_score(g0, c0, 5) == 0);
        assert(masked_ok(mask_cand(g0, c0)));
    }

    let ghost mg = mask_guess(g0, c0);
    let ghost cm0 = mask_cand(g0, c0);
    let ghost exact0 = exact_score(g0, c0, 0);
    idx = 0;
    while idx < 5
        invariant
            idx <= 5,
            wf_word(g0),
            wf_word(c0),
            mg == mask_guess(g0, c0),
            cm0 == mask_cand(g0, c0),
            exact0 == exact_score(g0, c0, 0),
            g@ == mg,
            masked_ok(c@),
            exact0 + present_score(mg, cm0, 0) == ret + present_score(mg, c@, idx as int),
            0 <= ret <= 242,
        decreases 5 - idx,
    {
        let ch = g[idx];
        let ghost c_before = c@;
        match find_in(&c, ch) {
            Some(cidx) => {
                c[cidx] = '?';
                let p = place_u16(idx);
                proof {
                    assert(present_score(mg, c_before, idx as int) == place(idx as int)
                        + present_score(mg, c_before.update(cidx as int, '?'), idx as int + 1));
                    assert(c@ =~= c_before.update(cidx as int, '?'));
                    assert(masked_ok(c@));
                    lemma_score_bound(g0, c0, cm0, 0);
                    lemma_present_bounds(mg, c@, idx as int + 1);
                    lemma_places_left_total();
                }
                ret = ret + p;
            },
            None => {
                proof {
                    assert(present_score(mg, c@, idx as int) == present_score(
                        mg,
                        c@,
                        idx as int + 1,
                    ));
                }
            },
        }
        idx = idx + 1;
    }
    proof {
        assert(present_score(mg, c@, 5) == 0);
    }
    ret
}

/// One step of the present-elsewhere pass: consume the first unconsumed
/// candidate position holding ch, if any.
pub open spec fn pass2_step(cm: Seq<char>, ch: char) -> Seq<char> {
    let j = find_from(cm, ch, 0);
    if j >= 0 {
        cm.update(j, '?')
    } else {
        cm
    }
}

/// The scratch candidate when the present-elsewhere pass reaches
/// position i: the masked candidate with one consumption step applied per
/// earlier position.
pub open spec fn cm_at(g: Seq<char>, c: Seq<char>, i: int) -> Seq<char>
    decreases i,
{
    if i <= 0 {
        mask_cand(g, c)
    } else {
        pass2_step(cm_at(g, c, i - 1), mask_guess(g, c)[i - 1])
    }
}

/// Whether position i earns the Present digit: some unconsumed candidate
/// position still holds the guess letter when the pass reaches i.
pub open spec fn present_hit(g: Seq<char>, c: Seq<char>, i: int) -> bool {
    find_from(cm_at(g, c, i), mask_guess(g, c)[i], 0) >= 0
}

/// The feedback digit the scorer assigns to position i: 2 (Correct) on a
/// positional match, 1 (Present) when an unconsumed copy of the letter is
/// found elsewhere, 0 (Absent) otherwise.
pub open spec fn digit_at(g: Seq<char>, c: Seq<char>, i: int) -> int {
    if g[i] == c[i] {
        2
    } else if present_hit(g, c, i) {
        1
    } else {
        0
    }
}

/// The five feedback characters the scorer assigns, position by position.
pub open spec fn feedback_pattern(g: Seq<char>, c: Seq<char>) -> Seq<char> {
    Seq::new(5, |i: int| char_of_digit(digit_at(g, c, i)))
}

/// Sum of the per-position digits weighted by their place values, from
/// position i on.
pub open spec fn digit_sum(g: Seq<char>, c: Seq<char>, i: int) -> int
    decreases 5 - i,
{
    if 0 <= i < 5 {
        digit_at(g, c, i) * place(i) + digit_sum(g, c, i + 1)
    } else {
        0
    }
}

/// Every scratch candidate state the present-elsewhere pass reaches is
/// made of lowercase letters and consumed marks.
proof fn lemma_cm_masked_ok(g: Seq<char>, c: Seq<char>, i: int)
    requires
        wf_word(g),
        wf_word(c),
        0 <= i <= 5,
    ensures
        masked_ok(cm_at(g, c, i)),
    decreases i,
{
    if i == 0 {
        assert(masked_ok(mask_cand(g, c)));
    } else {
        lemma_cm_masked_ok(g, c, i - 1);
        let cm = cm_at(g, c, i - 1);
        let ch = mask_guess(g, c)[i - 1];
        lemma_find_from_props(cm, ch, 0);
    }
}

/// The two passes together earn exactly the digit sum: position by
/// position, an exact match earns 2 * place, a present hit earns place,
/// and the scratch candidate evolves by one consumption step.
proof fn lemma_passes_earn_digit_sum(g: Seq<char>, c: Seq<char>, i: int)
    requires
        wf_word(g),
        wf_word(c),
        0 <= i <= 5,
    ensures
        exact_score(g, c, i) + present_score(mask_guess(g, c), cm_at(g, c, i), i) == digit_sum(
            g,
            c,
            i,
        ),
    decreases 5 - i,
{
    if i < 5 {
        let mg = mask_guess(g, c);
        let cm = cm_at(g, c, i);
        lemma_cm_masked_ok(g, c, i);
        lemma_passes_earn_digit_sum(g, c, i + 1);
        if g[i] == c[i] {
            assert(mg[i] == ':');
            lemma_find_no_colon(cm, 0);
            assert(cm_at(g, c, i + 1) == cm);
        } else {
            assert(mg[i] == g[i]);
            let j = find_from(cm, mg[i], 0);
            if j >= 0 {
                assert(cm_at(g, c, i + 1) == cm.update(j, '?'));
            } else {
                assert(cm_at(g, c, i + 1) == cm);
            }
        }
    }
}

/// Law: the score decodes position by position to the digits the scorer
/// assigns — Correct on a positional match, Present when an unconsumed
/// copy of the letter is found elsewhere, Absent otherwise.
pub proof fn lemma_score_decodes_per_position(g: Seq<char>, c: Seq<char>)
    requires
        wf_word(g),
        wf_word(c),
    ensures
        score_spec(g, c) == encode5(feedback_pattern(g, c)),
        decode5(score_spec(g, c)) =~= feedback_pattern(g, c),
{
    lemma_passes_earn_digit_sum(g, c, 0);
    assert(cm_at(g, c, 0) == mask_cand(g, c));
    assert(digit_sum(g, c, 5) == 0);
    assert(digit_sum(g, c, 4) == digit_at(g, c, 4) * 1);
    assert(digit_sum(g, c, 3) == digit_at(g, c, 3) * 3 + digit_sum(g, c, 4));
    assert(digit_sum(g, c, 2) == digit_at(g, c, 2) * 9 + digit_sum(g, c, 3));
    assert(digit_sum(g, c, 1) == digit_at(g, c, 1) * 27 + digit_sum(g, c, 2));
    assert(digit_sum(g, c, 0) == digit_at(g, c, 0) * 81 + digit_sum(g, c, 1));
    let p = feedback_pattern(g, c);
    assert(forall|i: int| 0 <= i < 5 ==> p[i] == 'b' || p[i] == 'y' || p[i] == 'g');
    assert(encode5(p) == digit_sum(g, c, 0));
    lemma_pattern_round_trip(p);
}

/// Law: a word scored against itself yields the all-Correct pattern —
/// the score is 242 and decodes to five 'g' digits.
pub proof fn lemma_self_score_is_perfect(w: Seq<char>)
    requires
        wf_word(w),
    ensures
        score_spec(w, w) == 242,
        decode5(score_spec(w, w)) =~= seq!['g', 'g', 'g', 'g', 'g'],
{
    assert(exact_score(w, w, 5) == 0);
    assert(exact_score(w, w, 4) == 2);
    assert(exact_score(w, w, 3) == 8);
    assert(exact_score(w, w, 2) == 26);
    assert(exact_score(w, w, 1) == 80);
    assert(exact_score(w, w, 0) == 242);
    let mg = mask_guess(w, w);
    let cm = mask_cand(w, w);
    assert(masked_ok(cm));
    lemma_find_no_colon(cm, 0);
    assert(mg[0] == ':' && mg[1] == ':' && mg[2] == ':' && mg[3] == ':' && mg[4] == ':');
    assert(present_score(mg, cm, 5) == 0);
    assert(present_score(mg, cm, 4) == 0);
    assert(present_score(mg, cm, 3) == 0);
    assert(present_score(mg, cm, 2) == 0);
    assert(present_score(mg, cm, 1) == 0);
    assert(present_score(mg, cm, 0) == 0);
}

} // verus!
