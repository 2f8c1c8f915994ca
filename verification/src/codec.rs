//! Feedback codec: a five-digit feedback pattern (absent = 'b', present =
//! 'y', correct = 'g') is carried as a single base-3 integer in [0, 242],
//! most-significant digit first. Words travel as `[char; 5]`.

use vstd::prelude::*;

verus! {

/// A word is an ordered sequence of exactly five letters.
pub type Word = [char; 5];

/// Digit value of one feedback character: 'y' (present) is 1, 'g'
/// (correct) is 2, anything else counts as 0 (absent).
pub open spec fn digit_val(c: char) -> int {
    if c == 'y' {
        1
    } else if c == 'g' {
        2
    } else {
        0
    }
}

/// Base-3 value of a five-character feedback pattern, most-significant
/// digit first: digit at position i contributes `digit_val * 3^(4-i)`.
pub open spec fn encode5(s: Seq<char>) -> int
    recommends
        s.len() == 5,
{
    81 * digit_val(s[0]) + 27 * digit_val(s[1]) + 9 * digit_val(s[2]) + 3 * digit_val(s[3])
        + digit_val(s[4])
}

/// Feedback character for one base-3 digit.
pub open spec fn char_of_digit(d: int) -> char {
    if d == 1 {
        'y'
    } else if d == 2 {
        'g'
    } else {
        'b'
    }
}

/// The five-character feedback pattern encoded by a score in [0, 242],
/// recovered digit by digit, most-significant first.
pub open spec fn decode5(t: int) -> Seq<char>
    recommends
        0 <= t <= 242,
{
    seq![
        char_of_digit((t / 81) % 3),
        char_of_digit((t / 27) % 3),
        char_of_digit((t / 9) % 3),
        char_of_digit((t / 3) % 3),
        char_of_digit(t % 3),
    ]
}

/// Digit value of one feedback character, executable form.
fn digit_of(c: char) -> (d: u16)
    ensures
        d == digit_val(c),
        d <= 2,
{
    if c == 'y' {
        1
    } else if c == 'g' {
        2
    } else {
        0
    }
}

/// Encodes a five-character feedback string (over 'b'/'y'/'g') as its
/// base-3 score.
pub fn to_ternary(result: &str) -> (ret: u16)
    requires
        result@.len() == 5,
    ensures
        ret == encode5(result@),
        ret <= 242,
{
    let d0 = digit_of(result.get_char(0));
    let d1 = digit_of(result.get_char(1));
    let d2 = digit_of(result.get_char(2));
    let d3 = digit_of(result.get_char(3));
    let d4 = digit_of(result.get_char(4));
    (((d0 * 3 + d1) * 3 + d2) * 3 + d3) * 3 + d4
}

/// Feedback character for one base-3 digit, executable form.
fn char_of(d: u16) -> (c: char)
    ensures
        c == char_of_digit(d as int),
{
    if d == 1 {
        'y'
    } else if d == 2 {
        'g'
    } else {
        'b'
    }
}

/// Decodes a base-3 score in [0, 242] back into its five-character
/// feedback pattern, most-significant digit first.
pub fn from_ternary(t: u16) -> (ret: Word)
    requires
        t <= 242,
    ensures
        ret@ == decode5(t as int),
{
    let c0 = char_of((t / 81) % 3);
    let c1 = char_of((t / 27) % 3);
    let c2 = char_of((t / 9) % 3);
    let c3 = char_of((t / 3) % 3);
    let c4 = char_of(t % 3);
    let ret = [c0, c1, c2, c3, c4];
    proof {
        assert(ret@ =~= decode5(t as int));
    }
    ret
}

/// Packs a five-character string into a word.
pub fn to_word(s: &str) -> (ret: Word)
    requires
        s@.len() == 5,
    ensures
        ret@ == s@,
{
    let ret = [s.get_char(0), s.get_char(1), s.get_char(2), s.get_char(3), s.get_char(4)];
    proof {
        assert(ret@ =~= s@);
    }
    ret
}

/// Relies on `String::push`: appends exactly the given character.
pub assume_specification[ String::push ](s: &mut String, ch: char)
    ensures
        final(s)@ == old(s)@.push(ch),
;

/// Unpacks a word into the five-character string it spells.
pub fn from_word(w: &Word) -> (ret: String)
    ensures
        ret@ == w@,
{
    let mut ret = String::new();
    let mut i: usize = 0;
    while i < 5
        invariant
            i <= 5,
            ret@ =~= w@.subrange(0, i as int),
        decreases 5 - i,
    {
        ret.push(w[i]);
        i = i + 1;
    }
    proof {
        assert(ret@ =~= w@);
    }
    ret
}

/// Law: encoding is a left inverse of decoding — every score in [0, 242]
/// round-trips through its feedback pattern.
pub proof fn lemma_feedback_round_trip(t: int)
    requires
        0 <= t <= 242,
    ensures
        encode5(decode5(t)) == t,
{
    vstd::arithmetic::div_mod::lemma_fundamental_div_mod(t, 3);
    vstd::arithmetic::div_mod::lemma_fundamental_div_mod(t / 3, 3);
    vstd::arithmetic::div_mod::lemma_fundamental_div_mod(t / 9, 3);
    vstd::arithmetic::div_mod::lemma_fundamental_div_mod(t / 27, 3);
    vstd::arithmetic::div_mod::lemma_div_denominator(t, 3, 3);
    vstd::arithmetic::div_mod::lemma_div_denominator(t, 9, 3);
    vstd::arithmetic::div_mod::lemma_div_denominator(t, 27, 3);
    assert((t / 81) % 3 == t / 81) by {
        vstd::arithmetic::div_mod::lemma_small_mod((t / 81) as nat, 3);
    }
}

/// Law: decoding is a left inverse of encoding — every well-formed
/// feedback pattern (five characters over 'b'/'y'/'g') round-trips
/// through its score.
pub proof fn lemma_pattern_round_trip(s: Seq<char>)
    requires
        s.len() == 5,
        forall|i: int| 0 <= i < 5 ==> s[i] == 'b' || s[i] == 'y' || s[i] == 'g',
    ensures
        decode5(encode5(s)) =~= s,
{
    let t = encode5(s);
    let d0 = digit_val(s[0]);
    let d1 = digit_val(s[1]);
    let d2 = digit_val(s[2]);
    let d3 = digit_val(s[3]);
    let d4 = digit_val(s[4]);
    assert(t / 81 == d0 && t % 81 == 27 * d1 + 9 * d2 + 3 * d3 + d4) by {
        vstd::arithmetic::div_mod::lemma_fundamental_div_mod_converse(
            t,
            81,
            d0,
            27 * d1 + 9 * d2 + 3 * d3 + d4,
        );
    }
    assert(t / 27 == 3 * d0 + d1) by {
        vstd::arithmetic::div_mod::lemma_fundamental_div_mod_converse(
            t,
            27,
            3 * d0 + d1,
            9 * d2 + 3 * d3 + d4,
        );
    }
    assert(t / 9 == 9 * d0 + 3 * d1 + d2) by {
        vstd::arithmetic::div_mod::lemma_fundamental_div_mod_converse(
            t,
            9,
            9 * d0 + 3 * d1 + d2,
            3 * d3 + d4,
        );
    }
    assert(t / 3 == 27 * d0 + 9 * d1 + 3 * d2 + d3) by {
        vstd::arithmetic::div_mod::lemma_fundamental_div_mod_converse(
            t,
            3,
            27 * d0 + 9 * d1 + 3 * d2 + d3,
            d4,
        );
    }
}

} // verus!
