use wordle_solver::candidates::{filter_candidates, CandidateSet};
use wordle_solver::codec::{from_ternary, from_word, to_ternary, to_word};
use wordle_solver::ranker::score_against_dictionary;
use wordle_solver::scorer::{is_valid_word, score_guess};

#[test]
fn test_score() {
    let a = to_word("aaemp");
    let b = to_word("maaph");
    let c = to_word("mappa");

    assert_eq!(from_ternary(score_guess(&a, &a)), ['g', 'g', 'g', 'g', 'g']);
    assert_eq!(from_ternary(score_guess(&a, &b)), ['y', 'g', 'b', 'y', 'y']);
    assert_eq!(from_ternary(score_guess(&a, &c)), ['y', 'g', 'b', 'y', 'y']);
}

#[test]
fn round_trip_every_score() {
    for s in 0..243u16 {
        let pattern = from_ternary(s);
        assert_eq!(to_ternary(&from_word(&pattern)), s);
    }
}

#[test]
fn round_trip_pattern() {
    let t = to_ternary("gybbg");
    assert_eq!(t, 2 * 81 + 27 + 2);
    assert_eq!(from_ternary(t), ['g', 'y', 'b', 'b', 'g']);
}

#[test]
fn word_codec_round_trip() {
    let w = to_word("crane");
    assert_eq!(w, ['c', 'r', 'a', 'n', 'e']);
    assert_eq!(from_word(&w), "crane");
}

#[test]
fn self_score_is_perfect() {
    for word in ["crane", "aaemp", "zzzzz", "decay"] {
        let w = to_word(word);
        assert!(is_valid_word(&w));
        let s = score_guess(&w, &w);
        assert_eq!(s, 242);
        assert_eq!(from_ternary(s), ['g', 'g', 'g', 'g', 'g']);
    }
}

#[test]
fn scoring_is_not_symmetric() {
    let a = to_word("aabbc");
    let b = to_word("adeaf");
    let ab = score_guess(&a, &b);
    let ba = score_guess(&b, &a);
    assert_eq!(from_ternary(ab), ['g', 'y', 'b', 'b', 'b']);
    assert_eq!(from_ternary(ba), ['g', 'b', 'b', 'y', 'b']);
    assert_ne!(ab, ba);
}

fn set_of(words: &[&str]) -> CandidateSet {
    let mut set = CandidateSet::new();
    for (k, word) in words.iter().enumerate() {
        let w = to_word(word);
        assert!(is_valid_word(&w));
        set.insert(w, k as u64);
    }
    set
}

fn set_words(set: &CandidateSet) -> Vec<[char; 5]> {
    let mut ret = Vec::new();
    for i in 0..set.len() {
        ret.push(set.word_at(i));
    }
    ret
}

#[test]
fn insert_keeps_keys_unique() {
    let mut set = CandidateSet::new();
    set.insert(to_word("crane"), 7);
    set.insert(to_word("moody"), 8);
    set.insert(to_word("crane"), 9);
    assert_eq!(set.len(), 2);
    assert_eq!(set.weight_at(0), 9);
    assert_eq!(set.weight_at(1), 8);
}

#[test]
fn narrowing_is_monotonic() {
    let mut set = set_of(&["maaph", "mappa", "crane"]);
    let before = set.len();
    let guess = to_word("aaemp");
    let observed = to_ternary("ygbyy");
    filter_candidates(&guess, observed, &mut set);
    assert!(set.len() <= before);
    assert_eq!(set.len(), 2);
    assert!(set.contains(&to_word("maaph")));
    assert!(set.contains(&to_word("mappa")));
    assert!(!set.contains(&to_word("crane")));
    for w in set_words(&set) {
        assert_eq!(score_guess(&guess, &w), observed);
    }
    // Surviving entries keep their weights and relative order.
    assert_eq!(set.word_at(0), to_word("maaph"));
    assert_eq!(set.weight_at(0), 0);
    assert_eq!(set.word_at(1), to_word("mappa"));
    assert_eq!(set.weight_at(1), 1);
}

#[test]
fn narrowing_twice_equals_once() {
    let mut once = set_of(&["maaph", "mappa", "crane", "decay"]);
    let guess = to_word("aaemp");
    let observed = to_ternary("ygbyy");
    filter_candidates(&guess, observed, &mut once);
    let mut twice = set_of(&["maaph", "mappa", "crane", "decay"]);
    filter_candidates(&guess, observed, &mut twice);
    filter_candidates(&guess, observed, &mut twice);
    assert_eq!(set_words(&once), set_words(&twice));
}

#[test]
fn narrowing_to_empty_is_valid() {
    let mut set = set_of(&["crane"]);
    filter_candidates(&to_word("crane"), to_ternary("bbbbb"), &mut set);
    assert_eq!(set.len(), 0);
    let guess = to_word("moody");
    filter_candidates(&guess, 0, &mut set);
    assert_eq!(set.len(), 0);
    let buckets = score_against_dictionary(&guess, &set);
    assert!(buckets.iter().all(|&c| c == 0));
}

#[test]
fn distribution_counts_every_outcome() {
    let set = set_of(&["maaph", "mappa", "crane"]);
    let guess = to_word("aaemp");
    let buckets = score_against_dictionary(&guess, &set);
    assert_eq!(buckets.len(), 243);
    let dup = to_ternary("ygbyy") as usize;
    let other = score_guess(&guess, &to_word("crane")) as usize;
    assert_ne!(dup, other);
    assert_eq!(buckets[dup], 2);
    assert_eq!(buckets[other], 1);
    let total: i32 = buckets.iter().sum();
    assert_eq!(total, 3);
}

fn entropy_of(buckets: &[i32], candidate_count: usize) -> f64 {
    let mut entropy = 0.0;
    for &count in buckets {
        let p = count as f64 / candidate_count as f64;
        if p != 0.0 {
            entropy -= p * p.log2();
        }
    }
    entropy
}

#[test]
fn entropy_from_distribution_is_bounded() {
    let set = set_of(&["maaph", "mappa", "crane", "decay", "moody"]);
    let max = (243f64).log2();
    for guess_word in ["aaemp", "tares", "moody", "zzzzz"] {
        let guess = to_word(guess_word);
        let buckets = score_against_dictionary(&guess, &set);
        let e = entropy_of(&buckets, set.len());
        assert!(e >= 0.0);
        assert!(e <= max);
    }
    // A guess that gives the same feedback against every candidate carries
    // no information.
    let lone = set_of(&["crane"]);
    let buckets = score_against_dictionary(&to_word("moody"), &lone);
    assert_eq!(entropy_of(&buckets, lone.len()), 0.0);
    // An even two-way split carries exactly one bit.
    let pair = set_of(&["maaph", "crane"]);
    let buckets = score_against_dictionary(&to_word("aaemp"), &pair);
    assert_eq!(entropy_of(&buckets, pair.len()), 1.0);
}

#[test]
fn observations_commute_over_insertion_order() {
    let dictionary = ["tares", "colin", "psych", "decay", "mover", "windy"];
    let reversed = ["windy", "mover", "decay", "psych", "colin", "tares"];
    let observations = [("tares", "bybyb"), ("colin", "ybbbb"), ("psych", "bbyyb")];
    let mut forward = set_of(&dictionary);
    let mut backward = set_of(&reversed);
    for (guess, feedback) in observations {
        let g = to_word(guess);
        let s = to_ternary(feedback);
        filter_candidates(&g, s, &mut forward);
        filter_candidates(&g, s, &mut backward);
    }
    assert_eq!(forward.len(), 1);
    assert_eq!(backward.len(), 1);
    assert!(forward.contains(&to_word("decay")));
    assert!(backward.contains(&to_word("decay")));
}
