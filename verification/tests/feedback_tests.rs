use wordle_core::feedback::{evaluate, Classification};
use wordle_core::words::{check_word, contains_word, copy_word, words_equal};

fn w(s: &str) -> Vec<u8> {
    s.bytes().collect()
}

/// An independent two-pass oracle: reserve exact matches into per-letter
/// pools, then serve the remaining positions left to right.
fn two_pass_oracle(secret: &[u8], guess: &[u8]) -> Vec<Classification> {
    let mut pool = [0usize; 26];
    for i in 0..secret.len() {
        if secret[i] != guess[i] {
            pool[(secret[i] - b'a') as usize] += 1;
        }
    }
    let mut out = Vec::new();
    for i in 0..guess.len() {
        if guess[i] == secret[i] {
            out.push(Classification::Exact);
        } else {
            let ci = (guess[i] - b'a') as usize;
            if pool[ci] > 0 {
                pool[ci] -= 1;
                out.push(Classification::Present);
            } else {
                out.push(Classification::Absent);
            }
        }
    }
    out
}

#[test]
fn scenario_light_igloo() {
    let r = evaluate(&w("light"), &w("igloo"));
    assert_eq!(
        r,
        vec![
            Classification::Present,
            Classification::Present,
            Classification::Present,
            Classification::Absent,
            Classification::Absent,
        ]
    );
}

#[test]
fn scenario_sheep_epees_matches_two_pass_oracle() {
    let secret = w("sheep");
    let guess = w("epees");
    let r = evaluate(&secret, &guess);
    let expected = two_pass_oracle(&secret, &guess);
    assert_eq!(r, expected);
    assert_eq!(
        expected,
        vec![
            Classification::Absent,
            Classification::Present,
            Classification::Exact,
            Classification::Exact,
            Classification::Present,
        ]
    );
}

#[test]
fn oracle_agreement_on_duplicate_heavy_pairs() {
    let pairs = [
        ("error", "rarer"),
        ("abbey", "babes"),
        ("aabbb", "ababa"),
        ("seeds", "esses"),
        ("crane", "crane"),
        ("aaaaa", "azzza"),
    ];
    for (s, g) in pairs {
        let secret = w(s);
        let guess = w(g);
        assert_eq!(evaluate(&secret, &guess), two_pass_oracle(&secret, &guess));
    }
}

#[test]
fn self_match_is_all_exact() {
    let r = evaluate(&w("crane"), &w("crane"));
    assert!(r.iter().all(|c| *c == Classification::Exact));
}

#[test]
fn disjoint_alphabets_all_absent() {
    let r = evaluate(&w("abcde"), &w("fghij"));
    assert!(r.iter().all(|c| *c == Classification::Absent));
}

#[test]
fn exactness_conservation_on_repeated_letters() {
    let secret = w("aabbb");
    let guess = w("ababa");
    let r = evaluate(&secret, &guess);
    assert_eq!(
        r,
        vec![
            Classification::Exact,
            Classification::Present,
            Classification::Present,
            Classification::Exact,
            Classification::Absent,
        ]
    );
    for c in b'a'..=b'z' {
        let in_secret = secret.iter().filter(|&&b| b == c).count();
        let in_guess = guess.iter().filter(|&&b| b == c).count();
        let hits = (0..5)
            .filter(|&i| guess[i] == c && r[i] != Classification::Absent)
            .count();
        assert!(hits <= in_secret);
        if in_guess >= in_secret {
            assert_eq!(hits, in_secret);
        }
    }
}

#[test]
fn surplus_occurrences_are_absent() {
    let r = evaluate(&w("abcde"), &w("aaaaa"));
    assert_eq!(r[0], Classification::Exact);
    for i in 1..5 {
        assert_eq!(r[i], Classification::Absent);
    }
}

#[test]
fn check_word_accepts_lower_case_five_letters() {
    assert!(check_word(&w("light")));
}

#[test]
fn check_word_rejects_bad_lengths_and_bytes() {
    assert!(!check_word(&w("over")));
    assert!(!check_word(&w("overly")));
    assert!(!check_word(&b"Light".to_vec()));
    assert!(!check_word(&b"lig-t".to_vec()));
    assert!(!check_word(&Vec::new()));
}

#[test]
fn words_equal_and_copy() {
    let a = w("light");
    let b = copy_word(&a);
    assert!(words_equal(&a, &b));
    assert!(!words_equal(&a, &w("might")));
    assert!(!words_equal(&a, &w("lights")));
}

#[test]
fn contains_word_finds_members_only() {
    let dict = vec![w("light"), w("might"), w("sight")];
    assert!(contains_word(&dict, &w("might")));
    assert!(!contains_word(&dict, &w("fight")));
}
