use wordle_core::feedback::evaluate;
use wordle_core::tracker::{KnowledgeState, LetterStatus};

fn w(s: &str) -> Vec<u8> {
    s.bytes().collect()
}

fn rank(s: LetterStatus) -> u8 {
    match s {
        LetterStatus::Unknown => 0,
        LetterStatus::Absent => 1,
        LetterStatus::PresentSomewhere => 2,
        LetterStatus::ConfirmedPosition => 3,
    }
}

fn feed(state: &mut KnowledgeState, secret: &str, guess: &str) {
    let s = w(secret);
    let g = w(guess);
    let r = evaluate(&s, &g);
    state.update(&g, &r);
}

#[test]
fn update_records_statuses_and_bounds() {
    let mut k = KnowledgeState::new();
    feed(&mut k, "sheep", "epees");
    assert_eq!(k.letter_status(b'e'), LetterStatus::ConfirmedPosition);
    assert_eq!(k.letter_status(b'p'), LetterStatus::PresentSomewhere);
    assert_eq!(k.letter_status(b's'), LetterStatus::PresentSomewhere);
    assert_eq!(k.letter_status(b'h'), LetterStatus::Unknown);
    assert_eq!(k.min_occurrences(b'e'), 2);
    assert_eq!(k.min_occurrences(b'p'), 1);
    assert_eq!(k.min_occurrences(b's'), 1);
    assert_eq!(k.min_occurrences(b'h'), 0);
    assert_eq!(k.confirmed_letter(0), None);
    assert_eq!(k.confirmed_letter(2), Some(b'e'));
    assert_eq!(k.confirmed_letter(3), Some(b'e'));
}

#[test]
fn absent_never_downgrades_a_higher_status() {
    let mut k = KnowledgeState::new();
    // Against "light", "tight" confirms t at the end while the surplus t in
    // front is judged absent: the status must stay confirmed.
    feed(&mut k, "light", "tight");
    assert_eq!(k.letter_status(b't'), LetterStatus::ConfirmedPosition);
    assert_eq!(k.confirmed_letter(0), None);
    assert_eq!(k.confirmed_letter(1), Some(b'i'));
    assert_eq!(k.confirmed_letter(4), Some(b't'));
}

#[test]
fn monotonic_knowledge_across_updates() {
    let secret = "abbey";
    let guesses = ["mousy", "table", "bbbey", "abbey"];
    let mut k = KnowledgeState::new();
    let mut prev_ranks = [0u8; 26];
    let mut prev_min = [0u64; 26];
    for guess in guesses {
        feed(&mut k, secret, guess);
        for c in b'a'..=b'z' {
            let i = (c - b'a') as usize;
            let r = rank(k.letter_status(c));
            let m = k.min_occurrences(c);
            assert!(r >= prev_ranks[i]);
            assert!(m >= prev_min[i]);
            prev_ranks[i] = r;
            prev_min[i] = m;
        }
    }
}

#[test]
fn strict_mode_rejects_changed_confirmed_position() {
    let mut k = KnowledgeState::new();
    feed(&mut k, "light", "tight");
    // Positions 1..4 are confirmed as i, g, h, t.
    assert!(k.is_consistent(&w("light")));
    assert!(k.is_consistent(&w("fight")));
    assert!(!k.is_consistent(&w("laugh")));
    assert!(!k.is_consistent(&w("trace")));
}

#[test]
fn strict_mode_requires_known_occurrences() {
    let mut k = KnowledgeState::new();
    feed(&mut k, "light", "igloo");
    // i, g and l are each known to occur at least once.
    assert!(k.is_consistent(&w("glint")));
    assert!(!k.is_consistent(&w("might")));
}

#[test]
fn hint_check_is_stricter_than_strict_mode() {
    let mut k = KnowledgeState::new();
    feed(&mut k, "light", "money");
    // Every letter of the guess is absent; strict mode still accepts a word
    // using one at an unconfirmed position, the hint check does not.
    assert!(k.is_consistent(&w("mound")));
    assert!(!k.is_hint_candidate(&w("mound")));
    assert!(k.is_hint_candidate(&w("light")));
}

#[test]
fn filter_candidates_keeps_order_and_consistency() {
    let mut k = KnowledgeState::new();
    feed(&mut k, "light", "tight");
    let dict = vec![
        w("light"),
        w("might"),
        w("tiger"),
        w("sight"),
        w("laugh"),
        w("fight"),
    ];
    let hints = k.filter_candidates(&dict);
    assert_eq!(
        hints,
        vec![w("light"), w("might"), w("sight"), w("fight")]
    );
    for word in &hints {
        assert!(k.is_hint_candidate(word));
    }
}

#[test]
fn hint_filter_never_loses_the_secret() {
    let secret = "sheep";
    let mut k = KnowledgeState::new();
    for guess in ["epees", "spell", "shape"] {
        feed(&mut k, secret, guess);
    }
    let dict = vec![w("spell"), w("sheep"), w("shale"), w("cheep")];
    let hints = k.filter_candidates(&dict);
    assert!(hints.contains(&w("sheep")));
    for word in &hints {
        assert!(k.is_hint_candidate(word));
    }
}

#[test]
fn reset_clears_all_state() {
    let mut k = KnowledgeState::new();
    feed(&mut k, "light", "tight");
    feed(&mut k, "light", "money");
    assert!(!k.is_consistent(&w("trace")));
    k.reset();
    assert!(k.is_consistent(&w("trace")));
    assert!(k.is_hint_candidate(&w("money")));
    for c in b'a'..=b'z' {
        assert_eq!(k.letter_status(c), LetterStatus::Unknown);
        assert_eq!(k.min_occurrences(c), 0);
    }
    for i in 0..5 {
        assert_eq!(k.confirmed_letter(i), None);
    }
    let dict = vec![w("light"), w("money"), w("zzzzz")];
    let back = k.filter_candidates(&dict);
    assert_eq!(back, dict);
}
