//! Soundness of accumulated knowledge: when every update is fed the true
//! feedback of `evaluate`, the tracker only records facts that hold of the
//! secret, so the secret itself always survives both consistency checks and
//! the hint filter.

use vstd::prelude::*;
use crate::feedback::{
    classified_upto, classify_all, exact_upto, lemma_exact_positions, lemma_guess_split,
    lemma_misplaced_guess_bounds, lemma_present_positions, lemma_secret_split, misplaced_guess_upto,
    pool_of, Classification,
};
use crate::tracker::{
    conf_count_upto, fresh_knowledge, guess_status, guess_status_upto, hits_of, k_update, k_wf,
    rank, spec_consistent, spec_hint_ok, status_join, unconf_count_upto, verdict_status, Knowledge,
    LetterStatus,
};
use crate::words::{
    count_of, count_upto, is_letter, lemma_count_upto_bounds, lemma_count_upto_positive, letter_at,
    letter_index, wf_word, ALPHA_LEN, WORD_LEN,
};

verus! {

/// The recorded knowledge holds of the word `s`: every confirmed letter is
/// `s`'s letter there, no occurrence bound exceeds the true count, and a
/// letter marked `Absent` does not occur in `s` at all.
pub open spec fn sound_for(k: Knowledge, s: Seq<u8>) -> bool {
    &&& forall|i: int|
        0 <= i < WORD_LEN ==> match #[trigger] k.confirmed[i] {
            Some(l) => s[i] == l,
            None => true,
        }
    &&& forall|c: int| 0 <= c < ALPHA_LEN ==> #[trigger] k.min_occ[c] <= count_of(s, letter_at(c))
    &&& forall|c: int|
        0 <= c < ALPHA_LEN ==> (#[trigger] k.status[c] == LetterStatus::Absent ==> count_of(
            s,
            letter_at(c),
        ) == 0)
}

/// A tracker that has learned nothing is sound for every word.
pub proof fn lemma_fresh_sound(s: Seq<u8>)
    requires
        wf_word(s),
    ensures
        sound_for(fresh_knowledge(), s),
{
    let k = fresh_knowledge();
    assert forall|c: int|
        0 <= c < ALPHA_LEN implies #[trigger] k.min_occ[c] <= count_of(s, letter_at(c)) by {
        lemma_count_upto_bounds(s, letter_at(c), s.len() as int);
    }
}

/// A status joined from a guess dominates the verdict of every position that
/// carries the letter.
proof fn lemma_guess_status_dominates(g: Seq<u8>, r: Seq<Classification>, c: u8, k: int, j: int)
    requires
        0 <= j < k,
        g[j] == c,
    ensures
        rank(guess_status_upto(g, r, c, k)) >= rank(verdict_status(r[j])),
    decreases k,
{
    if j < k - 1 {
        lemma_guess_status_dominates(g, r, c, k - 1, j);
    }
}

/// A guess contributes nothing for a letter it does not carry.
proof fn lemma_guess_status_occurrence(g: Seq<u8>, r: Seq<Classification>, c: u8, k: int)
    requires
        0 <= k,
        guess_status_upto(g, r, c, k) != LetterStatus::Unknown,
    ensures
        exists|j: int| 0 <= j < k && g[j] == c,
    decreases k,
{
    if k > 0 {
        if g[k - 1] == c {
            assert(0 <= k - 1 < k && g[k - 1] == c);
        } else {
            lemma_guess_status_occurrence(g, r, c, k - 1);
        }
    }
}

/// No position with letter `c` carries verdict `cl`, so the count is zero.
proof fn lemma_classified_zero(g: Seq<u8>, r: Seq<Classification>, c: u8, cl: Classification, k: int)
    requires
        0 <= k,
        forall|j: int| 0 <= j < k && g[j] == c ==> r[j] != cl,
    ensures
        classified_upto(g, r, c, cl, k) == 0,
    decreases k,
{
    if k > 0 {
        lemma_classified_zero(g, r, c, cl, k - 1);
    }
}

/// Misplaced occurrences only accumulate as the prefix grows.
proof fn lemma_misplaced_guess_monotone(s: Seq<u8>, g: Seq<u8>, c: u8, k1: int, k2: int)
    requires
        0 <= k1 <= k2,
    ensures
        misplaced_guess_upto(s, g, c, k1) <= misplaced_guess_upto(s, g, c, k2),
    decreases k2,
{
    if k1 < k2 {
        lemma_misplaced_guess_monotone(s, g, c, k1, k2 - 1);
    }
}

/// When a whole guess leaves a letter's joined status at `Absent`, the letter
/// does not occur in the secret: the true feedback never brands a letter the
/// secret holds.
proof fn lemma_absent_status_truthful(s: Seq<u8>, g: Seq<u8>, c: u8)
    requires
        wf_word(s),
        wf_word(g),
        guess_status(g, classify_all(s, g), c) == LetterStatus::Absent,
    ensures
        count_of(s, c) == 0,
{
    let r = classify_all(s, g);
    let n = g.len() as int;
    lemma_guess_status_occurrence(g, r, c, n);
    let j = choose|j: int| 0 <= j < n && g[j] == c;
    lemma_guess_status_dominates(g, r, c, n, j);
    assert(r[j] == Classification::Absent);
    assert(g[j] != s[j]);
    assert forall|j2: int| 0 <= j2 < n && g[j2] == c implies r[j2] != Classification::Exact
        && r[j2] != Classification::Present by {
        lemma_guess_status_dominates(g, r, c, n, j2);
    }
    lemma_classified_zero(g, r, c, Classification::Exact, n);
    lemma_classified_zero(g, r, c, Classification::Present, n);
    lemma_exact_positions(s, g, c, n);
    lemma_present_positions(s, g, c, n);
    assert(misplaced_guess_upto(s, g, c, j + 1) >= 1) by {
        lemma_misplaced_guess_bounds(s, g, c, j);
    }
    lemma_misplaced_guess_monotone(s, g, c, j + 1, n);
    assert(pool_of(s, g, c) == 0);
    lemma_secret_split(s, g, c, n);
}

/// One update with the true feedback of `evaluate` keeps the knowledge sound.
pub proof fn lemma_update_preserves_soundness(k: Knowledge, s: Seq<u8>, g: Seq<u8>)
    requires
        k_wf(k),
        wf_word(s),
        wf_word(g),
        sound_for(k, s),
    ensures
        sound_for(k_update(k, g, classify_all(s, g)), s),
{
    let r = classify_all(s, g);
    let ku = k_update(k, g, r);
    let n = g.len() as int;
    assert forall|i: int|
        0 <= i < WORD_LEN implies match #[trigger] ku.confirmed[i] {
        Some(l) => s[i] == l,
        None => true,
    } by {
        if r[i] == Classification::Exact && k.confirmed[i] is None {
            assert(g[i] == s[i]);
        }
    }
    assert forall|c: int|
        0 <= c < ALPHA_LEN implies #[trigger] ku.min_occ[c] <= count_of(s, letter_at(c)) by {
        let lc = letter_at(c);
        lemma_exact_positions(s, g, lc, n);
        lemma_present_positions(s, g, lc, n);
        lemma_secret_split(s, g, lc, n);
        lemma_misplaced_guess_bounds(s, g, lc, n);
        assert(hits_of(g, r, lc) <= exact_upto(s, g, lc, n) + pool_of(s, g, lc));
    }
    assert forall|c: int|
        0 <= c < ALPHA_LEN implies (#[trigger] ku.status[c] == LetterStatus::Absent ==> count_of(
        s,
        letter_at(c),
    ) == 0) by {
        if ku.status[c] == LetterStatus::Absent {
            if k.status[c] == LetterStatus::Absent {
            } else {
                assert(guess_status(g, r, letter_at(c)) == LetterStatus::Absent);
                lemma_absent_status_truthful(s, g, letter_at(c));
            }
        }
    }
}

/// Under knowledge that agrees with `s` on every confirmed position, the
/// occurrences of a letter split into confirmed positions and unconfirmed
/// ones.
proof fn lemma_split_count_by_confirmed(s: Seq<u8>, conf: Seq<Option<u8>>, c: u8, k: int)
    requires
        0 <= k,
        forall|j: int|
            0 <= j < k ==> match #[trigger] conf[j] {
                Some(l) => s[j] == l,
                None => true,
            },
    ensures
        unconf_count_upto(s, conf, c, k) + conf_count_upto(conf, c, k) == count_upto(s, c, k),
    decreases k,
{
    if k > 0 {
        lemma_split_count_by_confirmed(s, conf, c, k - 1);
    }
}

/// Sound knowledge never rejects the secret itself: the secret passes the
/// strict-mode check and the hint check, so the hint filter keeps it.
pub proof fn lemma_sound_secret_passes(k: Knowledge, s: Seq<u8>)
    requires
        k_wf(k),
        wf_word(s),
        sound_for(k, s),
    ensures
        spec_consistent(k, s),
        spec_hint_ok(k, s),
{
    assert forall|c: int|
        0 <= c < ALPHA_LEN implies unconf_count_upto(s, k.confirmed, letter_at(c), WORD_LEN as int)
        + conf_count_upto(k.confirmed, letter_at(c), WORD_LEN as int) >= #[trigger] k.min_occ[c] by {
        lemma_split_count_by_confirmed(s, k.confirmed, letter_at(c), WORD_LEN as int);
    }
    assert forall|i: int|
        0 <= i < WORD_LEN implies k.status[letter_index(#[trigger] s[i])]
        != LetterStatus::Absent by {
        assert(is_letter(s[i]));
        assert(letter_at(letter_index(s[i])) == s[i]);
        lemma_count_upto_positive(s, s[i], s.len() as int, i);
    }
}

} // verus!
