//! The feedback evaluator: classifies every position of a guess against the
//! secret word, with the two-pass pool reservation that handles repeated
//! letters.

use vstd::prelude::*;
use crate::words::{
    count_of, count_upto, is_letter, lemma_count_upto_positive, letter_at, letter_index, wf_word,
    ALPHA_LEN, FIRST_LETTER, WORD_LEN,
};

verus! {

/// Per-position verdict for one guessed letter.
#[derive(Clone, Copy, PartialEq, Eq, Structural, Debug)]
pub enum Classification {
    /// The letter matches the secret at this position.
    Exact,
    /// The letter occurs in the secret elsewhere, and an occurrence is still
    /// unaccounted for once exact matches are reserved and earlier misplaced
    /// occurrences are served.
    Present,
    /// The letter does not occur in the secret, or all of its occurrences are
    /// already accounted for.
    Absent,
}

/// Positions among the first `k` where secret and guess agree on letter `c`.
pub open spec fn exact_upto(s: Seq<u8>, g: Seq<u8>, c: u8, k: int) -> int
    decreases k,
{
    if k <= 0 {
        0
    } else {
        exact_upto(s, g, c, k - 1) + if s[k - 1] == c && g[k - 1] == c {
            1int
        } else {
            0int
        }
    }
}

/// Occurrences of `c` in the secret among the first `k` positions that the
/// guess does not match exactly.
pub open spec fn misplaced_secret_upto(s: Seq<u8>, g: Seq<u8>, c: u8, k: int) -> int
    decreases k,
{
    if k <= 0 {
        0
    } else {
        misplaced_secret_upto(s, g, c, k - 1) + if s[k - 1] == c && g[k - 1] != s[k - 1] {
            1int
        } else {
            0int
        }
    }
}

/// Occurrences of `c` in the guess among the first `k` positions that do not
/// match the secret exactly.
pub open spec fn misplaced_guess_upto(s: Seq<u8>, g: Seq<u8>, c: u8, k: int) -> int
    decreases k,
{
    if k <= 0 {
        0
    } else {
        misplaced_guess_upto(s, g, c, k - 1) + if g[k - 1] == c && g[k - 1] != s[k - 1] {
            1int
        } else {
            0int
        }
    }
}

/// The pool of letter `c`: occurrences of `c` in the secret not reserved by an
/// exact match of the guess.
pub open spec fn pool_of(s: Seq<u8>, g: Seq<u8>, c: u8) -> int {
    misplaced_secret_upto(s, g, c, s.len() as int)
}

/// The verdict at position `i`: exact matches first; a misplaced occurrence is
/// `Present` while the pool of its letter is not exhausted, taking misplaced
/// occurrences in left-to-right order; all later occurrences are `Absent`.
pub open spec fn classify(s: Seq<u8>, g: Seq<u8>, i: int) -> Classification {
    if g[i] == s[i] {
        Classification::Exact
    } else if misplaced_guess_upto(s, g, g[i], i + 1) <= pool_of(s, g, g[i]) {
        Classification::Present
    } else {
        Classification::Absent
    }
}

/// The whole feedback for one guess, position by position.
pub open spec fn classify_all(s: Seq<u8>, g: Seq<u8>) -> Seq<Classification> {
    Seq::new(g.len(), |i: int| classify(s, g, i))
}

/// Positions among the first `k` that carry letter `c` and verdict `cl`.
pub open spec fn classified_upto(
    g: Seq<u8>,
    r: Seq<Classification>,
    c: u8,
    cl: Classification,
    k: int,
) -> int
    decreases k,
{
    if k <= 0 {
        0
    } else {
        classified_upto(g, r, c, cl, k - 1) + if g[k - 1] == c && r[k - 1] == cl {
            1int
        } else {
            0int
        }
    }
}

/// Positions in all of `g` that carry letter `c` and verdict `cl`.
pub open spec fn classified_count(
    g: Seq<u8>,
    r: Seq<Classification>,
    c: u8,
    cl: Classification,
) -> int {
    classified_upto(g, r, c, cl, g.len() as int)
}

/// Evaluate one guess against the secret.
///
/// The first pass reserves exact matches and charges them against the
/// per-letter pools; the second pass serves the remaining positions from the
/// pools in left-to-right order.
pub fn evaluate(secret: &Vec<u8>, guess: &Vec<u8>) -> (r: Vec<Classification>)
    requires
        wf_word(secret@),
        wf_word(guess@),
    ensures
        r@ == classify_all(secret@, guess@),
        r@.len() == WORD_LEN,
{
    let mut pool: Vec<usize> = Vec::new();
    let mut c: usize = 0;
    while c < ALPHA_LEN
        invariant
            c <= ALPHA_LEN,
            pool@.len() == c,
            forall|d: int| 0 <= d < c ==> pool@[d] == 0,
        decreases ALPHA_LEN - c,
    {
        pool.push(0);
        c += 1;
    }
    // Pass 1: pools start at each letter's occurrences in the secret that the
    // guess does not match exactly.
    let mut i: usize = 0;
    while i < WORD_LEN
        invariant
            i <= WORD_LEN,
            wf_word(secret@),
            wf_word(guess@),
            pool@.len() == ALPHA_LEN,
            forall|d: int| 0 <= d < ALPHA_LEN ==> #[trigger] pool@[d] == misplaced_secret_upto(
                secret@,
                guess@,
                letter_at(d),
                i as int,
            ),
        decreases WORD_LEN - i,
    {
        let sc = secret[i];
        let gc = guess[i];
        if sc != gc {
            let ci = (sc - FIRST_LETTER) as usize;
            proof {
                assert(letter_at(ci as int) == sc);
                lemma_misplaced_secret_bounds(secret@, guess@, sc, i as int);
            }
            let cur = pool[ci];
            pool[ci] = cur + 1;
        }
        i += 1;
        proof {
            assert forall|d: int| 0 <= d < ALPHA_LEN implies #[trigger] pool@[d]
                == misplaced_secret_upto(secret@, guess@, letter_at(d), i as int) by {
            }
        }
    }
    // Pass 2: exact matches keep their verdict; other positions drain the pool
    // of their letter from left to right.
    let ghost s = secret@;
    let ghost g = guess@;
    let mut r: Vec<Classification> = Vec::new();
    let mut i: usize = 0;
    while i < WORD_LEN
        invariant
            i <= WORD_LEN,
            wf_word(s),
            wf_word(g),
            s == secret@,
            g == guess@,
            pool@.len() == ALPHA_LEN,
            r@.len() == i,
            forall|j: int| 0 <= j < i ==> #[trigger] r@[j] == classify(s, g, j),
            forall|d: int| 0 <= d < ALPHA_LEN ==> #[trigger] pool@[d] == pool_remaining(
                s,
                g,
                d,
                i as int,
            ),
        decreases WORD_LEN - i,
    {
        let sc = secret[i];
        let gc = guess[i];
        let ghost d = letter_index(gc);
        proof {
            assert(letter_at(d) == gc);
        }
        if gc == sc {
            r.push(Classification::Exact);
        } else {
            let ci = (gc - FIRST_LETTER) as usize;
            proof {
                assert(misplaced_guess_upto(s, g, gc, i + 1) == misplaced_guess_upto(
                    s,
                    g,
                    gc,
                    i as int,
                ) + 1);
            }
            if pool[ci] > 0 {
                let cur = pool[ci];
                pool[ci] = cur - 1;
                r.push(Classification::Present);
            } else {
                r.push(Classification::Absent);
            }
        }
        i += 1;
        proof {
            assert forall|dd: int| 0 <= dd < ALPHA_LEN implies #[trigger] pool@[dd]
                == pool_remaining(s, g, dd, i as int) by {
            }
        }
    }
    proof {
        assert(r@ =~= classify_all(secret@, guess@));
    }
    r
}

/// What is left of the pool of the letter at alphabet index `d` once the
/// misplaced occurrences among the first `k` guess positions are served.
pub open spec fn pool_remaining(s: Seq<u8>, g: Seq<u8>, d: int, k: int) -> int {
    let p = pool_of(s, g, letter_at(d));
    let m = misplaced_guess_upto(s, g, letter_at(d), k);
    if m <= p {
        p - m
    } else {
        0
    }
}

pub proof fn lemma_misplaced_secret_bounds(s: Seq<u8>, g: Seq<u8>, c: u8, k: int)
    requires
        0 <= k,
    ensures
        0 <= misplaced_secret_upto(s, g, c, k) <= k,
    decreases k,
{
    if k > 0 {
        lemma_misplaced_secret_bounds(s, g, c, k - 1);
    }
}

pub proof fn lemma_misplaced_guess_bounds(s: Seq<u8>, g: Seq<u8>, c: u8, k: int)
    requires
        0 <= k,
    ensures
        0 <= misplaced_guess_upto(s, g, c, k) <= k,
    decreases k,
{
    if k > 0 {
        lemma_misplaced_guess_bounds(s, g, c, k - 1);
    }
}

pub proof fn lemma_exact_upto_bounds(s: Seq<u8>, g: Seq<u8>, c: u8, k: int)
    requires
        0 <= k,
    ensures
        0 <= exact_upto(s, g, c, k) <= k,
    decreases k,
{
    if k > 0 {
        lemma_exact_upto_bounds(s, g, c, k - 1);
    }
}

/// The occurrences of `c` in the secret split into those the guess matches
/// exactly and those it misses.
pub proof fn lemma_secret_split(s: Seq<u8>, g: Seq<u8>, c: u8, k: int)
    requires
        0 <= k,
    ensures
        count_upto(s, c, k) == exact_upto(s, g, c, k) + misplaced_secret_upto(s, g, c, k),
    decreases k,
{
    if k > 0 {
        lemma_secret_split(s, g, c, k - 1);
    }
}

/// The occurrences of `c` in the guess split into exact matches and misplaced
/// occurrences.
pub proof fn lemma_guess_split(s: Seq<u8>, g: Seq<u8>, c: u8, k: int)
    requires
        0 <= k,
    ensures
        count_upto(g, c, k) == exact_upto(s, g, c, k) + misplaced_guess_upto(s, g, c, k),
    decreases k,
{
    if k > 0 {
        lemma_guess_split(s, g, c, k - 1);
    }
}

/// In the computed feedback, the positions of letter `c` judged `Exact` are
/// exactly the positions where guess and secret agree on `c`.
pub proof fn lemma_exact_positions(s: Seq<u8>, g: Seq<u8>, c: u8, k: int)
    requires
        0 <= k <= g.len(),
    ensures
        classified_upto(g, classify_all(s, g), c, Classification::Exact, k) == exact_upto(
            s,
            g,
            c,
            k,
        ),
    decreases k,
{
    if k > 0 {
        lemma_exact_positions(s, g, c, k - 1);
    }
}

/// In the computed feedback, the positions of letter `c` judged `Present`
/// number the smaller of the pool of `c` and the misplaced occurrences of `c`
/// in the guess.
pub proof fn lemma_present_positions(s: Seq<u8>, g: Seq<u8>, c: u8, k: int)
    requires
        0 <= k <= g.len(),
    ensures
        classified_upto(g, classify_all(s, g), c, Classification::Present, k) == if misplaced_guess_upto(
            s,
            g,
            c,
            k,
        ) <= pool_of(s, g, c) {
            misplaced_guess_upto(s, g, c, k)
        } else {
            pool_of(s, g, c)
        },
    decreases k,
{
    lemma_misplaced_secret_bounds(s, g, c, s.len() as int);
    if k > 0 {
        lemma_present_positions(s, g, c, k - 1);
        lemma_misplaced_guess_bounds(s, g, c, k - 1);
        let r = classify_all(s, g);
        assert(r[k - 1] == classify(s, g, k - 1));
        if g[k - 1] == c && g[k - 1] != s[k - 1] {
            assert(misplaced_guess_upto(s, g, c, k) == misplaced_guess_upto(s, g, c, k - 1) + 1);
            assert(r[k - 1] == Classification::Present <==> misplaced_guess_upto(s, g, c, k)
                <= pool_of(s, g, c));
        } else {
            assert(misplaced_guess_upto(s, g, c, k) == misplaced_guess_upto(s, g, c, k - 1));
            if g[k - 1] == c {
                assert(r[k - 1] == Classification::Exact);
            }
        }
    }
}

/// Conservation of occurrences: for every letter, the `Exact` and `Present`
/// verdicts together never outnumber the letter's occurrences in the secret,
/// and reach that number whenever the guess offers at least as many
/// occurrences as the secret holds.
pub proof fn lemma_exactness_conservation(s: Seq<u8>, g: Seq<u8>, c: u8)
    requires
        wf_word(s),
        wf_word(g),
    ensures
        classified_count(g, classify_all(s, g), c, Classification::Exact) + classified_count(
            g,
            classify_all(s, g),
            c,
            Classification::Present,
        ) <= count_of(s, c),
        count_of(g, c) >= count_of(s, c) ==> classified_count(
            g,
            classify_all(s, g),
            c,
            Classification::Exact,
        ) + classified_count(g, classify_all(s, g), c, Classification::Present) == count_of(s, c),
{
    let k = g.len() as int;
    lemma_exact_positions(s, g, c, k);
    lemma_present_positions(s, g, c, k);
    lemma_secret_split(s, g, c, k);
    lemma_guess_split(s, g, c, k);
    lemma_misplaced_guess_bounds(s, g, c, k);
    lemma_misplaced_secret_bounds(s, g, c, k);
    lemma_exact_upto_bounds(s, g, c, k);
}

/// A guess equal to the secret is judged `Exact` at every position.
pub proof fn lemma_self_match(s: Seq<u8>)
    requires
        wf_word(s),
    ensures
        forall|i: int|
            0 <= i < s.len() ==> classify_all(s, s)[i] == Classification::Exact,
{
}

/// When guess and secret share no letters, every position is judged `Absent`.
pub proof fn lemma_disjoint_alphabets(s: Seq<u8>, g: Seq<u8>)
    requires
        wf_word(s),
        wf_word(g),
        forall|i: int| 0 <= i < g.len() ==> count_of(s, #[trigger] g[i]) == 0,
    ensures
        forall|i: int|
            0 <= i < g.len() ==> classify_all(s, g)[i] == Classification::Absent,
{
    assert forall|i: int| 0 <= i < g.len() implies classify_all(s, g)[i]
        == Classification::Absent by {
        let c = g[i];
        if g[i] == s[i] {
            lemma_count_upto_positive(s, c, s.len() as int, i);
        } else {
            lemma_secret_split(s, g, c, s.len() as int);
            lemma_exact_upto_bounds(s, g, c, s.len() as int);
            lemma_misplaced_guess_bounds(s, g, c, i);
            assert(misplaced_guess_upto(s, g, c, i + 1) == misplaced_guess_upto(s, g, c, i) + 1);
            assert(pool_of(s, g, c) <= 0);
        }
    }
}

} // verus!
