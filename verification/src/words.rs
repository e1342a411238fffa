//! Words over the fixed lower-case alphabet, and letter counting.

use vstd::prelude::*;

verus! {

/// Number of letters in every word of the game.
pub const WORD_LEN: usize = 5;

/// Number of letters in the alphabet.
pub const ALPHA_LEN: usize = 26;

/// Byte value of the first letter of the alphabet, `a`.
pub const FIRST_LETTER: u8 = 97;

/// Byte value of the last letter of the alphabet, `z`.
pub const LAST_LETTER: u8 = 122;

/// A byte is a letter when it is a lower-case ASCII letter.
pub open spec fn is_letter(b: u8) -> bool {
    FIRST_LETTER <= b && b <= LAST_LETTER
}

/// Index of a letter in the alphabet, from 0 to `ALPHA_LEN - 1`.
pub open spec fn letter_index(b: u8) -> int {
    b - FIRST_LETTER
}

/// The letter standing at an alphabet index.
pub open spec fn letter_at(c: int) -> u8 {
    (c + FIRST_LETTER) as u8
}

/// A well-formed word: exactly `WORD_LEN` letters of the alphabet.
pub open spec fn wf_word(w: Seq<u8>) -> bool {
    w.len() == WORD_LEN && (forall|i: int| 0 <= i < w.len() ==> is_letter(#[trigger] w[i]))
}

/// Occurrences of letter `c` among the first `k` positions of `w`.
pub open spec fn count_upto(w: Seq<u8>, c: u8, k: int) -> int
    decreases k,
{
    if k <= 0 {
        0
    } else {
        count_upto(w, c, k - 1) + if w[k - 1] == c {
            1int
        } else {
            0int
        }
    }
}

/// Occurrences of letter `c` in the whole of `w`.
pub open spec fn count_of(w: Seq<u8>, c: u8) -> int {
    count_upto(w, c, w.len() as int)
}

pub proof fn lemma_count_upto_bounds(w: Seq<u8>, c: u8, k: int)
    requires
        0 <= k,
    ensures
        0 <= count_upto(w, c, k) <= k,
    decreases k,
{
    if k > 0 {
        lemma_count_upto_bounds(w, c, k - 1);
    }
}

pub proof fn lemma_count_upto_positive(w: Seq<u8>, c: u8, k: int, j: int)
    requires
        0 <= j < k,
        w[j] == c,
    ensures
        count_upto(w, c, k) >= 1,
    decreases k,
{
    if j == k - 1 {
        lemma_count_upto_bounds(w, c, k - 1);
    } else {
        lemma_count_upto_positive(w, c, k - 1, j);
    }
}

/// Whether `w` is a well-formed word, decided at run time.
pub fn check_word(w: &Vec<u8>) -> (r: bool)
    ensures
        r == wf_word(w@),
{
    if w.len() != WORD_LEN {
        return false;
    }
    let mut i: usize = 0;
    while i < WORD_LEN
        invariant
            w@.len() == WORD_LEN,
            i <= WORD_LEN,
            forall|j: int| 0 <= j < i ==> is_letter(#[trigger] w@[j]),
        decreases WORD_LEN - i,
    {
        let b = w[i];
        if b < FIRST_LETTER || b > LAST_LETTER {
            return false;
        }
        i += 1;
    }
    true
}

/// Whether two words hold the same letters in the same order.
pub fn words_equal(a: &Vec<u8>, b: &Vec<u8>) -> (r: bool)
    ensures
        r == (a@ == b@),
{
    if a.len() != b.len() {
        return false;
    }
    let mut i: usize = 0;
    while i < a.len()
        invariant
            i <= a@.len(),
            a@.len() == b@.len(),
            forall|j: int| 0 <= j < i ==> a@[j] == b@[j],
        decreases a@.len() - i,
    {
        if a[i] != b[i] {
            return false;
        }
        i += 1;
    }
    proof {
        assert(a@ =~= b@);
    }
    true
}

/// Whether `w` stands in `dict`.
pub fn contains_word(dict: &Vec<Vec<u8>>, w: &Vec<u8>) -> (r: bool)
    ensures
        r == (exists|i: int| 0 <= i < dict@.len() && dict@[i]@ == w@),
{
    let mut i: usize = 0;
    while i < dict.len()
        invariant
            i <= dict@.len(),
            forall|j: int| 0 <= j < i ==> dict@[j]@ != w@,
        decreases dict@.len() - i,
    {
        if words_equal(&dict[i], w) {
            return true;
        }
        i += 1;
    }
    false
}

/// A fresh word holding the same letters as `w`.
pub fn copy_word(w: &Vec<u8>) -> (r: Vec<u8>)
    ensures
        r@ == w@,
{
    let mut r: Vec<u8> = Vec::new();
    let mut i: usize = 0;
    while i < w.len()
        invariant
            i <= w@.len(),
            r@.len() == i,
            forall|j: int| 0 <= j < i ==> r@[j] == w@[j],
        decreases w@.len() - i,
    {
        r.push(w[i]);
        i += 1;
    }
    proof {
        assert(r@ =~= w@);
    }
    r
}

} // verus!
