//! The knowledge tracker: everything the guesses of one game have revealed
//! about the secret word, with the consistency checks used by strict mode and
//! by the hint filter.

use vstd::prelude::*;
use crate::feedback::{classified_upto, Classification};
use crate::words::{
    copy_word, is_letter, letter_at, letter_index, wf_word, ALPHA_LEN, FIRST_LETTER, WORD_LEN,
};

verus! {

/// The best status ever observed for one letter, ordered by informativeness.
#[derive(Clone, Copy, PartialEq, Eq, Structural, Debug)]
pub enum LetterStatus {
    /// The letter has not appeared in any guess yet.
    Unknown,
    /// Every appearance of the letter so far was judged `Absent`.
    Absent,
    /// The letter was judged `Present` somewhere, but no position is confirmed.
    PresentSomewhere,
    /// Some guess matched the letter exactly at a position.
    ConfirmedPosition,
}

/// Informativeness of a status: higher ranks dominate lower ones.
pub open spec fn rank(s: LetterStatus) -> int {
    match s {
        LetterStatus::Unknown => 0,
        LetterStatus::Absent => 1,
        LetterStatus::PresentSomewhere => 2,
        LetterStatus::ConfirmedPosition => 3,
    }
}

/// The more informative of two statuses; a status is never downgraded.
pub open spec fn status_join(a: LetterStatus, b: LetterStatus) -> LetterStatus {
    if rank(b) > rank(a) {
        b
    } else {
        a
    }
}

pub proof fn lemma_status_join_assoc(a: LetterStatus, b: LetterStatus, c: LetterStatus)
    ensures
        status_join(status_join(a, b), c) == status_join(a, status_join(b, c)),
{
}

/// The mathematical model of the tracker's state.
#[verifier::ext_equal]
pub struct Knowledge {
    /// Best status per letter, indexed by alphabet index.
    pub status: Seq<LetterStatus>,
    /// Per position, the letter confirmed there by an exact match, if any.
    pub confirmed: Seq<Option<u8>>,
    /// Per letter, the best lower bound so far on its occurrences in the
    /// secret, indexed by alphabet index.
    pub min_occ: Seq<int>,
}

/// Well-formed knowledge: the right dimensions, letters where letters belong,
/// and no negative bound.
pub open spec fn k_wf(k: Knowledge) -> bool {
    &&& k.status.len() == ALPHA_LEN
    &&& k.confirmed.len() == WORD_LEN
    &&& k.min_occ.len() == ALPHA_LEN
    &&& forall|i: int|
        0 <= i < WORD_LEN ==> match #[trigger] k.confirmed[i] {
            Some(l) => is_letter(l),
            None => true,
        }
    &&& forall|c: int| 0 <= c < ALPHA_LEN ==> 0 <= #[trigger] k.min_occ[c]
}

/// The state of a game with no guesses yet.
pub open spec fn fresh_knowledge() -> Knowledge {
    Knowledge {
        status: Seq::new(ALPHA_LEN as nat, |c: int| LetterStatus::Unknown),
        confirmed: Seq::new(WORD_LEN as nat, |i: int| None::<u8>),
        min_occ: Seq::new(ALPHA_LEN as nat, |c: int| 0int),
    }
}

/// What one verdict contributes to the status of its letter.
pub open spec fn verdict_status(cl: Classification) -> LetterStatus {
    match cl {
        Classification::Exact => LetterStatus::ConfirmedPosition,
        Classification::Present => LetterStatus::PresentSomewhere,
        Classification::Absent => LetterStatus::Absent,
    }
}

/// The joined contribution of the first `k` positions of one guess to the
/// status of letter `c`.
pub open spec fn guess_status_upto(g: Seq<u8>, r: Seq<Classification>, c: u8, k: int) -> LetterStatus
    decreases k,
{
    if k <= 0 {
        LetterStatus::Unknown
    } else {
        status_join(
            guess_status_upto(g, r, c, k - 1),
            if g[k - 1] == c {
                verdict_status(r[k - 1])
            } else {
                LetterStatus::Unknown
            },
        )
    }
}

/// The contribution of a whole guess to the status of letter `c`.
pub open spec fn guess_status(g: Seq<u8>, r: Seq<Classification>, c: u8) -> LetterStatus {
    guess_status_upto(g, r, c, g.len() as int)
}

/// Among the first `k` positions, how many carry letter `c` judged `Exact`
/// or `Present`: a lower bound on the occurrences of `c` in the secret.
pub open spec fn hits_upto(g: Seq<u8>, r: Seq<Classification>, c: u8, k: int) -> int {
    classified_upto(g, r, c, Classification::Exact, k) + classified_upto(
        g,
        r,
        c,
        Classification::Present,
        k,
    )
}

/// The occurrences of `c` that a whole guess proves.
pub open spec fn hits_of(g: Seq<u8>, r: Seq<Classification>, c: u8) -> int {
    hits_upto(g, r, c, g.len() as int)
}

pub proof fn lemma_hits_upto_bounds(g: Seq<u8>, r: Seq<Classification>, c: u8, k: int)
    requires
        0 <= k,
    ensures
        0 <= hits_upto(g, r, c, k) <= k,
    decreases k,
{
    if k > 0 {
        lemma_hits_upto_bounds(g, r, c, k - 1);
    }
}

pub open spec fn spec_max(a: int, b: int) -> int {
    if a >= b {
        a
    } else {
        b
    }
}

/// The model of one `update` call: statuses only rise, a first exact match
/// pins its position for good, and occurrence bounds only grow.
pub open spec fn k_update(k: Knowledge, g: Seq<u8>, r: Seq<Classification>) -> Knowledge {
    Knowledge {
        status: Seq::new(
            ALPHA_LEN as nat,
            |c: int| status_join(k.status[c], guess_status(g, r, letter_at(c))),
        ),
        confirmed: Seq::new(
            WORD_LEN as nat,
            |i: int|
                if r[i] == Classification::Exact && k.confirmed[i] is None {
                    Some(g[i])
                } else {
                    k.confirmed[i]
                },
        ),
        min_occ: Seq::new(
            ALPHA_LEN as nat,
            |c: int| spec_max(k.min_occ[c], hits_of(g, r, letter_at(c))),
        ),
    }
}

/// Positions among the first `k` confirmed to hold letter `c`.
pub open spec fn conf_count_upto(conf: Seq<Option<u8>>, c: u8, k: int) -> int
    decreases k,
{
    if k <= 0 {
        0
    } else {
        conf_count_upto(conf, c, k - 1) + if conf[k - 1] == Some(c) {
            1int
        } else {
            0int
        }
    }
}

/// Occurrences of letter `c` in `w` at positions among the first `k` that no
/// exact match has confirmed yet.
pub open spec fn unconf_count_upto(w: Seq<u8>, conf: Seq<Option<u8>>, c: u8, k: int) -> int
    decreases k,
{
    if k <= 0 {
        0
    } else {
        unconf_count_upto(w, conf, c, k - 1) + if w[k - 1] == c && conf[k - 1] is None {
            1int
        } else {
            0int
        }
    }
}

pub proof fn lemma_conf_count_upto_bounds(conf: Seq<Option<u8>>, c: u8, k: int)
    requires
        0 <= k,
    ensures
        0 <= conf_count_upto(conf, c, k) <= k,
    decreases k,
{
    if k > 0 {
        lemma_conf_count_upto_bounds(conf, c, k - 1);
    }
}

pub proof fn lemma_unconf_count_upto_bounds(w: Seq<u8>, conf: Seq<Option<u8>>, c: u8, k: int)
    requires
        0 <= k,
    ensures
        0 <= unconf_count_upto(w, conf, c, k) <= k,
    decreases k,
{
    if k > 0 {
        lemma_unconf_count_upto_bounds(w, conf, c, k - 1);
    }
}

/// The candidate repeats every letter already confirmed by an exact match.
pub open spec fn matches_confirmed(k: Knowledge, w: Seq<u8>) -> bool {
    forall|i: int|
        0 <= i < WORD_LEN ==> match #[trigger] k.confirmed[i] {
            Some(l) => w[i] == l,
            None => true,
        }
}

/// For every letter, the candidate's occurrences at unconfirmed positions
/// together with the confirmed positions of that letter cover the letter's
/// occurrence bound.
pub open spec fn meets_min_occurrences(k: Knowledge, w: Seq<u8>) -> bool {
    forall|c: int|
        0 <= c < ALPHA_LEN ==> unconf_count_upto(w, k.confirmed, letter_at(c), WORD_LEN as int)
            + conf_count_upto(k.confirmed, letter_at(c), WORD_LEN as int) >= #[trigger] k.min_occ[c]
}

/// Strict-mode consistency: the candidate honours every confirmed position and
/// every occurrence bound.
pub open spec fn spec_consistent(k: Knowledge, w: Seq<u8>) -> bool {
    matches_confirmed(k, w) && meets_min_occurrences(k, w)
}

/// The candidate uses no letter whose status is `Absent`.
pub open spec fn no_absent_letters(k: Knowledge, w: Seq<u8>) -> bool {
    forall|i: int|
        0 <= i < WORD_LEN ==> k.status[letter_index(#[trigger] w[i])] != LetterStatus::Absent
}

/// Hint consistency: strict-mode consistency, and additionally no letter that
/// is known absent anywhere in the word.
pub open spec fn spec_hint_ok(k: Knowledge, w: Seq<u8>) -> bool {
    spec_consistent(k, w) && no_absent_letters(k, w)
}

/// The words of `ws`, in order, that pass the hint consistency check.
pub open spec fn hint_filter(k: Knowledge, ws: Seq<Seq<u8>>) -> Seq<Seq<u8>>
    decreases ws.len(),
{
    if ws.len() == 0 {
        Seq::empty()
    } else {
        let prefix = hint_filter(k, ws.drop_last());
        if spec_hint_ok(k, ws.last()) {
            prefix.push(ws.last())
        } else {
            prefix
        }
    }
}

/// The views of a sequence of words.
pub open spec fn words_view(ws: Seq<Vec<u8>>) -> Seq<Seq<u8>> {
    ws.map_values(|v: Vec<u8>| v@)
}

/// The tracker's state, owned by one game and reset when the secret changes.
pub struct KnowledgeState {
    status: Vec<LetterStatus>,
    confirmed: Vec<Option<u8>>,
    min_occ: Vec<u64>,
}

impl View for KnowledgeState {
    type V = Knowledge;

    closed spec fn view(&self) -> Knowledge {
        Knowledge {
            status: self.status@,
            confirmed: self.confirmed@,
            min_occ: self.min_occ@.map_values(|m: u64| m as int),
        }
    }
}

impl KnowledgeState {
    pub open spec fn wf(&self) -> bool {
        k_wf(self@)
    }

    /// A tracker that has learned nothing yet.
    pub fn new() -> (s: Self)
        ensures
            s.wf(),
            s@ == fresh_knowledge(),
    {
        let mut status: Vec<LetterStatus> = Vec::new();
        let mut min_occ: Vec<u64> = Vec::new();
        let mut c: usize = 0;
        while c < ALPHA_LEN
            invariant
                c <= ALPHA_LEN,
                status@.len() == c,
                min_occ@.len() == c,
                forall|d: int| 0 <= d < c ==> status@[d] == LetterStatus::Unknown,
                forall|d: int| 0 <= d < c ==> min_occ@[d] == 0,
            decreases ALPHA_LEN - c,
        {
            status.push(LetterStatus::Unknown);
            min_occ.push(0);
            c += 1;
        }
        let mut confirmed: Vec<Option<u8>> = Vec::new();
        let mut i: usize = 0;
        while i < WORD_LEN
            invariant
                i <= WORD_LEN,
                confirmed@.len() == i,
                forall|j: int| 0 <= j < i ==> confirmed@[j] is None,
            decreases WORD_LEN - i,
        {
            confirmed.push(None);
            i += 1;
        }
        let s = KnowledgeState { status, confirmed, min_occ };
        proof {
            assert(s@ =~= fresh_knowledge());
        }
        s
    }

    /// Forget everything: the next secret word begins a new game.
    pub fn reset(&mut self)
        ensures
            final(self).wf(),
            final(self)@ == fresh_knowledge(),
    {
        *self = KnowledgeState::new();
    }

    /// The recorded status of one letter.
    pub fn letter_status(&self, c: u8) -> (r: LetterStatus)
        requires
            self.wf(),
            is_letter(c),
        ensures
            r == self@.status[letter_index(c)],
    {
        self.status[(c - FIRST_LETTER) as usize]
    }

    /// The letter confirmed at one position, if any guess matched there.
    pub fn confirmed_letter(&self, i: usize) -> (r: Option<u8>)
        requires
            self.wf(),
            i < WORD_LEN,
        ensures
            r == self@.confirmed[i as int],
    {
        self.confirmed[i]
    }

    /// The best known lower bound on a letter's occurrences in the secret.
    pub fn min_occurrences(&self, c: u8) -> (r: u64)
        requires
            self.wf(),
            is_letter(c),
        ensures
            r as int == self@.min_occ[letter_index(c)],
    {
        self.min_occ[(c - FIRST_LETTER) as usize]
    }

    /// Fold one guess's feedback into the accumulated knowledge: statuses are
    /// only raised, a first exact match pins its position, and each letter's
    /// occurrence bound grows to the occurrences this guess proves.
    pub fn update(&mut self, guess: &Vec<u8>, result: &Vec<Classification>)
        requires
            old(self).wf(),
            wf_word(guess@),
            result@.len() == WORD_LEN,
        ensures
            final(self).wf(),
            final(self)@ == k_update(old(self)@, guess@, result@),
    {
        let ghost k0 = self@;
        let ghost g = guess@;
        let ghost r = result@;
        let ghost ku = k_update(k0, g, r);
        let mut i: usize = 0;
        while i < WORD_LEN
            invariant
                i <= WORD_LEN,
                wf_word(g),
                r.len() == WORD_LEN,
                g == guess@,
                r == result@,
                k_wf(k0),
                self.status@.len() == ALPHA_LEN,
                self.confirmed@.len() == WORD_LEN,
                self.min_occ@.map_values(|m: u64| m as int) == k0.min_occ,
                forall|c: int|
                    0 <= c < ALPHA_LEN ==> #[trigger] self.status@[c] == status_join(
                        k0.status[c],
                        guess_status_upto(g, r, letter_at(c), i as int),
                    ),
                forall|j: int|
                    0 <= j < WORD_LEN ==> #[trigger] self.confirmed@[j] == (
                    if j < i && r[j] == Classification::Exact && k0.confirmed[j] is None {
                        Some(g[j])
                    } else {
                        k0.confirmed[j]
                    }),
            decreases WORD_LEN - i,
        {
            let gc = guess[i];
            let ci = (gc - FIRST_LETTER) as usize;
            proof {
                assert(letter_at(ci as int) == gc);
            }
            let cl = result[i];
            match cl {
                Classification::Exact => {
                    let cur = self.status[ci];
                    self.status[ci] = join_status(cur, LetterStatus::ConfirmedPosition);
                    if self.confirmed[i].is_none() {
                        self.confirmed[i] = Some(gc);
                    }
                },
                Classification::Present => {
                    let cur = self.status[ci];
                    self.status[ci] = join_status(cur, LetterStatus::PresentSomewhere);
                },
                Classification::Absent => {
                    let cur = self.status[ci];
                    self.status[ci] = join_status(cur, LetterStatus::Absent);
                },
            }
            i += 1;
            proof {
                assert forall|c: int|
                    0 <= c < ALPHA_LEN implies #[trigger] self.status@[c] == status_join(
                    k0.status[c],
                    guess_status_upto(g, r, letter_at(c), i as int),
                ) by {
                    lemma_status_join_assoc(
                        k0.status[c],
                        guess_status_upto(g, r, letter_at(c), i - 1),
                        if g[i - 1] == letter_at(c) {
                            verdict_status(r[i - 1])
                        } else {
                            LetterStatus::Unknown
                        },
                    );
                }
            }
        }
        proof {
            assert(self.status@ =~= ku.status);
            assert(self.confirmed@ =~= ku.confirmed);
        }
        // Count, per letter, the occurrences this guess proves.
        let mut seen: Vec<u64> = Vec::new();
        let mut c: usize = 0;
        while c < ALPHA_LEN
            invariant
                c <= ALPHA_LEN,
                seen@.len() == c,
                forall|d: int| 0 <= d < c ==> seen@[d] == 0,
            decreases ALPHA_LEN - c,
        {
            seen.push(0);
            c += 1;
        }
        let mut i: usize = 0;
        while i < WORD_LEN
            invariant
                i <= WORD_LEN,
                wf_word(g),
                r.len() == WORD_LEN,
                g == guess@,
                r == result@,
                seen@.len() == ALPHA_LEN,
                self.status@ == ku.status,
                self.confirmed@ == ku.confirmed,
                self.min_occ@.map_values(|m: u64| m as int) == k0.min_occ,
                forall|d: int|
                    0 <= d < ALPHA_LEN ==> #[trigger] seen@[d] as int == hits_upto(
                        g,
                        r,
                        letter_at(d),
                        i as int,
                    ),
            decreases WORD_LEN - i,
        {
            let gc = guess[i];
            let ci = (gc - FIRST_LETTER) as usize;
            proof {
                assert(letter_at(ci as int) == gc);
                lemma_hits_upto_bounds(g, r, gc, i as int);
            }
            let cl = result[i];
            match cl {
                Classification::Absent => {},
                _ => {
                    let cur = seen[ci];
                    seen[ci] = cur + 1;
                },
            }
            i += 1;
            proof {
                assert forall|d: int|
                    0 <= d < ALPHA_LEN implies #[trigger] seen@[d] as int == hits_upto(
                    g,
                    r,
                    letter_at(d),
                    i as int,
                ) by {
                }
            }
        }
        // Raise each letter's bound to the occurrences just proved.
        let mut c: usize = 0;
        while c < ALPHA_LEN
            invariant
                c <= ALPHA_LEN,
                wf_word(g),
                r.len() == WORD_LEN,
                g == guess@,
                r == result@,
                k_wf(k0),
                seen@.len() == ALPHA_LEN,
                self.min_occ@.len() == ALPHA_LEN,
                self.status@ == ku.status,
                self.confirmed@ == ku.confirmed,
                forall|d: int|
                    0 <= d < ALPHA_LEN ==> #[trigger] seen@[d] as int == hits_of(
                        g,
                        r,
                        letter_at(d),
                    ),
                forall|d: int|
                    c <= d < ALPHA_LEN ==> #[trigger] self.min_occ@[d] as int == k0.min_occ[d],
                forall|d: int|
                    0 <= d < c ==> #[trigger] self.min_occ@[d] as int == spec_max(
                        k0.min_occ[d],
                        hits_of(g, r, letter_at(d)),
                    ),
            decreases ALPHA_LEN - c,
        {
            if seen[c] > self.min_occ[c] {
                let v = seen[c];
                self.min_occ[c] = v;
            }
            c += 1;
        }
        proof {
            assert(self.min_occ@.map_values(|m: u64| m as int) =~= ku.min_occ);
            assert(self@ =~= ku);
            assert forall|j: int|
                0 <= j < WORD_LEN implies match #[trigger] ku.confirmed[j] {
                Some(l) => is_letter(l),
                None => true,
            } by {
            }
            assert forall|d: int| 0 <= d < ALPHA_LEN implies 0 <= #[trigger] ku.min_occ[d] by {
                lemma_hits_upto_bounds(g, r, letter_at(d), g.len() as int);
            }
        }
    }

    /// Strict-mode validation: whether the candidate honours every confirmed
    /// position and every letter's occurrence bound.
    pub fn is_consistent(&self, candidate: &Vec<u8>) -> (b: bool)
        requires
            self.wf(),
            wf_word(candidate@),
        ensures
            b == spec_consistent(self@, candidate@),
    {
        let ghost w = candidate@;
        let ghost conf = self@.confirmed;
        let mut i: usize = 0;
        while i < WORD_LEN
            invariant
                i <= WORD_LEN,
                self.wf(),
                wf_word(w),
                w == candidate@,
                conf == self@.confirmed,
                forall|j: int|
                    0 <= j < i ==> match #[trigger] conf[j] {
                        Some(l) => w[j] == l,
                        None => true,
                    },
            decreases WORD_LEN - i,
        {
            match self.confirmed[i] {
                Some(l) => {
                    if candidate[i] != l {
                        return false;
                    }
                },
                None => {},
            }
            i += 1;
        }
        // Count the candidate's letters at unconfirmed positions, and the
        // letters the confirmed positions already supply.
        let mut unconf: Vec<u64> = Vec::new();
        let mut confc: Vec<u64> = Vec::new();
        let mut c: usize = 0;
        while c < ALPHA_LEN
            invariant
                c <= ALPHA_LEN,
                unconf@.len() == c,
                confc@.len() == c,
                forall|d: int| 0 <= d < c ==> unconf@[d] == 0,
                forall|d: int| 0 <= d < c ==> confc@[d] == 0,
            decreases ALPHA_LEN - c,
        {
            unconf.push(0);
            confc.push(0);
            c += 1;
        }
        let mut i: usize = 0;
        while i < WORD_LEN
            invariant
                i <= WORD_LEN,
                self.wf(),
                wf_word(w),
                w == candidate@,
                conf == self@.confirmed,
                unconf@.len() == ALPHA_LEN,
                confc@.len() == ALPHA_LEN,
                forall|d: int|
                    0 <= d < ALPHA_LEN ==> #[trigger] unconf@[d] as int == unconf_count_upto(
                        w,
                        conf,
                        letter_at(d),
                        i as int,
                    ),
                forall|d: int|
                    0 <= d < ALPHA_LEN ==> #[trigger] confc@[d] as int == conf_count_upto(
                        conf,
                        letter_at(d),
                        i as int,
                    ),
            decreases WORD_LEN - i,
        {
            match self.confirmed[i] {
                Some(l) => {
                    let ci = (l - FIRST_LETTER) as usize;
                    proof {
                        assert(letter_at(ci as int) == l);
                        lemma_conf_count_upto_bounds(conf, l, i as int);
                    }
                    let cur = confc[ci];
                    confc[ci] = cur + 1;
                },
                None => {
                    let gc = candidate[i];
                    let ci = (gc - FIRST_LETTER) as usize;
                    proof {
                        assert(letter_at(ci as int) == gc);
                        lemma_unconf_count_upto_bounds(w, conf, gc, i as int);
                    }
                    let cur = unconf[ci];
                    unconf[ci] = cur + 1;
                },
            }
            i += 1;
            proof {
                assert forall|d: int|
                    0 <= d < ALPHA_LEN implies #[trigger] unconf@[d] as int == unconf_count_upto(
                    w,
                    conf,
                    letter_at(d),
                    i as int,
                ) && #[trigger] confc@[d] as int == conf_count_upto(conf, letter_at(d), i as int) by {
                }
            }
        }
        let mut c: usize = 0;
        while c < ALPHA_LEN
            invariant
                c <= ALPHA_LEN,
                self.wf(),
                wf_word(w),
                w == candidate@,
                conf == self@.confirmed,
                unconf@.len() == ALPHA_LEN,
                confc@.len() == ALPHA_LEN,
                forall|d: int|
                    0 <= d < ALPHA_LEN ==> #[trigger] unconf@[d] as int == unconf_count_upto(
                        w,
                        conf,
                        letter_at(d),
                        WORD_LEN as int,
                    ),
                forall|d: int|
                    0 <= d < ALPHA_LEN ==> #[trigger] confc@[d] as int == conf_count_upto(
                        conf,
                        letter_at(d),
                        WORD_LEN as int,
                    ),
                forall|d: int|
                    0 <= d < c ==> unconf_count_upto(w, conf, letter_at(d), WORD_LEN as int)
                        + conf_count_upto(conf, letter_at(d), WORD_LEN as int)
                        >= #[trigger] self@.min_occ[d],
            decreases ALPHA_LEN - c,
        {
            proof {
                lemma_unconf_count_upto_bounds(w, conf, letter_at(c as int), WORD_LEN as int);
                lemma_conf_count_upto_bounds(conf, letter_at(c as int), WORD_LEN as int);
            }
            if unconf[c] + confc[c] < self.min_occ[c] {
                proof {
                    assert(self@.min_occ[c as int] == self.min_occ@[c as int] as int);
                    assert(unconf_count_upto(w, conf, letter_at(c as int), WORD_LEN as int)
                        + conf_count_upto(conf, letter_at(c as int), WORD_LEN as int)
                        < self@.min_occ[c as int]);
                    assert(!meets_min_occurrences(self@, w));
                }
                return false;
            }
            c += 1;
        }
        true
    }

    /// Hint check: strict-mode consistency, and no letter whose status is
    /// `Absent` anywhere in the candidate.
    pub fn is_hint_candidate(&self, candidate: &Vec<u8>) -> (b: bool)
        requires
            self.wf(),
            wf_word(candidate@),
        ensures
            b == spec_hint_ok(self@, candidate@),
    {
        if !self.is_consistent(candidate) {
            return false;
        }
        let mut i: usize = 0;
        while i < WORD_LEN
            invariant
                i <= WORD_LEN,
                self.wf(),
                wf_word(candidate@),
                spec_consistent(self@, candidate@),
                forall|j: int|
                    0 <= j < i ==> self@.status[letter_index(#[trigger] candidate@[j])]
                        != LetterStatus::Absent,
            decreases WORD_LEN - i,
        {
            let gc = candidate[i];
            let ci = (gc - FIRST_LETTER) as usize;
            proof {
                assert(letter_index(gc) == ci as int);
            }
            let st = self.status[ci];
            if st == LetterStatus::Absent {
                return false;
            }
            i += 1;
        }
        true
    }

    /// The words of the dictionary, in order, that the hint check accepts.
    pub fn filter_candidates(&self, dict: &Vec<Vec<u8>>) -> (r: Vec<Vec<u8>>)
        requires
            self.wf(),
            forall|i: int| 0 <= i < dict@.len() ==> wf_word(#[trigger] dict@[i]@),
        ensures
            words_view(r@) == hint_filter(self@, words_view(dict@)),
    {
        let ghost ws = words_view(dict@);
        let mut r: Vec<Vec<u8>> = Vec::new();
        let mut i: usize = 0;
        while i < dict.len()
            invariant
                i <= dict@.len(),
                self.wf(),
                forall|j: int| 0 <= j < dict@.len() ==> wf_word(#[trigger] dict@[j]@),
                ws == words_view(dict@),
                words_view(r@) == hint_filter(self@, ws.take(i as int)),
            decreases dict@.len() - i,
        {
            let ghost r_pre = r@;
            let cand = &dict[i];
            let keep = self.is_hint_candidate(cand);
            if keep {
                let cw = copy_word(cand);
                r.push(cw);
            }
            i += 1;
            proof {
                let t = ws.take(i as int);
                assert(t.drop_last() =~= ws.take(i - 1));
                assert(t.last() == dict@[i - 1]@);
                if keep {
                    assert(words_view(r@) =~= hint_filter(self@, ws.take(i - 1)).push(
                        dict@[i - 1]@,
                    ));
                } else {
                    assert(words_view(r@) == hint_filter(self@, ws.take(i - 1)));
                }
            }
        }
        proof {
            assert(ws.take(dict@.len() as int) =~= ws);
        }
        r
    }
}

/// Dominance of knowledge: every status at least as informative, every
/// occurrence bound at least as large, and every confirmed position kept
/// exactly as it was.
pub open spec fn k_dominates(k2: Knowledge, k1: Knowledge) -> bool {
    &&& forall|c: int|
        0 <= c < ALPHA_LEN ==> rank(#[trigger] k2.status[c]) >= rank(k1.status[c])
    &&& forall|c: int| 0 <= c < ALPHA_LEN ==> #[trigger] k2.min_occ[c] >= k1.min_occ[c]
    &&& forall|i: int|
        0 <= i < WORD_LEN ==> (k1.confirmed[i] is Some ==> #[trigger] k2.confirmed[i]
            == k1.confirmed[i])
}

/// Knowledge is monotone: one update never lowers a letter's status, never
/// shrinks an occurrence bound, and never moves a confirmed position.
pub proof fn lemma_update_monotonic(k: Knowledge, g: Seq<u8>, r: Seq<Classification>)
    requires
        k_wf(k),
    ensures
        k_dominates(k_update(k, g, r), k),
{
}

/// Dominance carries over any sequence of updates, step by step.
pub proof fn lemma_dominates_transitive(k3: Knowledge, k2: Knowledge, k1: Knowledge)
    requires
        k_dominates(k3, k2),
        k_dominates(k2, k1),
    ensures
        k_dominates(k3, k1),
{
}

/// Once a position is confirmed, any candidate placing a different letter
/// there fails the strict-mode check.
pub proof fn lemma_confirmed_position_rejects(k: Knowledge, w: Seq<u8>, i: int, l: u8)
    requires
        0 <= i < WORD_LEN,
        k.confirmed[i] == Some(l),
        w[i] != l,
    ensures
        !spec_consistent(k, w),
{
}

/// A fresh tracker accepts every well-formed candidate, in the strict-mode
/// check and in the hint check alike.
pub proof fn lemma_fresh_accepts(w: Seq<u8>)
    requires
        wf_word(w),
    ensures
        spec_consistent(fresh_knowledge(), w),
        spec_hint_ok(fresh_knowledge(), w),
{
    let k = fresh_knowledge();
    assert forall|c: int|
        0 <= c < ALPHA_LEN implies unconf_count_upto(w, k.confirmed, letter_at(c), WORD_LEN as int)
        + conf_count_upto(k.confirmed, letter_at(c), WORD_LEN as int) >= #[trigger] k.min_occ[c] by {
        lemma_unconf_count_upto_bounds(w, k.confirmed, letter_at(c), WORD_LEN as int);
        lemma_conf_count_upto_bounds(k.confirmed, letter_at(c), WORD_LEN as int);
    }
    assert forall|i: int|
        0 <= i < WORD_LEN implies k.status[letter_index(#[trigger] w[i])]
        != LetterStatus::Absent by {
        assert(is_letter(w[i]));
    }
}

/// A fresh tracker filters nothing: the dictionary comes back whole.
pub proof fn lemma_fresh_filter_identity(ws: Seq<Seq<u8>>)
    requires
        forall|i: int| 0 <= i < ws.len() ==> wf_word(#[trigger] ws[i]),
    ensures
        hint_filter(fresh_knowledge(), ws) == ws,
    decreases ws.len(),
{
    if ws.len() == 0 {
        assert(hint_filter(fresh_knowledge(), ws) =~= ws);
    } else {
        lemma_fresh_filter_identity(ws.drop_last());
        lemma_fresh_accepts(ws.last());
        assert(hint_filter(fresh_knowledge(), ws) =~= ws);
    }
}

/// Everything the hint filter returns came from the dictionary and passes the
/// hint consistency check: the filter invents nothing and keeps nothing that
/// contradicts the recorded knowledge.
pub proof fn lemma_hint_filter_sound(k: Knowledge, ws: Seq<Seq<u8>>, w: Seq<u8>)
    requires
        hint_filter(k, ws).contains(w),
    ensures
        ws.contains(w),
        spec_hint_ok(k, w),
    decreases ws.len(),
{
    if ws.len() > 0 {
        let prefix = hint_filter(k, ws.drop_last());
        if spec_hint_ok(k, ws.last()) && w == ws.last() {
            assert(ws[ws.len() - 1] == w);
        } else {
            assert(prefix.contains(w));
            lemma_hint_filter_sound(k, ws.drop_last(), w);
            let j = choose|j: int| 0 <= j < ws.drop_last().len() && ws.drop_last()[j] == w;
            assert(ws[j] == w);
        }
    }
}

fn status_rank(s: LetterStatus) -> (r: u8)
    ensures
        r as int == rank(s),
{
    match s {
        LetterStatus::Unknown => 0,
        LetterStatus::Absent => 1,
        LetterStatus::PresentSomewhere => 2,
        LetterStatus::ConfirmedPosition => 3,
    }
}

fn join_status(a: LetterStatus, b: LetterStatus) -> (r: LetterStatus)
    ensures
        r == status_join(a, b),
{
    if status_rank(b) > status_rank(a) {
        b
    } else {
        a
    }
}

} // verus!
