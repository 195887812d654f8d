//! The Caesar cipher: every letter moves by the same number of places.

use crate::lowercase_string::{
    all_letters, lemma_normalized_letters, lemma_normalized_rendered, normalized, rendered,
    shifted, LowercaseString,
};
use crate::utils::{chi_squared_english_score, english_score, score_less};
use vstd::prelude::*;

verus! {

/// The ciphertext of `text` under `shift`: its letters, lowercased, each
/// moved forward by `shift` places modulo 26.
pub open spec fn encrypted(text: Seq<char>, shift: int) -> Seq<char> {
    rendered(shifted(normalized(text), shift))
}

/// The plaintext of `text` under `shift`: encryption by the complementary
/// shift `26 - shift mod 26`.
pub open spec fn decrypted(text: Seq<char>, shift: int) -> Seq<char> {
    encrypted(text, 26 - shift % 26)
}

/// The score of the text `t` moved by `shift` places.
pub open spec fn candidate_score(t: Seq<u8>, shift: int) -> Option<real> {
    english_score(shifted(t, shift))
}

/// Whether `shift` is the first of the shifts below `limit` whose candidate
/// has the smallest score: every earlier candidate scores strictly more,
/// and no later one scores less.
pub open spec fn is_first_minimum(t: Seq<u8>, shift: int, limit: int) -> bool {
    &&& 0 <= shift < limit
    &&& forall|j: int|
        0 <= j < shift ==> score_less(candidate_score(t, shift), #[trigger] candidate_score(t, j))
    &&& forall|j: int|
        shift <= j < limit ==> !score_less(
            #[trigger] candidate_score(t, j),
            candidate_score(t, shift),
        )
}

/// The shift that the solver picks for the text `t`: among the shifts 0 to
/// 25, the first whose candidate has the smallest score.
pub open spec fn best_shift(t: Seq<u8>) -> int {
    choose|shift: int| is_first_minimum(t, shift, 26)
}

/// The solution of the ciphertext `text`: its letters moved by the best
/// shift.
pub open spec fn solved(text: Seq<char>) -> Seq<char> {
    rendered(shifted(normalized(text), best_shift(normalized(text))))
}

/// Among any positive number of shifts there is a first minimum.
pub proof fn lemma_first_minimum_exists(t: Seq<u8>, limit: int)
    requires
        limit >= 1,
    ensures
        exists|shift: int| is_first_minimum(t, shift, limit),
    decreases limit,
{
    if limit == 1 {
        assert(is_first_minimum(t, 0, 1));
    } else {
        let last = limit - 1;
        lemma_first_minimum_exists(t, last);
        let before = choose|shift: int| is_first_minimum(t, shift, last);
        if score_less(candidate_score(t, last), candidate_score(t, before)) {
            assert(is_first_minimum(t, last, limit));
        } else {
            assert(is_first_minimum(t, before, limit));
        }
    }
}

/// The best shift is a shift from 0 to 25 whose candidate no other beats,
/// and the first such.
pub proof fn lemma_best_shift(t: Seq<u8>)
    ensures
        is_first_minimum(t, best_shift(t), 26),
{
    lemma_first_minimum_exists(t, 26);
}

/// There is only one first minimum.
pub proof fn lemma_first_minimum_unique(t: Seq<u8>, a: int, b: int, limit: int)
    requires
        is_first_minimum(t, a, limit),
        is_first_minimum(t, b, limit),
    ensures
        a == b,
{
    if a < b {
        assert(score_less(candidate_score(t, b), candidate_score(t, a)));
        assert(!score_less(candidate_score(t, b), candidate_score(t, a)));
    } else if b < a {
        assert(score_less(candidate_score(t, a), candidate_score(t, b)));
        assert(!score_less(candidate_score(t, a), candidate_score(t, b)));
    }
}

/// Finds the shift of a Caesar ciphertext by letter frequencies: of the 26
/// shifted candidates, returns the one closest to English, and the first
/// of them where several are equally close.
pub fn solve(text: &str) -> (r: String)
    ensures
        r@ == solved(text@),
        normalized(text@).len() == 0 ==> r@.len() == 0,
{
    let text = LowercaseString::normalize(text);
    let mut best = text.caesar_shift(0);
    let mut best_score = chi_squared_english_score(&best);
    let ghost mut pick: int = 0;
    let mut shift: i32 = 1;
    while shift < 26
        invariant
            1 <= shift <= 26,
            is_first_minimum(text@, pick, shift as int),
            best@ == shifted(text@, pick),
            best_score@ == candidate_score(text@, pick),
        decreases 26 - shift,
    {
        let candidate = text.caesar_shift(shift);
        let score = chi_squared_english_score(&candidate);
        if score.less_than(&best_score) {
            best = candidate;
            best_score = score;
            proof {
                pick = shift as int;
            }
        }
        shift += 1;
    }
    proof {
        lemma_first_minimum_unique(text@, pick, best_shift(text@), 26);
    }
    best.to_string()
}

/// Encrypts the letters of `text` with a Caesar cipher. Everything but
/// letters is dropped, and case is folded.
pub fn encrypt(text: &str, shift: i32) -> (r: String)
    ensures
        r@ == encrypted(text@, shift as int),
{
    LowercaseString::normalize(text).caesar_shift(shift).to_string()
}

/// Decrypts the letters of `text` with a Caesar cipher. Everything but
/// letters is dropped, and case is folded.
pub fn decrypt(text: &str, shift: i32) -> (r: String)
    ensures
        r@ == decrypted(text@, shift as int),
{
    let back: i32 = match shift.checked_rem_euclid(26) {
        Some(m) => 26 - m,
        None => 26,
    };
    encrypt(text, back)
}

/// Shifting by `shift` and then by its complement restores the text.
pub proof fn lemma_shift_back(t: Seq<u8>, shift: int)
    requires
        all_letters(t),
    ensures
        all_letters(shifted(t, shift)),
        shifted(shifted(t, shift), 26 - shift % 26) == t,
{
    assert(shifted(shifted(t, shift), 26 - shift % 26) =~= t);
}

/// Decrypting a ciphertext with the shift that made it gives the letters
/// of the plaintext, lowercased.
pub proof fn lemma_decrypt_encrypt(text: Seq<char>, shift: int)
    ensures
        decrypted(encrypted(text, shift), shift) == rendered(normalized(text)),
{
    let t = normalized(text);
    lemma_normalized_letters(text);
    lemma_shift_back(t, shift);
    lemma_normalized_rendered(shifted(t, shift));
}

} // verus!
