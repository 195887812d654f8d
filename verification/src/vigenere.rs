//! The Vigenère cipher: the letters of a repeating keyword give the shift
//! for each position of the text.

use crate::lowercase_string::{
    all_letters, lemma_normalized_letters, lemma_normalized_rendered, normalized, reduced,
    rendered, LowercaseString,
};
use vstd::prelude::*;

verus! {

/// The shift that the keyword `key` gives for position `i` of a text: the
/// keyword letter at `i mod key.len()`, or its complement to 26 when
/// decrypting.
pub open spec fn key_step(key: Seq<u8>, i: int, decrypt: bool) -> int
    recommends
        key.len() > 0,
{
    let k = key[i % (key.len() as int)];
    if decrypt {
        26 - k
    } else {
        k as int
    }
}

/// The text `text` with each position moved by the step that `key` gives
/// for it, modulo 26.
pub open spec fn keyed(text: Seq<u8>, key: Seq<u8>, decrypt: bool) -> Seq<u8>
    recommends
        key.len() > 0,
{
    Seq::new(text.len(), |i: int| ((text[i] + key_step(key, i, decrypt)) % 26) as u8)
}

/// The Vigenère transform of `text` under `keyword`: nothing where the
/// keyword holds no letter, else the keyed letters of the text spelled out.
pub open spec fn applied(text: Seq<char>, keyword: Seq<char>, decrypt: bool) -> Option<Seq<char>> {
    if normalized(keyword).len() == 0 {
        None
    } else {
        Some(rendered(keyed(normalized(text), normalized(keyword), decrypt)))
    }
}

/// Reducing alphabet positions modulo 26 changes nothing.
pub proof fn lemma_reduced_letters(t: Seq<u8>)
    requires
        all_letters(t),
    ensures
        reduced(t) == t,
{
    assert(reduced(t) =~= t);
}

/// Encrypts or decrypts the letters of `text` under the letters of `keyword`.
pub fn apply(text: &str, keyword: &str, decrypt: bool) -> (r: Option<String>)
    ensures
        r is Some <==> normalized(keyword@).len() > 0,
        match r {
            Some(s) => Some(s@) == applied(text@, keyword@, decrypt),
            None => applied(text@, keyword@, decrypt) is None,
        },
{
    let text = LowercaseString::normalize(text);
    let keyword = LowercaseString::normalize(keyword);
    let text_indices = text.to_indices();
    let key_indices = keyword.to_indices();
    let key_len: usize = key_indices.len();

    if key_len == 0 {
        return None;
    }
    let n: usize = text_indices.len();
    let mut out: Vec<u8> = Vec::new();
    let mut i: usize = 0;
    while i < n
        invariant
            n == text_indices@.len(),
            key_len == key_indices@.len(),
            key_len > 0,
            i <= n,
            all_letters(text_indices@),
            all_letters(key_indices@),
            out@ == keyed(text_indices@, key_indices@, decrypt).take(i as int),
        decreases n - i,
    {
        let c: u8 = text_indices[i];
        let k: u8 = key_indices[i % key_len];
        let shift: u8 = if decrypt {
            26 - k
        } else {
            k
        };
        out.push((c + shift) % 26);
        proof {
            let full = keyed(text_indices@, key_indices@, decrypt);
            assert(full.take(i + 1) =~= full.take(i as int).push(full[i as int]));
        }
        i += 1;
    }
    proof {
        let full = keyed(text_indices@, key_indices@, decrypt);
        assert(full.take(n as int) =~= full);
        lemma_reduced_letters(full);
    }
    Some(LowercaseString::from_indices(out).to_string())
}

/// Encrypts the letters of `text` with the Vigenère cipher. Returns `None`
/// where `keyword` holds no letter.
pub fn encrypt(text: &str, keyword: &str) -> (r: Option<String>)
    ensures
        r is Some <==> normalized(keyword@).len() > 0,
        match r {
            Some(s) => Some(s@) == applied(text@, keyword@, false),
            None => applied(text@, keyword@, false) is None,
        },
{
    apply(text, keyword, false)
}

/// Decrypts the letters of `text` with the Vigenère cipher. Returns `None`
/// where `keyword` holds no letter.
pub fn decrypt(text: &str, keyword: &str) -> (r: Option<String>)
    ensures
        r is Some <==> normalized(keyword@).len() > 0,
        match r {
            Some(s) => Some(s@) == applied(text@, keyword@, true),
            None => applied(text@, keyword@, true) is None,
        },
{
    apply(text, keyword, true)
}

/// Keying a text for encryption and then for decryption with the same
/// keyword restores it.
pub proof fn lemma_keyed_back(text: Seq<u8>, key: Seq<u8>)
    requires
        all_letters(text),
        all_letters(key),
        key.len() > 0,
    ensures
        all_letters(keyed(text, key, false)),
        keyed(keyed(text, key, false), key, true) == text,
{
    assert forall|i: int| 0 <= i < text.len() implies keyed(keyed(text, key, false), key, true)[i]
        == text[i] by {
        let j = i % (key.len() as int);
        assert(0 <= j < key.len());
        assert(key[j] < 26);
        assert(text[i] < 26);
    }
    assert(keyed(keyed(text, key, false), key, true) =~= text);
}

/// Decrypting a Vigenère ciphertext with the keyword that made it gives the
/// letters of the plaintext, lowercased, for every keyword that holds a
/// letter.
pub proof fn lemma_decrypt_encrypt(text: Seq<char>, keyword: Seq<char>)
    requires
        normalized(keyword).len() > 0,
    ensures
        applied(text, keyword, false) is Some,
        applied(applied(text, keyword, false)->0, keyword, true) == Some(
            rendered(normalized(text)),
        ),
{
    let t = normalized(text);
    let k = normalized(keyword);
    lemma_normalized_letters(text);
    lemma_normalized_letters(keyword);
    lemma_keyed_back(t, k);
    lemma_normalized_rendered(keyed(t, k, false));
}

} // verus!
