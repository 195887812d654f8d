//! The ciphers and the solver under one name.

use crate::caesar;
use crate::lowercase_string::{normalized, rendered, LowercaseString};
use crate::vigenere;
use vstd::prelude::*;

verus! {

/// The Vigenère transform of `text` under `keyword`, where a keyword
/// without letters leaves the letters of the text as they are.
pub open spec fn vigenere_applied(text: Seq<char>, keyword: Seq<char>, decrypt: bool) -> Seq<char> {
    match vigenere::applied(text, keyword, decrypt) {
        Some(s) => s,
        None => rendered(normalized(text)),
    }
}

/// Decrypting a Vigenère ciphertext with the keyword that made it gives the
/// letters of the plaintext, lowercased, for every keyword that holds a
/// letter.
pub proof fn lemma_vigenere_decrypt_encrypt(text: Seq<char>, keyword: Seq<char>)
    requires
        normalized(keyword).len() > 0,
    ensures
        vigenere_applied(vigenere_applied(text, keyword, false), keyword, true) == rendered(
            normalized(text),
        ),
{
    vigenere::lemma_decrypt_encrypt(text, keyword);
}

/// With the empty keyword the Vigenère transform, in either direction,
/// gives the letters of the text, lowercased.
pub proof fn lemma_vigenere_empty_keyword(text: Seq<char>, decrypt: bool)
    ensures
        vigenere_applied(text, Seq::<char>::empty(), decrypt) == rendered(normalized(text)),
{
    assert(normalized(Seq::<char>::empty()) =~= Seq::<u8>::empty());
}

/// Entry point to the ciphers and the Caesar solver.
pub struct Solver;

impl Solver {
    /// Finds the shift of a Caesar ciphertext by letter frequencies and
    /// returns the plaintext.
    pub fn solve_caesar(text: &str) -> (r: String)
        ensures
            r@ == caesar::solved(text@),
    {
        caesar::solve(text)
    }

    /// Encrypts the letters of `text` with a Caesar cipher.
    pub fn encrypt_caesar(text: &str, shift: i32) -> (r: String)
        ensures
            r@ == caesar::encrypted(text@, shift as int),
    {
        caesar::encrypt(text, shift)
    }

    /// Decrypts the letters of `text` with a Caesar cipher.
    pub fn decrypt_caesar(text: &str, shift: i32) -> (r: String)
        ensures
            r@ == caesar::decrypted(text@, shift as int),
    {
        caesar::decrypt(text, shift)
    }

    fn apply_vigenere(text: &str, keyword: &str, decrypt: bool) -> (r: String)
        ensures
            r@ == vigenere_applied(text@, keyword@, decrypt),
    {
        match vigenere::apply(text, keyword, decrypt) {
            Some(s) => s,
            None => LowercaseString::normalize(text).to_string(),
        }
    }

    /// Encrypts the letters of `text` with the Vigenère cipher. A keyword
    /// without letters leaves the letters of the text as they are.
    pub fn encrypt_vigenere(text: &str, keyword: &str) -> (r: String)
        ensures
            r@ == vigenere_applied(text@, keyword@, false),
            normalized(keyword@).len() == 0 ==> r@ == rendered(normalized(text@)),
    {
        Self::apply_vigenere(text, keyword, false)
    }

    /// Decrypts the letters of `text` with the Vigenère cipher. A keyword
    /// without letters leaves the letters of the text as they are.
    pub fn decrypt_vigenere(text: &str, keyword: &str) -> (r: String)
        ensures
            r@ == vigenere_applied(text@, keyword@, true),
            normalized(keyword@).len() == 0 ==> r@ == rendered(normalized(text@)),
    {
        Self::apply_vigenere(text, keyword, true)
    }
}

} // verus!
