use cipher_solver::vigenere::{decrypt, encrypt};
use cipher_solver::LowercaseString;

#[test]
fn test() {
    let original = "The quick brown fox jumps over the lazy dog";
    let normalized = LowercaseString::normalize(original);
    let keyword = "secret";
    let encrypted = encrypt(original, keyword).unwrap();
    let decrypted = decrypt(&encrypted, keyword);
    assert_eq!(decrypted, Some(normalized.to_string()));

    let encrypted_empty = encrypt(original, "");
    assert_eq!(encrypted_empty, None);

    let decrypted_empty = decrypt(original, "");
    assert_eq!(decrypted_empty, None);
}

#[test]
fn test_vigenere_examples() {
    assert_eq!(encrypt("hello world", "key").unwrap(), "rijvsuyvjn");
    assert_eq!(decrypt("rijvsuyvjn", "key").unwrap(), "helloworld");
    assert_eq!(encrypt("attack at dawn", "LEMON").unwrap(), "lxfopvefrnhr");
    assert_eq!(encrypt("zzz", "b").unwrap(), "aaa");
    assert_eq!(decrypt("aaa", "b").unwrap(), "zzz");
    assert_eq!(encrypt("Hello", "a").unwrap(), "hello");
    assert_eq!(decrypt("Hello", "a").unwrap(), "hello");
}

#[test]
fn test_vigenere_keyword_without_letters() {
    assert_eq!(encrypt("hello", "123 !"), None);
    assert_eq!(decrypt("hello", "123 !"), None);
    assert_eq!(encrypt("", ""), None);
}

#[test]
fn test_vigenere_keyword_longer_than_text() {
    assert_eq!(encrypt("ab", "bcdefg").unwrap(), "bd");
    assert_eq!(encrypt("", "key").unwrap(), "");
    assert_eq!(decrypt("bd", "bcdefg").unwrap(), "ab");
}

#[test]
fn test_vigenere_keyword_is_normalized() {
    assert_eq!(
        encrypt("hello world", "K-e Y!").unwrap(),
        encrypt("hello world", "key").unwrap()
    );
}
