use cipher_solver::caesar::{decrypt, encrypt, solve};
use cipher_solver::LowercaseString;

#[test]
fn test_solve() {
    let tests = [
        "I met a traveller from an antique land",
        "Who said, two vast and trunkless legs of stone ",
        "Stand in the desert. Near them, on the sand,",
    ];
    for test in tests {
        let normalized = LowercaseString::normalize(test);
        let shifted = encrypt(test, 3);
        let solved = solve(&shifted);
        assert_eq!(solved, normalized.to_string());
    }
}

#[test]
fn caesar_test_encrypt_decrypt() {
    let original = "The quick brown fox jumps over the lazy dog";
    let normalized = LowercaseString::normalize(original);
    let shift = 7;
    let encrypted = encrypt(original, shift);
    let decrypted = decrypt(&encrypted, shift);
    assert_eq!(decrypted, normalized.to_string());
}

#[test]
fn test_caesar_examples() {
    assert_eq!(encrypt("hello world", 3), "khoorzruog");
    assert_eq!(decrypt("khoorzruog", 3), "helloworld");
    assert_eq!(encrypt("Hello, World!", 0), "helloworld");
    assert_eq!(decrypt("Hello, World!", 0), "helloworld");
    assert_eq!(encrypt("xyz", 3), "abc");
    assert_eq!(encrypt("abc", -3), "xyz");
    assert_eq!(decrypt("abc", -1), "bcd");
}

#[test]
fn test_caesar_round_trip_for_every_shift() {
    let text = "Attack at dawn! 42";
    for shift in -30..=56 {
        assert_eq!(decrypt(&encrypt(text, shift), shift), "attackatdawn");
    }
    for shift in [i32::MIN, i32::MIN + 1, i32::MAX - 1, i32::MAX] {
        assert_eq!(decrypt(&encrypt(text, shift), shift), "attackatdawn");
    }
}

#[test]
fn test_solve_the_quick_brown_fox() {
    let text = "The quick brown fox jumps over the lazy dog";
    assert_eq!(
        solve(&encrypt(text, 3)),
        "thequickbrownfoxjumpsoverthelazydog"
    );
    assert_eq!(
        solve(&encrypt("I met a traveller from an antique land", 3)),
        "imetatravellerfromanantiqueland"
    );
}

#[test]
fn test_solve_without_letters() {
    assert_eq!(solve(""), "");
    assert_eq!(solve("1234 !?"), "");
}

#[test]
fn test_solve_every_shift() {
    let text = "It was the best of times, it was the worst of times";
    let plain = LowercaseString::normalize(text).to_string();
    for shift in 0..26 {
        assert_eq!(solve(&encrypt(text, shift)), plain);
    }
}

#[test]
fn test_solve_single_letter() {
    // One repeated letter fits English best as its most frequent letter.
    assert_eq!(solve("aaaa"), "eeee");
    assert_eq!(solve("Q"), "e");
}
