use cipher_solver::LowercaseString;
use cipher_solver::Solver;

#[test]
fn test_solve_caesar() {
    let tests = [
        "I met a traveller from an antique land",
        "Who said, two vast and trunkless legs of stone ",
        "Stand in the desert. Near them, on the sand,",
    ];
    for test in tests {
        let coerced = LowercaseString::normalize(test);
        let shifted = Solver::encrypt_caesar(test, 3);
        let solved = Solver::solve_caesar(&shifted);
        assert_eq!(solved, coerced.to_string());
    }
}

#[test]
fn solver_test_encrypt_decrypt() {
    let original = "The quick brown fox jumps over the lazy dog";
    let coerced = LowercaseString::normalize(original);
    let shift = 7;
    let encrypted = Solver::encrypt_caesar(original, shift);
    let decrypted = Solver::decrypt_caesar(&encrypted, shift);
    assert_eq!(decrypted, coerced.to_string());
}

#[test]
fn test_vigenere() {
    let original = "The quick brown fox jumps over the lazy dog";
    let coerced = LowercaseString::normalize(original);
    let keyword = "secret";
    let encrypted = Solver::encrypt_vigenere(original, keyword);
    let decrypted = Solver::decrypt_vigenere(&encrypted, keyword);
    assert_eq!(decrypted, coerced.to_string());

    // Test with empty keyword (should return original text)
    let encrypted_empty = Solver::encrypt_vigenere(original, "");
    assert_eq!(encrypted_empty, coerced.to_string());
    let decrypted_empty = Solver::decrypt_vigenere(&encrypted_empty, "");
    assert_eq!(decrypted_empty, coerced.to_string());
}

#[test]
fn test_solver_examples() {
    assert_eq!(Solver::encrypt_caesar("hello world", 3), "khoorzruog");
    assert_eq!(Solver::decrypt_caesar("khoorzruog", 3), "helloworld");
    assert_eq!(Solver::encrypt_vigenere("hello world", "key"), "rijvsuyvjn");
    assert_eq!(Solver::decrypt_vigenere("rijvsuyvjn", "key"), "helloworld");
    let text = "The quick brown fox jumps over the lazy dog";
    let encrypted = Solver::encrypt_caesar(text, 3);
    assert_eq!(
        Solver::solve_caesar(&encrypted),
        "thequickbrownfoxjumpsoverthelazydog"
    );
}

#[test]
fn test_solver_vigenere_keyword_without_letters() {
    assert_eq!(Solver::encrypt_vigenere("Hello, World", "42"), "helloworld");
    assert_eq!(Solver::decrypt_vigenere("Hello, World", "42"), "helloworld");
    assert_eq!(Solver::decrypt_vigenere("Hello, World", ""), "helloworld");
}

#[test]
fn test_solver_vigenere_round_trip() {
    for keyword in ["a", "z", "Lemon", "a much longer keyword than the text"] {
        let encrypted = Solver::encrypt_vigenere("Attack at dawn", keyword);
        assert_eq!(
            Solver::decrypt_vigenere(&encrypted, keyword),
            "attackatdawn"
        );
    }
}
