use cipher_solver::ratio::Ratio;
use cipher_solver::utils::{
    chi_squared, chi_squared_english_score, english_letter_frequencies, Score,
};
use cipher_solver::LowercaseString;

fn fraction(num: u128, den: u128) -> Ratio {
    Ratio::new(num, den).unwrap()
}

fn whole(n: u128) -> Ratio {
    Ratio::from_integer(n)
}

#[test]
fn test_chi_squared() {
    let observed = [whole(4), whole(6), whole(8)];
    let expected = [whole(5), whole(5), whole(8)];
    let result = chi_squared(&observed, &expected);
    // Within 1e-10 of 0.4.
    assert!(result
        .abs_diff(&fraction(4, 10))
        .less_than(&fraction(1, 10_000_000_000)));
}

#[test]
fn test_english_score_sanity() {
    let english_text = LowercaseString::normalize("the quick brown fox jumps over the lazy dog");
    let gibberish = LowercaseString::normalize("zzzzxxxx");

    let english_result = chi_squared_english_score(&english_text);
    let gibberish_result = chi_squared_english_score(&gibberish);
    assert!(english_result.less_than(&gibberish_result));
}

#[test]
fn test_chi_squared_exact() {
    let observed = [whole(4), whole(6), whole(8)];
    let expected = [whole(5), whole(5), whole(8)];
    assert!(chi_squared(&observed, &expected).equals(&fraction(2, 5)));
    // (1/2 - 1/4)^2 / (1/4) + (1/2 - 3/4)^2 / (3/4) = 1/4 + 1/12 = 1/3
    let observed = [fraction(1, 2), fraction(1, 2)];
    let expected = [fraction(1, 4), fraction(3, 4)];
    assert!(chi_squared(&observed, &expected).equals(&fraction(1, 3)));
    let none: [Ratio; 0] = [];
    assert!(chi_squared(&none, &none).is_zero());
    let same = [whole(3), fraction(7, 2)];
    assert!(chi_squared(&same, &same).is_zero());
}

#[test]
fn test_english_score_of_nothing_is_infinite() {
    let empty = chi_squared_english_score(&LowercaseString::normalize(""));
    assert!(empty.is_infinite());
    let digits = chi_squared_english_score(&LowercaseString::normalize("1234 5678 !?"));
    assert!(digits.is_infinite());
    let letter = chi_squared_english_score(&LowercaseString::normalize("e"));
    assert!(!letter.is_infinite());
    assert!(letter.less_than(&empty));
    assert!(!empty.less_than(&letter));
    assert!(!empty.less_than(&digits));
}

#[test]
fn test_english_score_exact() {
    // For a text of one letter k the statistic is 1/p_k - 2 + sum of p, and the
    // table sums to 0.99999: for "e", 100000/12702 - 2 + 99999/100000.
    let score = chi_squared_english_score(&LowercaseString::normalize("e"));
    let expected = fraction(100000 * 100000 + 99999 * 12702, 12702 * 100000);
    match score {
        Score::Finite(x) => assert!(x.add(&whole(2)).equals(&expected)),
        Score::Infinite => panic!("a text with a letter has a finite score"),
    }
}

#[test]
fn test_english_letter_frequencies() {
    let table = english_letter_frequencies();
    assert!(table[0].equals(&fraction(8167, 100000)));
    assert!(table[4].equals(&fraction(12702, 100000)));
    assert!(table[25].equals(&fraction(74, 100000)));
    let mut sum = whole(0);
    for entry in &table {
        assert!(!entry.is_zero());
        sum = sum.add(entry);
    }
    assert!(sum.equals(&fraction(99999, 100000)));
}

#[test]
fn test_score_order() {
    let small = Score::Finite(fraction(1, 3));
    let large = Score::Finite(fraction(1, 2));
    assert!(small.less_than(&large));
    assert!(!large.less_than(&small));
    assert!(!small.less_than(&small.clone()));
    assert!(large.less_than(&Score::Infinite));
    assert!(!Score::Infinite.less_than(&Score::Infinite));
}
