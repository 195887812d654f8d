//! Scoring a text against the letter frequencies of English.

use crate::lowercase_string::{frequency, LowercaseString};
use crate::ratio::{distance, quotient, Ratio};
use vstd::prelude::*;

verus! {

/// How often each letter occurs in 100000 letters of English text, from
/// `a` to `z`.
pub open spec fn english_per_100000(k: int) -> nat
    recommends
        0 <= k < 26,
{
    seq![
        8167nat,
        1492,
        2782,
        4253,
        12702,
        2228,
        2015,
        6094,
        6966,
        153,
        772,
        4025,
        2406,
        6749,
        7507,
        1929,
        95,
        5987,
        6327,
        9056,
        2758,
        978,
        2360,
        150,
        1974,
        74,
    ][k]
}

/// The relative frequency of the letter `k` in English text.
pub open spec fn english_frequency(k: int) -> real
    recommends
        0 <= k < 26,
{
    quotient(english_per_100000(k), 100000)
}

/// The chi-squared statistic of the observed values `o` against the
/// expected values `e`: the sum over all places of the squared difference
/// divided by the expected value.
pub open spec fn chi_squared_sum(o: Seq<real>, e: Seq<real>) -> real
    recommends
        o.len() == e.len(),
    decreases o.len(),
{
    if o.len() == 0 {
        0real
    } else {
        chi_squared_sum(o.drop_last(), e.drop_last()) + (o.last() - e.last()) * (o.last()
            - e.last()) / e.last()
    }
}

/// The numbers that the fractions `s` stand for.
pub open spec fn values(s: Seq<Ratio>) -> Seq<real> {
    s.map_values(|r: Ratio| r@)
}

/// The frequencies of the 26 letters in the text `t`.
pub open spec fn observed_frequencies(t: Seq<u8>) -> Seq<real> {
    Seq::new(26, |k: int| frequency(t, k))
}

/// The frequencies of the 26 letters in English.
pub open spec fn english_frequencies() -> Seq<real> {
    Seq::new(26, |k: int| english_frequency(k))
}

/// How far the letters of `t` are from English: the chi-squared statistic
/// of its letter frequencies against those of English, and `None`, which
/// stands for infinity, for a text without letters.
pub open spec fn english_score(t: Seq<u8>) -> Option<real> {
    if t.len() == 0 {
        None
    } else {
        Some(chi_squared_sum(observed_frequencies(t), english_frequencies()))
    }
}

/// Whether the score `a` is better than `b`, that is smaller. Infinity is
/// greater than every number and not smaller than itself.
pub open spec fn score_less(a: Option<real>, b: Option<real>) -> bool {
    match (a, b) {
        (Some(x), Some(y)) => x < y,
        (Some(_), None) => true,
        (None, _) => false,
    }
}

/// A score: a non-negative number, or infinity.
#[derive(Debug)]
pub enum Score {
    Finite(Ratio),
    Infinite,
}

impl View for Score {
    type V = Option<real>;

    open spec fn view(&self) -> Option<real> {
        match self {
            Score::Finite(r) => Some(r@),
            Score::Infinite => None,
        }
    }
}

impl Clone for Score {
    fn clone(&self) -> (r: Self)
        ensures
            r@ == self@,
    {
        match self {
            Score::Finite(x) => Score::Finite(x.clone()),
            Score::Infinite => Score::Infinite,
        }
    }
}

impl Score {
    /// Whether the score is infinite.
    pub fn is_infinite(&self) -> (r: bool)
        ensures
            r == (self@ is None),
    {
        match self {
            Score::Finite(_) => false,
            Score::Infinite => true,
        }
    }

    /// Whether the score is smaller than `other`.
    pub fn less_than(&self, other: &Score) -> (r: bool)
        ensures
            r == score_less(self@, other@),
    {
        match self {
            Score::Finite(x) => match other {
                Score::Finite(y) => x.less_than(y),
                Score::Infinite => true,
            },
            Score::Infinite => false,
        }
    }
}

/// The chi-squared statistic of `observed` against `expected`, none of
/// which is zero.
pub fn chi_squared<const N: usize>(observed: &[Ratio; N], expected: &[Ratio; N]) -> (r: Ratio)
    requires
        forall|i: int| 0 <= i < N ==> (#[trigger] expected[i])@ != 0real,
    ensures
        r@ == chi_squared_sum(values(observed@), values(expected@)),
{
    let mut total = Ratio::from_integer(0);
    let mut i: usize = 0;
    proof {
        assert(values(observed@).take(0) =~= Seq::<real>::empty());
    }
    while i < N
        invariant
            i <= N,
            observed@.len() == N,
            expected@.len() == N,
            forall|j: int| 0 <= j < N ==> (#[trigger] expected[j])@ != 0real,
            total@ == chi_squared_sum(
                values(observed@).take(i as int),
                values(expected@).take(i as int),
            ),
        decreases N - i,
    {
        let gap = observed[i].abs_diff(&expected[i]);
        let square = gap.mul(&gap);
        proof {
            let o = values(observed@).take(i + 1);
            let e = values(expected@).take(i + 1);
            assert(o.drop_last() =~= values(observed@).take(i as int));
            assert(e.drop_last() =~= values(expected@).take(i as int));
            assert(o.last() == observed[i as int]@);
            assert(e.last() == expected[i as int]@);
            let x = o.last();
            let y = e.last();
            assert(distance(x, y) * distance(x, y) == (x - y) * (x - y)) by (nonlinear_arith);
        }
        match square.div(&expected[i]) {
            Some(term) => {
                total = total.add(&term);
            },
            // No expected value is zero, so every term exists.
            None => {},
        }
        i += 1;
    }
    proof {
        assert(values(observed@).take(N as int) =~= values(observed@));
        assert(values(expected@).take(N as int) =~= values(expected@));
    }
    total
}

/// One entry of the table of English letter frequencies.
fn per_100000(count: u128) -> (r: Ratio)
    ensures
        r@ == quotient(count as nat, 100000),
{
    match Ratio::new(count, 100000) {
        Some(r) => r,
        None => Ratio::from_integer(0),
    }
}

/// The relative frequencies of the letters `a` to `z` in English text.
pub fn english_letter_frequencies() -> (r: [Ratio; 26])
    ensures
        values(r@) == english_frequencies(),
        forall|k: int| 0 <= k < 26 ==> (#[trigger] r[k])@ != 0real,
{
    let table = [
        per_100000(8167),
        per_100000(1492),
        per_100000(2782),
        per_100000(4253),
        per_100000(12702),
        per_100000(2228),
        per_100000(2015),
        per_100000(6094),
        per_100000(6966),
        per_100000(153),
        per_100000(772),
        per_100000(4025),
        per_100000(2406),
        per_100000(6749),
        per_100000(7507),
        per_100000(1929),
        per_100000(95),
        per_100000(5987),
        per_100000(6327),
        per_100000(9056),
        per_100000(2758),
        per_100000(978),
        per_100000(2360),
        per_100000(150),
        per_100000(1974),
        per_100000(74),
    ];
    proof {
        assert forall|k: int| 0 <= k < 26 implies (#[trigger] table[k])@ == english_frequency(k)
            && table[k]@ != 0real by {
            crate::ratio::lemma_quotient_zero(english_per_100000(k), 100000);
        }
        assert(values(table@) =~= english_frequencies());
    }
    table
}

/// Scores how far the letters of `text` are from English: lower is closer.
/// A text without letters scores infinity.
pub fn chi_squared_english_score(text: &LowercaseString) -> (r: Score)
    ensures
        r@ == english_score(text@),
        text@.len() == 0 <==> r@ is None,
{
    if text.len() == 0 {
        return Score::Infinite;
    }
    let observed = text.letter_frequencies();
    let expected = english_letter_frequencies();
    proof {
        assert(values(observed@) =~= observed_frequencies(text@));
    }
    Score::Finite(chi_squared(&observed, &expected))
}

} // verus!
