//! Text reduced to its letters: a sequence of alphabet positions.

use crate::ratio::{quotient, Ratio};
use vstd::prelude::*;
use vstd::std_specs::cmp::PartialEqSpecImpl;

verus! {

/// Whether `c` is one of the 52 ASCII letters.
pub open spec fn is_letter(c: char) -> bool {
    ('a' <= c && c <= 'z') || ('A' <= c && c <= 'Z')
}

/// Position of the letter `c` in the alphabet, ignoring case: 0 for `a` or
/// `A`, 25 for `z` or `Z`.
pub open spec fn letter_index(c: char) -> u8
    recommends
        is_letter(c),
{
    if 'a' <= c && c <= 'z' {
        (c as int - 'a' as int) as u8
    } else {
        (c as int - 'A' as int) as u8
    }
}

/// The lowercase letter at alphabet position `i`.
pub open spec fn index_letter(i: u8) -> char
    recommends
        i < 26,
{
    (i as int + 'a' as int) as char
}

/// The letters of `s`, in order, as alphabet positions.
pub open spec fn normalized(s: Seq<char>) -> Seq<u8> {
    s.filter(|c: char| is_letter(c)).map_values(|c: char| letter_index(c))
}

/// The lowercase string that spells the positions `t`.
pub open spec fn rendered(t: Seq<u8>) -> Seq<char> {
    t.map_values(|i: u8| index_letter(i))
}

/// Whether every element of `t` is an alphabet position.
pub open spec fn all_letters(t: Seq<u8>) -> bool {
    forall|i: int| 0 <= i < t.len() ==> #[trigger] t[i] < 26
}

/// The test "equals `k`" on alphabet positions.
pub open spec fn equals_position(k: int) -> spec_fn(u8) -> bool {
    |x: u8| x == k
}

/// Number of elements of `t` equal to `k`.
pub open spec fn occurrences(t: Seq<u8>, k: int) -> nat {
    t.filter(equals_position(k)).len()
}

/// The share of the letter `k` among the letters of `t`: its count over the
/// length of the text, and zero in an empty text.
pub open spec fn frequency(t: Seq<u8>, k: int) -> real {
    if t.len() == 0 {
        0real
    } else {
        quotient(occurrences(t, k), t.len())
    }
}

/// Every position of `t` moved forward by `shift` places, wrapping from `z`
/// to `a`. A negative shift moves backward.
pub open spec fn shifted(t: Seq<u8>, shift: int) -> Seq<u8> {
    t.map_values(|i: u8| ((i + shift % 26) % 26) as u8)
}

/// Every element of `t` reduced modulo 26.
pub open spec fn reduced(t: Seq<u8>) -> Seq<u8> {
    t.map_values(|i: u8| (i % 26) as u8)
}

/// Appending a character to the text appends its position to the normalized
/// text if it is a letter, and changes nothing otherwise.
pub proof fn lemma_normalized_push(s: Seq<char>, c: char)
    ensures
        normalized(s.push(c)) == if is_letter(c) {
            normalized(s).push(letter_index(c))
        } else {
            normalized(s)
        },
{
    let pred = |c: char| is_letter(c);
    s.lemma_filter_push(c, pred);
    if is_letter(c) {
        assert(normalized(s.push(c)) =~= normalized(s).push(letter_index(c)));
    }
}

/// Appending `x` raises the count of `x` by one and no other count.
pub proof fn lemma_occurrences_push(t: Seq<u8>, x: u8, k: int)
    ensures
        occurrences(t.push(x), k) == occurrences(t, k) + (if x == k { 1nat } else { 0nat }),
{
    t.lemma_filter_push(x, equals_position(k));
}

/// No value occurs more often than the text is long.
pub proof fn lemma_occurrences_bound(t: Seq<u8>, k: int)
    ensures
        occurrences(t, k) <= t.len(),
{
    t.lemma_filter_len(equals_position(k));
}

/// Spelling out alphabet positions and normalizing the result gives the
/// positions back.
pub proof fn lemma_normalized_rendered(t: Seq<u8>)
    requires
        all_letters(t),
    ensures
        normalized(rendered(t)) == t,
    decreases t.len(),
{
    if t.len() == 0 {
        assert(rendered(t) =~= Seq::<char>::empty());
        assert(normalized(Seq::<char>::empty()) =~= Seq::<u8>::empty());
        assert(t =~= Seq::<u8>::empty());
    } else {
        let head = t.drop_last();
        let x = t.last();
        lemma_normalized_rendered(head);
        assert(t =~= head.push(x));
        assert(rendered(head.push(x)) =~= rendered(head).push(index_letter(x)));
        lemma_normalized_push(rendered(head), index_letter(x));
        assert(is_letter(index_letter(x)));
        assert(letter_index(index_letter(x)) == x);
    }
}

/// Normalizing is idempotent: the rendered form of a normalized text
/// normalizes to the same text.
pub proof fn lemma_normalize_idempotent(s: Seq<char>)
    ensures
        normalized(rendered(normalized(s))) == normalized(s),
{
    lemma_normalized_letters(s);
    lemma_normalized_rendered(normalized(s));
}

/// A normalized text holds alphabet positions only.
pub proof fn lemma_normalized_letters(s: Seq<char>)
    ensures
        all_letters(normalized(s)),
    decreases s.len(),
{
    if s.len() == 0 {
        assert(normalized(s) =~= Seq::<u8>::empty());
    } else {
        lemma_normalized_letters(s.drop_last());
        assert(s =~= s.drop_last().push(s.last()));
        lemma_normalized_push(s.drop_last(), s.last());
    }
}

/// `String::push` of the standard library: the string afterwards is the
/// string before with the character `c` appended, and nothing else changes.
pub assume_specification[ String::push ](s: &mut String, c: char)
    ensures
        final(s)@ == old(s)@.push(c),
;

/// A sequence of alphabet positions, each below 26.
#[derive(Debug)]
pub struct LowercaseString {
    indices: Vec<u8>,
}

impl View for LowercaseString {
    type V = Seq<u8>;

    closed spec fn view(&self) -> Seq<u8> {
        self.indices@
    }
}

impl Clone for LowercaseString {
    fn clone(&self) -> (r: Self)
        ensures
            r@ == self@,
    {
        proof {
            use_type_invariant(self);
        }
        LowercaseString { indices: self.indices.clone() }
    }
}

impl PartialEq for LowercaseString {
    fn eq(&self, other: &Self) -> (r: bool) {
        let n: usize = self.indices.len();
        if n != other.indices.len() {
            return false;
        }
        let mut i: usize = 0;
        while i < n
            invariant
                n == self.indices@.len(),
                n == other.indices@.len(),
                i <= n,
                forall|j: int| 0 <= j < i ==> self.indices@[j] == other.indices@[j],
            decreases n - i,
        {
            if self.indices[i] != other.indices[i] {
                return false;
            }
            i += 1;
        }
        proof {
            assert(self.indices@ =~= other.indices@);
        }
        true
    }
}

impl PartialEqSpecImpl for LowercaseString {
    open spec fn obeys_eq_spec() -> bool {
        true
    }

    open spec fn eq_spec(&self, other: &Self) -> bool {
        self@ == other@
    }
}

impl LowercaseString {
    #[verifier::type_invariant]
    spec fn valid(&self) -> bool {
        all_letters(self.indices@)
    }

    /// Keeps the ASCII letters of `s`, folds them to lower case and stores
    /// their alphabet positions.
    pub fn normalize(s: &str) -> (r: Self)
        ensures
            r@ == normalized(s@),
            all_letters(r@),
    {
        let mut indices: Vec<u8> = Vec::new();
        proof {
            assert(s@.take(0) =~= Seq::<char>::empty());
        }
        for c in it: s.chars()
            invariant
                it.seq() == s@,
                indices@ == normalized(it.seq().take(it.index())),
                all_letters(indices@),
        {
            proof {
                let before = it.seq().take(it.index());
                assert(it.seq().take(it.index() + 1) =~= before.push(c));
                lemma_normalized_push(before, c);
            }
            if 'a' <= c && c <= 'z' {
                indices.push(c as u8 - 97);
            } else if 'A' <= c && c <= 'Z' {
                indices.push(c as u8 - 65);
            }
        }
        proof {
            assert(s@.take(s@.len() as int) =~= s@);
        }
        LowercaseString { indices }
    }

    /// The alphabet positions, in order.
    pub fn to_indices(&self) -> (r: &[u8])
        ensures
            r@ == self@,
            all_letters(r@),
    {
        proof {
            use_type_invariant(self);
        }
        self.indices.as_slice()
    }

    /// Builds a text from arbitrary bytes, reducing each modulo 26.
    pub fn from_indices(indices: Vec<u8>) -> (r: Self)
        ensures
            r@ == reduced(indices@),
            all_letters(r@),
    {
        let mut out: Vec<u8> = Vec::new();
        let n: usize = indices.len();
        let mut i: usize = 0;
        while i < n
            invariant
                n == indices.len(),
                i <= n,
                out@ == reduced(indices@.take(i as int)),
                all_letters(out@),
            decreases n - i,
        {
            proof {
                assert(indices@.take(i + 1) =~= indices@.take(i as int).push(indices@[i as int]));
                assert(reduced(indices@.take(i as int).push(indices@[i as int]))
                    =~= reduced(indices@.take(i as int)).push((indices@[i as int] % 26) as u8));
            }
            out.push(indices[i] % 26);
            i += 1;
        }
        proof {
            assert(indices@.take(n as int) =~= indices@);
        }
        LowercaseString { indices: out }
    }

    /// How often each letter occurs: entry `k` counts the positions equal
    /// to `k`.
    pub fn letter_counts(&self) -> (r: [usize; 26])
        ensures
            forall|k: int| 0 <= k < 26 ==> #[trigger] r[k] == occurrences(self@, k),
    {
        proof {
            use_type_invariant(self);
        }
        let mut counts: [usize; 26] = [0; 26];
        let n: usize = self.indices.len();
        let mut i: usize = 0;
        proof {
            assert(self.indices@.take(0) =~= Seq::<u8>::empty());
        }
        while i < n
            invariant
                n == self.indices.len(),
                i <= n,
                all_letters(self.indices@),
                forall|k: int| 0 <= k < 26 ==> #[trigger] counts[k] == occurrences(
                    self.indices@.take(i as int),
                    k,
                ),
            decreases n - i,
        {
            let idx: usize = self.indices[i] as usize;
            proof {
                let before = self.indices@.take(i as int);
                let x = self.indices@[i as int];
                assert(self.indices@.take(i + 1) =~= before.push(x));
                assert forall|k: int| 0 <= k < 26 implies #[trigger] occurrences(before.push(x), k)
                    == occurrences(before, k) + (if x == k { 1nat } else { 0nat }) by {
                    lemma_occurrences_push(before, x, k);
                }
                lemma_occurrences_bound(before, idx as int);
            }
            counts[idx] = counts[idx] + 1;
            i += 1;
        }
        proof {
            assert(self.indices@.take(n as int) =~= self.indices@);
        }
        counts
    }

    /// The share of `total` that `count` makes up, or zero where `total` is
    /// zero.
    fn share(count: usize, total: usize) -> (r: Ratio)
        ensures
            r@ == if total == 0 {
                0real
            } else {
                quotient(count as nat, total as nat)
            },
    {
        match Ratio::new(count as u128, total as u128) {
            Some(r) => r,
            None => Ratio::from_integer(0),
        }
    }

    /// The relative frequency of each letter: entry `k` is the count of `k`
    /// over the length of the text. In an empty text every entry is zero.
    pub fn letter_frequencies(&self) -> (r: [Ratio; 26])
        ensures
            forall|k: int| 0 <= k < 26 ==> #[trigger] r[k]@ == frequency(self@, k),
    {
        let c = self.letter_counts();
        let n: usize = self.indices.len();
        [
            Self::share(c[0], n),
            Self::share(c[1], n),
            Self::share(c[2], n),
            Self::share(c[3], n),
            Self::share(c[4], n),
            Self::share(c[5], n),
            Self::share(c[6], n),
            Self::share(c[7], n),
            Self::share(c[8], n),
            Self::share(c[9], n),
            Self::share(c[10], n),
            Self::share(c[11], n),
            Self::share(c[12], n),
            Self::share(c[13], n),
            Self::share(c[14], n),
            Self::share(c[15], n),
            Self::share(c[16], n),
            Self::share(c[17], n),
            Self::share(c[18], n),
            Self::share(c[19], n),
            Self::share(c[20], n),
            Self::share(c[21], n),
            Self::share(c[22], n),
            Self::share(c[23], n),
            Self::share(c[24], n),
            Self::share(c[25], n),
        ]
    }

    /// Number of letters in the text.
    pub fn len(&self) -> (r: usize)
        ensures
            r == self@.len(),
    {
        self.indices.len()
    }

    /// The text with every letter moved forward by `shift` places in the
    /// alphabet, modulo 26.
    pub fn caesar_shift(&self, shift: i32) -> (r: Self)
        ensures
            r@ == shifted(self@, shift as int),
            all_letters(r@),
    {
        proof {
            use_type_invariant(self);
        }
        let step: u8 = match shift.checked_rem_euclid(26) {
            Some(m) => m as u8,
            None => 0,
        };
        let mut out: Vec<u8> = Vec::new();
        let n: usize = self.indices.len();
        let mut i: usize = 0;
        while i < n
            invariant
                n == self.indices.len(),
                i <= n,
                step == shift as int % 26,
                all_letters(self.indices@),
                out@ == shifted(self.indices@.take(i as int), shift as int),
                all_letters(out@),
            decreases n - i,
        {
            proof {
                let before = self.indices@.take(i as int);
                let x = self.indices@[i as int];
                assert(self.indices@.take(i + 1) =~= before.push(x));
                assert(shifted(before.push(x), shift as int) =~= shifted(before, shift as int).push(
                    ((x + shift as int % 26) % 26) as u8,
                ));
            }
            out.push((self.indices[i] + step) % 26);
            i += 1;
        }
        proof {
            assert(self.indices@.take(n as int) =~= self.indices@);
        }
        LowercaseString { indices: out }
    }

    /// The text spelled out in lowercase letters.
    pub fn to_string(&self) -> (r: String)
        ensures
            r@ == rendered(self@),
    {
        proof {
            use_type_invariant(self);
        }
        let mut out = String::new();
        let n: usize = self.indices.len();
        let mut i: usize = 0;
        while i < n
            invariant
                n == self.indices.len(),
                i <= n,
                all_letters(self.indices@),
                out@ == rendered(self.indices@.take(i as int)),
            decreases n - i,
        {
            proof {
                let before = self.indices@.take(i as int);
                let x = self.indices@[i as int];
                assert(self.indices@.take(i + 1) =~= before.push(x));
                assert(rendered(before.push(x)) =~= rendered(before).push(index_letter(x)));
            }
            out.push((self.indices[i] + 97) as char);
            i += 1;
        }
        proof {
            assert(self.indices@.take(n as int) =~= self.indices@);
        }
        out
    }
}

} // verus!
