//! Natural numbers of any size, held as limbs in base 2^64.

use vstd::prelude::*;

verus! {

/// The base in which a number's limbs are written: 2^64.
pub open spec fn radix() -> nat {
    0x1_0000_0000_0000_0000
}

/// `radix()` raised to the power `n`.
pub open spec fn radix_power(n: nat) -> nat
    decreases n,
{
    if n == 0 {
        1
    } else {
        radix() * radix_power((n - 1) as nat)
    }
}

/// Limb `i` of `s`, or zero beyond its end.
pub open spec fn limb_at(s: Seq<u64>, i: int) -> nat {
    if 0 <= i < s.len() {
        s[i] as nat
    } else {
        0
    }
}

/// The number that the lowest `n` limbs of `s` stand for, the least
/// significant limb first.
pub open spec fn prefix_value(s: Seq<u64>, n: nat) -> nat
    decreases n,
{
    if n == 0 {
        0
    } else {
        prefix_value(s, (n - 1) as nat) + limb_at(s, n - 1) * radix_power((n - 1) as nat)
    }
}

/// The number that the limbs `s` stand for.
pub open spec fn limbs_value(s: Seq<u64>) -> nat {
    prefix_value(s, s.len())
}

/// Limbs beyond the lowest `n` do not count in the value of the lowest `n`.
pub proof fn lemma_prefix_agree(a: Seq<u64>, b: Seq<u64>, n: nat)
    requires
        forall|j: int| 0 <= j < n ==> limb_at(a, j) == limb_at(b, j),
    ensures
        prefix_value(a, n) == prefix_value(b, n),
    decreases n,
{
    if n > 0 {
        lemma_prefix_agree(a, b, (n - 1) as nat);
    }
}

/// Limbs past the end are zero, so a longer prefix has the same value.
pub proof fn lemma_prefix_beyond(s: Seq<u64>, n: nat)
    requires
        n >= s.len(),
    ensures
        prefix_value(s, n) == limbs_value(s),
    decreases n,
{
    if n > s.len() {
        lemma_prefix_beyond(s, (n - 1) as nat);
        assert(limb_at(s, n - 1) == 0);
        assert(0 * radix_power((n - 1) as nat) == 0);
    }
}

/// A new most significant limb `x` adds `x` times the radix power of its
/// place.
pub proof fn lemma_value_push(s: Seq<u64>, x: u64)
    ensures
        limbs_value(s.push(x)) == limbs_value(s) + x * radix_power(s.len()),
{
    lemma_prefix_agree(s, s.push(x), s.len());
}

/// The lowest `n` limbs stand for a number below the `n`th radix power.
pub proof fn lemma_prefix_bound(s: Seq<u64>, n: nat)
    ensures
        prefix_value(s, n) < radix_power(n),
    decreases n,
{
    if n > 0 {
        lemma_prefix_bound(s, (n - 1) as nat);
        let p = radix_power((n - 1) as nat);
        let x = limb_at(s, n - 1);
        assert(x <= radix() - 1);
        assert(x * p <= (radix() - 1) * p) by (nonlinear_arith)
            requires
                x <= radix() - 1,
                p >= 0,
        ;
        assert((radix() - 1) * p + p == radix() * p) by (nonlinear_arith);
    }
}

/// A zero limb put below the others multiplies the value by the radix.
pub proof fn lemma_value_shift(s: Seq<u64>)
    ensures
        limbs_value(seq![0u64] + s) == radix() * limbs_value(s),
{
    lemma_prefix_shift(s, s.len());
}

/// The lowest `n + 1` limbs of the shifted number are the radix times the
/// lowest `n` of the number itself.
pub proof fn lemma_prefix_shift(s: Seq<u64>, n: nat)
    ensures
        prefix_value(seq![0u64] + s, n + 1) == radix() * prefix_value(s, n),
    decreases n,
{
    let t = seq![0u64] + s;
    if n == 0 {
        assert(prefix_value(t, 0) == 0);
        assert(limb_at(t, 0) == 0);
        assert(prefix_value(t, 1) == prefix_value(t, 0) + limb_at(t, 0) * radix_power(0));
    } else {
        lemma_prefix_shift(s, (n - 1) as nat);
        let x = limb_at(s, n - 1);
        assert(limb_at(t, n as int) == x);
        let p = radix_power((n - 1) as nat);
        assert(radix_power(n) == radix() * p);
        assert(x * (radix() * p) == radix() * (x * p)) by (nonlinear_arith);
        assert(radix() * (prefix_value(s, (n - 1) as nat) + x * p) == radix() * prefix_value(
            s,
            (n - 1) as nat,
        ) + radix() * (x * p)) by (nonlinear_arith);
    }
}

/// One limb of a sum or product: a low limb at place `p` and a carry into
/// the next place together make up what was there and what came in.
pub proof fn lemma_carry_step(low: nat, high: nat, p: nat, carry: nat, x: nat)
    requires
        low + high * radix() == x + carry,
    ensures
        low * p + high * (radix() * p) == carry * p + x * p,
{
    assert(low * p + high * (radix() * p) == (low + high * radix()) * p) by (nonlinear_arith);
    assert((x + carry) * p == carry * p + x * p) by (nonlinear_arith);
}

/// A natural number of any size.
#[derive(Debug)]
pub struct Natural {
    limbs: Vec<u64>,
}

impl View for Natural {
    type V = nat;

    closed spec fn view(&self) -> nat {
        limbs_value(self.limbs@)
    }
}

impl Clone for Natural {
    fn clone(&self) -> (r: Self)
        ensures
            r@ == self@,
    {
        Natural { limbs: self.limbs.clone() }
    }
}

impl Natural {
    /// The number zero.
    pub fn zero() -> (r: Self)
        ensures
            r@ == 0,
    {
        Natural { limbs: Vec::new() }
    }

    /// The number `x`.
    pub fn from_u128(x: u128) -> (r: Self)
        ensures
            r@ == x,
    {
        let low: u64 = (x % 0x1_0000_0000_0000_0000) as u64;
        let high: u64 = (x / 0x1_0000_0000_0000_0000) as u64;
        let mut limbs: Vec<u64> = Vec::new();
        limbs.push(low);
        let ghost one = limbs@;
        limbs.push(high);
        proof {
            assert(one =~= Seq::<u64>::empty().push(low));
            lemma_value_push(Seq::<u64>::empty(), low);
            lemma_value_push(one, high);
            assert(radix_power(0) == 1);
            assert(radix_power(1) == radix() * radix_power(0));
            assert(limbs_value(Seq::<u64>::empty()) == 0);
            assert(Seq::<u64>::empty().len() == 0);
            assert(low * radix_power(0) == low) by (nonlinear_arith)
                requires
                    radix_power(0) == 1,
            ;
            assert(limbs_value(one) == low);
            assert(one.len() == 1);
            assert(high * radix_power(1) == high * radix()) by (nonlinear_arith)
                requires
                    radix_power(1) == radix(),
            ;
        }
        Natural::from_limbs(limbs)
    }

    /// The number held in `limbs`, without its zero limbs at the top.
    fn from_limbs(limbs: Vec<u64>) -> (r: Self)
        ensures
            r@ == limbs_value(limbs@),
    {
        let ghost given = limbs@;
        let mut limbs = limbs;
        while limbs.len() > 0 && limbs[limbs.len() - 1] == 0
            invariant
                limbs_value(limbs@) == limbs_value(given),
            decreases limbs@.len(),
        {
            proof {
                let rest = limbs@.drop_last();
                assert(limbs@ =~= rest.push(0u64));
                lemma_value_push(rest, 0u64);
                assert(0 * radix_power(rest.len()) == 0);
            }
            limbs.pop();
        }
        Natural { limbs }
    }

    /// Limb `i`, or zero beyond the end.
    fn limb(&self, i: usize) -> (r: u64)
        ensures
            r == limb_at(self.limbs@, i as int),
    {
        if i < self.limbs.len() {
            self.limbs[i]
        } else {
            0
        }
    }

    /// The larger of the two numbers of limbs.
    fn span(&self, other: &Natural) -> (r: usize)
        ensures
            r >= self.limbs@.len(),
            r >= other.limbs@.len(),
            r == self.limbs@.len() || r == other.limbs@.len(),
    {
        if self.limbs.len() < other.limbs.len() {
            other.limbs.len()
        } else {
            self.limbs.len()
        }
    }

    /// Whether the number is zero.
    pub fn is_zero(&self) -> (r: bool)
        ensures
            r == (self@ == 0),
    {
        let zero = Natural::zero();
        self.order(&zero) == 0
    }

    /// The sum of the two numbers.
    pub fn add(&self, other: &Natural) -> (r: Natural)
        ensures
            r@ == self@ + other@,
    {
        let n: usize = self.span(other);
        let mut out: Vec<u64> = Vec::new();
        let mut carry: u64 = 0;
        let mut i: usize = 0;
        while i < n
            invariant
                i <= n,
                out@.len() == i,
                carry <= 1,
                limbs_value(out@) + carry * radix_power(i as nat) == prefix_value(
                    self.limbs@,
                    i as nat,
                ) + prefix_value(other.limbs@, i as nat),
            decreases n - i,
        {
            let x: u64 = self.limb(i);
            let y: u64 = other.limb(i);
            let t: u128 = x as u128 + y as u128 + carry as u128;
            let low: u64 = (t % 0x1_0000_0000_0000_0000) as u64;
            let high: u64 = (t / 0x1_0000_0000_0000_0000) as u64;
            proof {
                let p = radix_power(i as nat);
                lemma_value_push(out@, low);
                lemma_carry_step(low as nat, high as nat, p, carry as nat, (x + y) as nat);
                assert((x + y) * p == x * p + y * p) by (nonlinear_arith);
            }
            out.push(low);
            carry = high;
            i += 1;
        }
        proof {
            lemma_value_push(out@, carry);
            lemma_prefix_beyond(self.limbs@, n as nat);
            lemma_prefix_beyond(other.limbs@, n as nat);
        }
        out.push(carry);
        Natural::from_limbs(out)
    }

    /// The product of the number and the single limb `m`.
    pub fn mul_small(&self, m: u64) -> (r: Natural)
        ensures
            r@ == self@ * m,
    {
        let n: usize = self.limbs.len();
        let mut out: Vec<u64> = Vec::new();
        let mut carry: u64 = 0;
        let mut i: usize = 0;
        proof {
            assert(0 * (m as nat) == 0);
        }
        while i < n
            invariant
                n == self.limbs@.len(),
                i <= n,
                out@.len() == i,
                limbs_value(out@) + carry * radix_power(i as nat) == prefix_value(
                    self.limbs@,
                    i as nat,
                ) * m,
            decreases n - i,
        {
            let x: u64 = self.limbs[i];
            proof {
                assert(x * m <= 0xffff_ffff_ffff_ffff * 0xffff_ffff_ffff_ffff) by (nonlinear_arith)
                    requires
                        0 <= x <= 0xffff_ffff_ffff_ffff,
                        0 <= m <= 0xffff_ffff_ffff_ffff,
                ;
            }
            let t: u128 = x as u128 * m as u128 + carry as u128;
            let low: u64 = (t % 0x1_0000_0000_0000_0000) as u64;
            let high: u64 = (t / 0x1_0000_0000_0000_0000) as u64;
            proof {
                let p = radix_power(i as nat);
                let before = prefix_value(self.limbs@, i as nat);
                lemma_value_push(out@, low);
                lemma_carry_step(low as nat, high as nat, p, carry as nat, (x * m) as nat);
                assert(limb_at(self.limbs@, i as int) == x);
                assert((before + x * p) * m == before * m + (x * m) * p) by (nonlinear_arith);
            }
            out.push(low);
            carry = high;
            i += 1;
        }
        proof {
            lemma_value_push(out@, carry);
        }
        out.push(carry);
        Natural::from_limbs(out)
    }

    /// The number times the radix: a zero limb is put below the others.
    fn shift(&self) -> (r: Natural)
        ensures
            r@ == radix() * self@,
    {
        let mut limbs = self.limbs.clone();
        limbs.insert(0, 0);
        proof {
            assert(limbs@ =~= seq![0u64] + self.limbs@);
            lemma_value_shift(self.limbs@);
        }
        Natural { limbs }
    }

    /// The product of the two numbers.
    pub fn mul(&self, other: &Natural) -> (r: Natural)
        ensures
            r@ == self@ * other@,
    {
        let n: usize = other.limbs.len();
        let mut acc = Natural::zero();
        let mut moved = self.clone();
        let mut j: usize = 0;
        proof {
            assert(self@ * 1 == self@) by (nonlinear_arith);
            assert(self@ * 0 == 0) by (nonlinear_arith);
        }
        while j < n
            invariant
                n == other.limbs@.len(),
                j <= n,
                moved@ == self@ * radix_power(j as nat),
                acc@ == self@ * prefix_value(other.limbs@, j as nat),
            decreases n - j,
        {
            let y: u64 = other.limbs[j];
            let term = moved.mul_small(y);
            proof {
                let a = self@;
                let p = radix_power(j as nat);
                let before = prefix_value(other.limbs@, j as nat);
                assert(limb_at(other.limbs@, j as int) == y);
                assert(a * before + (a * p) * y == a * (before + y * p)) by (nonlinear_arith);
                assert(radix() * (a * p) == a * (radix() * p)) by (nonlinear_arith);
            }
            acc = acc.add(&term);
            moved = moved.shift();
            j += 1;
        }
        acc
    }

    /// How the number stands to `other`: -1 where it is less, 0 where the
    /// two are equal, 1 where it is greater.
    fn order(&self, other: &Natural) -> (r: i8)
        ensures
            r == -1 <==> self@ < other@,
            r == 0 <==> self@ == other@,
            r == 1 <==> self@ > other@,
            -1 <= r <= 1,
    {
        let n: usize = self.span(other);
        let mut i: usize = n;
        proof {
            lemma_prefix_beyond(self.limbs@, n as nat);
            lemma_prefix_beyond(other.limbs@, n as nat);
        }
        while i > 0
            invariant
                i <= n,
                self@ == prefix_value(self.limbs@, n as nat),
                other@ == prefix_value(other.limbs@, n as nat),
                self@ - prefix_value(self.limbs@, i as nat) == other@ - prefix_value(
                    other.limbs@,
                    i as nat,
                ),
            decreases i,
        {
            i -= 1;
            let x: u64 = self.limb(i);
            let y: u64 = other.limb(i);
            if x != y {
                proof {
                    let p = radix_power(i as nat);
                    lemma_prefix_bound(self.limbs@, i as nat);
                    lemma_prefix_bound(other.limbs@, i as nat);
                    if x < y {
                        assert((x + 1) * p <= y * p) by (nonlinear_arith)
                            requires
                                x + 1 <= y,
                                p >= 0,
                        ;
                        assert((x + 1) * p == x * p + p) by (nonlinear_arith);
                    } else {
                        assert((y + 1) * p <= x * p) by (nonlinear_arith)
                            requires
                                y + 1 <= x,
                                p >= 0,
                        ;
                        assert((y + 1) * p == y * p + p) by (nonlinear_arith);
                    }
                }
                return if x < y {
                    -1
                } else {
                    1
                };
            }
        }
        0
    }

    /// Whether the number is less than `other`.
    pub fn less_than(&self, other: &Natural) -> (r: bool)
        ensures
            r == (self@ < other@),
    {
        self.order(other) == -1
    }

    /// Whether the two numbers are equal.
    pub fn equals(&self, other: &Natural) -> (r: bool)
        ensures
            r == (self@ == other@),
    {
        self.order(other) == 0
    }

    /// The number less `other`, which is not to be the greater.
    fn minus(&self, other: &Natural) -> (r: Natural)
        requires
            self@ >= other@,
        ensures
            r@ == self@ - other@,
    {
        let n: usize = self.span(other);
        let mut out: Vec<u64> = Vec::new();
        let mut borrow: u64 = 0;
        let mut i: usize = 0;
        while i < n
            invariant
                i <= n,
                out@.len() == i,
                borrow <= 1,
                limbs_value(out@) + prefix_value(other.limbs@, i as nat) == prefix_value(
                    self.limbs@,
                    i as nat,
                ) + borrow * radix_power(i as nat),
            decreases n - i,
        {
            let x: u64 = self.limb(i);
            let y: u64 = other.limb(i);
            let t: u128 = x as u128 + 0x1_0000_0000_0000_0000 - y as u128 - borrow as u128;
            let low: u64 = (t % 0x1_0000_0000_0000_0000) as u64;
            let next: u64 = 1 - (t / 0x1_0000_0000_0000_0000) as u64;
            proof {
                let p = radix_power(i as nat);
                lemma_value_push(out@, low);
                lemma_carry_step(
                    (low + y + borrow) as nat,
                    0,
                    p,
                    0,
                    (x + next * radix()) as nat,
                );
                assert((low + y + borrow) * p == low * p + y * p + borrow * p)
                    by (nonlinear_arith);
                assert((x + next * radix()) * p == x * p + next * (radix() * p))
                    by (nonlinear_arith);
            }
            out.push(low);
            borrow = next;
            i += 1;
        }
        proof {
            lemma_prefix_beyond(self.limbs@, n as nat);
            lemma_prefix_beyond(other.limbs@, n as nat);
            lemma_prefix_bound(out@, n as nat);
            assert(borrow * radix_power(n as nat) == if borrow == 0 {
                0
            } else {
                radix_power(n as nat)
            }) by (nonlinear_arith)
                requires
                    borrow == 0 || borrow == 1,
            ;
        }
        Natural::from_limbs(out)
    }

    /// The distance between the two numbers.
    pub fn abs_diff(&self, other: &Natural) -> (r: Natural)
        ensures
            r@ == if self@ >= other@ {
                self@ - other@
            } else {
                other@ - self@
            },
    {
        if self.order(other) == -1 {
            other.minus(self)
        } else {
            self.minus(other)
        }
    }
}

} // verus!
