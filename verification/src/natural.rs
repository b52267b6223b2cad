//! Natural numbers of unbounded size, stored as little-endian 32-bit limbs.
//!
//! Every operation is specified over the mathematical value of the number,
//! a `nat`. Leading zero limbs are allowed and never change the value.

use vstd::arithmetic::div_mod::{
    lemma_fundamental_div_mod, lemma_fundamental_div_mod_converse, lemma_truncate_middle,
};
use vstd::prelude::*;

verus! {

/// The base of the limb representation, 2^32.
pub open spec fn radix() -> nat {
    0x1_0000_0000
}

/// The place value of limb `k`: `radix()` raised to `k`.
pub open spec fn weight(k: nat) -> nat
    decreases k,
{
    if k == 0 {
        1
    } else {
        radix() * weight((k - 1) as nat)
    }
}

/// Limb `k` of `s`, reading zero beyond the stored limbs.
pub open spec fn limb_at(s: Seq<u32>, k: nat) -> nat {
    if k < s.len() {
        s[k as int] as nat
    } else {
        0
    }
}

/// The number formed by the `k` lowest limbs of `s`.
pub open spec fn prefix_value(s: Seq<u32>, k: nat) -> nat
    decreases k,
{
    if k == 0 {
        0
    } else {
        prefix_value(s, (k - 1) as nat) + limb_at(s, (k - 1) as nat) * weight((k - 1) as nat)
    }
}

/// The number that a little-endian limb sequence denotes.
pub open spec fn limbs_value(s: Seq<u32>) -> nat {
    prefix_value(s, s.len())
}

/// Euclid's recursion for the greatest common divisor.
pub open spec fn gcd(a: nat, b: nat) -> nat
    decreases b,
{
    if b == 0 {
        a
    } else {
        gcd(b, a % b)
    }
}

/// Every place value is positive.
pub proof fn lemma_weight_positive(k: nat)
    ensures
        weight(k) > 0,
    decreases k,
{
    if k > 0 {
        lemma_weight_positive((k - 1) as nat);
        assert(radix() * weight((k - 1) as nat) > 0) by (nonlinear_arith)
            requires
                radix() > 0,
                weight((k - 1) as nat) > 0,
        ;
    }
}

/// `k` limbs hold a number below `weight(k)`.
pub proof fn lemma_prefix_bound(s: Seq<u32>, k: nat)
    ensures
        prefix_value(s, k) < weight(k),
    decreases k,
{
    if k > 0 {
        let j = (k - 1) as nat;
        lemma_prefix_bound(s, j);
        let limb = limb_at(s, j);
        let w = weight(j);
        assert(limb <= radix() - 1);
        assert(limb * w <= (radix() - 1) * w) by (nonlinear_arith)
            requires
                limb <= radix() - 1,
                w >= 0,
        ;
        assert((radix() - 1) * w + w == radix() * w) by (nonlinear_arith);
    }
}

/// Limb sequences that agree on their `k` lowest limbs have equal prefixes.
pub proof fn lemma_prefix_agree(s: Seq<u32>, t: Seq<u32>, k: nat)
    requires
        forall|i: nat| i < k ==> limb_at(s, i) == limb_at(t, i),
    ensures
        prefix_value(s, k) == prefix_value(t, k),
    decreases k,
{
    if k > 0 {
        lemma_prefix_agree(s, t, (k - 1) as nat);
        assert(limb_at(s, (k - 1) as nat) == limb_at(t, (k - 1) as nat));
    }
}

/// Reading past the stored limbs adds nothing.
pub proof fn lemma_prefix_beyond(s: Seq<u32>, k: nat)
    requires
        k >= s.len(),
    ensures
        prefix_value(s, k) == limbs_value(s),
    decreases k,
{
    if k > s.len() {
        lemma_prefix_beyond(s, (k - 1) as nat);
        assert(limb_at(s, (k - 1) as nat) * weight((k - 1) as nat) == 0) by (nonlinear_arith)
            requires
                limb_at(s, (k - 1) as nat) == 0,
        ;
    }
}

/// Appending a limb at the high end adds it at the next place value.
pub proof fn lemma_push_high(s: Seq<u32>, x: u32)
    ensures
        limbs_value(s.push(x)) == limbs_value(s) + x * weight(s.len()),
{
    let t = s.push(x);
    assert forall|i: nat| i < s.len() implies limb_at(s, i) == limb_at(t, i) by {}
    lemma_prefix_agree(s, t, s.len());
    assert(limb_at(t, s.len()) == x);
}

/// Inserting a limb at the low end shifts the rest up by one place.
pub proof fn lemma_push_low_prefix(s: Seq<u32>, x: u32, k: nat)
    ensures
        prefix_value(seq![x] + s, k + 1) == x + radix() * prefix_value(s, k),
    decreases k,
{
    let t = seq![x] + s;
    if k == 0 {
        assert(prefix_value(t, 0) == 0);
        assert(limb_at(t, 0) == x);
        assert(weight(0) == 1);
        assert(x * 1 == x) by (nonlinear_arith);
        assert(radix() * 0 == 0) by (nonlinear_arith);
    } else {
        let j = (k - 1) as nat;
        lemma_push_low_prefix(s, x, j);
        assert(limb_at(t, k) == limb_at(s, j));
        let limb = limb_at(s, j);
        let w = weight(j);
        let p = prefix_value(s, j);
        assert(weight(k) == radix() * w);
        assert(limb * (radix() * w) == radix() * (limb * w)) by (nonlinear_arith);
        assert(radix() * (p + limb * w) == radix() * p + radix() * (limb * w)) by (nonlinear_arith);
    }
}

/// Inserting a limb at the low end multiplies the rest by the radix.
pub proof fn lemma_push_low(s: Seq<u32>, x: u32)
    ensures
        limbs_value(seq![x] + s) == x + radix() * limbs_value(s),
{
    lemma_push_low_prefix(s, x, s.len());
}

/// A limb sequence denotes zero exactly when all its limbs are zero.
pub proof fn lemma_zero_limbs(s: Seq<u32>, k: nat)
    ensures
        prefix_value(s, k) == 0 <==> (forall|i: nat| i < k ==> limb_at(s, i) == 0),
    decreases k,
{
    if k > 0 {
        let j = (k - 1) as nat;
        lemma_zero_limbs(s, j);
        lemma_weight_positive(j);
        let limb = limb_at(s, j);
        let w = weight(j);
        if limb == 0 {
            assert(limb * w == 0) by (nonlinear_arith)
                requires
                    limb == 0,
            ;
        } else {
            assert(limb * w > 0) by (nonlinear_arith)
                requires
                    limb > 0,
                    w > 0,
            ;
        }
    }
}

/// Dropping a zero limb at the high end keeps the value.
pub proof fn lemma_drop_high_zero(s: Seq<u32>)
    requires
        s.len() > 0,
        s.last() == 0,
    ensures
        limbs_value(s.drop_last()) == limbs_value(s),
{
    lemma_push_high(s.drop_last(), 0u32);
    assert(s.drop_last().push(0u32) =~= s);
    assert(0 * weight(s.drop_last().len()) == 0) by (nonlinear_arith);
}

/// The greatest common divisor is positive unless both numbers are zero.
pub proof fn lemma_gcd_positive(a: nat, b: nat)
    requires
        a > 0 || b > 0,
    ensures
        gcd(a, b) > 0,
    decreases b,
{
    if b > 0 {
        lemma_gcd_positive(b, a % b);
    }
}

/// The greatest common divisor divides both numbers.
pub proof fn lemma_gcd_divides(a: nat, b: nat)
    requires
        a > 0 || b > 0,
    ensures
        a % gcd(a, b) == 0,
        b % gcd(a, b) == 0,
    decreases b,
{
    lemma_gcd_positive(a, b);
    let g = gcd(a, b);
    if b == 0 {
        lemma_fundamental_div_mod_converse(a as int, g as int, 1, 0);
        lemma_fundamental_div_mod_converse(0, g as int, 0, 0);
    } else {
        let r = a % b;
        lemma_gcd_divides(b, r);
        lemma_fundamental_div_mod(a as int, b as int);
        lemma_fundamental_div_mod(b as int, g as int);
        lemma_fundamental_div_mod(r as int, g as int);
        let x = (b / g) as int;
        let y = (r / g) as int;
        let k = (a / b) as int;
        assert(b == g * x);
        assert(r == g * y);
        assert(a == (x * k + y) * g + 0) by (nonlinear_arith)
            requires
                a == b * k + r,
                b == g * x,
                r == g * y,
        ;
        lemma_fundamental_div_mod_converse(a as int, g as int, x * k + y, 0);
    }
}


/// A common factor of two numbers comes out of their greatest common
/// divisor.
pub proof fn lemma_gcd_scaled(k: nat, a: nat, b: nat)
    requires
        k > 0,
    ensures
        gcd(k * a, k * b) == k * gcd(a, b),
    decreases b,
{
    if b == 0 {
        assert(k * b == 0) by (nonlinear_arith)
            requires
                b == 0,
        ;
    } else {
        lemma_truncate_middle(a as int, k as int, b as int);
        lemma_gcd_scaled(k, b, a % b);
        assert(k * b > 0) by (nonlinear_arith)
            requires
                k > 0,
                b > 0,
        ;
        assert((k * a) % (k * b) == k * (a % b));
    }
}

/// A natural number of unbounded size.
pub struct Natural {
    limbs: Vec<u32>,
}

impl View for Natural {
    type V = nat;

    closed spec fn view(&self) -> nat {
        limbs_value(self.limbs@)
    }
}

impl Clone for Natural {
    fn clone(&self) -> (copy: Self)
        ensures
            copy@ == self@,
    {
        Natural { limbs: self.limbs.clone() }
    }
}

impl Natural {
    /// The number zero.
    pub fn zero() -> (n: Natural)
        ensures
            n@ == 0,
    {
        Natural { limbs: Vec::new() }
    }

    /// The number with the given value.
    pub fn from_u64(value: u64) -> (n: Natural)
        ensures
            n@ == value,
    {
        let low: u32 = (value % 0x1_0000_0000) as u32;
        let high: u32 = (value / 0x1_0000_0000) as u32;
        let mut limbs: Vec<u32> = Vec::new();
        limbs.push(low);
        limbs.push(high);
        proof {
            let s0 = Seq::<u32>::empty();
            lemma_push_high(s0, low);
            lemma_push_high(s0.push(low), high);
            assert(limbs@ =~= s0.push(low).push(high));
            assert(weight(0) == 1);
            assert(weight(1) == radix() * weight(0));
            assert(limbs_value(s0) == 0);
            assert(low * weight(0) == low) by (nonlinear_arith)
                requires
                    weight(0) == 1,
            ;
            assert(high * weight(1) == radix() * high) by (nonlinear_arith)
                requires
                    weight(1) == radix() * 1,
            ;
        }
        Natural { limbs }
    }

    /// The number that the given little-endian limbs denote.
    pub fn from_limbs(limbs: Vec<u32>) -> (n: Natural)
        ensures
            n@ == limbs_value(limbs@),
    {
        Natural { limbs }
    }

    /// The little-endian limbs of the number.
    pub fn to_limbs(&self) -> (limbs: Vec<u32>)
        ensures
            limbs_value(limbs@) == self@,
    {
        self.limbs.clone()
    }

    /// Whether the number is zero.
    pub fn is_zero(&self) -> (zero: bool)
        ensures
            zero <==> self@ == 0,
    {
        let mut i: usize = 0;
        while i < self.limbs.len()
            invariant
                i <= self.limbs.len(),
                forall|k: nat| k < i ==> limb_at(self.limbs@, k) == 0,
            decreases self.limbs.len() - i,
        {
            if self.limbs[i] != 0 {
                proof {
                    lemma_zero_limbs(self.limbs@, self.limbs@.len());
                    assert(limb_at(self.limbs@, i as nat) != 0);
                }
                return false;
            }
            i += 1;
        }
        proof {
            lemma_zero_limbs(self.limbs@, self.limbs@.len());
        }
        true
    }

    /// The sum of two numbers.
    pub fn add(&self, other: &Natural) -> (sum: Natural)
        ensures
            sum@ == self@ + other@,
    {
        let n: usize = if self.limbs.len() >= other.limbs.len() {
            self.limbs.len()
        } else {
            other.limbs.len()
        };
        let mut limbs: Vec<u32> = Vec::new();
        let mut carry: u64 = 0;
        let mut i: usize = 0;
        while i < n
            invariant
                i <= n,
                n >= self.limbs.len(),
                n >= other.limbs.len(),
                limbs.len() == i,
                carry <= 1,
                limbs_value(limbs@) + carry * weight(i as nat) == prefix_value(self.limbs@, i as nat)
                    + prefix_value(other.limbs@, i as nat),
            decreases n - i,
        {
            let x: u64 = if i < self.limbs.len() {
                self.limbs[i] as u64
            } else {
                0
            };
            let y: u64 = if i < other.limbs.len() {
                other.limbs[i] as u64
            } else {
                0
            };
            let total: u64 = x + y + carry;
            let digit: u32 = (total % 0x1_0000_0000) as u32;
            let next: u64 = total / 0x1_0000_0000;
            proof {
                let w = weight(i as nat);
                lemma_push_high(limbs@, digit);
                assert(x == limb_at(self.limbs@, i as nat));
                assert(y == limb_at(other.limbs@, i as nat));
                assert(weight((i + 1) as nat) == radix() * w);
                assert(total == digit + radix() * next);
                assert(digit * w + next * (radix() * w) == (x + y + carry) * w) by (nonlinear_arith)
                    requires
                        x + y + carry == digit + radix() * next,
                ;
                assert((x + y + carry) * w == x * w + y * w + carry * w) by (nonlinear_arith);
            }
            limbs.push(digit);
            carry = next;
            i += 1;
        }
        proof {
            lemma_prefix_beyond(self.limbs@, n as nat);
            lemma_prefix_beyond(other.limbs@, n as nat);
        }
        if carry > 0 {
            proof {
                lemma_push_high(limbs@, 1u32);
            }
            limbs.push(1);
        } else {
            assert(carry * weight(n as nat) == 0) by (nonlinear_arith)
                requires
                    carry == 0,
            ;
        }
        Natural { limbs }
    }

    /// The product of the number and a single limb.
    pub fn mul_small(&self, factor: u32) -> (product: Natural)
        ensures
            product@ == self@ * factor,
    {
        let mut limbs: Vec<u32> = Vec::new();
        let mut carry: u64 = 0;
        let mut i: usize = 0;
        assert(0 * weight(0) == 0 && 0 * factor == 0) by (nonlinear_arith);
        while i < self.limbs.len()
            invariant
                i <= self.limbs.len(),
                limbs.len() == i,
                carry < 0x1_0000_0000,
                limbs_value(limbs@) + carry * weight(i as nat) == prefix_value(self.limbs@, i as nat)
                    * factor,
            decreases self.limbs.len() - i,
        {
            let x: u64 = self.limbs[i] as u64;
            assert(x * factor + carry <= 0xffff_ffff * 0xffff_ffff + 0xffff_ffff) by (nonlinear_arith)
                requires
                    x <= 0xffff_ffff,
                    factor <= 0xffff_ffff,
                    carry <= 0xffff_ffff,
            ;
            let total: u64 = x * (factor as u64) + carry;
            let digit: u32 = (total % 0x1_0000_0000) as u32;
            let next: u64 = total / 0x1_0000_0000;
            proof {
                let w = weight(i as nat);
                let p = prefix_value(self.limbs@, i as nat);
                lemma_push_high(limbs@, digit);
                assert(x == limb_at(self.limbs@, i as nat));
                assert(weight((i + 1) as nat) == radix() * w);
                assert(digit * w + next * (radix() * w) == (x * factor + carry) * w)
                    by (nonlinear_arith)
                    requires
                        x * factor + carry == digit + radix() * next,
                ;
                assert((x * factor + carry) * w == (x * w) * factor + carry * w)
                    by (nonlinear_arith);
                assert((p + x * w) * factor == p * factor + (x * w) * factor) by (nonlinear_arith);
            }
            limbs.push(digit);
            carry = next;
            i += 1;
        }
        proof {
            lemma_push_high(limbs@, carry as u32);
        }
        limbs.push(carry as u32);
        Natural { limbs }
    }
    /// The number with one more limb inserted at the low end.
    pub fn push_low(&self, limb: u32) -> (shifted: Natural)
        ensures
            shifted@ == limb + radix() * self@,
    {
        let mut limbs: Vec<u32> = self.limbs.clone();
        limbs.insert(0, limb);
        proof {
            lemma_push_low(self.limbs@, limb);
            assert(limbs@ =~= seq![limb] + self.limbs@);
        }
        Natural { limbs }
    }

    /// The same number without zero limbs at the high end: the limbs that
    /// are kept are the low limbs of the number as they were, every limb that
    /// is dropped is zero, and the highest limb that is kept is not.
    fn trimmed(self) -> (short: Natural)
        ensures
            short@ == self@,
            short.limbs@.len() <= self.limbs@.len(),
            short.limbs@ == self.limbs@.take(short.limbs@.len() as int),
            forall|k: int| short.limbs@.len() <= k < self.limbs@.len() ==> self.limbs@[k] == 0,
            short.limbs@.len() > 0 ==> short.limbs@.last() != 0,
    {
        let ghost whole = self.limbs@;
        let mut limbs: Vec<u32> = self.limbs;
        assert(limbs@ =~= whole.take(limbs@.len() as int));
        while limbs.len() > 0 && limbs[limbs.len() - 1] == 0
            invariant
                limbs_value(limbs@) == limbs_value(whole),
                limbs@.len() <= whole.len(),
                limbs@ == whole.take(limbs@.len() as int),
                forall|k: int| limbs@.len() <= k < whole.len() ==> whole[k] == 0,
            decreases limbs.len(),
        {
            proof {
                lemma_drop_high_zero(limbs@);
                assert(whole[limbs@.len() - 1] == limbs@[limbs@.len() - 1]);
                assert(limbs@.drop_last() =~= whole.take(limbs@.len() - 1));
            }
            limbs.pop();
        }
        Natural { limbs }
    }

    /// Limb-wise subtraction: the difference, and whether a borrow is left
    /// over, which is the case exactly when `self` is the smaller number.
    fn sub_with_borrow(&self, other: &Natural) -> (out: (Natural, bool))
        ensures
            out.1 <==> self@ < other@,
            !out.1 ==> out.0@ == self@ - other@,
    {
        let n: usize = if self.limbs.len() >= other.limbs.len() {
            self.limbs.len()
        } else {
            other.limbs.len()
        };
        let mut limbs: Vec<u32> = Vec::new();
        let mut borrow: u64 = 0;
        let mut i: usize = 0;
        assert(0 * weight(0) == 0) by (nonlinear_arith);
        while i < n
            invariant
                i <= n,
                n >= self.limbs.len(),
                n >= other.limbs.len(),
                limbs.len() == i,
                borrow <= 1,
                limbs_value(limbs@) + prefix_value(other.limbs@, i as nat) == prefix_value(
                    self.limbs@,
                    i as nat,
                ) + borrow * weight(i as nat),
            decreases n - i,
        {
            let x: u64 = if i < self.limbs.len() {
                self.limbs[i] as u64
            } else {
                0
            };
            let y: u64 = if i < other.limbs.len() {
                other.limbs[i] as u64
            } else {
                0
            };
            let total: u64 = x + 0x1_0000_0000 - y - borrow;
            let digit: u32 = (total % 0x1_0000_0000) as u32;
            let next: u64 = 1 - total / 0x1_0000_0000;
            proof {
                let w = weight(i as nat);
                lemma_push_high(limbs@, digit);
                assert(x == limb_at(self.limbs@, i as nat));
                assert(y == limb_at(other.limbs@, i as nat));
                assert(weight((i + 1) as nat) == radix() * w);
                assert(digit + y + borrow == x + radix() * next);
                assert(digit * w + y * w + borrow * w == x * w + next * (radix() * w))
                    by (nonlinear_arith)
                    requires
                        digit + y + borrow == x + radix() * next,
                ;
            }
            limbs.push(digit);
            borrow = next;
            i += 1;
        }
        proof {
            lemma_prefix_beyond(self.limbs@, n as nat);
            lemma_prefix_beyond(other.limbs@, n as nat);
            lemma_prefix_bound(self.limbs@, n as nat);
            lemma_prefix_bound(other.limbs@, n as nat);
            lemma_prefix_bound(limbs@, n as nat);
            assert(borrow * weight(n as nat) == if borrow == 1 {
                weight(n as nat)
            } else {
                0
            }) by (nonlinear_arith)
                requires
                    borrow <= 1,
            ;
        }
        (Natural { limbs }.trimmed(), borrow == 1)
    }

    /// Whether `self` is less than `other`.
    pub fn lt(&self, other: &Natural) -> (less: bool)
        ensures
            less <==> self@ < other@,
    {
        self.sub_with_borrow(other).1
    }

    /// Whether the two numbers are equal.
    pub fn eq(&self, other: &Natural) -> (same: bool)
        ensures
            same <==> self@ == other@,
    {
        !self.lt(other) && !other.lt(self)
    }

    /// The difference `self - other`, which exists when `other` is not the
    /// larger number.
    pub fn checked_sub(&self, other: &Natural) -> (difference: Option<Natural>)
        ensures
            difference is Some <==> self@ >= other@,
            difference matches Some(d) ==> d@ == self@ - other@,
    {
        let (d, borrow) = self.sub_with_borrow(other);
        if borrow {
            None
        } else {
            Some(d)
        }
    }

    /// The product of two numbers.
    pub fn mul(&self, other: &Natural) -> (product: Natural)
        ensures
            product@ == self@ * other@,
    {
        let mut acc = Natural::zero();
        let mut i: usize = self.limbs.len();
        assert(self.limbs@.skip(i as int) =~= Seq::<u32>::empty());
        assert(0 * other@ == 0) by (nonlinear_arith);
        while i > 0
            invariant
                i <= self.limbs.len(),
                acc@ == limbs_value(self.limbs@.skip(i as int)) * other@,
            decreases i,
        {
            i -= 1;
            let limb: u32 = self.limbs[i];
            let term = other.mul_small(limb);
            let shifted = acc.push_low(0);
            proof {
                let rest = self.limbs@.skip(i + 1);
                lemma_push_low(rest, limb);
                assert(self.limbs@.skip(i as int) =~= seq![limb] + rest);
                let r = limbs_value(rest);
                let o = other@;
                assert((limb + radix() * r) * o == o * limb + radix() * (r * o)) by (nonlinear_arith);
            }
            acc = shifted.add(&term).trimmed();
        }
        assert(self.limbs@.skip(0) =~= self.limbs@);
        acc
    }

    /// Division of a number below `radix() * divisor` by `divisor`: the
    /// single-limb quotient and the remainder.
    fn div_limb(&self, divisor: &Natural) -> (out: (u32, Natural))
        requires
            divisor@ > 0,
            self@ < radix() * divisor@,
        ensures
            self@ == out.0 * divisor@ + out.1@,
            out.1@ < divisor@,
    {
        let mut low: u64 = 0;
        let mut high: u64 = 0x1_0000_0000;
        assert(0 * divisor@ == 0) by (nonlinear_arith);
        while high - low > 1
            invariant
                low < high <= 0x1_0000_0000,
                low * divisor@ <= self@ < high * divisor@,
            decreases high - low,
        {
            let mid: u64 = low + (high - low) / 2;
            let trial = divisor.mul_small(mid as u32);
            if self.lt(&trial) {
                assert(divisor@ * mid == mid * divisor@) by (nonlinear_arith);
                high = mid;
            } else {
                assert(divisor@ * mid == mid * divisor@) by (nonlinear_arith);
                low = mid;
            }
        }
        let digit: u32 = low as u32;
        let below = divisor.mul_small(digit);
        let (rest, borrow) = self.sub_with_borrow(&below);
        proof {
            let d = divisor@;
            assert(d * digit == digit * d) by (nonlinear_arith);
            assert((low + 1) * d == low * d + d) by (nonlinear_arith);
        }
        (digit, rest)
    }

    /// Quotient and remainder of the division by a positive number.
    pub fn div_rem(&self, divisor: &Natural) -> (out: (Natural, Natural))
        requires
            divisor@ > 0,
        ensures
            out.0@ == self@ / divisor@,
            out.1@ == self@ % divisor@,
    {
        let mut quotient = Natural::zero();
        let mut rest = Natural::zero();
        let mut i: usize = self.limbs.len();
        assert(self.limbs@.skip(i as int) =~= Seq::<u32>::empty());
        assert(0 * divisor@ == 0) by (nonlinear_arith);
        while i > 0
            invariant
                i <= self.limbs.len(),
                divisor@ > 0,
                rest@ < divisor@,
                limbs_value(self.limbs@.skip(i as int)) == quotient@ * divisor@ + rest@,
            decreases i,
        {
            i -= 1;
            let limb: u32 = self.limbs[i];
            let current = rest.push_low(limb);
            proof {
                let d = divisor@;
                let r = rest@;
                assert(limb + radix() * r < radix() * d) by (nonlinear_arith)
                    requires
                        limb < radix(),
                        r + 1 <= d,
                ;
            }
            let (digit, remainder) = current.div_limb(divisor);
            let next = quotient.push_low(digit);
            proof {
                let tail = self.limbs@.skip(i + 1);
                lemma_push_low(tail, limb);
                assert(self.limbs@.skip(i as int) =~= seq![limb] + tail);
                let d = divisor@;
                let q = quotient@;
                let r = rest@;
                assert(limb + radix() * (q * d + r) == (digit + radix() * q) * d + remainder@)
                    by (nonlinear_arith)
                    requires
                        limb + radix() * r == digit * d + remainder@,
                ;
            }
            quotient = next.trimmed();
            rest = remainder;
        }
        proof {
            assert(self.limbs@.skip(0) =~= self.limbs@);
            lemma_fundamental_div_mod_converse(
                self@ as int,
                divisor@ as int,
                quotient@ as int,
                rest@ as int,
            );
        }
        (quotient, rest)
    }

    /// The greatest common divisor of two numbers.
    pub fn gcd(&self, other: &Natural) -> (g: Natural)
        ensures
            g@ == gcd(self@, other@),
    {
        let mut a = self.clone();
        let mut b = other.clone();
        while !b.is_zero()
            invariant
                gcd(a@, b@) == gcd(self@, other@),
            decreases b@,
        {
            let (_, r) = a.div_rem(&b);
            a = b;
            b = r;
        }
        a
    }
}

} // verus!
