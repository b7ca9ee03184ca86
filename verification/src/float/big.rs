//! Natural numbers of any size.

use vstd::arithmetic::div_mod::*;
use vstd::arithmetic::mul::*;
use vstd::arithmetic::power2::*;
use vstd::prelude::*;

verus! {

/// The weight of limb `i`.
pub open spec fn weight(i: nat) -> nat {
    pow2(32 * i)
}

/// The number whose limbs these are, the lowest first.
pub open spec fn value_of(limbs: Seq<u32>) -> nat
    decreases limbs.len(),
{
    if limbs.len() == 0 {
        0
    } else {
        let top = (limbs.len() - 1) as nat;
        value_of(limbs.drop_last()) + limbs.last() as nat * weight(top)
    }
}

/// `10^k`.
pub open spec fn ten_to(k: nat) -> nat
    decreases k,
{
    if k == 0 {
        1
    } else {
        10 * ten_to((k - 1) as nat)
    }
}

pub proof fn lemma_ten_to_adds(a: nat, b: nat)
    ensures
        ten_to(a + b) == ten_to(a) * ten_to(b),
        ten_to(a) > 0,
    decreases a,
{
    if a > 0 {
        lemma_ten_to_adds((a - 1) as nat, b);
        let x = ten_to((a - 1) as nat);
        let y = ten_to(b);
        assert((10 * x) * y == 10 * (x * y)) by (nonlinear_arith);
    } else {
        assert(1 * ten_to(b) == ten_to(b));
    }
}

proof fn lemma_weight(i: nat)
    ensures
        weight(0) == 1,
        weight(i) > 0,
        weight(i + 1) == 0x1_0000_0000 * weight(i),
{
    lemma2_to64();
    lemma_pow2_pos(32 * i);
    lemma_pow2_adds(32, 32 * i);
    assert(32 * (i + 1) == 32 + 32 * i);
}

proof fn lemma_value_bound(limbs: Seq<u32>)
    ensures
        value_of(limbs) < weight(limbs.len()),
    decreases limbs.len(),
{
    lemma_weight(0);
    if limbs.len() > 0 {
        let top = (limbs.len() - 1) as nat;
        lemma_value_bound(limbs.drop_last());
        lemma_weight(top);
        let w = weight(top);
        let x = limbs.last() as nat;
        assert(w + x * w <= 0x1_0000_0000 * w) by (nonlinear_arith)
            requires
                x < 0x1_0000_0000,
        ;
    }
}

/// Two numbers whose limbs agree from `i` on differ as their lower limbs do.
proof fn lemma_same_above(a: Seq<u32>, b: Seq<u32>, i: nat, n: nat)
    requires
        i <= n <= a.len(),
        n <= b.len(),
        forall|j: int| i <= j < n ==> a[j] == b[j],
    ensures
        value_of(a.take(n as int)) - value_of(a.take(i as int)) == value_of(b.take(n as int))
            - value_of(b.take(i as int)),
    decreases n - i,
{
    if i < n {
        let m = (n - 1) as nat;
        lemma_same_above(a, b, i, m);
        assert(a.take(n as int).drop_last() =~= a.take(m as int));
        assert(b.take(n as int).drop_last() =~= b.take(m as int));
    }
}

/// A natural number, as limbs of 32 bits.
pub struct Big {
    pub limbs: Vec<u32>,
}

impl Big {
    pub open spec fn value(self) -> nat {
        value_of(self.limbs@)
    }

    pub fn from_u64(n: u64) -> (r: Big)
        ensures
            r.value() == n,
    {
        let mut limbs: Vec<u32> = Vec::new();
        let lo: u64 = n % 0x1_0000_0000;
        let hi: u64 = n / 0x1_0000_0000;
        limbs.push(lo as u32);
        limbs.push(hi as u32);
        proof {
            lemma_weight(0);
            lemma_weight(1);
            assert(limbs@.drop_last() =~= seq![lo as u32]);
            assert(limbs@.drop_last().drop_last() =~= Seq::empty());
            reveal_with_fuel(value_of, 3);
        }
        Big { limbs }
    }

    /// The number times `k`, plus `carry`.
    pub fn times_plus(&self, k: u64, carry: u64) -> (r: Big)
        ensures
            r.value() == self.value() * k + carry,
    {
        let n: usize = self.limbs.len();
        let mut out: Vec<u32> = Vec::new();
        let mut c: u128 = carry as u128;
        proof {
            lemma_weight(0);
            assert(self.limbs@.take(0) =~= Seq::empty());
            assert(0 * k == 0);
            assert(c * 1 == c);
        }
        for i in 0..n
            invariant
                n == self.limbs@.len(),
                out@.len() == i,
                c < 0x1_0000_0000_0000_0000,
                value_of(out@) + c * weight(i as nat) == value_of(self.limbs@.take(i as int)) * k
                    + carry,
        {
            let x: u32 = self.limbs[i];
            assert(x as u128 * k as u128 <= 0xFFFF_FFFF * 0xFFFF_FFFF_FFFF_FFFF)
                by (nonlinear_arith)
                requires
                    x <= 0xFFFF_FFFF,
                    k <= 0xFFFF_FFFF_FFFF_FFFF,
            ;
            let t: u128 = x as u128 * k as u128 + c;
            let lo: u128 = t % 0x1_0000_0000;
            let hi: u128 = t / 0x1_0000_0000;
            let ghost before = out@;
            out.push(lo as u32);
            proof {
                lemma_weight(i as nat);
                let w = weight(i as nat);
                let v = value_of(self.limbs@.take(i as int));
                assert(self.limbs@.take(i + 1).drop_last() =~= self.limbs@.take(i as int));
                assert(out@.drop_last() =~= before);
                assert(value_of(before) + lo * w + hi * (0x1_0000_0000 * w) == (v + x * w) * k
                    + carry) by (nonlinear_arith)
                    requires
                        value_of(before) + c * w == v * k + carry,
                        lo + hi * 0x1_0000_0000 == x * k + c,
                ;
            }
            c = hi;
        }
        assert(self.limbs@.take(n as int) =~= self.limbs@);
        let lo: u128 = c % 0x1_0000_0000;
        let hi: u128 = c / 0x1_0000_0000;
        let ghost before = out@;
        let ghost w = weight(n as nat);
        proof {
            lemma_weight(n as nat);
            assert(c == 0 ==> c * w == 0) by (nonlinear_arith);
            assert(lo * w + hi * (0x1_0000_0000 * w) == c * w) by (nonlinear_arith)
                requires
                    lo + hi * 0x1_0000_0000 == c,
            ;
        }
        if c > 0 {
            out.push(lo as u32);
            assert(out@.drop_last() =~= before);
            assert(value_of(out@) == value_of(before) + lo * w);
            let ghost middle = out@;
            if hi > 0 {
                out.push(hi as u32);
                assert(out@.drop_last() =~= middle);
                assert(value_of(out@) == value_of(middle) + hi * (0x1_0000_0000 * w));
            } else {
                assert(0 * (0x1_0000_0000 * w) == 0);
            }
        }
        Big { limbs: out }
    }

    /// The number times `k`.
    pub fn times(&self, k: u64) -> (r: Big)
        ensures
            r.value() == self.value() * k,
    {
        self.times_plus(k, 0)
    }

    /// The number times `2^k`.
    pub fn times_two_to(&self, k: u32) -> (r: Big)
        ensures
            r.value() == self.value() * pow2(k as nat),
    {
        let mut r: Big = self.times(1);
        let mut left: u32 = k;
        proof {
            lemma2_to64();
            assert(self.value() * 1 == self.value());
        }
        while left > 0
            invariant
                left <= k,
                r.value() * pow2(left as nat) == self.value() * pow2(k as nat),
            decreases left,
        {
            let ghost v = r.value();
            if left >= 32 {
                proof {
                    lemma2_to64();
                    lemma_pow2_adds(32, (left - 32) as nat);
                    let q = pow2((left - 32) as nat);
                    assert((v * 0x1_0000_0000) * q == v * (0x1_0000_0000 * q))
                        by (nonlinear_arith);
                }
                r = r.times(0x1_0000_0000);
                left = left - 32;
            } else {
                proof {
                    lemma_pow2_unfold(left as nat);
                    let q = pow2((left - 1) as nat);
                    assert((v * 2) * q == v * (2 * q)) by (nonlinear_arith);
                }
                r = r.times(2);
                left = left - 1;
            }
        }
        proof {
            lemma2_to64();
            assert(r.value() * 1 == r.value());
        }
        r
    }

    /// The number times `10^k`.
    pub fn times_ten_to(&self, k: u128) -> (r: Big)
        ensures
            r.value() == self.value() * ten_to(k as nat),
    {
        let mut r: Big = self.times(1);
        let mut left: u128 = k;
        while left > 0
            invariant
                left <= k,
                r.value() * ten_to(left as nat) == self.value() * ten_to(k as nat),
            decreases left,
        {
            proof {
                let v = r.value();
                let q = ten_to((left - 1) as nat);
                assert((v * 10) * q == v * (10 * q)) by (nonlinear_arith);
            }
            r = r.times(10);
            left = left - 1;
        }
        proof {
            assert(r.value() * 1 == r.value());
        }
        r
    }

    /// The limbs, with zeros above up to `n` limbs.
    fn padded(&self, n: usize) -> (r: Vec<u32>)
        requires
            self.limbs@.len() <= n,
        ensures
            r@.len() == n,
            value_of(r@) == self.value(),
    {
        let mut r: Vec<u32> = Vec::new();
        for i in 0..self.limbs.len()
            invariant
                r@ == self.limbs@.take(i as int),
        {
            r.push(self.limbs[i]);
        }
        assert(self.limbs@.take(self.limbs@.len() as int) =~= self.limbs@);
        while r.len() < n
            invariant
                r@.len() <= n,
                value_of(r@) == self.value(),
            decreases n - r@.len(),
        {
            let ghost before = r@;
            r.push(0);
            assert(r@.drop_last() =~= before);
            assert(0 * weight(before.len()) == 0);
        }
        r
    }

    /// -1, 0 or 1 as the number is less than, equal to or greater than another.
    pub fn against(&self, other: &Big) -> (r: i32)
        ensures
            self.value() < other.value() ==> r == -1,
            self.value() == other.value() ==> r == 0,
            self.value() > other.value() ==> r == 1,
    {
        let n: usize = if self.limbs.len() < other.limbs.len() {
            other.limbs.len()
        } else {
            self.limbs.len()
        };
        let a: Vec<u32> = self.padded(n);
        let b: Vec<u32> = other.padded(n);
        let mut i: usize = n;
        while i > 0
            invariant
                i <= n,
                a@.len() == n,
                b@.len() == n,
                value_of(a@) == self.value(),
                value_of(b@) == other.value(),
                forall|j: int| i <= j < n ==> a@[j] == b@[j],
            decreases i,
        {
            let x: u32 = a[i - 1];
            let y: u32 = b[i - 1];
            if x != y {
                proof {
                    lemma_same_above(a@, b@, i as nat, n as nat);
                    assert(a@.take(n as int) =~= a@);
                    assert(b@.take(n as int) =~= b@);
                    lemma_top_limb(a@.take(i as int), b@.take(i as int));
                    lemma_top_limb(b@.take(i as int), a@.take(i as int));
                }
                return if x < y {
                    -1
                } else {
                    1
                };
            }
            i = i - 1;
        }
        assert(a@ =~= b@);
        0
    }
}

/// Of two numbers with as many limbs, the one with the lower top limb is less.
proof fn lemma_top_limb(a: Seq<u32>, b: Seq<u32>)
    requires
        a.len() == b.len(),
        a.len() > 0,
    ensures
        a.last() < b.last() ==> value_of(a) < value_of(b),
{
    if a.last() < b.last() {
        let top = (a.len() - 1) as nat;
        let w = weight(top);
        let x = a.last() as nat;
        let y = b.last() as nat;
        lemma_value_bound(a.drop_last());
        assert(w + x * w <= y * w) by (nonlinear_arith)
            requires
                x + 1 <= y,
        ;
    }
}

} // verus!
