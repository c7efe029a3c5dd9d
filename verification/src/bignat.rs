//! Natural numbers of any size, for exact decimal conversion.

use vstd::prelude::*;

verus! {

/// What one limb more is worth.
pub const BASE: u64 = 0x1_0000_0000;

/// The number that little-endian limbs write.
pub open spec fn limbs_value(s: Seq<u32>) -> nat
    decreases s.len(),
{
    if s.len() == 0 {
        0
    } else {
        s[0] as nat + BASE as nat * limbs_value(s.skip(1))
    }
}

/// `x` with the limbs of `p` below it.
spec fn above(p: Seq<u32>, x: int) -> int
    decreases p.len(),
{
    if p.len() == 0 {
        x
    } else {
        p[0] + BASE * above(p.skip(1), x)
    }
}

proof fn lemma_above_push(p: Seq<u32>, d: u32, x: int)
    ensures
        above(p.push(d), x) == above(p, d + BASE * x),
    decreases p.len(),
{
    let q = p.push(d);
    if p.len() == 0 {
        assert(q.skip(1) =~= Seq::<u32>::empty());
        assert(above(q.skip(1), x) == x);
    } else {
        assert(q.skip(1) == p.skip(1).push(d));
        lemma_above_push(p.skip(1), d, x);
    }
}

proof fn lemma_above_value(p: Seq<u32>)
    ensures
        above(p, 0) == limbs_value(p),
    decreases p.len(),
{
    if p.len() > 0 {
        lemma_above_value(p.skip(1));
    }
}

/// A natural number.
pub struct BigNat {
    limbs: Vec<u32>,
}

impl View for BigNat {
    type V = nat;

    closed spec fn view(&self) -> nat {
        limbs_value(self.limbs@)
    }
}

impl BigNat {
    /// Zero.
    pub fn zero() -> (r: BigNat)
        ensures
            r@ == 0,
    {
        BigNat { limbs: Vec::new() }
    }

    /// Multiplies by `m` and adds `a`.
    pub fn mul_add(&mut self, m: u32, a: u32)
        ensures
            final(self)@ == old(self)@ * m + a,
    {
        let ghost start = self.limbs@;
        let mut carry: u32 = a;
        let mut i: usize = 0;
        assert(start.skip(0) == start);
        assert(self.limbs@.take(0) =~= Seq::<u32>::empty());
        while i < self.limbs.len()
            invariant
                i <= self.limbs@.len(),
                self.limbs@.len() == start.len(),
                forall|j: int| i <= j < start.len() ==> self.limbs@[j] == start[j],
                above(self.limbs@.take(i as int), limbs_value(start.skip(i as int)) * m + carry)
                    == limbs_value(start) * m + a,
            decreases self.limbs@.len() - i,
        {
            let l: u32 = self.limbs[i];
            assert(l * m + carry <= 0xffff_ffff * 0xffff_ffff + 0xffff_ffff) by (nonlinear_arith)
                requires
                    l <= 0xffff_ffff,
                    m <= 0xffff_ffff,
                    carry <= 0xffff_ffff,
            ;
            let wide: u64 = l as u64 * m as u64 + carry as u64;
            let low: u32 = (wide % BASE) as u32;
            let high: u32 = (wide / BASE) as u32;
            let ghost before = self.limbs@.take(i as int);
            let ghost rest = limbs_value(start.skip(i + 1)) as int;
            proof {
                let here = start.skip(i as int);
                assert(here.skip(1) == start.skip(i + 1));
                assert(limbs_value(here) == l + BASE * rest);
                assert((l + BASE * rest) * m + carry == low + BASE * (rest * m + high))
                    by (nonlinear_arith)
                    requires
                        wide == l * m + carry,
                        wide == BASE * high + low,
                        BASE == 0x1_0000_0000,
                ;
                lemma_above_push(before, low, rest * m + high);
            }
            self.limbs.set(i, low);
            assert(self.limbs@.take(i + 1) == before.push(low));
            carry = high;
            i += 1;
        }
        assert(start.skip(i as int) =~= Seq::<u32>::empty());
        assert(self.limbs@.take(i as int) == self.limbs@);
        let ghost done = self.limbs@;
        if carry > 0 {
            self.limbs.push(carry);
            proof {
                lemma_above_push(done, carry, 0);
            }
        }
        proof {
            assert(limbs_value(start.skip(i as int)) * m == 0) by (nonlinear_arith)
                requires
                    limbs_value(start.skip(i as int)) == 0,
            ;
            lemma_above_value(self.limbs@);
        }
    }

    /// Whether the number is less than another one.
    pub fn less(&self, other: &BigNat) -> (b: bool)
        ensures
            b == (self@ < other@),
    {
        let n: usize = if self.limbs.len() < other.limbs.len() {
            other.limbs.len()
        } else {
            self.limbs.len()
        };
        let mut i: usize = n;
        let mut lt: bool = false;
        let mut gt: bool = false;
        while i > 0
            invariant
                i <= n,
                n >= self.limbs@.len(),
                n >= other.limbs@.len(),
                !(lt && gt),
                lt == (tail_value(self.limbs@, i as int) < tail_value(other.limbs@, i as int)),
                gt == (tail_value(self.limbs@, i as int) > tail_value(other.limbs@, i as int)),
            decreases i,
        {
            let a: u32 = if i - 1 < self.limbs.len() {
                self.limbs[i - 1]
            } else {
                0
            };
            let b: u32 = if i - 1 < other.limbs.len() {
                other.limbs[i - 1]
            } else {
                0
            };
            proof {
                lemma_tail_value(self.limbs@, i - 1);
                lemma_tail_value(other.limbs@, i - 1);
            }
            if !lt && !gt {
                lt = a < b;
                gt = a > b;
            }
            i -= 1;
        }
        assert(self.limbs@.skip(0) == self.limbs@);
        assert(other.limbs@.skip(0) == other.limbs@);
        lt
    }

    /// Subtracts a number that is not greater.
    pub fn subtract(&mut self, other: &BigNat)
        requires
            other@ <= old(self)@,
        ensures
            final(self)@ == old(self)@ - other@,
    {
        let ghost start = self.limbs@;
        let ghost total: int = limbs_value(start) - limbs_value(other.limbs@);
        let mut borrow: u32 = 0;
        let mut i: usize = 0;
        assert(start.skip(0) == start);
        assert(other.limbs@.skip(0) == other.limbs@);
        assert(self.limbs@.take(0) =~= Seq::<u32>::empty());
        while i < self.limbs.len()
            invariant
                i <= self.limbs@.len(),
                self.limbs@.len() == start.len(),
                borrow <= 1,
                total == limbs_value(start) - limbs_value(other.limbs@),
                forall|j: int| i <= j < start.len() ==> self.limbs@[j] == start[j],
                above(
                    self.limbs@.take(i as int),
                    tail_value(start, i as int) - tail_value(other.limbs@, i as int) - borrow,
                ) == total,
            decreases self.limbs@.len() - i,
        {
            let l: u32 = self.limbs[i];
            let r: u32 = if i < other.limbs.len() {
                other.limbs[i]
            } else {
                0
            };
            let wide: u64 = BASE + l as u64 - r as u64 - borrow as u64;
            let low: u32 = (wide % BASE) as u32;
            let next: u32 = if wide >= BASE {
                0
            } else {
                1
            };
            let ghost before = self.limbs@.take(i as int);
            proof {
                lemma_tail_value(start, i as int);
                lemma_tail_value(other.limbs@, i as int);
                let x = tail_value(start, i + 1) - tail_value(other.limbs@, i + 1) - next;
                lemma_above_push(before, low, x);
            }
            self.limbs.set(i, low);
            assert(self.limbs@.take(i + 1) == before.push(low));
            borrow = next;
            i += 1;
        }
        proof {
            let p = self.limbs@;
            assert(p.take(i as int) == p);
            let x = tail_value(start, i as int) - tail_value(other.limbs@, i as int) - borrow;
            assert(tail_value(start, i as int) == 0);
            lemma_above_bound(p, x);
            lemma_above_value(p);
        }
    }

    /// Divides by `d` and returns the remainder.
    pub fn div_rem(&mut self, d: u32) -> (r: u32)
        requires
            d > 0,
        ensures
            r < d,
            old(self)@ == final(self)@ * d + r,
    {
        let ghost start = self.limbs@;
        let mut rem: u32 = 0;
        let mut i: usize = self.limbs.len();
        assert(start.skip(i as int) =~= Seq::<u32>::empty());
        assert(0 * d == 0) by (nonlinear_arith);
        while i > 0
            invariant
                i <= self.limbs@.len(),
                self.limbs@.len() == start.len(),
                d > 0,
                rem < d,
                forall|j: int| 0 <= j < i ==> self.limbs@[j] == start[j],
                limbs_value(start.skip(i as int)) == limbs_value(self.limbs@.skip(i as int)) * d
                    + rem,
            decreases i,
        {
            let ghost high_q = self.limbs@.skip(i as int);
            let ghost high_s = start.skip(i as int);
            let l: u32 = self.limbs[i - 1];
            let wide: u64 = rem as u64 * BASE + l as u64;
            assert(wide / d as u64 <= 0xffff_ffff) by (nonlinear_arith)
                requires
                    wide == rem * 0x1_0000_0000 + l,
                    rem < d,
                    l <= 0xffff_ffff,
                    d > 0,
            ;
            let q: u32 = (wide / d as u64) as u32;
            let next: u32 = (wide % d as u64) as u32;
            self.limbs.set(i - 1, q);
            proof {
                let hs = start.skip(i - 1);
                let hq = self.limbs@.skip(i - 1);
                assert(hs.skip(1) == high_s);
                assert(hq.skip(1) == high_q);
                let s = limbs_value(high_s) as int;
                let t = limbs_value(high_q) as int;
                assert(wide == q * d + next) by (nonlinear_arith)
                    requires
                        q as int == (wide as int) / (d as int),
                        next as int == (wide as int) % (d as int),
                        d > 0,
                ;
                assert(l + BASE * s == (q + BASE * t) * d + next) by (nonlinear_arith)
                    requires
                        s == t * d + rem,
                        wide == rem * BASE + l,
                        wide == q * d + next,
                ;
            }
            rem = next;
            i -= 1;
        }
        assert(start.skip(0) == start);
        assert(self.limbs@.skip(0) == self.limbs@);
        rem
    }

    /// Whether the number is zero.
    pub fn is_zero(&self) -> (b: bool)
        ensures
            b == (self@ == 0),
    {
        let z = BigNat::zero();
        !z.less(self)
    }
}

/// The limbs of `s` from index `i` on, as a number.
spec fn tail_value(s: Seq<u32>, i: int) -> nat {
    if i < s.len() {
        limbs_value(s.skip(i))
    } else {
        0
    }
}

proof fn lemma_tail_value(s: Seq<u32>, i: int)
    requires
        0 <= i,
    ensures
        tail_value(s, i) == (if i < s.len() {
            s[i] as nat
        } else {
            0
        }) + BASE as nat * tail_value(s, i + 1),
{
    if i < s.len() {
        let t = s.skip(i);
        assert(t.skip(1) == s.skip(i + 1));
        assert(limbs_value(t) == t[0] as nat + BASE as nat * limbs_value(t.skip(1)));
        assert(limbs_value(s.skip(i + 1)) == tail_value(s, i + 1));
    } else {
        assert(BASE as nat * 0 == 0) by (nonlinear_arith);
    }
}

/// What stands above the limbs of a natural number is not negative.
proof fn lemma_above_bound(p: Seq<u32>, x: int)
    ensures
        above(p, x) >= 0 ==> x >= 0,
        x <= 0 && above(p, x) >= 0 ==> x == 0,
    decreases p.len(),
{
    if p.len() > 0 {
        lemma_above_bound(p.skip(1), x);
    }
}

} // verus!
