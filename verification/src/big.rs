//! Whole numbers of any size.

use vstd::arithmetic::power::{lemma_pow0, lemma_pow1, lemma_pow_adds, lemma_pow_positive, pow};
use vstd::arithmetic::power2::{lemma_pow2_unfold, pow2};
use vstd::prelude::*;

verus! {

/// What a limb counts to.
pub const BASE: u64 = 0x1_0000_0000;

/// A whole number of any size, in limbs, the lowest first.
#[derive(Debug)]
pub struct Big {
    limbs: Vec<u32>,
}

/// The limb at `i`, nothing past the end.
spec fn limb(s: Seq<u32>, i: int) -> int {
    if 0 <= i < s.len() {
        s[i] as int
    } else {
        0
    }
}

/// What the first `n` limbs are worth.
spec fn low(s: Seq<u32>, n: int) -> int
    decreases n,
{
    if n <= 0 {
        0
    } else {
        low(s, n - 1) + limb(s, n - 1) * pow(BASE as int, (n - 1) as nat)
    }
}

impl View for Big {
    type V = int;

    closed spec fn view(&self) -> int {
        low(self.limbs@, self.limbs@.len() as int)
    }
}

proof fn lemma_low_bound(s: Seq<u32>, n: int)
    requires
        0 <= n,
    ensures
        0 <= low(s, n) < pow(BASE as int, n as nat),
    decreases n,
{
    if n == 0 {
        lemma_pow0(BASE as int);
    } else {
        lemma_low_bound(s, n - 1);
        let p = pow(BASE as int, (n - 1) as nat);
        let x = limb(s, n - 1);
        lemma_place(n - 1);
        assert(0 <= x * p <= (BASE - 1) * p) by (nonlinear_arith)
            requires
                0 <= x <= BASE - 1,
                p > 0,
        ;
        assert((BASE - 1) * p + p == BASE * p) by (nonlinear_arith);
    }
}

/// Each place is worth as much as the one before, times the base.
proof fn lemma_place(n: int)
    requires
        0 <= n,
    ensures
        pow(BASE as int, n as nat) > 0,
        pow(BASE as int, (n + 1) as nat) == BASE * pow(BASE as int, n as nat),
{
    lemma_pow_positive(BASE as int, n as nat);
    lemma_pow1(BASE as int);
    lemma_pow_adds(BASE as int, 1, n as nat);
}

proof fn lemma_low_past(s: Seq<u32>, n: int)
    requires
        n >= s.len(),
    ensures
        low(s, n) == low(s, s.len() as int),
    decreases n,
{
    if n > s.len() {
        lemma_low_past(s, n - 1);
        assert(limb(s, n - 1) * pow(BASE as int, (n - 1) as nat) == 0) by (nonlinear_arith)
            requires
                limb(s, n - 1) == 0,
        ;
    }
}

/// Only the limbs below count.
proof fn lemma_low_same(s: Seq<u32>, t: Seq<u32>, n: int)
    requires
        forall|i: int| 0 <= i < n ==> limb(s, i) == #[trigger] limb(t, i),
    ensures
        low(s, n) == low(t, n),
    decreases n,
{
    if n > 0 {
        lemma_low_same(s, t, n - 1);
        assert(limb(s, n - 1) == limb(t, n - 1));
    }
}

proof fn lemma_push(s: Seq<u32>, x: u32)
    ensures
        low(s.push(x), (s.len() + 1) as int) == low(s, s.len() as int) + x * pow(BASE as int, s.len()),
        low(s.push(x), s.len() as int) == low(s, s.len() as int),
{
    lemma_low_same(s.push(x), s, s.len() as int);
}

impl Big {
    fn at(&self, i: usize) -> (r: u32)
        ensures
            r == limb(self.limbs@, i as int),
    {
        if i < self.limbs.len() {
            self.limbs[i]
        } else {
            0
        }
    }

    /// A number is never below nothing.
    pub proof fn lemma_natural(&self)
        ensures
            self@ >= 0,
    {
        lemma_low_bound(self.limbs@, self.limbs@.len() as int);
    }

    /// A small number.
    pub fn small(n: u64) -> (r: Big)
        ensures
            r@ == n,
    {
        let lo: u32 = (n % BASE) as u32;
        let hi: u32 = (n / BASE) as u32;
        let mut limbs: Vec<u32> = Vec::new();
        limbs.push(lo);
        limbs.push(hi);
        proof {
            lemma_pow0(BASE as int);
            lemma_pow1(BASE as int);
            reveal_with_fuel(low, 3);
        }
        Big { limbs }
    }

    /// The number times `factor`, plus `more`.
    pub fn scaled(&self, factor: u32, more: u32) -> (r: Big)
        ensures
            r@ == self@ * factor + more,
    {
        let mut limbs: Vec<u32> = Vec::new();
        let mut carry: u64 = more as u64;
        let mut i: usize = 0;
        proof {
            lemma_pow0(BASE as int);
        }
        assert(low(self.limbs@, 0) * factor == 0);
        while i < self.limbs.len()
            invariant
                i <= self.limbs.len(),
                limbs@.len() == i,
                carry < BASE,
                low(limbs@, i as int) + carry * pow(BASE as int, i as nat) == low(
                    self.limbs@,
                    i as int,
                ) * factor + more,
            decreases self.limbs.len() - i,
        {
            let x: u32 = self.limbs[i];
            proof {
                assert(x as int * factor as int <= 0xffff_fffe_0000_0001) by (nonlinear_arith)
                    requires
                        0 <= x <= 0xffff_ffff,
                        0 <= factor <= 0xffff_ffff,
                ;
            }
            let t: u64 = x as u64 * factor as u64 + carry;
            let lo: u32 = (t % BASE) as u32;
            let hi: u64 = t / BASE;
            let ghost before = limbs@;
            limbs.push(lo);
            proof {
                lemma_push(before, lo);
                lemma_place(i as int);
                let p = pow(BASE as int, i as nat);
                let a = low(self.limbs@, i as int);
                assert(low(self.limbs@, i + 1) == a + x * p);
                assert((a + x * p) * factor + more == (a * factor + more) + (x * factor) * p)
                    by (nonlinear_arith);
                assert(t == hi * BASE + lo);
                assert(lo * p + hi * (BASE * p) == t * p) by (nonlinear_arith)
                    requires
                        t == hi * BASE + lo,
                ;
                assert(t * p == (x * factor) * p + carry * p) by (nonlinear_arith)
                    requires
                        t == x * factor + carry,
                ;
            }
            carry = hi;
            i += 1;
        }
        if carry > 0 {
            let ghost before = limbs@;
            limbs.push(carry as u32);
            proof {
                lemma_push(before, carry as u32);
            }
        } else {
            assert(carry * pow(BASE as int, i as nat) == 0);
        }
        Big { limbs }
    }

    /// The number twice over.
    pub fn doubled(&self) -> (r: Big)
        ensures
            r@ == 2 * self@,
    {
        self.scaled(2, 0)
    }

    /// The number times a power of two.
    pub fn shifted(&self, by: u32) -> (r: Big)
        ensures
            r@ == self@ * pow2(by as nat),
    {
        let mut r = self.scaled(1, 0);
        let mut i: u32 = 0;
        proof {
            vstd::arithmetic::power2::lemma2_to64();
        }
        while by - i >= 16
            invariant
                i <= by,
                r@ == self@ * pow2(i as nat),
            decreases by - i,
        {
            proof {
                vstd::arithmetic::power2::lemma2_to64();
                vstd::arithmetic::power2::lemma_pow2_adds(i as nat, 16);
                let p = pow2(i as nat) as int;
                assert((self@ * p) * 65_536 == self@ * (p * 65_536)) by (nonlinear_arith);
            }
            r = r.scaled(65_536, 0);
            i += 16;
        }
        while i < by
            invariant
                i <= by,
                r@ == self@ * pow2(i as nat),
            decreases by - i,
        {
            proof {
                lemma_pow2_unfold((i + 1) as nat);
                let p = pow2(i as nat) as int;
                assert(2 * (self@ * p) == self@ * (2 * p)) by (nonlinear_arith);
            }
            r = r.doubled();
            i += 1;
        }
        r
    }

    /// Two numbers together.
    pub fn plus(&self, other: &Big) -> (r: Big)
        ensures
            r@ == self@ + other@,
    {
        let n: usize = if self.limbs.len() > other.limbs.len() {
            self.limbs.len()
        } else {
            other.limbs.len()
        };
        let mut limbs: Vec<u32> = Vec::new();
        let mut carry: u64 = 0;
        let mut i: usize = 0;
        while i < n
            invariant
                i <= n,
                limbs@.len() == i,
                carry <= 1,
                low(limbs@, i as int) + carry * pow(BASE as int, i as nat) == low(
                    self.limbs@,
                    i as int,
                ) + low(other.limbs@, i as int),
            decreases n - i,
        {
            let x: u32 = self.at(i);
            let y: u32 = other.at(i);
            let t: u64 = x as u64 + y as u64 + carry;
            let lo: u32 = (t % BASE) as u32;
            let hi: u64 = t / BASE;
            let ghost before = limbs@;
            limbs.push(lo);
            proof {
                lemma_push(before, lo);
                lemma_place(i as int);
                let p = pow(BASE as int, i as nat);
                assert(lo * p + hi * (BASE * p) == x * p + y * p + carry * p) by (nonlinear_arith)
                    requires
                        x + y + carry == hi * BASE + lo,
                ;
            }
            carry = hi;
            i += 1;
        }
        proof {
            lemma_low_past(self.limbs@, n as int);
            lemma_low_past(other.limbs@, n as int);
        }
        if carry > 0 {
            let ghost before = limbs@;
            limbs.push(carry as u32);
            proof {
                lemma_push(before, carry as u32);
            }
        } else {
            assert(carry * pow(BASE as int, i as nat) == 0);
        }
        Big { limbs }
    }

    /// Whether this number is the smaller.
    pub fn less(&self, other: &Big) -> (r: bool)
        ensures
            r == (self@ < other@),
    {
        let n: usize = if self.limbs.len() > other.limbs.len() {
            self.limbs.len()
        } else {
            other.limbs.len()
        };
        let mut i: usize = n;
        proof {
            lemma_low_past(self.limbs@, n as int);
            lemma_low_past(other.limbs@, n as int);
        }
        while i > 0
            invariant
                i <= n,
                self@ - other@ == low(self.limbs@, i as int) - low(other.limbs@, i as int),
            decreases i,
        {
            let x: u32 = self.at(i - 1);
            let y: u32 = other.at(i - 1);
            proof {
                lemma_place(i - 1);
                lemma_low_bound(self.limbs@, i - 1);
                lemma_low_bound(other.limbs@, i - 1);
                let p = pow(BASE as int, (i - 1) as nat);
                if x < y {
                    assert(x * p + p <= y * p) by (nonlinear_arith)
                        requires
                            x + 1 <= y,
                            p > 0,
                    ;
                } else if y < x {
                    assert(y * p + p <= x * p) by (nonlinear_arith)
                        requires
                            y + 1 <= x,
                            p > 0,
                    ;
                }
            }
            if x != y {
                return x < y;
            }
            i -= 1;
        }
        false
    }

    /// This number less one that is no larger.
    pub fn minus(&self, other: &Big) -> (r: Big)
        requires
            other@ <= self@,
        ensures
            r@ == self@ - other@,
    {
        let n: usize = if self.limbs.len() > other.limbs.len() {
            self.limbs.len()
        } else {
            other.limbs.len()
        };
        let mut limbs: Vec<u32> = Vec::new();
        let mut borrow: u64 = 0;
        let mut i: usize = 0;
        while i < n
            invariant
                i <= n,
                limbs@.len() == i,
                borrow <= 1,
                low(limbs@, i as int) - borrow * pow(BASE as int, i as nat) == low(
                    self.limbs@,
                    i as int,
                ) - low(other.limbs@, i as int),
            decreases n - i,
        {
            let x: u32 = self.at(i);
            let y: u32 = other.at(i);
            let t: u64 = BASE + x as u64 - y as u64 - borrow;
            let lo: u32 = (t % BASE) as u32;
            let kept: u64 = t / BASE;
            let ghost before = limbs@;
            limbs.push(lo);
            proof {
                lemma_push(before, lo);
                lemma_place(i as int);
                let p = pow(BASE as int, i as nat);
                assert(lo * p - (1 - kept) * (BASE * p) == x * p - y * p - borrow * p)
                    by (nonlinear_arith)
                    requires
                        BASE + x - y - borrow == kept * BASE + lo,
                ;
            }
            borrow = 1 - kept;
            i += 1;
        }
        proof {
            lemma_low_past(self.limbs@, n as int);
            lemma_low_past(other.limbs@, n as int);
            lemma_low_bound(limbs@, n as int);
            lemma_place(n as int);
            assert(borrow == 0);
        }
        Big { limbs }
    }

    /// Whether the number is nothing.
    pub fn is_zero(&self) -> (r: bool)
        ensures
            r == (self@ == 0),
    {
        let one = Big::small(1);
        proof {
            self.lemma_natural();
        }
        self.less(&one)
    }

    /// A number of up to 128 bits.
    pub fn wide(n: u128) -> (r: Big)
        ensures
            r@ == n,
    {
        let hi: u64 = (n / 0x1_0000_0000_0000_0000) as u64;
        let lo: u64 = (n % 0x1_0000_0000_0000_0000) as u64;
        proof {
            vstd::arithmetic::power2::lemma2_to64();
        }
        Big::small(hi).shifted(64).plus(&Big::small(lo))
    }

    /// The number, held within the range of a `u64`.
    pub fn held(&self) -> (r: u64)
        ensures
            r == if self@ < u64::MAX {
                self@
            } else {
                u64::MAX as int
            },
    {
        if !self.less(&Big::small(u64::MAX)) {
            return u64::MAX;
        }
        let lo: u32 = self.at(0);
        let hi: u32 = self.at(1);
        proof {
            let s = self.limbs@;
            let n = s.len() as int;
            lemma_pow0(BASE as int);
            lemma_pow1(BASE as int);
            lemma_place(1);
            lemma_low_bound(s, 2);
            reveal_with_fuel(low, 3);
            assert(low(s, 2) == lo + hi * BASE);
            if n < 2 {
                lemma_low_past(s, 2);
            } else {
                lemma_low_above(s, n);
            }
        }
        hi as u64 * BASE + lo as u64
    }

    /// The number divided by a small one, and what is left over.
    pub fn divided(&self, by: u32) -> (r: (Big, u32))
        requires
            by > 0,
        ensures
            r.0@ == self@ / by as int,
            r.1 == self@ % by as int,
    {
        let n: usize = self.limbs.len();
        let mut limbs: Vec<u32> = Vec::new();
        let mut i: usize = 0;
        while i < n
            invariant
                i <= n,
                limbs@.len() == i,
                forall|j: int| 0 <= j < i ==> limbs@[j] == 0,
            decreases n - i,
        {
            limbs.push(0);
            i += 1;
        }
        let mut rest: u64 = 0;
        proof {
            lemma_all_zero(limbs@, n as int);
        }
        while i > 0
            invariant
                i <= n,
                n == self.limbs@.len(),
                limbs@.len() == n,
                by > 0,
                rest < by,
                forall|j: int| 0 <= j < i ==> limbs@[j] == 0,
                self@ - low(self.limbs@, i as int) == low(limbs@, n as int) * by + rest * pow(
                    BASE as int,
                    i as nat,
                ),
            decreases i,
        {
            let x: u32 = self.limbs[i - 1];
            let t: u64 = rest * BASE + x as u64;
            let q: u64 = t / by as u64;
            proof {
                assert(q < BASE) by (nonlinear_arith)
                    requires
                        q == t as int / by as int,
                        t < by * BASE,
                        by > 0,
                ;
                lemma_place(i - 1);
            }
            let left: u64 = t % by as u64;
            let ghost before = limbs@;
            limbs.set(i - 1, q as u32);
            proof {
                lemma_low_set(before, i - 1, q as u32, n as int);
                let p = pow(BASE as int, (i - 1) as nat);
                let v = low(before, n as int);
                assert(t == q * by + left) by {
                    vstd::arithmetic::div_mod::lemma_fundamental_div_mod(t as int, by as int);
                    assert(by as int * (t as int / by as int) == q * by) by (nonlinear_arith)
                        requires
                            q == t as int / by as int,
                    ;
                }
                assert((v + q * p) * by + left * p == v * by + rest * (BASE * p) + x * p)
                    by (nonlinear_arith)
                    requires
                        q * by + left == rest * BASE + x,
                ;
            }
            rest = left;
            i -= 1;
        }
        let r = Big { limbs };
        proof {
            lemma_pow0(BASE as int);
            r.lemma_natural();
            vstd::arithmetic::div_mod::lemma_fundamental_div_mod_converse(
                self@,
                by as int,
                r@,
                rest as int,
            );
        }
        (r, rest as u32)
    }
}

/// A number below the third place is in the first two limbs.
proof fn lemma_low_above(s: Seq<u32>, n: int)
    requires
        n >= 2,
    ensures
        low(s, n) >= low(s, 2),
        low(s, n) > low(s, 2) ==> low(s, n) >= pow(BASE as int, 2),
    decreases n,
{
    if n > 2 {
        lemma_low_above(s, n - 1);
        lemma_low_bound(s, 2);
        let x = limb(s, n - 1);
        let p = pow(BASE as int, (n - 1) as nat);
        vstd::arithmetic::power::lemma_pow_increases(BASE as nat, 2, (n - 1) as nat);
        lemma_place(n - 1);
        if x == 0 {
            assert(x * p == 0) by (nonlinear_arith)
                requires
                    x == 0,
            ;
        } else {
            assert(x * p >= p) by (nonlinear_arith)
                requires
                    x >= 1,
                    p > 0,
            ;
        }
    }
}

proof fn lemma_all_zero(s: Seq<u32>, n: int)
    requires
        forall|j: int| 0 <= j < s.len() ==> s[j] == 0,
    ensures
        low(s, n) == 0,
    decreases n,
{
    if n > 0 {
        lemma_all_zero(s, n - 1);
        assert(limb(s, n - 1) * pow(BASE as int, (n - 1) as nat) == 0) by (nonlinear_arith)
            requires
                limb(s, n - 1) == 0,
        ;
    }
}

/// Setting a limb that was nothing adds what it is worth in its place.
proof fn lemma_low_set(s: Seq<u32>, i: int, x: u32, n: int)
    requires
        0 <= i < s.len(),
        s[i] == 0,
        i < n,
    ensures
        low(s.update(i, x), n) == low(s, n) + x * pow(BASE as int, i as nat),
    decreases n,
{
    let t = s.update(i, x);
    if n - 1 == i {
        lemma_low_same(t, s, n - 1);
        assert(limb(s, i) * pow(BASE as int, i as nat) == 0) by (nonlinear_arith)
            requires
                limb(s, i) == 0,
        ;
    } else {
        lemma_low_set(s, i, x, n - 1);
        assert(limb(t, n - 1) == limb(s, n - 1));
    }
}

} // verus!
