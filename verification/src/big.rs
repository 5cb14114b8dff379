//! Natural numbers of any size.

use vstd::prelude::*;

verus! {

/// `b` to the power `n`.
pub open spec fn power(b: nat, n: nat) -> nat
    decreases n,
{
    if n == 0 {
        1
    } else {
        b * power(b, (n - 1) as nat)
    }
}

pub proof fn lemma_power_positive(b: nat, n: nat)
    requires
        b > 0,
    ensures
        power(b, n) > 0,
    decreases n,
{
    if n > 0 {
        lemma_power_positive(b, (n - 1) as nat);
        let p = power(b, (n - 1) as nat);
        assert(b * p > 0) by (nonlinear_arith)
            requires
                b > 0,
                p > 0,
        ;
    }
}

pub proof fn lemma_power_add(b: nat, m: nat, n: nat)
    ensures
        power(b, m + n) == power(b, m) * power(b, n),
    decreases m,
{
    if m == 0 {
        assert(1 * power(b, n) == power(b, n)) by (nonlinear_arith);
    } else {
        lemma_power_add(b, (m - 1) as nat, n);
        let p = power(b, (m - 1) as nat);
        let q = power(b, n);
        assert((m + n - 1) as nat == (m - 1) as nat + n);
        assert(b * (p * q) == (b * p) * q) by (nonlinear_arith);
    }
}

pub proof fn lemma_power_grows(b: nat, m: nat, n: nat)
    requires
        b > 0,
        m <= n,
    ensures
        power(b, m) <= power(b, n),
    decreases n,
{
    if m < n {
        lemma_power_grows(b, m, (n - 1) as nat);
        let p = power(b, (n - 1) as nat);
        assert(p <= b * p) by (nonlinear_arith)
            requires
                b > 0,
                p >= 0,
        ;
    }
}

/// One more than the largest limb.
pub const BASE: u64 = 0x1_0000_0000;

/// A limb; past the end there are only zeros.
spec fn limb(v: Seq<u32>, i: int) -> nat {
    if 0 <= i < v.len() {
        v[i] as nat
    } else {
        0
    }
}

/// The number that the first `n` limbs make, the least significant first.
spec fn low(v: Seq<u32>, n: int) -> nat
    decreases n,
{
    if n <= 0 {
        0
    } else {
        low(v, n - 1) + limb(v, n - 1) * power(BASE as nat, (n - 1) as nat)
    }
}

proof fn lemma_low_same(a: Seq<u32>, b: Seq<u32>, n: int)
    requires
        forall|i: int| 0 <= i < n ==> limb(a, i) == #[trigger] limb(b, i),
    ensures
        low(a, n) == low(b, n),
    decreases n,
{
    if n > 0 {
        lemma_low_same(a, b, n - 1);
        assert(limb(a, n - 1) == limb(b, n - 1));
    }
}

proof fn lemma_low_past(v: Seq<u32>, n: int)
    requires
        n >= v.len(),
    ensures
        low(v, n) == low(v, v.len() as int),
    decreases n,
{
    if n > v.len() {
        lemma_low_past(v, n - 1);
        let p = power(BASE as nat, (n - 1) as nat);
        assert(0 * p == 0) by (nonlinear_arith);
    }
}

proof fn lemma_low_bound(v: Seq<u32>, n: int)
    requires
        n >= 0,
    ensures
        low(v, n) < power(BASE as nat, n as nat),
    decreases n,
{
    if n > 0 {
        lemma_low_bound(v, n - 1);
        let p = power(BASE as nat, (n - 1) as nat);
        let x = limb(v, n - 1);
        let b = BASE as nat;
        assert(x * p + p <= b * p) by (nonlinear_arith)
            requires
                x < b,
                p >= 0,
        ;
    }
}

/// A natural number.
pub struct Big {
    limbs: Vec<u32>,
}

impl View for Big {
    type V = nat;

    closed spec fn view(&self) -> nat {
        low(self.limbs@, self.limbs@.len() as int)
    }
}

impl Big {
    /// The number `x`.
    pub fn from_u64(x: u64) -> (r: Big)
        ensures
            r@ == x,
    {
        let mut limbs: Vec<u32> = Vec::new();
        limbs.push((x % BASE) as u32);
        limbs.push((x / BASE) as u32);
        proof {
            reveal_with_fuel(low, 3);
            reveal_with_fuel(power, 3);
            let h = limb(limbs@, 1);
            let l = limb(limbs@, 0);
            assert(h * (BASE * 1) == h * BASE) by (nonlinear_arith);
            assert(l * 1 == l) by (nonlinear_arith);
            assert(x == (x / BASE) * BASE + x % BASE) by (nonlinear_arith)
                requires
                    BASE > 0,
            ;
        }
        Big { limbs }
    }

    /// A copy.
    pub fn dup(&self) -> (r: Big)
        ensures
            r@ == self@,
    {
        Big { limbs: vstd::slice::slice_to_vec(self.limbs.as_slice()) }
    }

    /// Multiplies by `m` and adds `a`.
    pub fn multiply(&mut self, m: u64, a: u64)
        ensures
            final(self)@ == old(self)@ * m + a,
    {
        let ghost old_limbs = self.limbs@;
        let n = self.limbs.len();
        let mut carry: u64 = a;
        let mut i: usize = 0;
        proof {
            assert(0 * m == 0) by (nonlinear_arith);
            assert(carry * 1 == carry) by (nonlinear_arith);
        }
        while i < n
            invariant
                i <= n,
                n == old_limbs.len(),
                self.limbs@.len() == n,
                forall|k: int| i <= k < n ==> self.limbs@[k] == old_limbs[k],
                low(self.limbs@, i as int) + carry * power(BASE as nat, i as nat) == low(
                    old_limbs,
                    i as int,
                ) * m + a,
            decreases n - i,
        {
            let x: u32 = self.limbs[i];
            proof {
                assert(x * m <= 0xffff_ffff * 0xffff_ffff_ffff_ffff) by (nonlinear_arith)
                    requires
                        x <= 0xffff_ffff,
                        m <= 0xffff_ffff_ffff_ffff,
                ;
            }
            let t: u128 = (x as u128) * (m as u128) + carry as u128;
            let ghost before = self.limbs@;
            let ghost c0 = carry;
            self.limbs.set(i, (t % 0x1_0000_0000) as u32);
            carry = (t / 0x1_0000_0000) as u64;
            proof {
                lemma_low_same(before, self.limbs@, i as int);
                let p = power(BASE as nat, i as nat);
                let y = limb(self.limbs@, i as int);
                let lo = low(old_limbs, i as int);
                assert(t == (t / 0x1_0000_0000) * 0x1_0000_0000 + t % 0x1_0000_0000);
                assert(power(BASE as nat, (i + 1) as nat) == BASE as nat * p);
                assert(limb(old_limbs, i as int) == x);
                assert(y * p + carry * (BASE as nat * p) == (x * m) * p + c0 * p)
                    by (nonlinear_arith)
                    requires
                        x * m + c0 == carry * BASE + y,
                ;
                assert((lo + x * p) * m == lo * m + (x * m) * p) by (nonlinear_arith);
            }
            i += 1;
        }
        if carry > 0 {
            let ghost before = self.limbs@;
            self.limbs.push((carry % BASE) as u32);
            self.limbs.push((carry / BASE) as u32);
            proof {
                let now = self.limbs@;
                lemma_low_same(before, now, n as int);
                let p = power(BASE as nat, n as nat);
                let lo = limb(now, n as int);
                let hi = limb(now, n + 1);
                assert(power(BASE as nat, (n + 1) as nat) == BASE as nat * p);
                assert(low(now, n + 2) == low(now, n + 1) + hi * (BASE as nat * p));
                assert(lo * p + hi * (BASE as nat * p) == carry * p) by (nonlinear_arith)
                    requires
                        carry == hi * BASE + lo,
                ;
            }
        } else {
            proof {
                let p = power(BASE as nat, n as nat);
                assert(0 * p == 0) by (nonlinear_arith);
            }
        }
    }

    /// Multiplies by `b` `n` times, in strides of `size` times, which make
    /// `stride`.
    fn raise(&mut self, b: u64, n: u128, size: u128, stride: u64)
        requires
            size > 0,
            stride == power(b as nat, size as nat),
        ensures
            final(self)@ == old(self)@ * power(b as nat, n as nat),
    {
        let mut i: u128 = 0;
        let ghost start = self@;
        proof {
            assert(start * 1 == start) by (nonlinear_arith);
        }
        while i < n
            invariant
                i <= n,
                size > 0,
                stride == power(b as nat, size as nat),
                self@ == start * power(b as nat, i as nat),
            decreases n - i,
        {
            let ghost p = power(b as nat, i as nat);
            if n - i >= size {
                self.multiply(stride, 0);
                proof {
                    lemma_power_add(b as nat, i as nat, size as nat);
                    let q = power(b as nat, size as nat);
                    assert((start * p) * q == start * (p * q)) by (nonlinear_arith);
                }
                i += size;
            } else {
                self.multiply(b, 0);
                proof {
                    assert((start * p) * b == start * (b * p)) by (nonlinear_arith);
                }
                i += 1;
            }
        }
    }

    /// Multiplies by two to the power `n`.
    pub fn double(&mut self, n: u64)
        ensures
            final(self)@ == old(self)@ * power(2, n as nat),
    {
        proof {
            reveal_with_fuel(power, 64);
        }
        self.raise(2, n as u128, 63, 0x8000_0000_0000_0000)
    }

    /// Multiplies by ten to the power `n`.
    pub fn shift(&mut self, n: u128)
        ensures
            final(self)@ == old(self)@ * power(10, n as nat),
    {
        proof {
            reveal_with_fuel(power, 20);
        }
        self.raise(10, n, 19, 10_000_000_000_000_000_000)
    }

    /// Whether this number is below another.
    pub fn below(&self, other: &Big) -> (r: bool)
        ensures
            r == (self@ < other@),
    {
        let n = if self.limbs.len() > other.limbs.len() {
            self.limbs.len()
        } else {
            other.limbs.len()
        };
        let mut i: usize = 0;
        let mut r: bool = false;
        while i < n
            invariant
                i <= n,
                r == (low(self.limbs@, i as int) < low(other.limbs@, i as int)),
            decreases n - i,
        {
            let x: u32 = if i < self.limbs.len() {
                self.limbs[i]
            } else {
                0
            };
            let y: u32 = if i < other.limbs.len() {
                other.limbs[i]
            } else {
                0
            };
            proof {
                lemma_low_bound(self.limbs@, i as int);
                lemma_low_bound(other.limbs@, i as int);
                let p = power(BASE as nat, i as nat);
                assert(limb(self.limbs@, i as int) == x);
                assert(limb(other.limbs@, i as int) == y);
                assert(x < y ==> x * p + p <= y * p) by (nonlinear_arith)
                    requires
                        p >= 0,
                ;
                assert(y < x ==> y * p + p <= x * p) by (nonlinear_arith)
                    requires
                        p >= 0,
                ;
            }
            if x != y {
                r = x < y;
            }
            i += 1;
        }
        proof {
            lemma_low_past(self.limbs@, n as int);
            lemma_low_past(other.limbs@, n as int);
        }
        r
    }
}

} // verus!
