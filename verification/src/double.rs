//! Numbers of double precision, by their bits.
//!
//! The positive numbers of double precision, in ascending order, are counted
//! from zero by the bits that stand for them. Every one of them is a whole
//! number of steps, of which `2^1074` make one.

use vstd::prelude::*;
use crate::big::{lemma_power_add, lemma_power_grows, lemma_power_positive, power, Big};

verus! {

/// How many numbers share one exponent.
pub const FRACTION: u64 = 4503599627370496;

/// The count of the first number that is too large.
pub const TOO_LARGE: u64 = 9218868437227405312;

/// The exponent of the steps between number `k` and the next.
pub open spec fn scale(k: nat) -> nat {
    if k < FRACTION {
        0
    } else {
        (k / FRACTION as nat - 1) as nat
    }
}

/// The leading bits of number `k`.
pub open spec fn leading(k: nat) -> nat {
    if k < FRACTION {
        k
    } else {
        FRACTION as nat + k % FRACTION as nat
    }
}

/// Number `k`, in steps.
pub open spec fn steps(k: nat) -> nat {
    leading(k) * power(2, scale(k))
}

/// Halfway between number `k` and the next, in half steps.
pub open spec fn middle(k: nat) -> nat {
    steps(k) + steps(k + 1)
}

/// `n / d` is no more than `h` half steps.
pub open spec fn at_most(n: nat, d: nat, h: nat) -> bool {
    n * power(2, 1075) <= h * d
}

/// `n / d` is no less than `h` half steps.
pub open spec fn at_least(n: nat, d: nat, h: nat) -> bool {
    n * power(2, 1075) >= h * d
}

/// Number `k` is the one nearest `n / d`, and the even one of two that are
/// equally near.
pub open spec fn nearest(n: nat, d: nat, k: nat) -> bool {
    &&& k <= TOO_LARGE
    &&& k > 0 ==> {
        let m = middle((k - 1) as nat);
        at_least(n, d, m) && (k % 2 == 1 ==> !at_most(n, d, m))
    }
    &&& k < TOO_LARGE ==> {
        let m = middle(k);
        at_most(n, d, m) && (k % 2 == 1 ==> !at_least(n, d, m))
    }
}

/// The number nearest `n / d`.
pub open spec fn double_of(n: nat, d: nat) -> nat {
    choose|k: nat| nearest(n, d, k)
}

// ---------------------------------------------------------------------
// The order of the numbers
// ---------------------------------------------------------------------

proof fn lemma_next(k: nat)
    ensures
        steps(k + 1) == steps(k) + power(2, scale(k)),
        power(2, scale(k)) > 0,
        leading(k) < 2 * FRACTION,
{
    let p = power(2, scale(k));
    let m = leading(k);
    lemma_power_positive(2, scale(k));
    assert((m + 1) * p == m * p + p) by (nonlinear_arith);
    if k + 1 < FRACTION {
    } else if k + 1 == FRACTION {
        assert(power(2, 0) == 1);
        assert((k + 1) * 1 == k + 1) by (nonlinear_arith);
    } else if (k + 1) % FRACTION as nat == 0 {
        assert(scale(k + 1) == scale(k) + 1);
        assert(m + 1 == 2 * FRACTION);
        let f = FRACTION as nat;
        assert(power(2, scale(k + 1)) == 2 * p);
        assert(f * (2 * p) == (2 * f) * p) by (nonlinear_arith);
    } else {
        assert(scale(k + 1) == scale(k));
        assert(leading(k + 1) == m + 1);
    }
}

pub proof fn lemma_steps_grow(j: nat, k: nat)
    requires
        j <= k,
    ensures
        steps(j) <= steps(k),
        middle(j) <= middle(k),
        j < k ==> steps(j) < steps(k) && middle(j) < middle(k),
    decreases k,
{
    if j < k {
        lemma_steps_grow(j, (k - 1) as nat);
        lemma_next((k - 1) as nat);
        lemma_next(k);
    }
}

/// No two numbers are nearest.
proof fn lemma_one_nearest(n: nat, d: nat, j: nat, k: nat)
    requires
        d > 0,
        nearest(n, d, j),
        nearest(n, d, k),
    ensures
        j == k,
{
    if j < k {
        lemma_ordered_nearest(n, d, j, k);
    } else if k < j {
        lemma_ordered_nearest(n, d, k, j);
    }
}

proof fn lemma_ordered_nearest(n: nat, d: nat, j: nat, k: nat)
    requires
        d > 0,
        nearest(n, d, j),
        j < k,
    ensures
        !nearest(n, d, k),
{
    let a = middle(j);
    let b = middle((k - 1) as nat);
    lemma_steps_grow(j, (k - 1) as nat);
    assert(a * d <= b * d) by (nonlinear_arith)
        requires
            a <= b,
    ;
    if j < k - 1 {
        assert(a * d < b * d) by (nonlinear_arith)
            requires
                a < b,
                d > 0,
        ;
    }
}

/// The number that is nearest is the one that is named.
pub proof fn lemma_double_of(n: nat, d: nat, k: nat)
    requires
        d > 0,
        nearest(n, d, k),
    ensures
        double_of(n, d) == k,
{
    lemma_one_nearest(n, d, double_of(n, d), k);
}

/// Enlarging a fraction changes nothing.
proof fn lemma_enlarged(n: nat, d: nat, c: nat, h: nat)
    requires
        c > 0,
    ensures
        at_most(c * n, c * d, h) == at_most(n, d, h),
        at_least(c * n, c * d, h) == at_least(n, d, h),
{
    let t = power(2, 1075);
    let x = n * t;
    let y = h * d;
    assert((c * n) * t == c * x) by (nonlinear_arith)
        requires
            x == n * t,
    ;
    assert(h * (c * d) == c * y) by (nonlinear_arith)
        requires
            y == h * d,
    ;
    assert(c * x <= c * y <==> x <= y) by (nonlinear_arith)
        requires
            c > 0,
    ;
    assert(c * x >= c * y <==> x >= y) by (nonlinear_arith)
        requires
            c > 0,
    ;
}

proof fn lemma_enlarged_nearest(n: nat, d: nat, c: nat, k: nat)
    requires
        c > 0,
    ensures
        nearest(c * n, c * d, k) == nearest(n, d, k),
{
    if k > 0 {
        lemma_enlarged(n, d, c, middle((k - 1) as nat));
    }
    lemma_enlarged(n, d, c, middle(k));
}

// ---------------------------------------------------------------------
// Finding the nearest number
// ---------------------------------------------------------------------

fn scale_of(k: u64) -> (r: u64)
    ensures
        r == scale(k as nat),
        r <= 4095,
{
    if k < FRACTION {
        0
    } else {
        k / FRACTION - 1
    }
}

fn leading_of(k: u64) -> (r: u64)
    ensures
        r == leading(k as nat),
        r < 2 * FRACTION,
{
    if k < FRACTION {
        k
    } else {
        FRACTION + k % FRACTION
    }
}

/// Common factors of two on both sides of a comparison change nothing.
proof fn lemma_halved(n: nat, d: nat, c: nat, e: nat, j: nat)
    requires
        j <= e,
        j <= 1075,
    ensures
        at_most(n, d, c * power(2, e)) == (n * power(2, (1075 - j) as nat) <= (d * c) * power(
            2,
            (e - j) as nat,
        )),
        at_least(n, d, c * power(2, e)) == (n * power(2, (1075 - j) as nat) >= (d * c) * power(
            2,
            (e - j) as nat,
        )),
{
    let p = power(2, j);
    let a = power(2, (1075 - j) as nat);
    let b = power(2, (e - j) as nat);
    lemma_power_add(2, j, (1075 - j) as nat);
    lemma_power_add(2, j, (e - j) as nat);
    lemma_power_positive(2, j);
    assert((j + (1075 - j)) as nat == 1075);
    assert((j + (e - j)) as nat == e);
    let x = n * a;
    let y = (d * c) * b;
    assert(n * (p * a) == p * x) by (nonlinear_arith)
        requires
            x == n * a,
    ;
    assert((c * (p * b)) * d == p * y) by (nonlinear_arith)
        requires
            y == (d * c) * b,
    ;
    assert(p * x <= p * y <==> x <= y) by (nonlinear_arith)
        requires
            p > 0,
    ;
    assert(p * x >= p * y <==> x >= y) by (nonlinear_arith)
        requires
            p > 0,
    ;
}

/// How `n / d` compares with `c * 2^e` half steps: at most, at least.
fn compare(n: &Big, d: &Big, c: u64, e: u64) -> (r: (bool, bool))
    ensures
        r.0 == at_most(n@, d@, c as nat * power(2, e as nat)),
        r.1 == at_least(n@, d@, c as nat * power(2, e as nat)),
{
    let j: u64 = if e < 1075 {
        e
    } else {
        1075
    };
    let mut left = n.dup();
    left.double(1075 - j);
    let mut right = d.dup();
    right.multiply(c, 0);
    right.double(e - j);
    proof {
        lemma_halved(n@, d@, c as nat, e as nat, j as nat);
    }
    (!right.below(&left), !left.below(&right))
}

proof fn lemma_middle(k: nat)
    ensures
        middle(k) == (2 * leading(k) + 1) * power(2, scale(k)),
{
    lemma_next(k);
    let p = power(2, scale(k));
    let m = leading(k);
    assert((2 * m + 1) * p == m * p + (m * p + p)) by (nonlinear_arith);
}

/// How `n / d` compares with the middle above number `k`.
fn against(n: &Big, d: &Big, k: u64) -> (r: (bool, bool))
    ensures
        r.0 == at_most(n@, d@, middle(k as nat)),
        r.1 == at_least(n@, d@, middle(k as nat)),
{
    proof {
        lemma_middle(k as nat);
    }
    compare(n, d, 2 * leading_of(k) + 1, scale_of(k))
}

/// Number `k`, in steps.
pub fn steps_of(k: u64) -> (r: Big)
    ensures
        r@ == steps(k as nat),
{
    let mut r = Big::from_u64(leading_of(k));
    r.double(scale_of(k));
    r
}

/// Finds the number nearest `n / d`.
pub fn find_nearest(n: &Big, d: &Big) -> (k: u64)
    requires
        d@ > 0,
    ensures
        nearest(n@, d@, k as nat),
        k == double_of(n@, d@),
        k <= TOO_LARGE,
{
    let mut lo: u64 = 0;
    let mut hi: u64 = TOO_LARGE;
    while lo < hi
        invariant
            lo <= hi <= TOO_LARGE,
            hi < TOO_LARGE ==> at_most(n@, d@, middle(hi as nat)),
            lo > 0 ==> !at_most(n@, d@, middle((lo - 1) as nat)),
        decreases hi - lo,
    {
        let mid: u64 = lo + (hi - lo) / 2;
        if against(n, d, mid).0 {
            hi = mid;
        } else {
            lo = mid + 1;
        }
    }
    let mut k: u64 = lo;
    if k < TOO_LARGE && k % 2 == 1 && against(n, d, k).1 {
        proof {
            let a = middle(k as nat);
            let b = middle(k as nat + 1);
            lemma_steps_grow(k as nat, k as nat + 1);
            assert(a * d@ <= b * d@) by (nonlinear_arith)
                requires
                    a <= b,
            ;
        }
        k = k + 1;
        assert((k - 1) as nat + 1 == k);
    }
    proof {
        lemma_double_of(n@, d@, k as nat);
    }
    k
}

// ---------------------------------------------------------------------
// Decimals
// ---------------------------------------------------------------------

/// Ten to the power `q`, or one.
pub open spec fn tens(q: int) -> nat {
    if q > 0 {
        power(10, q as nat)
    } else {
        1
    }
}

/// `d * 10^q` is no more than `h` half steps.
pub open spec fn under(d: nat, q: int, h: nat) -> bool {
    at_most(d * tens(q), tens(-q), h)
}

/// Number `k` is the one nearest `d * 10^q`.
pub open spec fn reads_as(d: nat, q: int, k: nat) -> bool {
    nearest(d * tens(q), tens(-q), k)
}

/// The decimal point of number `k` stands behind its digit `p`.
pub open spec fn in_place(k: nat, p: int) -> bool {
    under(1, p - 1, 2 * steps(k)) && !under(1, p, 2 * steps(k))
}

pub open spec fn place(k: nat) -> int {
    choose|p: int| in_place(k, p)
}

/// `x` is what the first `n` digits of number `k` make.
pub open spec fn starts_as(k: nat, n: nat, x: nat) -> bool {
    under(x, place(k) - n, 2 * steps(k)) && !under(x + 1, place(k) - n, 2 * steps(k))
}

/// The first `n` digits of number `k`.
pub open spec fn first_digits(k: nat, n: nat) -> nat {
    choose|x: nat| starts_as(k, n, x)
}

/// So many digits tell any two numbers apart.
pub const MOST_DIGITS: u64 = 17;

/// The decimal of the fewest digits, and at least `n` of them, that reads as
/// number `k`; of two, the nearer one, and of two that are equally near the
/// larger one.
pub open spec fn shortest_from(k: nat, n: nat) -> (nat, int)
    decreases MOST_DIGITS - n,
{
    let q = place(k) - n;
    let x = first_digits(k, n);
    let down = reads_as(x, q, k);
    let up = reads_as(x + 1, q, k);
    let upper_half = under(2 * x + 1, q, 4 * steps(k));
    if n < MOST_DIGITS && !down && !up {
        shortest_from(k, n + 1)
    } else if up && (!down || upper_half) {
        (x + 1, q)
    } else {
        (x, q)
    }
}

/// The shortest decimal that reads as number `k`.
pub open spec fn shortest(k: nat) -> (nat, int) {
    shortest_from(k, 1)
}

pub proof fn lemma_tens(q: int)
    ensures
        tens(q) > 0,
        q >= 0 ==> tens(q + 1) == 10 * tens(q),
        q < 0 ==> tens(-q) == 10 * tens(-q - 1),
{
    if q > 0 {
        lemma_power_positive(10, q as nat);
    }
    if q == 0 {
        reveal_with_fuel(power, 2);
    }
    if q == -1 {
        reveal_with_fuel(power, 2);
    }
}

proof fn lemma_shift(d: nat, q: int, h: nat)
    ensures
        under(d, q + 1, h) == under(10 * d, q, h),
{
    lemma_tens(q);
    if q >= 0 {
        let t = tens(q);
        assert((10 * d) * t == d * (10 * t)) by (nonlinear_arith);
    } else {
        assert(d * 1 == d && (10 * d) * 1 == 10 * d) by (nonlinear_arith);
        lemma_enlarged(d, tens(-q - 1), 10, h);
    }
}

proof fn lemma_shift_reads(d: nat, q: int, k: nat)
    ensures
        reads_as(d, q + 1, k) == reads_as(10 * d, q, k),
{
    lemma_tens(q);
    if q >= 0 {
        let t = tens(q);
        assert((10 * d) * t == d * (10 * t)) by (nonlinear_arith);
    } else {
        assert(d * 1 == d && (10 * d) * 1 == 10 * d) by (nonlinear_arith);
        lemma_enlarged_nearest(d, tens(-q - 1), 10, k);
    }
}

/// Zeros at the end of a decimal can be taken into its exponent.
pub proof fn lemma_shifts(d: nat, q: int, t: nat, h: nat, k: nat)
    ensures
        under(d, q + t, h) == under(d * power(10, t), q, h),
        reads_as(d, q + t, k) == reads_as(d * power(10, t), q, k),
    decreases t,
{
    if t == 0 {
        assert(d * 1 == d) by (nonlinear_arith);
    } else {
        let s = (t - 1) as nat;
        lemma_shift(d, q + s, h);
        lemma_shift_reads(d, q + s, k);
        lemma_shifts(10 * d, q, s, h, k);
        let p = power(10, s);
        assert((10 * d) * p == d * (10 * p)) by (nonlinear_arith);
    }
}

/// A smaller decimal is under what a larger one is under.
proof fn lemma_under_less(a: nat, b: nat, q: int, h: nat)
    requires
        a <= b,
        under(b, q, h),
    ensures
        under(a, q, h),
{
    let t = tens(q);
    let p = power(2, 1075);
    assert((a * t) * p <= (b * t) * p) by (nonlinear_arith)
        requires
            a <= b,
    ;
}

proof fn lemma_one_place(k: nat, p: int)
    requires
        in_place(k, p),
    ensures
        place(k) == p,
{
    let r = place(k);
    assert(in_place(k, r));
    let h = 2 * steps(k);
    if r < p {
        lemma_place_order(r, p - 1, h);
    } else if p < r {
        lemma_place_order(p, r - 1, h);
    }
}

proof fn lemma_place_order(a: int, b: int, h: nat)
    requires
        a <= b,
        under(1, b, h),
    ensures
        under(1, a, h),
{
    let t = (b - a) as nat;
    lemma_shifts(1, a, t, h, 0);
    lemma_power_positive(10, t);
    assert(1 * power(10, t) == power(10, t)) by (nonlinear_arith);
    lemma_under_less(1, power(10, t), a, h);
}

proof fn lemma_first_digits(k: nat, n: nat, x: nat)
    requires
        starts_as(k, n, x),
    ensures
        first_digits(k, n) == x,
{
    let y = first_digits(k, n);
    assert(starts_as(k, n, y));
    let q = place(k) - n;
    let h = 2 * steps(k);
    if x < y {
        lemma_under_less(x + 1, y, q, h);
    } else if y < x {
        lemma_under_less(y + 1, x, q, h);
    }
}

/// So many digits are enough.
proof fn lemma_enough(k: nat, x: nat)
    requires
        0 < k < TOO_LARGE,
        in_place(k, place(k)),
        starts_as(k, MOST_DIGITS as nat, x),
    ensures
        ({
            let q = place(k) - MOST_DIGITS;
            reads_as(x, q, k) || reads_as(x + 1, q, k)
        }),
{
    let q = place(k) - MOST_DIGITS;
    let s = steps(k);
    let u = power(2, scale(k));
    let low = (k - 1) as nat;
    let w = power(2, scale(low));
    let t = power(2, 1075);
    let f = tens(q);
    let d = tens(-q);
    lemma_next(k);
    lemma_next(low);
    lemma_tens(-q);
    assert(low + 1 == k);
    // In half steps, `d` times as fine: the number, the two decimals, and how
    // far the middles are.
    let v = (2 * s) * d;
    let a = (x * f) * t;
    let g = f * t;
    let above = u * d;
    let below = w * d;
    assert(((x + 1) * f) * t == a + g) by (nonlinear_arith)
        requires
            a == (x * f) * t,
            g == f * t,
    ;
    assert(middle(k) * d == v + above) by (nonlinear_arith)
        requires
            middle(k) == 2 * s + u,
            v == (2 * s) * d,
            above == u * d,
    ;
    assert(middle(low) * d == v - below) by (nonlinear_arith)
        requires
            middle(low) == 2 * s - w,
            v == (2 * s) * d,
            below == w * d,
    ;
    assert(10_000_000_000_000_000 * g <= v) by {
        reveal_with_fuel(power, 17);
        lemma_shifts(1, q, 16, 2 * s, 0);
        assert(1 * power(10, 16) == 10_000_000_000_000_000) by (nonlinear_arith)
            requires
                power(10, 16) == 10_000_000_000_000_000,
        ;
        assert(q + 16 == place(k) - 1);
        assert((10_000_000_000_000_000 * f) * t == 10_000_000_000_000_000 * g)
            by (nonlinear_arith)
            requires
                g == f * t,
        ;
    }
    let m = leading(k);
    assert(v == 2 * (m * above)) by (nonlinear_arith)
        requires
            v == (2 * s) * d,
            s == m * u,
            above == u * d,
    ;
    assert(above > 0) by (nonlinear_arith)
        requires
            above == u * d,
            u > 0,
            d > 0,
    ;
    assert(m * above <= 9007199254740991 * above) by (nonlinear_arith)
        requires
            m <= 9007199254740991,
            above > 0,
    ;
    assert(a <= v < a + g);
    if scale(low) == scale(k) {
        assert(below == above);
        if 2 * (v - a) <= g {
            assert(v - below < a < v + above);
            assert(reads_as(x, q, k));
        } else {
            assert(v - below < a + g < v + above);
            assert(reads_as(x + 1, q, k));
        }
    } else {
        assert(m == FRACTION);
        assert(m * above == 4503599627370496 * above) by (nonlinear_arith)
            requires
                m == 4503599627370496,
        ;
        assert(below >= 0) by (nonlinear_arith)
            requires
                below == w * d,
                w > 0,
                d > 0,
        ;
        assert(v - below < a + g < v + above);
        assert(reads_as(x + 1, q, k));
    }
}

proof fn lemma_ten_and_two(n: nat)
    ensures
        power(10, n) >= power(2, 3 * n),
    decreases n,
{
    if n > 0 {
        let m = (n - 1) as nat;
        lemma_ten_and_two(m);
        lemma_power_add(2, 3, 3 * m);
        reveal_with_fuel(power, 4);
        assert(3 + 3 * m == 3 * n);
    }
}

/// Ten to the power `n` is more than two to the power of anything up to `3n`.
proof fn lemma_tens_are_far(n: nat, e: nat)
    requires
        e <= 3 * n,
    ensures
        power(10, n) >= power(2, e),
{
    lemma_ten_and_two(n);
    lemma_power_grows(2, e, 3 * n);
}

/// Every number is below `2^1025`.
proof fn lemma_bounded(k: nat)
    requires
        k <= TOO_LARGE,
    ensures
        2 * steps(k) <= power(2, 2099),
{
    lemma_steps_grow(k, TOO_LARGE as nat);
    assert(scale(TOO_LARGE as nat) == 2046);
    assert(leading(TOO_LARGE as nat) == FRACTION);
    reveal_with_fuel(power, 54);
    assert(power(2, 53) == 9007199254740992);
    lemma_power_add(2, 53, 2046);
    let p = power(2, 2046);
    assert(2 * (4503599627370496 * p) == 9007199254740992 * p) by (nonlinear_arith);
}

/// The decimal point is never far.
proof fn lemma_place_near(k: nat, p: int)
    requires
        0 < k < TOO_LARGE,
    ensures
        under(1, p, 2 * steps(k)) ==> p < 400,
        !under(1, p, 2 * steps(k)) ==> p > -400,
{
    let h = 2 * steps(k);
    let t = power(10, 400);
    lemma_power_positive(2, 1075);
    if p >= 400 && under(1, p, h) {
        lemma_place_order(400, p, h);
        lemma_bounded(k);
        lemma_tens_are_far(400, 1200);
        lemma_power_add(2, 1200, 1075);
        lemma_power_grows(2, 2100, 2275);
        assert(power(2, 2100) == 2 * power(2, 2099));
        lemma_power_positive(2, 2099);
        let a = power(2, 1200);
        let b = power(2, 1075);
        assert(t * b >= a * b) by (nonlinear_arith)
            requires
                t >= a,
        ;
        assert(1 * t == t && h * 1 == h) by (nonlinear_arith);
    }
    if p <= -400 && !under(1, p, h) {
        lemma_steps_grow(1, k);
        assert(steps(1) == 1) by {
            reveal_with_fuel(power, 1);
        }
        lemma_tens_are_far(400, 1075);
        let b = power(2, 1075);
        assert(1 * b <= h * t) by (nonlinear_arith)
            requires
                h >= 1,
                t >= b,
        ;
        assert(1 * 1 == 1nat) by (nonlinear_arith);
        assert(under(1, -400, h));
        lemma_place_order(p, -400, h);
    }
}

/// No number but zero reads as zero.
proof fn lemma_not_zero(q: int, k: nat)
    requires
        k > 0,
    ensures
        !reads_as(0, q, k),
{
    let low = (k - 1) as nat;
    let d = tens(-q);
    let m = middle(low);
    let t = power(2, 1075);
    lemma_tens(-q);
    lemma_next(low);
    assert(m * d > 0) by (nonlinear_arith)
        requires
            m > 0,
            d > 0,
    ;
    let f = tens(q);
    assert((0 * f) * t == 0) by (nonlinear_arith);
}

/// `d * 10^q` as a fraction.
pub fn fraction(d: Big, q: i128) -> (r: (Big, Big))
    requires
        -0x7fff_ffff_ffff_ffff_ffff_ffff_ffff_ffff <= q,
    ensures
        r.0@ == d@ * tens(q as int),
        r.1@ == tens(-(q as int)),
        r.1@ > 0,
{
    proof {
        lemma_tens(-(q as int));
        assert(d@ * 1 == d@) by (nonlinear_arith);
    }
    let mut n = d;
    let mut m = Big::from_u64(1);
    if q > 0 {
        n.shift(q as u128);
    } else if q < 0 {
        m.shift((-q) as u128);
        proof {
            let t = power(10, (-q) as nat);
            assert(1 * t == t) by (nonlinear_arith);
        }
    }
    (n, m)
}

fn under_of(d: u64, q: i64, c: u64, e: u64) -> (r: bool)
    requires
        -1000 <= q <= 1000,
    ensures
        r == under(d as nat, q as int, c as nat * power(2, e as nat)),
{
    let (n, m) = fraction(Big::from_u64(d), q as i128);
    compare(&n, &m, c, e).0
}

fn reads_as_of(d: u64, q: i64, k: u64) -> (r: bool)
    requires
        -1000 <= q <= 1000,
        k < TOO_LARGE,
    ensures
        r == reads_as(d as nat, q as int, k as nat),
{
    let (n, m) = fraction(Big::from_u64(d), q as i128);
    if k > 0 {
        let (most, least) = against(&n, &m, k - 1);
        if !least || (k % 2 == 1 && most) {
            return false;
        }
    }
    let (most, least) = against(&n, &m, k);
    most && !(k % 2 == 1 && least)
}

fn find_place(k: u64) -> (p: i64)
    requires
        0 < k < TOO_LARGE,
    ensures
        in_place(k as nat, p as int),
        place(k as nat) == p,
        -400 <= p <= 400,
{
    let c: u64 = 2 * leading_of(k);
    let e: u64 = scale_of(k);
    let ghost h = 2 * steps(k as nat);
    proof {
        let m = leading(k as nat);
        let p = power(2, scale(k as nat));
        assert((2 * m) * p == 2 * (m * p)) by (nonlinear_arith);
        lemma_place_near(k as nat, 0);
    }
    let mut p: i64 = 0;
    while under_of(1, p, c, e)
        invariant
            0 < k < TOO_LARGE,
            0 <= p <= 400,
            h == 2 * steps(k as nat),
            c as nat * power(2, e as nat) == h,
        decreases 400 - p,
    {
        proof {
            lemma_place_near(k as nat, p as int);
        }
        p += 1;
    }
    while !under_of(1, p - 1, c, e)
        invariant
            0 < k < TOO_LARGE,
            -400 <= p <= 400,
            h == 2 * steps(k as nat),
            c as nat * power(2, e as nat) == h,
            !under(1, p as int, h),
        decreases p + 400,
    {
        proof {
            lemma_place_near(k as nat, p - 1);
        }
        p -= 1;
    }
    proof {
        lemma_one_place(k as nat, p as int);
    }
    p
}

/// Finds the shortest decimal that reads as number `k`.
pub fn find_shortest(k: u64) -> (r: (u64, i64))
    requires
        0 < k < TOO_LARGE,
    ensures
        shortest(k as nat) == (r.0 as nat, r.1 as int),
        reads_as(r.0 as nat, r.1 as int, k as nat),
        0 < r.0 <= 100_000_000_000_000_000,
        -420 <= r.1 <= 400,
{
    let c: u64 = 2 * leading_of(k);
    let e: u64 = scale_of(k);
    let ghost h = 2 * steps(k as nat);
    let p = find_place(k);
    let mut q: i64 = p;
    let mut x: u64 = 0;
    let mut n: u64 = 0;
    proof {
        let m = leading(k as nat);
        let t = power(2, scale(k as nat));
        assert((2 * m) * t == 2 * (m * t)) by (nonlinear_arith);
        assert((4 * m) * t == 4 * (m * t)) by (nonlinear_arith);
        let f = tens(p as int);
        let w = power(2, 1075);
        assert((0 * f) * w == 0) by (nonlinear_arith);
        assert(0 <= h * tens(-(p as int)));
        assert(starts_as(k as nat, 0, 0));
    }
    loop
        invariant
            0 < k < TOO_LARGE,
            n < MOST_DIGITS,
            in_place(k as nat, p as int),
            place(k as nat) == p,
            -400 <= p <= 400,
            q == p - n,
            x < power(10, n as nat),
            starts_as(k as nat, n as nat, x as nat),
            shortest(k as nat) == shortest_from(k as nat, n as nat + 1),
            h == 2 * steps(k as nat),
            c as nat * power(2, e as nat) == h,
            (2 * c) as nat * power(2, e as nat) == 4 * steps(k as nat),
            c < 4 * FRACTION,
        decreases MOST_DIGITS - n,
    {
        q -= 1;
        n += 1;
        proof {
            lemma_shift(x as nat, q as int, h);
            lemma_shift(x as nat + 1, q as int, h);
            lemma_power_grows(10, (n - 1) as nat, 16);
            assert(power(10, 16) == 10_000_000_000_000_000) by {
                reveal_with_fuel(power, 17);
            }
        }
        let ghost x0 = x;
        x = 10 * x;
        while under_of(x + 1, q, c, e)
            invariant
                -1000 <= q <= 1000,
                c as nat * power(2, e as nat) == h,
                10 * x0 <= x < 10 * x0 + 10,
                x0 < 10_000_000_000_000_000,
                under(x as nat, q as int, h),
                !under(10 * (x0 as nat + 1), q as int, h),
            decreases 10 * x0 + 10 - x,
        {
            assert(x + 1 != 10 * (x0 + 1));
            x += 1;
        }
        proof {
            assert(starts_as(k as nat, n as nat, x as nat));
            lemma_first_digits(k as nat, n as nat, x as nat);
            if n == MOST_DIGITS {
                lemma_enough(k as nat, x as nat);
            }
        }
        let down = reads_as_of(x, q, k);
        let up = reads_as_of(x + 1, q, k);
        if n == MOST_DIGITS || down || up {
            let upper_half = under_of(2 * x + 1, q, 2 * c, e);
            proof {
                if x == 0 {
                    lemma_not_zero(q as int, k as nat);
                }
            }
            if up && (!down || upper_half) {
                return (x + 1, q);
            }
            return (x, q);
        }
    }
}

// ---------------------------------------------------------------------
// Whole numbers
// ---------------------------------------------------------------------

/// Up to this one, every whole number is a number of double precision.
pub const EXACT_LIMIT: u64 = 9007199254740992;

proof fn lemma_some_powers()
    ensures
        power(2, 52) == FRACTION,
        power(2, 53) == EXACT_LIMIT,
        power(2, 54) == 2 * EXACT_LIMIT,
{
    reveal_with_fuel(power, 55);
}

/// `2^b` is the largest power of two in `x`.
spec fn leads(x: nat, b: nat) -> bool {
    power(2, b) <= x < 2 * power(2, b)
}

proof fn lemma_leads(x: nat) -> (b: nat)
    requires
        x > 0,
    ensures
        leads(x, b),
    decreases x,
{
    if x == 1 {
        reveal_with_fuel(power, 1);
        0
    } else {
        let b = lemma_leads(x / 2);
        assert(power(2, b + 1) == 2 * power(2, b));
        b + 1
    }
}

/// Number `k` is `x`, and no other whole number comes near the middles on
/// either side of it.
spec fn stands_for(k: nat, x: nat) -> bool {
    &&& 0 < k < TOO_LARGE
    &&& steps(k) == x * power(2, 1074)
    &&& x < EXACT_LIMIT ==> middle(k) < (x + 1) * power(2, 1075)
    &&& middle(k) <= (x + 1) * power(2, 1075)
    &&& middle((k - 1) as nat) > (x - 1) * power(2, 1075)
}

proof fn lemma_stands_for(k: nat, x: nat)
    requires
        x > 0,
        0 < k < TOO_LARGE,
        steps(k) == x * power(2, 1074),
        scale(k) <= 1074 || (x == EXACT_LIMIT && scale(k) == 1075),
        scale((k - 1) as nat) <= 1074,
    ensures
        stands_for(k, x),
{
    let half = power(2, 1074);
    assert(power(2, 1075) == 2 * half);
    lemma_power_positive(2, 1074);
    assert((x + 1) * (2 * half) == 2 * (x * half) + 2 * half) by (nonlinear_arith);
    assert((x - 1) * (2 * half) == 2 * (x * half) - 2 * half) by (nonlinear_arith);
    let low = (k - 1) as nat;
    lemma_next(k);
    lemma_next(low);
    assert(low + 1 == k);
    if scale(k) <= 1074 {
        lemma_power_grows(2, scale(k), 1074);
    }
    lemma_power_grows(2, scale(low), 1074);
}

proof fn lemma_exact_bits(x: nat, b: nat) -> (k: nat)
    requires
        leads(x, b),
        b <= 52,
    ensures
        0 < k < TOO_LARGE,
        steps(k) == x * power(2, 1074),
        scale(k) <= 1074,
{
    let f = FRACTION as nat;
    let up = power(2, (52 - b) as nat);
    let m = x * up;
    let e = (b + 1022) as nat;
    lemma_some_powers();
    lemma_power_positive(2, (52 - b) as nat);
    lemma_power_add(2, b, (52 - b) as nat);
    assert((b + (52 - b)) as nat == 52);
    let p = power(2, b);
    assert(p * up <= x * up && x * up < 2 * (p * up)) by (nonlinear_arith)
        requires
            p <= x < 2 * p,
            up > 0,
    ;
    assert(f <= m < 2 * f);
    let k: nat = ((e + 1) * 4503599627370496 + (m - 4503599627370496)) as nat;
    assert(scale(k) == e && leading(k) == m);
    lemma_power_add(2, (52 - b) as nat, e);
    assert(((52 - b) + e) as nat == 1074);
    let q = power(2, e);
    assert((x * up) * q == x * (up * q)) by (nonlinear_arith);
    k
}

/// Every whole number up to the limit is a number.
proof fn lemma_exact(x: nat) -> (k: nat)
    requires
        0 < x <= EXACT_LIMIT,
    ensures
        stands_for(k, x),
{
    let b = lemma_leads(x);
    lemma_some_powers();
    if b > 53 {
        lemma_power_grows(2, 54, b);
    }
    if b == 53 {
        let k: nat = 1076 * 4503599627370496;
        let half = power(2, 1074);
        assert(scale(k) == 1075 && leading(k) == 4503599627370496);
        assert(power(2, 1075) == 2 * half);
        assert(4503599627370496 * (2 * half) == 9007199254740992 * half) by (nonlinear_arith);
        lemma_stands_for(k, x);
        k
    } else {
        let k = lemma_exact_bits(x, b);
        lemma_stands_for(k, x);
        k
    }
}

/// A whole number with another value is read as another number.
proof fn lemma_others_differ(x: nat, y: nat, k: nat)
    requires
        0 < x <= EXACT_LIMIT,
        stands_for(k, x),
        y != x,
        x == EXACT_LIMIT ==> y != x + 1,
    ensures
        !nearest(y, 1, k),
{
    let t = power(2, 1075);
    lemma_power_positive(2, 1075);
    let a = middle(k);
    let b = middle((k - 1) as nat);
    assert(a * 1 == a && b * 1 == b) by (nonlinear_arith);
    if y < x {
        assert(y * t <= (x - 1) * t) by (nonlinear_arith)
            requires
                y <= x - 1,
                t > 0,
        ;
    } else {
        assert(y * t >= (x + 1) * t) by (nonlinear_arith)
            requires
                y >= x + 1,
                t > 0,
        ;
        if x == EXACT_LIMIT {
            assert(y * t > (x + 1) * t) by (nonlinear_arith)
                requires
                    y > x + 1,
                    t > 0,
            ;
        }
    }
}

/// With `x` for number `k`, decimals without a fraction compare as whole
/// numbers do.
proof fn lemma_under_whole(x: nat, k: nat, y: nat, q: nat)
    requires
        steps(k) == x * power(2, 1074),
    ensures
        under(y, q as int, 2 * steps(k)) == (y * power(10, q) <= x),
        under(y, q as int, 4 * steps(k)) == (y * power(10, q) <= 2 * x),
{
    let t = power(2, 1075);
    let half = power(2, 1074);
    assert(t == 2 * half);
    lemma_power_positive(2, 1074);
    assert(tens(q as int) == power(10, q)) by {
        reveal_with_fuel(power, 1);
    }
    let z = y * power(10, q);
    assert((2 * (x * half)) * 1 == x * (2 * half)) by (nonlinear_arith);
    assert((4 * (x * half)) * 1 == (2 * x) * (2 * half)) by (nonlinear_arith);
    assert(z * t <= x * t <==> z <= x) by (nonlinear_arith)
        requires
            t > 0,
    ;
    assert(z * t <= (2 * x) * t <==> z <= 2 * x) by (nonlinear_arith)
        requires
            t > 0,
    ;
}

proof fn lemma_shortest_whole(x: nat, z: nat, t: nat, nd: nat, n: nat, k: nat)
    requires
        0 < x <= EXACT_LIMIT,
        x == z * power(10, t),
        z % 10 != 0,
        power(10, (nd - 1) as nat) <= z < power(10, nd),
        1 <= n <= nd <= MOST_DIGITS,
        place(k) == nd + t,
        stands_for(k, x),
        nearest(x, 1, k),
    ensures
        shortest_from(k, n) == (z, t as int),
    decreases nd - n,
{
    let q = (nd + t - n) as nat;
    let w = power(10, q);
    lemma_power_positive(10, q);
    assert(tens(q as int) == w) by {
        reveal_with_fuel(power, 1);
    }
    assert(tens(-(q as int)) == 1);
    let y = x / w;
    assert(y * w <= x < (y + 1) * w) by (nonlinear_arith)
        requires
            y == x / w,
            w > 0,
    ;
    lemma_under_whole(x, k, y, q);
    lemma_under_whole(x, k, y + 1, q);
    assert(place(k) - n == q);
    lemma_first_digits(k, n, y);
    if n == nd {
        assert(y == z) by (nonlinear_arith)
            requires
                x == z * w,
                y == x / w,
                w > 0,
        ;
        lemma_under_whole(x, k, 2 * z + 1, q);
        assert((2 * z + 1) * w > 2 * x) by (nonlinear_arith)
            requires
                x == z * w,
                w > 0,
        ;
    } else {
        let s = (q - t) as nat;
        lemma_power_add(10, s, t);
        assert((s + t) as nat == q);
        let v = power(10, t);
        let u = power(10, s);
        lemma_power_positive(10, t);
        assert(u == 10 * power(10, (s - 1) as nat));
        assert(w == 10 * power(10, (q - 1) as nat));
        let c = power(10, (s - 1) as nat);
        if y * w == x {
            assert(z == 10 * (y * c)) by (nonlinear_arith)
                requires
                    y * w == x,
                    x == z * v,
                    w == u * v,
                    u == 10 * c,
                    v > 0,
            ;
        }
        if x == EXACT_LIMIT {
            let g = power(10, (q - 1) as nat);
            assert((y + 1) * w == 10 * ((y + 1) * g)) by (nonlinear_arith)
                requires
                    w == 10 * g,
            ;
        }
        lemma_others_differ(x, y * w, k);
        lemma_others_differ(x, (y + 1) * w, k);
        lemma_shortest_whole(x, z, t, nd, n + 1, k);
    }
}

/// A whole number is its own shortest decimal.
pub proof fn lemma_whole_shortest(z: nat, t: nat, nd: nat) -> (k: nat)
    requires
        0 < z * power(10, t) <= EXACT_LIMIT,
        z % 10 != 0,
        nd >= 1,
        power(10, (nd - 1) as nat) <= z < power(10, nd),
    ensures
        0 < k < TOO_LARGE,
        steps(k) == (z * power(10, t)) * power(2, 1074),
        reads_as(z, t as int, k),
        shortest(k) == (z, t as int),
{
    let x = z * power(10, t);
    let k = lemma_exact(x);
    let two = power(2, 1075);
    let half = power(2, 1074);
    assert(two == 2 * half);
    assert(x * (2 * half) == 2 * (x * half)) by (nonlinear_arith);
    let low = (k - 1) as nat;
    lemma_next(k);
    lemma_next(low);
    assert(low + 1 == k);
    let a = middle(k);
    let b = middle(low);
    assert(a * 1 == a && b * 1 == b) by (nonlinear_arith);
    assert(nearest(x, 1, k));
    let v = power(10, t);
    lemma_power_positive(10, t);
    assert(tens(t as int) == v) by {
        reveal_with_fuel(power, 1);
    }
    // The place of the decimal point.
    let p = nd + t;
    lemma_power_add(10, (nd - 1) as nat, t);
    lemma_power_add(10, nd, t);
    assert(((nd - 1) + t) as nat == (p - 1) as nat);
    let c = power(10, (nd - 1) as nat);
    let d = power(10, nd);
    assert(c * v <= z * v && z * v < d * v) by (nonlinear_arith)
        requires
            c <= z < d,
            v > 0,
    ;
    lemma_under_whole(x, k, 1, (p - 1) as nat);
    lemma_under_whole(x, k, 1, p);
    assert(1 * power(10, (p - 1) as nat) == power(10, (p - 1) as nat)) by (nonlinear_arith);
    assert(1 * power(10, p) == power(10, p)) by (nonlinear_arith);
    lemma_one_place(k, p as int);
    assert(nd <= MOST_DIGITS) by {
        if nd > 17 {
            lemma_power_grows(10, 17, (nd - 1) as nat);
            reveal_with_fuel(power, 18);
            assert(z <= x) by (nonlinear_arith)
                requires
                    x == z * v,
                    v > 0,
            ;
        }
    }
    lemma_shortest_whole(x, z, t, nd, 1, k);
    k
}

// ---------------------------------------------------------------------
// What there always is
// ---------------------------------------------------------------------

proof fn lemma_least(n: nat, d: nat, hi: nat) -> (k: nat)
    requires
        hi <= TOO_LARGE,
        hi < TOO_LARGE ==> at_most(n, d, middle(hi)),
    ensures
        k <= TOO_LARGE,
        k < TOO_LARGE ==> at_most(n, d, middle(k)),
        k > 0 ==> !at_most(n, d, middle((k - 1) as nat)),
    decreases hi,
{
    if hi > 0 && at_most(n, d, middle((hi - 1) as nat)) {
        lemma_least(n, d, (hi - 1) as nat)
    } else {
        hi
    }
}

/// Some number is nearest.
pub proof fn lemma_nearest_exists(n: nat, d: nat)
    requires
        d > 0,
    ensures
        nearest(n, d, double_of(n, d)),
{
    let k = lemma_least(n, d, TOO_LARGE as nat);
    if k < TOO_LARGE && k % 2 == 1 && at_least(n, d, middle(k)) {
        let a = middle(k);
        let b = middle(k + 1);
        lemma_steps_grow(k, k + 1);
        assert(a * d <= b * d) by (nonlinear_arith)
            requires
                a <= b,
        ;
        assert((k + 1 - 1) as nat == k);
        assert(nearest(n, d, k + 1));
    } else {
        assert(nearest(n, d, k));
    }
}

proof fn lemma_last_place(k: nat, p: int) -> (r: int)
    requires
        0 < k < TOO_LARGE,
        !under(1, p, 2 * steps(k)),
    ensures
        in_place(k, r),
    decreases p + 400,
{
    lemma_place_near(k, p);
    if under(1, p - 1, 2 * steps(k)) {
        p
    } else {
        lemma_last_place(k, p - 1)
    }
}

proof fn lemma_place_exists(k: nat)
    requires
        0 < k < TOO_LARGE,
    ensures
        in_place(k, place(k)),
        -400 <= place(k) <= 400,
{
    lemma_place_near(k, 400);
    let p = lemma_last_place(k, 400);
    lemma_one_place(k, p);
    lemma_place_near(k, p);
    lemma_place_near(k, p - 1);
}

proof fn lemma_first_digits_exist(k: nat, n: nat)
    ensures
        starts_as(k, n, first_digits(k, n)),
{
    let q = place(k) - n;
    let h = 2 * steps(k);
    let t = power(2, 1075);
    let f = tens(q);
    let w = f * t;
    let v = h * tens(-q);
    lemma_tens(q);
    lemma_power_positive(2, 1075);
    assert(w > 0) by (nonlinear_arith)
        requires
            w == f * t,
            f > 0,
            t > 0,
    ;
    let x = v / w;
    assert(x * w <= v < (x + 1) * w) by (nonlinear_arith)
        requires
            x == v / w,
            w > 0,
    ;
    assert((x * f) * t == x * w) by (nonlinear_arith)
        requires
            w == f * t,
    ;
    assert(((x + 1) * f) * t == (x + 1) * w) by (nonlinear_arith)
        requires
            w == f * t,
    ;
    assert(starts_as(k, n, x));
}

proof fn lemma_shortest_from_reads(k: nat, n: nat)
    requires
        0 < k < TOO_LARGE,
        n <= MOST_DIGITS,
    ensures
        reads_as(shortest_from(k, n).0, shortest_from(k, n).1, k),
    decreases MOST_DIGITS - n,
{
    let q = place(k) - n;
    let x = first_digits(k, n);
    lemma_first_digits_exist(k, n);
    if n == MOST_DIGITS {
        lemma_place_exists(k);
        lemma_enough(k, x);
    } else if !reads_as(x, q, k) && !reads_as(x + 1, q, k) {
        lemma_shortest_from_reads(k, n + 1);
    }
}

/// The shortest decimal of a number is read as that number.
pub proof fn lemma_shortest_reads(k: nat)
    requires
        0 < k < TOO_LARGE,
    ensures
        reads_as(shortest(k).0, shortest(k).1, k),
        shortest(k).0 > 0,
{
    lemma_shortest_from_reads(k, 1);
    let (d, q) = shortest(k);
    if d == 0 {
        lemma_not_zero(q, k);
    }
}

/// What is not large is not too large.
pub proof fn lemma_not_too_large(n: nat, d: nat, k: nat)
    requires
        d > 0,
        n <= d * power(2, 64),
        nearest(n, d, k),
    ensures
        k < TOO_LARGE,
{
    if k == TOO_LARGE {
        let last = (k - 1) as nat;
        let m = middle(last);
        assert(scale(last) == 2045 && leading(last) >= 1);
        lemma_next(last);
        let p = power(2, 2045);
        let l = leading(last);
        assert(l * p >= p) by (nonlinear_arith)
            requires
                l >= 1,
        ;
        lemma_power_grows(2, 1139, 2045);
        lemma_power_add(2, 64, 1075);
        let t = power(2, 1075);
        let c = power(2, 64);
        assert(n * t <= (d * c) * t) by (nonlinear_arith)
            requires
                n <= d * c,
        ;
        assert((d * c) * t == (c * t) * d) by (nonlinear_arith);
        assert(m * d > (c * t) * d) by (nonlinear_arith)
            requires
                m > c * t,
                d > 0,
        ;
    }
}

/// What is huge is too large.
pub proof fn lemma_too_large(n: nat, d: nat)
    requires
        d > 0,
        n >= d * power(10, 400),
    ensures
        double_of(n, d) == TOO_LARGE,
{
    let k = TOO_LARGE as nat;
    let last = (k - 1) as nat;
    let m = middle(last);
    lemma_bounded(k);
    lemma_next(last);
    assert(last + 1 == k);
    lemma_tens_are_far(400, 1024);
    lemma_power_add(2, 1024, 1075);
    let t = power(2, 1075);
    let c = power(2, 1024);
    let e = power(10, 400);
    assert(n * t >= (d * e) * t) by (nonlinear_arith)
        requires
            n >= d * e,
    ;
    assert((d * e) * t >= (c * t) * d) by (nonlinear_arith)
        requires
            e >= c,
    ;
    assert(m * d <= (c * t) * d) by (nonlinear_arith)
        requires
            m <= c * t,
    ;
    assert(nearest(n, d, k));
    lemma_double_of(n, d, k);
}

/// What is tiny is nothing.
pub proof fn lemma_nothing(n: nat, d: nat)
    requires
        d > 0,
        n * power(10, 400) <= d,
    ensures
        double_of(n, d) == 0,
{
    lemma_tens_are_far(400, 1075);
    let t = power(2, 1075);
    let e = power(10, 400);
    assert(n * t <= n * e) by (nonlinear_arith)
        requires
            t <= e,
    ;
    assert(middle(0) == 1) by {
        reveal_with_fuel(power, 1);
        assert(1 * 1 == 1nat && 0 * 1 == 0nat) by (nonlinear_arith);
    }
    assert(1 * d == d) by (nonlinear_arith);
    assert(nearest(n, d, 0));
    lemma_double_of(n, d, 0);
}

/// A larger number reads as a larger one.
pub proof fn lemma_double_of_grows(a: nat, b: nat)
    requires
        a <= b,
    ensures
        double_of(a, 1) <= double_of(b, 1),
{
    let j = double_of(a, 1);
    let k = double_of(b, 1);
    lemma_nearest_exists(a, 1);
    lemma_nearest_exists(b, 1);
    if j > k {
        let t = power(2, 1075);
        let x = middle((j - 1) as nat);
        let y = middle(k);
        lemma_steps_grow(k, (j - 1) as nat);
        lemma_power_positive(2, 1075);
        assert(x * 1 == x && y * 1 == y) by (nonlinear_arith);
        assert(a < b ==> a * t < b * t) by (nonlinear_arith)
            requires
                t > 0,
        ;
    }
}

// ---------------------------------------------------------------------
// Laws
// ---------------------------------------------------------------------

/// What lies between number `k` and a decimal that reads as it, reads as it.
proof fn lemma_between(a: nat, b: nat, q: int, k: nat)
    requires
        0 < k < TOO_LARGE,
        reads_as(a, q, k),
        (a <= b && under(b, q, 2 * steps(k))) || (b <= a && !under(b, q, 2 * steps(k))),
    ensures
        reads_as(b, q, k),
{
    let low = (k - 1) as nat;
    let f = tens(q);
    let d = tens(-q);
    let t = power(2, 1075);
    let h = 2 * steps(k);
    lemma_next(k);
    lemma_next(low);
    lemma_tens(-q);
    assert(low + 1 == k);
    let m = middle(k);
    let l = middle(low);
    assert(h * d < m * d && l * d < h * d) by (nonlinear_arith)
        requires
            l < h < m,
            d > 0,
    ;
    assert(a <= b ==> (a * f) * t <= (b * f) * t) by (nonlinear_arith);
    assert(b <= a ==> (b * f) * t <= (a * f) * t) by (nonlinear_arith);
}

/// The first digits are as many as they should be.
proof fn lemma_first_digits_size(k: nat, n: nat)
    requires
        0 < k < TOO_LARGE,
        n >= 1,
    ensures
        power(10, (n - 1) as nat) <= first_digits(k, n) < power(10, n),
{
    let x = first_digits(k, n);
    let p = place(k);
    let h = 2 * steps(k);
    let a = power(10, (n - 1) as nat);
    let b = power(10, n);
    lemma_place_exists(k);
    lemma_first_digits_exist(k, n);
    lemma_shifts(1, p - n, (n - 1) as nat, h, 0);
    lemma_shifts(1, p - n, n, h, 0);
    assert(1 * a == a && 1 * b == b) by (nonlinear_arith);
    assert(p - n + (n - 1) == p - 1);
    if x < a {
        lemma_under_less(x + 1, a, p - n, h);
    }
    if x >= b {
        lemma_under_less(b, x, p - n, h);
    }
}

/// Where some decimal of `n` digits reads as number `k`, so does one of the two
/// on either side of it.
proof fn lemma_neighbours(k: nat, n: nat, d: nat, q: int)
    requires
        0 < k < TOO_LARGE,
        n >= 1,
        d < power(10, n),
        reads_as(d, q, k),
    ensures
        ({
            let x = first_digits(k, n);
            reads_as(x, place(k) - n, k) || reads_as(x + 1, place(k) - n, k)
        }),
{
    let x = first_digits(k, n);
    let r = place(k) - n;
    let h = 2 * steps(k);
    lemma_first_digits_exist(k, n);
    if q >= r {
        let e = d * power(10, (q - r) as nat);
        lemma_shifts(d, r, (q - r) as nat, h, k);
        if e <= x {
            lemma_between(e, x, r, k);
        } else {
            lemma_between(e, x + 1, r, k);
        }
    } else {
        let t = (r - q) as nat;
        let p = power(10, t);
        let a = power(10, (n - 1) as nat);
        lemma_first_digits_size(k, n);
        lemma_shifts(x, q, t, h, k);
        lemma_power_positive(10, (t - 1) as nat);
        assert(p == 10 * power(10, (t - 1) as nat));
        assert(power(10, n) == 10 * a);
        assert(x * p >= 10 * a) by (nonlinear_arith)
            requires
                x >= a,
                p >= 10,
        ;
        lemma_between(d, x * p, q, k);
    }
}

proof fn lemma_no_shorter_from(k: nat, m: nat, n: nat, d: nat, q: int)
    requires
        0 < k < TOO_LARGE,
        1 <= m <= n,
        d < power(10, n),
        reads_as(d, q, k),
    ensures
        shortest_from(k, m).0 <= power(10, n),
    decreases n - m,
{
    let x = first_digits(k, m);
    lemma_first_digits_size(k, m);
    lemma_power_grows(10, m, n);
    if m == n {
        lemma_neighbours(k, n, d, q);
    } else if m < MOST_DIGITS && !reads_as(x, place(k) - m, k) && !reads_as(
        x + 1,
        place(k) - m,
        k,
    ) {
        lemma_no_shorter_from(k, m + 1, n, d, q);
    }
}

/// The shortest decimal of a number reads as it, and has no more digits than
/// any other decimal that does.
pub proof fn law_no_decimal_is_shorter(k: nat, n: nat, d: nat, q: int)
    requires
        0 < k < TOO_LARGE,
        n >= 1,
        d < power(10, n),
        reads_as(d, q, k),
    ensures
        reads_as(shortest(k).0, shortest(k).1, k),
        0 < shortest(k).0 <= power(10, n),
{
    lemma_shortest_reads(k);
    lemma_no_shorter_from(k, 1, n, d, q);
}

} // verus!
