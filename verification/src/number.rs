//! Numbers as JSON writes them: numbers of double precision, each held as the
//! shortest decimal that reads as it.

use vstd::prelude::*;
use crate::big::{lemma_power_add, lemma_power_grows, lemma_power_positive, power, Big};
use crate::double::{
    double_of, find_nearest, find_shortest, fraction, lemma_double_of, lemma_double_of_grows,
    lemma_nearest_exists, lemma_not_too_large, lemma_nothing, lemma_shifts, lemma_shortest_reads,
    lemma_steps_grow, lemma_tens, lemma_too_large, lemma_whole_shortest, shortest,
    steps, steps_of, tens, EXACT_LIMIT, TOO_LARGE,
};
use crate::text::{
    chars_of, dec, dec_string, opt_view, part_from, push_chars, trim_end_char, trim_end_char_of,
    trim_start_char, trim_start_char_of,
};

verus! {

/// A decimal: `0.d1 d2 d3 ...` times ten to the power `point`. Zero has no
/// digits.
pub struct NumberModel {
    pub negative: bool,
    pub digits: Seq<char>,
    pub point: int,
}

/// A number of double precision, as its shortest decimal.
#[derive(Debug, Eq)]
pub struct Number {
    negative: bool,
    digits: Vec<char>,
    point: i64,
}

impl View for Number {
    type V = NumberModel;

    closed spec fn view(&self) -> NumberModel {
        NumberModel {
            negative: self.negative,
            digits: self.digits@,
            point: self.point as int,
        }
    }
}

pub open spec fn is_digit(c: char) -> bool {
    '0' <= c && c <= '9'
}

pub fn digit_char(c: char) -> (r: bool)
    ensures
        r == is_digit(c),
{
    '0' <= c && c <= '9'
}

pub open spec fn all_digits(s: Seq<char>) -> bool {
    forall|i: int| 0 <= i < s.len() ==> is_digit(#[trigger] s[i])
}

pub open spec fn zero(negative: bool) -> NumberModel {
    NumberModel { negative, digits: Seq::empty(), point: 0 }
}

/// The same decimal without idle zeros.
pub open spec fn canonical(negative: bool, digits: Seq<char>, point: int) -> NumberModel {
    let a = trim_start_char(digits, '0');
    let z = trim_end_char(a, '0');
    if z.len() == 0 {
        zero(negative)
    } else {
        NumberModel { negative, digits: z, point: point - (digits.len() - a.len()) }
    }
}

/// The shortest decimal of number `k` of double precision.
pub open spec fn number(negative: bool, k: nat) -> NumberModel {
    if k == 0 {
        zero(negative)
    } else {
        let (d, q) = shortest(k);
        canonical(negative, dec(d), dec(d).len() + q)
    }
}

/// The whole number that the digits make.
pub open spec fn coefficient(m: NumberModel) -> nat {
    digits_value(m.digits, m.digits.len() as int)
}

/// The power of ten that goes with it.
pub open spec fn exponent(m: NumberModel) -> int {
    m.point - m.digits.len()
}

/// The number of double precision nearest a decimal.
pub open spec fn nearest_double(m: NumberModel) -> nat {
    double_of(coefficient(m) * tens(exponent(m)), tens(-exponent(m)))
}

/// The number nearest a decimal, or nothing where the decimal is too large.
pub open spec fn rounded(m: NumberModel) -> Option<NumberModel> {
    if m.digits.len() == 0 {
        Some(zero(m.negative))
    } else if nearest_double(m) == TOO_LARGE {
        None
    } else {
        Some(number(m.negative, nearest_double(m)))
    }
}

/// What every number is: the shortest decimal of what it reads as, without
/// idle zeros.
pub open spec fn number_ok(m: NumberModel) -> bool {
    &&& all_digits(m.digits)
    &&& rounded(m) == Some(m)
    &&& m.digits.len() > 0 ==> m.digits[0] != '0' && m.digits.last() != '0'
}

/// `n` zeros.
pub open spec fn zero_run(n: nat) -> Seq<char> {
    Seq::new(n, |i: int| '0')
}

/// A number in plain decimal notation.
pub open spec fn number_text(m: NumberModel) -> Seq<char> {
    let sign = if m.negative {
        "-"@
    } else {
        Seq::empty()
    };
    let n = m.digits.len() as int;
    if n == 0 {
        "0"@
    } else if m.point <= 0 {
        sign + "0."@ + zero_run((-m.point) as nat) + m.digits
    } else if n <= m.point {
        sign + m.digits + zero_run((m.point - n) as nat)
    } else {
        sign + m.digits.take(m.point) + "."@ + m.digits.skip(m.point)
    }
}

/// The value of the first `n` digits; digits past the end are zero.
pub open spec fn digits_value(digits: Seq<char>, n: int) -> nat
    decreases n,
{
    if n <= 0 {
        0
    } else {
        10 * digits_value(digits, n - 1) + if n <= digits.len() {
            (digits[n - 1] as int - 48) as nat
        } else {
            0
        }
    }
}

/// The number as a whole number, where it is one that is held exactly.
pub open spec fn whole(m: NumberModel) -> Option<u64> {
    if (m.negative && m.digits.len() > 0) || m.digits.len() > (if m.point > 0 {
        m.point
    } else {
        0
    }) {
        None
    } else if digits_value(m.digits, m.point) > EXACT_LIMIT {
        None
    } else {
        Some(digits_value(m.digits, m.point) as u64)
    }
}

/// The number nearest `x`.
pub open spec fn natural(x: nat) -> NumberModel {
    number(false, double_of(x, 1))
}

/// The number nearest `x`, of either sign.
pub open spec fn integer(x: int) -> NumberModel {
    if x < 0 {
        number(true, double_of((-x) as nat, 1))
    } else {
        natural(x as nat)
    }
}

/// `a` divided by `b`, both taken as numbers of double precision; zero where
/// `b` is.
pub open spec fn quotient(a: nat, b: nat) -> NumberModel {
    if b == 0 {
        zero(false)
    } else {
        number(false, double_of(steps(double_of(a, 1)), steps(double_of(b, 1))))
    }
}

/// A number as it is displayed: as JSON has it, but for the sign of zero.
pub open spec fn display_text(m: NumberModel) -> Seq<char> {
    if m.negative && m.digits.len() == 0 {
        "-0"@
    } else {
        number_text(m)
    }
}

pub proof fn lemma_trim_start_digits(s: Seq<char>)
    requires
        all_digits(s),
    ensures
        all_digits(trim_start_char(s, '0')),
        trim_start_char(s, '0').len() <= s.len(),
        trim_start_char(s, '0').len() > 0 ==> trim_start_char(s, '0')[0] != '0',
    decreases s.len(),
{
    if s.len() > 0 && s[0] == '0' {
        assert forall|i: int| 0 <= i < s.skip(1).len() implies is_digit(#[trigger] s.skip(1)[i]) by {
            assert(s.skip(1)[i] == s[i + 1]);
        }
        lemma_trim_start_digits(s.skip(1));
    }
}

proof fn lemma_trim_end_digits(s: Seq<char>)
    requires
        all_digits(s),
    ensures
        all_digits(trim_end_char(s, '0')),
        trim_end_char(s, '0').len() <= s.len(),
        trim_end_char(s, '0').len() > 0 ==> trim_end_char(s, '0').last() != '0' && trim_end_char(
            s,
            '0',
        )[0] == s[0],
    decreases s.len(),
{
    if s.len() > 0 && s.last() == '0' {
        assert forall|i: int| 0 <= i < s.drop_last().len() implies is_digit(
            #[trigger] s.drop_last()[i],
        ) by {
            assert(s.drop_last()[i] == s[i]);
        }
        lemma_trim_end_digits(s.drop_last());
    }
}

pub proof fn lemma_dec_digits(n: nat)
    ensures
        all_digits(dec(n)),
        dec(n).len() > 0,
    decreases n,
{
    if n >= 10 {
        lemma_dec_digits(n / 10);
        let p = dec(n / 10);
        assert forall|i: int| 0 <= i < dec(n).len() implies is_digit(#[trigger] dec(n)[i]) by {
            if i < p.len() {
                assert(dec(n)[i] == p[i]);
            }
        }
    }
}

proof fn lemma_digits_value_grows(digits: Seq<char>, i: int, j: int)
    requires
        0 <= i <= j,
    ensures
        digits_value(digits, i) <= digits_value(digits, j),
    decreases j,
{
    if i < j {
        lemma_digits_value_grows(digits, i, j - 1);
    }
}

proof fn lemma_digits_value_prefix(a: Seq<char>, b: Seq<char>, n: int)
    requires
        n <= a.len() <= b.len(),
        forall|i: int| 0 <= i < a.len() ==> a[i] == b[i],
    ensures
        digits_value(a, n) == digits_value(b, n),
    decreases n,
{
    if n > 0 {
        lemma_digits_value_prefix(a, b, n - 1);
    }
}

/// Zeros at the end of the digits are a power of ten.
proof fn lemma_trim_value(s: Seq<char>)
    ensures
        ({
            let z = trim_end_char(s, '0');
            &&& z.len() <= s.len()
            &&& digits_value(s, s.len() as int) == digits_value(z, z.len() as int) * power(
                10,
                (s.len() - z.len()) as nat,
            )
        }),
    decreases s.len(),
{
    let v = digits_value(s, s.len() as int);
    if s.len() > 0 && s.last() == '0' {
        let r = s.drop_last();
        let z = trim_end_char(s, '0');
        lemma_trim_value(r);
        lemma_digits_value_prefix(r, s, r.len() as int);
        let c = digits_value(z, z.len() as int);
        let p = power(10, (r.len() - z.len()) as nat);
        assert(10 * (c * p) == c * (10 * p)) by (nonlinear_arith);
        assert((s.len() - z.len() - 1) as nat == (r.len() - z.len()) as nat);
    } else {
        assert(v * 1 == v) by (nonlinear_arith);
    }
}

/// Zeros past the end of the digits are a power of ten.
proof fn lemma_padded_value(s: Seq<char>, n: int)
    requires
        n >= s.len(),
    ensures
        digits_value(s, n) == digits_value(s, s.len() as int) * power(
            10,
            (n - s.len()) as nat,
        ),
    decreases n,
{
    let v = digits_value(s, s.len() as int);
    if n > s.len() {
        lemma_padded_value(s, n - 1);
        let p = power(10, (n - 1 - s.len()) as nat);
        assert(10 * (v * p) == v * (10 * p)) by (nonlinear_arith);
        assert((n - s.len() - 1) as nat == (n - 1 - s.len()) as nat);
    } else {
        assert(v * 1 == v) by (nonlinear_arith);
    }
}

/// How large a whole number of `n` digits is.
proof fn lemma_value_bounds(s: Seq<char>, n: int)
    requires
        all_digits(s),
        1 <= n <= s.len(),
        s[0] != '0',
    ensures
        power(10, (n - 1) as nat) <= digits_value(s, n) < power(10, n as nat),
    decreases n,
{
    assert(is_digit(s[n - 1]));
    if n == 1 {
        reveal_with_fuel(power, 2);
        assert(digits_value(s, 0) == 0);
    } else {
        lemma_value_bounds(s, n - 1);
        assert(power(10, n as nat) == 10 * power(10, (n - 1) as nat));
        assert(power(10, (n - 1) as nat) == 10 * power(10, (n - 2) as nat));
    }
}

/// The digits of the whole number that some digits make are those digits.
proof fn lemma_dec_of_value(s: Seq<char>, n: int)
    requires
        all_digits(s),
        1 <= n <= s.len(),
        s[0] != '0',
    ensures
        dec(digits_value(s, n)) == s.take(n),
    decreases n,
{
    let v = digits_value(s, n);
    assert(is_digit(s[n - 1]));
    let last = (s[n - 1] as int - 48) as nat;
    if n == 1 {
        assert(digits_value(s, 0) == 0);
        assert(dec(v) =~= s.take(1));
    } else {
        lemma_dec_of_value(s, n - 1);
        lemma_value_bounds(s, n - 1);
        lemma_power_positive(10, (n - 2) as nat);
        assert(v / 10 == digits_value(s, n - 1) && v % 10 == last);
        assert(dec(v) =~= s.take(n));
    }
}

proof fn lemma_dec_head(n: nat)
    requires
        n > 0,
    ensures
        dec(n)[0] != '0',
    decreases n,
{
    if n >= 10 {
        lemma_dec_head(n / 10);
        lemma_dec_digits(n / 10);
    }
}

/// Every number of double precision has its decimal.
pub proof fn lemma_number_ok(negative: bool, k: nat)
    requires
        k < TOO_LARGE,
    ensures
        number_ok(number(negative, k)),
        k > 0 ==> number(negative, k).digits.len() > 0 && nearest_double(number(negative, k)) == k,
{
    if k > 0 {
        let (d, q) = shortest(k);
        let s = dec(d);
        let m = number(negative, k);
        lemma_shortest_reads(k);
        lemma_dec_digits(d);
        lemma_dec_head(d);
        lemma_dec_value(d);
        lemma_trim_value(s);
        lemma_trim_end_digits(s);
        let z = trim_end_char(s, '0');
        let c = digits_value(z, z.len() as int);
        let t = (s.len() - z.len()) as nat;
        if z.len() == 0 {
            assert(0 * power(10, t) == 0) by (nonlinear_arith);
        }
        assert(m == (NumberModel { negative, digits: z, point: s.len() + q }));
        lemma_shifts(c, q, t, 0, k);
        lemma_tens(-(q + t));
        lemma_double_of(c * tens(q + t), tens(-(q + t)), k);
    }
}

pub proof fn lemma_canonical(negative: bool, digits: Seq<char>, point: int)
    requires
        all_digits(digits),
    ensures
        ({
            let m = canonical(negative, digits, point);
            &&& all_digits(m.digits)
            &&& m.digits.len() > 0 ==> m.digits[0] != '0' && m.digits.last() != '0'
            &&& rounded(m) is Some ==> number_ok(rounded(m)->0)
            &&& nearest_double(m) <= TOO_LARGE
        }),
{
    lemma_trim_start_digits(digits);
    lemma_trim_end_digits(trim_start_char(digits, '0'));
    let m = canonical(negative, digits, point);
    let q = exponent(m);
    lemma_tens(-q);
    lemma_nearest_exists(coefficient(m) * tens(q), tens(-q));
    if m.digits.len() > 0 && nearest_double(m) < TOO_LARGE {
        lemma_number_ok(negative, nearest_double(m));
    }
}

/// A whole number that is not too large is its own shortest decimal.
proof fn lemma_whole_ok(m: NumberModel)
    requires
        all_digits(m.digits),
        m.digits.len() > 0,
        m.digits[0] != '0',
        m.digits.last() != '0',
        m.point >= m.digits.len(),
        digits_value(m.digits, m.point) <= EXACT_LIMIT,
    ensures
        rounded(m) == Some(m),
        number_ok(m),
        m == number(m.negative, double_of(digits_value(m.digits, m.point), 1)),
        double_of(digits_value(m.digits, m.point), 1) < TOO_LARGE,
        nearest_double(m) == double_of(digits_value(m.digits, m.point), 1),
        steps(nearest_double(m)) == digits_value(m.digits, m.point) * power(2, 1074),
{
    let s = m.digits;
    let n = s.len() as int;
    let c = coefficient(m);
    let t = (m.point - n) as nat;
    lemma_padded_value(s, m.point);
    lemma_value_bounds(s, n);
    lemma_power_positive(10, (n - 1) as nat);
    lemma_power_positive(10, t);
    let p = power(10, t);
    assert(c * p > 0) by (nonlinear_arith)
        requires
            c > 0,
            p > 0,
    ;
    assert(is_digit(s[n - 1]));
    assert(c % 10 == (s[n - 1] as int - 48) as nat);
    let k = lemma_whole_shortest(c, t, n as nat);
    lemma_dec_of_value(s, n);
    assert(s.take(n) =~= s);
    assert(trim_start_char(s, '0') == s);
    assert(trim_end_char(s, '0') == s);
    lemma_double_of(c * tens(t as int), tens(-(t as int)), k);
    assert(tens(t as int) == p) by {
        reveal_with_fuel(power, 1);
    }
    assert(number(m.negative, k) == m);
}

/// The first digits of a decimal say how large it is.
proof fn lemma_far(m: NumberModel)
    requires
        all_digits(m.digits),
        m.digits.len() > 0,
        m.digits[0] != '0',
    ensures
        m.point > 400 ==> nearest_double(m) == TOO_LARGE,
        m.point < -400 ==> nearest_double(m) == 0,
{
    let s = m.digits;
    let n = s.len() as int;
    let c = coefficient(m);
    let q = exponent(m);
    lemma_value_bounds(s, n);
    lemma_tens(-q);
    let f = tens(q);
    let d = tens(-q);
    if m.point > 400 {
        let e = power(10, 400);
        lemma_power_grows(10, 400, (m.point - 1) as nat);
        let w = power(10, (n - 1) as nat);
        if q >= 0 {
            lemma_power_add(10, (n - 1) as nat, q as nat);
            assert((n - 1) as nat + q as nat == (m.point - 1) as nat);
            assert(f == power(10, q as nat)) by {
                reveal_with_fuel(power, 1);
            }
            assert(c * f >= w * f) by (nonlinear_arith)
                requires
                    c >= w,
            ;
            assert(1 * e == e) by (nonlinear_arith);
        } else {
            lemma_power_add(10, (m.point - 1) as nat, (-q) as nat);
            assert((m.point - 1) as nat + (-q) as nat == (n - 1) as nat);
            assert(power(10, (m.point - 1) as nat) * d >= d * e) by (nonlinear_arith)
                requires
                    power(10, (m.point - 1) as nat) >= e,
            ;
            assert(c * 1 == c) by (nonlinear_arith);
        }
        lemma_too_large(c * f, d);
    }
    if m.point < -400 {
        let e = power(10, 400);
        let w = power(10, n as nat);
        let g = power(10, (-m.point) as nat);
        lemma_power_grows(10, 400, (-m.point) as nat);
        lemma_power_add(10, n as nat, (-m.point) as nat);
        assert(n as nat + (-m.point) as nat == (-q) as nat);
        assert(c * e <= w * g) by (nonlinear_arith)
            requires
                c <= w,
                e <= g,
        ;
        assert(c * 1 == c) by (nonlinear_arith);
        lemma_nothing(c * f, d);
    }
}

proof fn lemma_zero_double()
    ensures
        double_of(0, 1) == 0,
{
    let e = power(10, 400);
    assert(0 * e == 0) by (nonlinear_arith);
    lemma_nothing(0, 1);
}

/// The whole number that some digits make.
fn value_of(digits: &[char]) -> (r: Big)
    requires
        all_digits(digits@),
    ensures
        r@ == digits_value(digits@, digits@.len() as int),
{
    let mut r = Big::from_u64(0);
    let mut size: u64 = 1;
    let mut part: u64 = 0;
    let mut i: usize = 0;
    proof {
        assert(0 * size == 0) by (nonlinear_arith);
    }
    while i < digits.len()
        invariant
            i <= digits.len(),
            all_digits(digits@),
            1 <= size <= 100_000_000_000_000_000,
            part < size,
            digits_value(digits@, i as int) == r@ * size + part,
        decreases digits.len() - i,
    {
        assert(is_digit(digits@[i as int]));
        let d: u64 = (digits[i] as u32 - 48) as u64;
        proof {
            let v = r@;
            assert(10 * (v * size) == v * (10 * size)) by (nonlinear_arith);
        }
        part = 10 * part + d;
        size = 10 * size;
        i += 1;
        if size > 100_000_000_000_000_000 {
            r.multiply(size, part);
            size = 1;
            part = 0;
            proof {
                let v = r@;
                assert(v * 1 == v) by (nonlinear_arith);
            }
        }
    }
    r.multiply(size, part);
    r
}

/// The whole number that the first `p` digits make, where it is not too large;
/// digits past the end are zero.
fn whole_of(digits: &[char], p: usize) -> (r: Option<u64>)
    requires
        all_digits(digits@),
    ensures
        match r {
            Some(v) => v == digits_value(digits@, p as int) && v <= EXACT_LIMIT,
            None => digits_value(digits@, p as int) > EXACT_LIMIT,
        },
{
    let n = digits.len();
    let mut v: u64 = 0;
    let mut i: usize = 0;
    while i < p
        invariant
            i <= p,
            n == digits@.len(),
            all_digits(digits@),
            v == digits_value(digits@, i as int),
            v <= EXACT_LIMIT,
        decreases p - i,
    {
        let d: u64 = if i < n {
            assert(is_digit(digits@[i as int]));
            (digits[i] as u32 - 48) as u64
        } else {
            0
        };
        v = 10 * v + d;
        i += 1;
        if v > EXACT_LIMIT {
            proof {
                lemma_digits_value_grows(digits@, i as int, p as int);
            }
            return None;
        }
    }
    Some(v)
}

fn same_digits(a: &[char], b: &[char]) -> (r: bool)
    ensures
        r == (a@ == b@),
{
    if a.len() != b.len() {
        return false;
    }
    let mut i: usize = 0;
    while i < a.len()
        invariant
            i <= a.len(),
            a@.len() == b@.len(),
            forall|k: int| 0 <= k < i ==> a@[k] == b@[k],
        decreases a.len() - i,
    {
        if a[i] != b[i] {
            return false;
        }
        i += 1;
    }
    assert(a@ =~= b@);
    true
}

impl Number {
    /// Every number in existence is the shortest decimal of a number of double
    /// precision.
    #[verifier::type_invariant]
    spec fn inv(self) -> bool {
        &&& -450 <= self.point <= 450
        &&& number_ok(
            NumberModel {
                negative: self.negative,
                digits: self.digits@,
                point: self.point as int,
            },
        )
    }

    /// The decimal of number `k` of double precision.
    fn from_double(negative: bool, k: u64) -> (r: Number)
        requires
            k < TOO_LARGE,
        ensures
            r@ == number(negative, k as nat),
            number_ok(r@),
    {
        proof {
            lemma_number_ok(negative, k as nat);
        }
        if k == 0 {
            let none: Vec<char> = Vec::new();
            assert(none@ =~= Seq::<char>::empty());
            return Number { negative, digits: none, point: 0 };
        }
        let (d, q) = find_shortest(k);
        let text = dec_string(d);
        let chars = chars_of(text.as_str());
        proof {
            lemma_u64_len(d);
            lemma_dec_head(d as nat);
            lemma_dec_digits(d as nat);
            lemma_trim_end_digits(chars@);
        }
        let z = trim_end_char_of(chars.as_slice(), '0');
        let point: i64 = chars.len() as i64 + q;
        Number { negative, digits: vstd::slice::slice_to_vec(z), point }
    }

    /// The number nearest a decimal, or nothing where the decimal is too large.
    pub fn from_decimal(negative: bool, digits: &[char], point: i128) -> (r: Option<Number>)
        requires
            all_digits(digits@),
            -0x1_0000_0000_0000_0000_0000 <= point <= 0x1_0000_0000_0000_0000_0000,
        ensures
            opt_view(r) == rounded(canonical(negative, digits@, point as int)),
    {
        proof {
            lemma_canonical(negative, digits@, point as int);
            lemma_trim_start_digits(digits@);
            lemma_trim_end_digits(trim_start_char(digits@, '0'));
        }
        let ghost m = canonical(negative, digits@, point as int);
        let a = trim_start_char_of(digits, '0');
        let z = trim_end_char_of(a, '0');
        let cut = digits.len() - a.len();
        if z.len() == 0 {
            let none: Vec<char> = Vec::new();
            assert(none@ =~= Seq::<char>::empty());
            return Some(Number { negative, digits: none, point: 0 });
        }
        let p: i128 = point - cut as i128;
        proof {
            lemma_far(m);
        }
        if p > 400 {
            return None;
        }
        if p < -400 {
            return Some(Number::from_double(negative, 0));
        }
        let n = z.len();
        if p >= n as i128 {
            if let Some(_) = whole_of(z, p as usize) {
                proof {
                    lemma_whole_ok(m);
                }
                return Some(
                    Number { negative, digits: vstd::slice::slice_to_vec(z), point: p as i64 },
                );
            }
        }
        let q: i128 = p - n as i128;
        let (top, bottom) = fraction(value_of(z), q);
        let k = find_nearest(&top, &bottom);
        if k == TOO_LARGE {
            return None;
        }
        Some(Number::from_double(negative, k))
    }

    /// The number nearest `x`, of a given sign.
    fn from_whole(negative: bool, x: u64) -> (r: Number)
        ensures
            r@ == number(negative, double_of(x as nat, 1)),
            number_ok(r@),
    {
        if x == 0 {
            proof {
                lemma_zero_double();
            }
            return Number::from_double(negative, 0);
        }
        if x <= EXACT_LIMIT {
            let text = dec_string(x);
            let chars = chars_of(text.as_str());
            proof {
                lemma_u64_len(x);
                lemma_dec_head(x as nat);
                lemma_dec_digits(x as nat);
                lemma_dec_value(x as nat);
                lemma_trim_end_digits(chars@);
                lemma_trim_value(chars@);
            }
            let z = trim_end_char_of(chars.as_slice(), '0');
            let point: i64 = chars.len() as i64;
            proof {
                let m = NumberModel { negative, digits: z@, point: point as int };
                if z@.len() == 0 {
                    let t = power(10, chars@.len());
                    assert(0 * t == 0) by (nonlinear_arith);
                }
                lemma_padded_value(z@, point as int);
                lemma_whole_ok(m);
            }
            return Number { negative, digits: vstd::slice::slice_to_vec(z), point };
        }
        let top = Big::from_u64(x);
        let bottom = Big::from_u64(1);
        let k = find_nearest(&top, &bottom);
        proof {
            lemma_power_is_over(x);
            lemma_not_too_large(x as nat, 1, k as nat);
        }
        Number::from_double(negative, k)
    }

    /// The number nearest `x`.
    pub fn from_u64(x: u64) -> (r: Number)
        ensures
            r@ == natural(x as nat),
            number_ok(r@),
    {
        Number::from_whole(false, x)
    }

    /// The number nearest `x`.
    pub fn from_i64(x: i64) -> (r: Number)
        ensures
            r@ == integer(x as int),
            number_ok(r@),
    {
        if x >= 0 {
            return Number::from_whole(false, x as u64);
        }
        let size: u64 = (-(x as i128)) as u64;
        Number::from_whole(true, size)
    }

    /// `a` divided by `b`; zero where `b` is.
    pub fn from_ratio(a: usize, b: usize) -> (r: Number)
        requires
            a <= b,
        ensures
            r@ == quotient(a as nat, b as nat),
            number_ok(r@),
    {
        if b == 0 {
            return Number::from_double(false, 0);
        }
        let one = Big::from_u64(1);
        let top = steps_of(find_nearest(&Big::from_u64(a as u64), &one));
        let k = find_nearest(&Big::from_u64(b as u64), &one);
        let bottom = steps_of(k);
        proof {
            lemma_double_of_grows(a as nat, b as nat);
            lemma_steps_grow(double_of(a as nat, 1), double_of(b as nat, 1));
            lemma_positive(b as nat);
            lemma_steps_grow(1, k as nat);
        }
        let r = find_nearest(&top, &bottom);
        proof {
            lemma_power_is_over(1);
            let t = power(2, 64);
            let d = bottom@;
            assert(d * t >= d) by (nonlinear_arith)
                requires
                    t >= 1,
            ;
            lemma_not_too_large(top@, bottom@, r as nat);
        }
        Number::from_double(false, r)
    }

    /// The number in plain decimal notation.
    pub fn text(&self) -> (r: String)
        ensures
            r@ == number_text(self@),
            number_ok(self@),
    {
        proof {
            use_type_invariant(self);
        }
        let n = self.digits.len();
        let mut out = String::new();
        if n == 0 {
            out.push_str("0");
            assert(out@ =~= "0"@);
            return out;
        }
        if self.negative {
            out.push_str("-");
        }
        let ghost sign = out@;
        let digits = self.digits.as_slice();
        if self.point <= 0 {
            out.push_str("0.");
            push_zeros(&mut out, (-self.point) as usize);
            push_chars(&mut out, digits);
        } else {
            let p = self.point as usize;
            if n <= p {
                push_chars(&mut out, digits);
                push_zeros(&mut out, p - n);
            } else {
                push_chars(&mut out, crate::text::part_to(digits, p));
                out.push_str(".");
                push_chars(&mut out, part_from(digits, p));
            }
        }
        assert(out@ =~= number_text(self@));
        out
    }

    /// The number as it is displayed.
    pub fn display(&self) -> (r: String)
        ensures
            r@ == display_text(self@),
    {
        if self.negative && self.digits.len() == 0 {
            return "-0".to_owned();
        }
        self.text()
    }

    /// The number as a whole number, where it is one that is held exactly.
    pub fn as_u64(&self) -> (r: Option<u64>)
        ensures
            r == whole(self@),
    {
        proof {
            use_type_invariant(self);
        }
        let n = self.digits.len();
        if self.negative && n > 0 {
            return None;
        }
        let p: usize = if self.point > 0 {
            self.point as usize
        } else {
            0
        };
        if n > p {
            return None;
        }
        proof {
            if self.point <= 0 {
                assert(digits_value(self.digits@, self.point as int) == 0);
            }
        }
        whole_of(self.digits.as_slice(), p)
    }

    /// A copy.
    pub fn dup(&self) -> (r: Number)
        ensures
            r@ == self@,
    {
        proof {
            use_type_invariant(self);
        }
        let digits = vstd::slice::slice_to_vec(self.digits.as_slice());
        Number { negative: self.negative, digits, point: self.point }
    }
}

proof fn lemma_u64_len(x: u64)
    ensures
        dec(x as nat).len() <= 20,
{
    lemma_dec_digits(x as nat);
    if x > 0 {
        let s = dec(x as nat);
        lemma_dec_head(x as nat);
        lemma_dec_value(x as nat);
        lemma_value_bounds(s, s.len() as int);
        if s.len() > 20 {
            lemma_power_grows(10, 20, (s.len() - 1) as nat);
            assert(power(10, 20) == 100_000_000_000_000_000_000) by {
                reveal_with_fuel(power, 21);
            }
        }
    }
}

proof fn lemma_power_is_over(x: u64)
    ensures
        x <= 1 * power(2, 64),
        power(2, 64) >= 1,
{
    assert(power(2, 64) == 0x1_0000_0000_0000_0000) by {
        reveal_with_fuel(power, 65);
    }
}

/// Nothing but zero reads as zero.
proof fn lemma_positive(x: nat)
    requires
        x > 0,
    ensures
        double_of(x, 1) > 0,
        steps(1) == 1,
{
    lemma_nearest_exists(x, 1);
    reveal_with_fuel(power, 2);
    assert(steps(1) == 1 && steps(0) == 0) by (nonlinear_arith)
        requires
            steps(1) == 1 * power(2, 0),
            steps(0) == 0 * power(2, 0),
            power(2, 0) == 1,
    ;
    assert(power(2, 1075) == 2 * power(2, 1074));
    lemma_power_positive(2, 1074);
    let t = power(2, 1075);
    assert(x * t >= 2) by (nonlinear_arith)
        requires
            x >= 1,
            t >= 2,
    ;
}

impl PartialEq for Number {
    fn eq(&self, other: &Number) -> (r: bool) {
        let n = self.digits.len();
        if n == 0 && other.digits.len() == 0 {
            return true;
        }
        self.negative == other.negative && self.point == other.point && same_digits(
            self.digits.as_slice(),
            other.digits.as_slice(),
        )
    }
}

impl vstd::std_specs::cmp::PartialEqSpecImpl for Number {
    open spec fn obeys_eq_spec() -> bool {
        true
    }

    open spec fn eq_spec(&self, other: &Number) -> bool {
        self@ == other@ || (self@.digits.len() == 0 && other@.digits.len() == 0)
    }
}

fn push_zeros(out: &mut String, n: usize)
    ensures
        final(out)@ == old(out)@ + zero_run(n as nat),
{
    let mut i: usize = 0;
    assert(out@ =~= old(out)@ + zero_run(0));
    while i < n
        invariant
            i <= n,
            out@ == old(out)@ + zero_run(i as nat),
        decreases n - i,
    {
        out.push('0');
        i += 1;
        assert(out@ =~= old(out)@ + zero_run(i as nat));
    }
}

// ---------------------------------------------------------------------
// Whole numbers as text
// ---------------------------------------------------------------------

/// Without a plus sign in front.
pub open spec fn unsigned(s: Seq<char>) -> Seq<char> {
    if s.len() > 0 && s[0] == '+' {
        s.skip(1)
    } else {
        s
    }
}

/// A whole number in decimal, with an optional plus sign, that fits in 64 bits.
pub open spec fn read_whole(s: Seq<char>) -> Option<u64> {
    let d = unsigned(s);
    if d.len() > 0 && all_digits(d) && digits_value(d, d.len() as int) <= u64::MAX {
        Some(digits_value(d, d.len() as int) as u64)
    } else {
        None
    }
}

pub fn parse_whole(s: &[char]) -> (r: Option<u64>)
    ensures
        r == read_whole(s@),
{
    let d = if s.len() > 0 && s[0] == '+' {
        crate::text::part_from(s, 1)
    } else {
        s
    };
    if d.len() == 0 {
        return None;
    }
    let mut v: u64 = 0;
    let mut i: usize = 0;
    while i < d.len()
        invariant
            i <= d.len(),
            d@.len() > 0,
            d@ == unsigned(s@),
            v == digits_value(d@, i as int),
            forall|k: int| 0 <= k < i ==> is_digit(#[trigger] d@[k]),
        decreases d.len() - i,
    {
        if !digit_char(d[i]) {
            assert(!is_digit(d@[i as int]));
            return None;
        }
        let x: u64 = (d[i] as u32 - 48) as u64;
        proof {
            lemma_digits_value_grows(d@, i + 1, d@.len() as int);
        }
        if v > (u64::MAX - x) / 10 {
            return None;
        }
        v = 10 * v + x;
        i += 1;
    }
    Some(v)
}

/// The digits of a number have its value.
pub proof fn lemma_dec_value(n: nat)
    ensures
        digits_value(dec(n), dec(n).len() as int) == n,
    decreases n,
{
    let d = dec(n);
    if n < 10 {
        assert(d[0] as int - 48 == n);
        assert(digits_value(d, 0) == 0);
        assert(digits_value(d, 1) == 10 * digits_value(d, 0) + (d[0] as int - 48) as nat);
    } else {
        lemma_dec_value(n / 10);
        let p = dec(n / 10);
        lemma_digits_value_prefix(p, d, p.len() as int);
        assert(d.last() as int - 48 == n % 10);
    }
}

/// Writing a whole number and reading it back gives the number.
pub proof fn law_whole_round_trip(n: u64)
    ensures
        read_whole(dec(n as nat)) == Some(n),
{
    lemma_dec_digits(n as nat);
    lemma_dec_value(n as nat);
    assert(is_digit(dec(n as nat)[0]));
}

proof fn lemma_trimmed(s: Seq<char>)
    ensures
        ({
            let z = trim_end_char(s, '0');
            z.len() <= s.len() && s == z + zero_run((s.len() - z.len()) as nat)
        }),
    decreases s.len(),
{
    let z = trim_end_char(s, '0');
    if s.len() > 0 && s.last() == '0' {
        lemma_trimmed(s.drop_last());
        assert(s =~= s.drop_last().push('0'));
    }
    assert(s =~= z + zero_run((s.len() - z.len()) as nat));
}

proof fn lemma_exact_whole(x: nat)
    requires
        0 < x <= EXACT_LIMIT,
    ensures
        steps(double_of(x, 1)) == x * power(2, 1074),
{
    let s = dec(x);
    let z = trim_end_char(s, '0');
    let m = NumberModel { negative: false, digits: z, point: s.len() as int };
    lemma_dec_digits(x);
    lemma_dec_head(x);
    lemma_dec_value(x);
    lemma_trim_end_digits(s);
    lemma_trim_value(s);
    if z.len() == 0 {
        let t = power(10, s.len());
        assert(0 * t == 0) by (nonlinear_arith);
    }
    lemma_padded_value(z, s.len() as int);
    lemma_whole_ok(m);
}

/// A whole number up to the limit comes back as it is, as text and as a whole
/// number.
pub proof fn law_whole_numbers_come_back(x: nat)
    requires
        x <= EXACT_LIMIT,
    ensures
        number_text(natural(x)) == dec(x),
        whole(natural(x)) == Some(x as u64),
        rounded(canonical(false, dec(x), dec(x).len() as int)) == Some(natural(x)),
{
    let s = dec(x);
    lemma_dec_digits(x);
    if x == 0 {
        lemma_zero_double();
        reveal_strlit("0");
        assert("0"@ =~= dec(0));
        assert(s.skip(1) =~= Seq::empty());
        assert(trim_start_char(s, '0') == trim_start_char(s.skip(1), '0'));
        assert(digits_value(Seq::empty(), 0) == 0);
    } else {
        let z = trim_end_char(s, '0');
        let m = NumberModel { negative: false, digits: z, point: s.len() as int };
        lemma_dec_head(x);
        lemma_dec_value(x);
        lemma_trim_end_digits(s);
        lemma_trim_value(s);
        lemma_trimmed(s);
        if z.len() == 0 {
            let t = power(10, s.len());
            assert(0 * t == 0) by (nonlinear_arith);
        }
        lemma_padded_value(z, s.len() as int);
        lemma_whole_ok(m);
        assert(number_text(m) =~= s);
    }
}

/// A number is taken as a whole number exactly where that is its value in
/// double precision.
pub proof fn law_whole_numbers_are_those_of_double_precision(k: nat, x: u64)
    requires
        k < TOO_LARGE,
    ensures
        whole(number(false, k)) == Some(x) <==> steps(k) == x * power(2, 1074) && x
            <= EXACT_LIMIT,
{
    let m = number(false, k);
    let t = power(2, 1074);
    lemma_number_ok(false, k);
    lemma_power_positive(2, 1074);
    assert(steps(0) == 0) by {
        assert(0 * power(2, 0) == 0) by (nonlinear_arith);
    }
    assert(x == 0 ==> x * t == 0) by (nonlinear_arith);
    assert(x > 0 ==> x * t > 0) by (nonlinear_arith)
        requires
            t > 0,
    ;
    if k > 0 {
        lemma_steps_grow(0, k);
    } else {
        assert(digits_value(Seq::empty(), 0) == 0);
    }
    if whole(m) == Some(x) && k > 0 {
        lemma_whole_ok(m);
    }
    if steps(k) == x * t && 0 < x <= EXACT_LIMIT {
        law_whole_numbers_come_back(x as nat);
        let j = double_of(x as nat, 1);
        lemma_exact_whole(x as nat);
        if j < k {
            lemma_steps_grow(j, k);
        } else if k < j {
            lemma_steps_grow(k, j);
        }
    }
}

} // verus!
