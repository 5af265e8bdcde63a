use vstd::arithmetic::div_mod::{lemma_div_by_self, lemma_div_multiples_vanish};
use vstd::prelude::*;

use crate::dice::Die;

verus! {

/// The largest `n` whose factorial fits in a `u64`: `21!` does not.
pub const MAX_FACTORIAL: u64 = 20;

/// `b` to the power `e`.
pub open spec fn pow(b: nat, e: nat) -> nat
    decreases e,
{
    if e == 0 {
        1
    } else {
        b * pow(b, (e - 1) as nat)
    }
}

/// `n!`.
pub open spec fn factorial_of(n: nat) -> nat
    decreases n,
{
    if n == 0 {
        1
    } else {
        n * factorial_of((n - 1) as nat)
    }
}

/// `n` choose `k`, written `n! / (k! (n - k)!)`, for `k <= n`.
pub open spec fn combinations_of(n: nat, k: nat) -> nat {
    factorial_of(n) / (factorial_of(k) * factorial_of((n - k) as nat))
}

/// Pascal's triangle: row `n`, entry `k`, and zero outside the row.
pub open spec fn pascal(n: nat, k: int) -> nat
    decreases n,
{
    if k < 0 || k > n {
        0
    } else if n == 0 {
        1
    } else {
        pascal((n - 1) as nat, k - 1) + pascal((n - 1) as nat, k)
    }
}

/// The outcomes of `n` dice in which exactly `k` show one given face.
pub open spec fn exact_outcomes(n: nat, k: int) -> nat {
    if 0 <= k <= n {
        combinations_of(n, k as nat) * pow(5, (n - k) as nat)
    } else {
        0
    }
}

/// The outcomes of `n` dice in which at least `j` show one given face:
/// `exact_outcomes(n, k)` added up over `k` from `j` to `n`.
pub open spec fn outcomes_from(n: nat, j: int) -> nat
    decreases n + 1 - j,
{
    if j > n {
        0
    } else {
        exact_outcomes(n, j) + outcomes_from(n, j + 1)
    }
}

/// An exact probability: `numerator` chances in `denominator`.
#[derive(Clone, Copy, PartialEq, Eq, Structural, Debug)]
pub struct Fraction {
    pub numerator: u64,
    pub denominator: u64,
}

proof fn lemma_factorial_positive(n: nat)
    ensures
        factorial_of(n) >= 1,
    decreases n,
{
    if n > 0 {
        lemma_factorial_positive((n - 1) as nat);
        assert(n * factorial_of((n - 1) as nat) >= 1) by (nonlinear_arith)
            requires
                n >= 1,
                factorial_of((n - 1) as nat) >= 1,
        ;
    }
}

proof fn lemma_factorial_grows(a: nat, b: nat)
    requires
        a <= b,
    ensures
        factorial_of(a) <= factorial_of(b),
    decreases b,
{
    if a < b {
        lemma_factorial_grows(a, (b - 1) as nat);
        lemma_factorial_positive((b - 1) as nat);
        let f = factorial_of((b - 1) as nat);
        assert(f <= b * f) by (nonlinear_arith)
            requires
                b >= 1,
                f >= 1,
        ;
    }
}

proof fn lemma_factorial_fits(n: nat)
    requires
        n <= MAX_FACTORIAL,
    ensures
        factorial_of(n) <= u64::MAX,
{
    assert(factorial_of(20) == 2432902008176640000) by {
        reveal_with_fuel(factorial_of, 21);
    }
    lemma_factorial_grows(n, 20);
}

/// `a! b!` is at most `(a + b)!`.
proof fn lemma_factorial_product(a: nat, b: nat)
    ensures
        factorial_of(a) * factorial_of(b) <= factorial_of(a + b),
    decreases b,
{
    if b > 0 {
        let b1 = (b - 1) as nat;
        lemma_factorial_product(a, b1);
        lemma_factorial_positive(a);
        lemma_factorial_positive(b1);
        let fa = factorial_of(a);
        let fb = factorial_of(b1);
        let fab = factorial_of(a + b1);
        assert(factorial_of(a + b) == (a + b) * fab);
        assert(factorial_of(b) == b * fb);
        assert(fa * (b * fb) <= (a + b) * fab) by (nonlinear_arith)
            requires
                fa * fb <= fab,
                fa >= 1,
                fb >= 1,
                b >= 1,
        {
            assert(fa * (b * fb) == b * (fa * fb));
            assert(b * (fa * fb) <= b * fab);
            assert(b * fab <= (a + b) * fab);
        }
    } else {
        assert(factorial_of(0) == 1);
        assert(a + b == a);
    }
}

/// Pascal's triangle holds `n! / (k! (n - k)!)`.
proof fn lemma_pascal_factorial(n: nat, k: nat)
    requires
        k <= n,
    ensures
        pascal(n, k as int) * factorial_of(k) * factorial_of((n - k) as nat) == factorial_of(n),
    decreases n,
{
    if n == 0 {
        assert(factorial_of(0) == 1);
        assert(pascal(0, 0) == 1);
    } else {
        let n1 = (n - 1) as nat;
        let f = factorial_of(n1);
        lemma_factorial_positive(n1);
        if k == 0 {
            lemma_pascal_factorial(n1, 0);
            assert(pascal(n1, 0) == 1) by (nonlinear_arith)
                requires
                    pascal(n1, 0) * 1 * f == f,
                    f >= 1,
            ;
            assert(pascal(n1, -1) == 0);
            assert(pascal(n, 0) == 1);
            assert(factorial_of(0) == 1);
            assert(pascal(n, 0) * factorial_of(0) * factorial_of(n) == factorial_of(n));
        } else if k == n {
            lemma_pascal_factorial(n1, n1);
            assert(pascal(n1, n1 as int) == 1) by (nonlinear_arith)
                requires
                    pascal(n1, n1 as int) * f * 1 == f,
                    f >= 1,
            ;
            assert(pascal(n1, n as int) == 0);
            assert(pascal(n, n as int) == 1);
            assert(factorial_of(0) == 1);
            assert(pascal(n, n as int) * factorial_of(n) * factorial_of(0) == factorial_of(n));
        } else {
            let k1 = (k - 1) as nat;
            let m1 = (n - k - 1) as nat;
            lemma_pascal_factorial(n1, k1);
            lemma_pascal_factorial(n1, k);
            let a = pascal(n1, k1 as int);
            let b = pascal(n1, k as int);
            let fk1 = factorial_of(k1);
            let fm1 = factorial_of(m1);
            assert(factorial_of(k) == k * fk1);
            assert(factorial_of((n - k) as nat) == (n - k) * fm1);
            assert(factorial_of((n1 - k1) as nat) == (n - k) * fm1);
            assert((a + b) * (k * fk1) * ((n - k) * fm1) == n * f) by (nonlinear_arith)
                requires
                    a * fk1 * ((n - k) * fm1) == f,
                    b * (k * fk1) * fm1 == f,
                    0 < k < n,
            ;
            assert(pascal(n, k as int) == a + b);
            assert(factorial_of(n) == n * f);
            assert(pascal(n, k as int) * factorial_of(k) * factorial_of((n - k) as nat) == factorial_of(n));
        }
    }
}

/// `n` choose `k` is the entry of Pascal's triangle.
proof fn lemma_combinations_pascal(n: nat, k: nat)
    requires
        k <= n,
    ensures
        combinations_of(n, k) == pascal(n, k as int),
{
    lemma_pascal_factorial(n, k);
    lemma_factorial_positive(k);
    lemma_factorial_positive((n - k) as nat);
    let d = factorial_of(k) * factorial_of((n - k) as nat);
    assert(d >= 1) by (nonlinear_arith)
        requires
            d == factorial_of(k) * factorial_of((n - k) as nat),
            factorial_of(k) >= 1,
            factorial_of((n - k) as nat) >= 1,
    ;
    assert(factorial_of(n) == d * pascal(n, k as int)) by (nonlinear_arith)
        requires
            pascal(n, k as int) * factorial_of(k) * factorial_of((n - k) as nat) == factorial_of(n),
            d == factorial_of(k) * factorial_of((n - k) as nat),
    ;
    lemma_div_multiples_vanish(pascal(n, k as int) as int, d as int);
}

/// One row of outcomes from the row before: a further die shows the face
/// or one of the five others.
proof fn lemma_outcomes_step(n: nat, j: int)
    requires
        n >= 1,
        0 <= j <= n + 1,
    ensures
        outcomes_from(n, j) == outcomes_from((n - 1) as nat, j - 1) + 5 * outcomes_from(
            (n - 1) as nat,
            j,
        ),
    decreases n + 1 - j,
{
    let n1 = (n - 1) as nat;
    if j <= n {
        lemma_outcomes_step(n, j + 1);
        lemma_combinations_pascal(n, j as nat);
        let e = pow(5, (n - j) as nat);
        if j >= 1 {
            lemma_combinations_pascal(n1, (j - 1) as nat);
            let k1 = (j - 1) as nat;
            assert(k1 as int == j - 1);
            assert((n1 - k1) as nat == (n - j) as nat);
            assert(exact_outcomes(n1, j - 1) == combinations_of(n1, k1) * pow(5, (n1 - k1) as nat));
            assert(combinations_of(n1, k1) == pascal(n1, j - 1));
            assert(exact_outcomes(n1, j - 1) == pascal(n1, j - 1) * e);
        } else {
            assert(pascal(n1, j - 1) == 0);
            assert(exact_outcomes(n1, j - 1) == pascal(n1, j - 1) * e);
        }
        if j <= n1 {
            lemma_combinations_pascal(n1, j as nat);
            let x = pow(5, (n1 - j) as nat);
            assert(e == 5 * x);
            let p = pascal(n1, j);
            assert(5 * (p * x) == p * (5 * x)) by (nonlinear_arith);
            assert(5 * exact_outcomes(n1, j) == pascal(n1, j) * e);
        } else {
            assert(pascal(n1, j) == 0);
            assert(5 * exact_outcomes(n1, j) == pascal(n1, j) * e);
        }
        assert(exact_outcomes(n, j) == exact_outcomes(n1, j - 1) + 5 * exact_outcomes(n1, j)) by (
        nonlinear_arith)
            requires
                exact_outcomes(n, j) == pascal(n, j) * e,
                pascal(n, j) == pascal(n1, j - 1) + pascal(n1, j),
                exact_outcomes(n1, j - 1) == pascal(n1, j - 1) * e,
                5 * exact_outcomes(n1, j) == pascal(n1, j) * e,
        {
        }
    }
}

/// All outcomes of `n` dice: `6^n`.
proof fn lemma_outcomes_total(n: nat)
    ensures
        outcomes_from(n, 0) == pow(6, n),
    decreases n,
{
    if n == 0 {
        assert(outcomes_from(0, 1) == 0);
        assert(exact_outcomes(0, 0) == 1) by {
            lemma_combinations_pascal(0, 0);
        }
    } else {
        lemma_outcomes_total((n - 1) as nat);
        lemma_outcomes_step(n, 0);
        assert(outcomes_from((n - 1) as nat, -1) == outcomes_from((n - 1) as nat, 0));
    }
}

/// Asking for more of the face leaves fewer outcomes.
proof fn lemma_outcomes_shrink(n: nat, j: int)
    requires
        0 <= j,
    ensures
        exact_outcomes(n, j) <= outcomes_from(n, j),
        outcomes_from(n, j) <= outcomes_from(n, 0),
    decreases j,
{
    if j > 0 {
        lemma_outcomes_shrink(n, j - 1);
    }
}

proof fn lemma_pow_base_grows(a: nat, b: nat, e: nat)
    requires
        a <= b,
    ensures
        pow(a, e) <= pow(b, e),
    decreases e,
{
    if e > 0 {
        lemma_pow_base_grows(a, b, (e - 1) as nat);
        lemma_pow_nonnegative(a, (e - 1) as nat);
        let x = pow(a, (e - 1) as nat);
        let y = pow(b, (e - 1) as nat);
        assert(a * x <= b * y) by (nonlinear_arith)
            requires
                a <= b,
                0 <= x <= y,
        ;
    }
}

proof fn lemma_pow_nonnegative(b: nat, e: nat)
    ensures
        pow(b, e) >= 0,
    decreases e,
{
    if e > 0 {
        lemma_pow_nonnegative(b, (e - 1) as nat);
        let x = pow(b, (e - 1) as nat);
        assert(b * x >= 0) by (nonlinear_arith)
            requires
                x >= 0,
        ;
    }
}

/// `6^n` fits in a `u64` for as many dice as factorials allow.
proof fn lemma_six_pow_fits(n: nat)
    requires
        n <= MAX_FACTORIAL,
    ensures
        pow(6, n) <= pow(6, 20),
        pow(6, 20) == 3656158440062976,
{
    assert(pow(6, 20) == 3656158440062976) by {
        reveal_with_fuel(pow, 21);
    }
    lemma_pow_exponent_grows(6, n, 20);
}

proof fn lemma_pow_exponent_grows(b: nat, e1: nat, e2: nat)
    requires
        b >= 1,
        e1 <= e2,
    ensures
        pow(b, e1) <= pow(b, e2),
    decreases e2,
{
    if e1 < e2 {
        lemma_pow_exponent_grows(b, e1, (e2 - 1) as nat);
        let x = pow(b, (e2 - 1) as nat);
        assert(x <= b * x) by (nonlinear_arith)
            requires
                b >= 1,
        ;
    }
}

/// `n` choose `n` and `n` choose `0` are both one.
pub proof fn lemma_combinations_edges(n: nat)
    ensures
        combinations_of(n, n) == 1,
        combinations_of(n, 0) == 1,
{
    lemma_factorial_positive(n);
    assert(factorial_of(0) == 1);
    assert((n - n) as nat == 0);
    assert(factorial_of(n) * factorial_of(0) == factorial_of(n));
    lemma_div_by_self(factorial_of(n) as int);
}

/// Calculate the factorial of a number.
pub fn factorial(number: u64) -> (r: u64)
    requires
        number <= MAX_FACTORIAL,
    ensures
        r == factorial_of(number as nat),
{
    let mut total: u64 = 1;
    let mut i: u64 = 0;
    while i < number
        invariant
            i <= number <= MAX_FACTORIAL,
            total == factorial_of(i as nat),
        decreases number - i,
    {
        i = i + 1;
        proof {
            lemma_factorial_fits(i as nat);
        }
        total = i * total;
    }
    total
}

/// Calculate the result of `n` choose `r`.
pub fn combinations(n: u64, r: u64) -> (c: u64)
    requires
        r <= n <= MAX_FACTORIAL,
    ensures
        c == combinations_of(n as nat, r as nat),
{
    proof {
        lemma_factorial_product(r as nat, (n - r) as nat);
        lemma_factorial_fits(n as nat);
        lemma_factorial_positive(r as nat);
        lemma_factorial_positive((n - r) as nat);
        assert(factorial_of(r as nat) * factorial_of((n - r) as nat) >= 1) by (nonlinear_arith)
            requires
                factorial_of(r as nat) >= 1,
                factorial_of((n - r) as nat) >= 1,
        ;
    }
    let below = factorial(r) * factorial(n - r);
    factorial(n) / below
}

/// `base` to the power `exp`.
fn power(base: u64, exp: u64) -> (r: u64)
    requires
        pow(base as nat, exp as nat) <= u64::MAX,
    ensures
        r == pow(base as nat, exp as nat),
{
    let mut acc: u64 = 1;
    let mut i: u64 = 0;
    while i < exp
        invariant
            i <= exp,
            pow(base as nat, exp as nat) <= u64::MAX,
            acc == pow(base as nat, i as nat),
        decreases exp - i,
    {
        proof {
            if base >= 1 {
                lemma_pow_exponent_grows(base as nat, (i + 1) as nat, exp as nat);
            } else {
                assert(pow(base as nat, (i + 1) as nat) == 0);
            }
        }
        acc = base * acc;
        i = i + 1;
    }
    acc
}

/// The chances of exactly `k` successes in `n` trials that each succeed
/// with probability `p`: `n` choose `k`, times `p^k`, times `(1 - p)^(n - k)`.
pub fn binomial(n: u64, k: u64, p: Fraction) -> (r: Fraction)
    requires
        k <= n <= MAX_FACTORIAL,
        1 <= p.denominator,
        p.numerator <= p.denominator,
        pow(p.denominator as nat, n as nat) <= u64::MAX,
        combinations_of(n as nat, k as nat) * pow(p.numerator as nat, k as nat) * pow(
            (p.denominator - p.numerator) as nat,
            (n - k) as nat,
        ) <= u64::MAX,
    ensures
        r.numerator == combinations_of(n as nat, k as nat) * pow(p.numerator as nat, k as nat)
            * pow((p.denominator - p.numerator) as nat, (n - k) as nat),
        r.denominator == pow(p.denominator as nat, n as nat),
{
    let den = p.denominator;
    let fail = den - p.numerator;
    proof {
        lemma_pow_base_grows(p.numerator as nat, den as nat, k as nat);
        lemma_pow_exponent_grows(den as nat, k as nat, n as nat);
        lemma_pow_base_grows(fail as nat, den as nat, (n - k) as nat);
        lemma_pow_exponent_grows(den as nat, (n - k) as nat, n as nat);
    }
    let hits = power(p.numerator, k);
    let misses = power(fail, n - k);
    let ways = combinations(n, k);
    let numerator = if hits == 0 || misses == 0 {
        assert(ways * hits * misses == 0) by (nonlinear_arith)
            requires
                hits == 0 || misses == 0,
        ;
        0
    } else {
        assert(ways * hits <= ways * hits * misses) by (nonlinear_arith)
            requires
                misses >= 1,
        ;
        ways * hits * misses
    };
    Fraction { numerator, denominator: power(den, n) }
}

/// The chances of rolling at least as many of one given face as `desired`
/// holds, with `ndice` dice: the outcomes with that many or more out of all
/// `6^ndice`, none when more are desired than there are dice. Every entry
/// of `desired` counts as a match of one face, with chances of one in six.
pub fn chances(desired: &[Die], ndice: u8) -> (r: Fraction)
    requires
        ndice <= MAX_FACTORIAL,
    ensures
        r.denominator == pow(6, ndice as nat),
        r.numerator == outcomes_from(ndice as nat, desired@.len() as int),
        desired@.len() > ndice ==> r.numerator == 0,
        r.numerator <= r.denominator,
{
    let n = ndice as u64;
    proof {
        lemma_six_pow_fits(n as nat);
        lemma_outcomes_total(n as nat);
        lemma_outcomes_shrink(n as nat, desired@.len() as int);
    }
    let total = power(6, n);
    if desired.len() > ndice as usize {
        return Fraction { numerator: 0, denominator: total };
    }
    let needed = desired.len() as u64;
    let mut favourable: u64 = 0;
    let mut k: u64 = needed;
    while k <= n
        invariant
            needed <= k <= n + 1,
            n <= MAX_FACTORIAL,
            pow(6, n as nat) <= u64::MAX,
            outcomes_from(n as nat, 0) == pow(6, n as nat),
            favourable + outcomes_from(n as nat, k as int) == outcomes_from(n as nat, needed as int),
            outcomes_from(n as nat, needed as int) <= outcomes_from(n as nat, 0),
        decreases n + 1 - k,
    {
        proof {
            lemma_outcomes_shrink(n as nat, k as int);
            lemma_one_pow(k as nat);
            assert((6 - 1) as nat == 5);
        }
        let one_face = Fraction { numerator: 1, denominator: 6 };
        let term = binomial(n, k, one_face);
        assert(term.numerator == exact_outcomes(n as nat, k as int));
        favourable = favourable + term.numerator;
        k = k + 1;
    }
    Fraction { numerator: favourable, denominator: total }
}

proof fn lemma_one_pow(e: nat)
    ensures
        pow(1, e) == 1,
    decreases e,
{
    if e > 0 {
        lemma_one_pow((e - 1) as nat);
    }
}

} // verus!
