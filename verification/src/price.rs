//! Decimal amounts and prices, compared without rounding.

use vstd::arithmetic::power::pow;
use vstd::prelude::*;

verus! {

/// Ten to the power `n`.
pub open spec fn pow10(n: nat) -> nat
    decreases n,
{
    if n == 0 {
        1
    } else {
        10 * pow10((n - 1) as nat)
    }
}

/// An unsigned decimal number: `units` with the last `decimals` digits behind
/// the point.
#[derive(Debug, Clone, Copy, PartialEq, Eq, Structural)]
pub struct Amount {
    pub units: u64,
    pub decimals: u8,
}

/// An amount of SOL paid for an amount of tokens.
#[derive(Debug, Clone, Copy, PartialEq, Eq, Structural)]
pub struct Price {
    pub sol: Amount,
    pub tokens: Amount,
}

impl Price {
    /// A price is for some tokens.
    pub open spec fn valid(self) -> bool {
        self.tokens.units > 0
    }

    /// The price is [`Self::numerator`] over [`Self::denominator`].
    pub open spec fn numerator(self) -> nat {
        self.sol.units as nat * pow10(self.tokens.decimals as nat)
    }

    pub open spec fn denominator(self) -> nat {
        self.tokens.units as nat * pow10(self.sol.decimals as nat)
    }

    /// Whether this price is below another.
    pub open spec fn below(self, other: Price) -> bool {
        self.numerator() * other.denominator() < other.numerator() * self.denominator()
    }
}

pub proof fn lemma_pow10_positive(n: nat)
    ensures
        pow10(n) > 0,
    decreases n,
{
    if n > 0 {
        lemma_pow10_positive((n - 1) as nat);
    }
}

pub proof fn lemma_pow10_adds(n: nat, m: nat)
    ensures
        pow10(n + m) == pow10(n) * pow10(m),
    decreases m,
{
    if m > 0 {
        lemma_pow10_adds(n, (m - 1) as nat);
        assert(10 * (pow10(n) * pow10((m - 1) as nat)) == pow10(n) * (10 * pow10((m - 1) as nat)))
            by (nonlinear_arith);
    } else {
        assert(pow10(n) * 1 == pow10(n));
    }
}

/// `a` with `n` zeros appended, where that fits.
fn append_zeros(a: u128, n: u16) -> (product: Option<u128>)
    ensures
        match product {
            Some(p) => p == a as nat * pow10(n as nat),
            None => a as nat * pow10(n as nat) > u128::MAX,
        },
{
    if a == 0 {
        assert(0 * pow10(n as nat) == 0) by (nonlinear_arith);
        return Some(0);
    }
    let mut product: u128 = a;
    let mut zeros: u16 = n;
    while zeros > 0
        invariant
            product > 0,
            product as nat * pow10(zeros as nat) == a as nat * pow10(n as nat),
        decreases zeros,
    {
        proof {
            let rest = pow10((zeros - 1) as nat);
            lemma_pow10_positive((zeros - 1) as nat);
            assert(product * (10 * rest) == (10 * product) * rest) by (nonlinear_arith);
            assert((10 * product) * rest >= 10 * product) by (nonlinear_arith)
                requires
                    rest >= 1,
                    product >= 0,
            ;
        }
        if product > u128::MAX / 10 {
            return None;
        }
        product = product * 10;
        zeros -= 1;
    }
    assert(product * pow10(0) == product) by (nonlinear_arith)
        requires
            pow10(0) == 1,
    ;
    Some(product)
}

proof fn lemma_cancel_zeros(a: nat, n: nat, b: nat, m: nat)
    requires
        n <= m,
    ensures
        a * pow10(n) < b * pow10(m) <==> a < b * pow10((m - n) as nat),
        b * pow10(m) < a * pow10(n) <==> b * pow10((m - n) as nat) < a,
{
    let p = pow10(n);
    let q = pow10((m - n) as nat);
    lemma_pow10_adds((m - n) as nat, n);
    lemma_pow10_positive(n);
    assert(b * (q * p) == (b * q) * p) by (nonlinear_arith);
    let c = b * q;
    assert(a * p < c * p <==> a < c) by (nonlinear_arith)
        requires
            p > 0,
    ;
    assert(c * p < a * p <==> c < a) by (nonlinear_arith)
        requires
            p > 0,
    ;
}

/// Whether `a` with `n` zeros appended is below `b` with `m` zeros appended.
pub fn scaled_is_below(a: u128, n: u16, b: u128, m: u16) -> (below: bool)
    ensures
        below == (a as nat * pow10(n as nat) < b as nat * pow10(m as nat)),
{
    if n >= m {
        proof {
            lemma_cancel_zeros(b as nat, m as nat, a as nat, n as nat);
        }
        match append_zeros(a, n - m) {
            Some(left) => left < b,
            None => false,
        }
    } else {
        proof {
            lemma_cancel_zeros(a as nat, n as nat, b as nat, m as nat);
        }
        match append_zeros(b, m - n) {
            Some(right) => a < right,
            None => true,
        }
    }
}

/// Whether `p` is below `q`.
pub fn price_is_below(p: &Price, q: &Price) -> (below: bool)
    ensures
        below == p.below(*q),
{
    assert(p.sol.units * q.tokens.units <= u128::MAX && q.sol.units * p.tokens.units <= u128::MAX)
        by (nonlinear_arith)
        requires
            p.sol.units <= u64::MAX,
            q.tokens.units <= u64::MAX,
            q.sol.units <= u64::MAX,
            p.tokens.units <= u64::MAX,
    ;
    let left: u128 = p.sol.units as u128 * q.tokens.units as u128;
    let right: u128 = q.sol.units as u128 * p.tokens.units as u128;
    let left_zeros: u16 = p.tokens.decimals as u16 + q.sol.decimals as u16;
    let right_zeros: u16 = q.tokens.decimals as u16 + p.sol.decimals as u16;
    proof {
        lemma_cross_product(*p, *q);
        lemma_cross_product(*q, *p);
    }
    scaled_is_below(left, left_zeros, right, right_zeros)
}

proof fn lemma_cross_product(p: Price, q: Price)
    ensures
        p.numerator() * q.denominator() == (p.sol.units as nat * q.tokens.units as nat) * pow10(
            p.tokens.decimals as nat + q.sol.decimals as nat,
        ),
{
    let a = p.sol.units as nat;
    let b = q.tokens.units as nat;
    let x = pow10(p.tokens.decimals as nat);
    let y = pow10(q.sol.decimals as nat);
    lemma_pow10_adds(p.tokens.decimals as nat, q.sol.decimals as nat);
    assert((a * x) * (b * y) == (a * b) * (x * y)) by (nonlinear_arith);
}

/// No price is below itself, and below is transitive among valid prices.
pub proof fn law_prices_are_ordered(p: Price, q: Price, r: Price)
    requires
        p.valid(),
        q.valid(),
        r.valid(),
    ensures
        !p.below(p),
        p.below(q) ==> !q.below(p),
        p.below(q) && q.below(r) ==> p.below(r),
        p.below(r) ==> p.below(q) || q.below(r),
{
    lemma_denominator(p);
    lemma_denominator(q);
    lemma_denominator(r);
    let (a, b) = (p.numerator() as int, p.denominator() as int);
    let (c, d) = (q.numerator() as int, q.denominator() as int);
    let (e, f) = (r.numerator() as int, r.denominator() as int);
    if a * d < c * b && c * f < e * d {
        lemma_chain(a, b, c, d, e, f);
    }
    if a * f < e * b && !(a * d < c * b) && !(c * f < e * d) {
        // r <= q <= p
        lemma_chain_weak(e, f, c, d, a, b);
    }
}

proof fn lemma_denominator(p: Price)
    requires
        p.valid(),
    ensures
        p.denominator() > 0,
{
    lemma_pow10_positive(p.sol.decimals as nat);
    assert(p.tokens.units as nat * pow10(p.sol.decimals as nat) > 0) by (nonlinear_arith)
        requires
            p.tokens.units > 0,
            pow10(p.sol.decimals as nat) > 0,
    ;
}

proof fn lemma_chain(a: int, b: int, c: int, d: int, e: int, f: int)
    requires
        b > 0,
        d > 0,
        f > 0,
        a * d < c * b,
        c * f < e * d,
    ensures
        a * f < e * b,
{
    assert((a * d) * f < (c * b) * f) by (nonlinear_arith)
        requires
            a * d < c * b,
            f > 0,
    ;
    assert((c * f) * b < (e * d) * b) by (nonlinear_arith)
        requires
            c * f < e * d,
            b > 0,
    ;
    assert((c * b) * f == (c * f) * b) by (nonlinear_arith);
    assert((a * d) * f == (a * f) * d) by (nonlinear_arith);
    assert((e * d) * b == (e * b) * d) by (nonlinear_arith);
    let x = a * f;
    let y = e * b;
    assert(x < y) by (nonlinear_arith)
        requires
            x * d < y * d,
            d > 0,
    ;
}

proof fn lemma_chain_weak(a: int, b: int, c: int, d: int, e: int, f: int)
    requires
        b > 0,
        d > 0,
        f > 0,
        a * d <= c * b,
        c * f <= e * d,
    ensures
        a * f <= e * b,
{
    assert((a * d) * f <= (c * b) * f) by (nonlinear_arith)
        requires
            a * d <= c * b,
            f > 0,
    ;
    assert((c * f) * b <= (e * d) * b) by (nonlinear_arith)
        requires
            c * f <= e * d,
            b > 0,
    ;
    assert((c * b) * f == (c * f) * b) by (nonlinear_arith);
    assert((a * d) * f == (a * f) * d) by (nonlinear_arith);
    assert((e * d) * b == (e * b) * d) by (nonlinear_arith);
    let x = a * f;
    let y = e * b;
    assert(x <= y) by (nonlinear_arith)
        requires
            x * d <= y * d,
            d > 0,
    ;
}

/// [`pow10`] is a power of ten.
pub proof fn law_pow10_is_a_power(n: nat)
    ensures
        pow10(n) == pow(10, n),
    decreases n,
{
    reveal(pow);
    if n > 0 {
        law_pow10_is_a_power((n - 1) as nat);
    }
}

/// A price is SOL over tokens, each with its decimals: one price is below
/// another where it is so with all four amounts multiplied out.
pub proof fn law_price_is_sol_over_tokens(p: Price, q: Price)
    ensures
        p.below(q) <==> p.sol.units * pow(10, p.tokens.decimals as nat) * (q.tokens.units * pow(
            10,
            q.sol.decimals as nat,
        )) < q.sol.units * pow(10, q.tokens.decimals as nat) * (p.tokens.units * pow(
            10,
            p.sol.decimals as nat,
        )),
{
    law_pow10_is_a_power(p.tokens.decimals as nat);
    law_pow10_is_a_power(q.tokens.decimals as nat);
    law_pow10_is_a_power(p.sol.decimals as nat);
    law_pow10_is_a_power(q.sol.decimals as nat);
}

/// More SOL for the same tokens is a higher price, and so is the same SOL for
/// fewer tokens.
pub proof fn law_more_sol_is_a_higher_price(sol: Amount, more: u64, tokens: Amount, fewer: u64)
    requires
        sol.units < more,
        0 < fewer < tokens.units,
    ensures
        (Price { sol, tokens }).below(Price { sol: Amount { units: more, ..sol }, tokens }),
        sol.units > 0 ==> (Price { sol, tokens }).below(
            Price { sol, tokens: Amount { units: fewer, ..tokens } },
        ),
{
    let a = pow10(tokens.decimals as nat);
    let b = pow10(sol.decimals as nat);
    lemma_pow10_positive(tokens.decimals as nat);
    lemma_pow10_positive(sol.decimals as nat);
    let (x, y, t, f) = (sol.units as nat, more as nat, tokens.units as nat, fewer as nat);
    assert((x * a) * (t * b) < (y * a) * (t * b)) by (nonlinear_arith)
        requires
            x < y,
            a > 0,
            b > 0,
            t > 0,
    ;
    if x > 0 {
        assert((x * a) * (f * b) < (x * a) * (t * b)) by (nonlinear_arith)
            requires
                x > 0,
                a > 0,
                b > 0,
                0 < f < t,
        ;
    }
}

} // verus!
