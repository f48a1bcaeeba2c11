//! Integer power and binomial coefficients, with the identities that the
//! drawing probabilities rest on.
use vstd::prelude::*;

verus! {

/// `b` to the power `e`.
pub open spec fn power(b: nat, e: nat) -> nat
    decreases e,
{
    if e == 0 {
        1
    } else {
        b * power(b, (e - 1) as nat)
    }
}

/// `a - b`, or zero where `b` is larger.
pub open spec fn minus(a: nat, b: nat) -> nat {
    if a >= b {
        (a - b) as nat
    } else {
        0
    }
}

/// The number of ways of choosing `k` elements out of `n` (Pascal's rule).
pub open spec fn binom(n: nat, k: nat) -> nat
    decreases n,
{
    if k == 0 {
        1
    } else if n == 0 {
        0
    } else {
        binom((n - 1) as nat, (k - 1) as nat) + binom((n - 1) as nat, k)
    }
}

proof fn lemma_power_double(b: nat, e: nat)
    ensures
        power(b, 2 * e) == power(b * b, e),
    decreases e,
{
    if e > 0 {
        lemma_power_double(b, (e - 1) as nat);
        assert(power(b, 2 * e) == b * power(b, (2 * e - 1) as nat));
        assert(power(b, (2 * e - 1) as nat) == b * power(b, (2 * e - 2) as nat));
        assert(power(b * b, e) == (b * b) * power(b * b, (e - 1) as nat));
        assert(b * (b * power(b, (2 * e - 2) as nat)) == (b * b) * power(b, (2 * e - 2) as nat))
            by (nonlinear_arith);
    }
}

proof fn lemma_power_grows(b: nat, e1: nat, e2: nat)
    requires
        b >= 1,
        e1 <= e2,
    ensures
        1 <= power(b, e1) <= power(b, e2),
    decreases e2,
{
    if e2 > e1 {
        lemma_power_grows(b, e1, (e2 - 1) as nat);
        let p = power(b, (e2 - 1) as nat);
        assert(p <= b * p) by (nonlinear_arith)
            requires
                b >= 1,
                p >= 1,
        ;
    } else if e2 > 0 {
        lemma_power_grows(b, 0, (e2 - 1) as nat);
        let p = power(b, (e2 - 1) as nat);
        assert(1 <= b * p) by (nonlinear_arith)
            requires
                b >= 1,
                p >= 1,
        ;
    }
}

/// `base` to the power `exp`, by repeated squaring.
pub fn pow(base: usize, exp: usize) -> (r: usize)
    requires
        power(base as nat, exp as nat) <= usize::MAX,
    ensures
        r == power(base as nat, exp as nat),
{
    let ghost b0 = base as nat;
    let ghost e0 = exp as nat;
    let mut b = base;
    let mut e = exp;
    let mut acc: usize = 1;
    if e == 0 {
        return acc;
    }
    loop
        invariant
            e >= 1,
            acc * power(b as nat, e as nat) == power(b0, e0),
            power(b0, e0) <= usize::MAX,
            b0 == base as nat,
            e0 == exp as nat,
            b0 == 0 ==> b == 0,
            b0 > 0 ==> acc >= 1 && b >= 1,
        decreases e,
    {
        let ghost total = power(b0, e0);
        let ghost e1 = e as nat;
        let ghost half = e1 / 2;
        if e % 2 == 1 {
            proof {
                let p = power(b as nat, e1);
                let q = power(b as nat, (e1 - 1) as nat);
                assert(p == b * q);
                assert(acc * p == (acc * b) * q) by (nonlinear_arith)
                    requires
                        p == b * q,
                ;
                if b0 > 0 {
                    lemma_power_grows(b as nat, 0, (e1 - 1) as nat);
                    assert(acc * b <= (acc * b) * q) by (nonlinear_arith)
                        requires
                            q >= 1,
                    ;
                } else {
                    assert(acc * b == 0) by (nonlinear_arith)
                        requires
                            b == 0,
                    ;
                }
                assert((e1 - 1) as nat == 2 * half);
            }
            let ghost acc0 = acc;
            acc = acc * b;
            proof {
                if b0 > 0 {
                    assert(acc >= 1) by (nonlinear_arith)
                        requires
                            acc == acc0 * b,
                            acc0 >= 1,
                            b >= 1,
                    ;
                }
            }
        } else {
            assert(e1 == 2 * half);
        }
        proof {
            assert(acc * power(b as nat, 2 * half) == total);
            lemma_power_double(b as nat, half);
            assert(acc * power((b * b) as nat, half) == total);
        }
        e = e / 2;
        assert(e == half);
        if e == 0 {
            proof {
                let p = power((b * b) as nat, half);
                assert(p == 1);
                assert(acc == total) by (nonlinear_arith)
                    requires
                        acc * p == total,
                        p == 1,
                ;
            }
            return acc;
        }
        proof {
            let bb = (b * b) as nat;
            if b0 > 0 {
                assert(bb >= 1) by (nonlinear_arith)
                    requires
                        b >= 1,
                        bb == b * b,
                ;
                lemma_power_grows(bb, 1, half);
                assert(power(bb, 1) == bb * power(bb, 0));
                assert(power(bb, 1) == bb) by (nonlinear_arith)
                    requires
                        power(bb, 1) == bb * power(bb, 0),
                        power(bb, 0) == 1,
                ;
                let q = power(bb, half);
                assert(bb <= acc * q) by (nonlinear_arith)
                    requires
                        acc >= 1,
                        bb <= q,
                ;
            } else {
                assert(bb == 0) by (nonlinear_arith)
                    requires
                        b == 0,
                        bb == b * b,
                ;
            }
        }
        let ghost base0 = b;
        b = b * b;
        proof {
            if b0 > 0 {
                assert(b >= 1) by (nonlinear_arith)
                    requires
                        b == base0 * base0,
                        base0 >= 1,
                ;
            }
        }
    }
}

/// No way to choose more elements than there are.
pub proof fn lemma_binom_above(n: nat, k: nat)
    requires
        k > n,
    ensures
        binom(n, k) == 0,
    decreases n,
{
    if n > 0 {
        lemma_binom_above((n - 1) as nat, (k - 1) as nat);
        lemma_binom_above((n - 1) as nat, k);
    }
}

/// One way to choose all the elements.
pub proof fn lemma_binom_all(n: nat)
    ensures
        binom(n, n) == 1,
    decreases n,
{
    if n > 0 {
        lemma_binom_all((n - 1) as nat);
        lemma_binom_above((n - 1) as nat, n);
    }
}

/// Absorption: `k * C(n, k) == n * C(n - 1, k - 1)`.
proof fn lemma_binom_absorb(n: nat, k: nat)
    requires
        n >= 1,
        k >= 1,
    ensures
        k * binom(n, k) == n * binom((n - 1) as nat, (k - 1) as nat),
    decreases n,
{
    let n1 = (n - 1) as nat;
    let k1 = (k - 1) as nat;
    if n == 1 {
        assert(binom(n, k) == binom(0, k1) + binom(0, k));
        assert(binom(0, k) == 0);
        if k > 1 {
            assert(binom(0, k1) == 0);
            assert(k * binom(n, k) == 0 && n * binom(0, k1) == 0) by (nonlinear_arith)
                requires
                    binom(n, k) == 0,
                    binom(0, k1) == 0,
            ;
        } else {
            assert(binom(0, 0) == 1);
        }
    } else {
        let n2 = (n - 2) as nat;
        assert(binom(n, k) == binom(n1, k1) + binom(n1, k));
        lemma_binom_absorb(n1, k);
        assert(k * binom(n1, k) == n1 * binom(n2, k1));
        if k == 1 {
            assert(binom(n2, 0) == 1);
            assert(binom(n1, 0) == 1);
            assert(k * binom(n, k) == n * binom(n1, k1)) by (nonlinear_arith)
                requires
                    binom(n, k) == binom(n1, k1) + binom(n1, k),
                    k == 1,
                    k * binom(n1, k) == n1 * binom(n2, k1),
                    k1 == 0,
                    binom(n2, 0) == 1,
                    binom(n1, 0) == 1,
                    n1 + 1 == n,
            ;
        } else {
            let k2 = (k - 2) as nat;
            lemma_binom_absorb(n1, k1);
            assert(k1 * binom(n1, k1) == n1 * binom(n2, k2));
            assert(binom(n1, k1) == binom(n2, k2) + binom(n2, k1));
            let a = binom(n1, k1);
            let b = binom(n1, k);
            let c = binom(n2, k2);
            let d = binom(n2, k1);
            assert(k * (a + b) == n * a) by (nonlinear_arith)
                requires
                    k * b == n1 * d,
                    k1 * a == n1 * c,
                    a == c + d,
                    k1 + 1 == k,
                    n1 + 1 == n,
            ;
        }
    }
}

/// `(n - k) * C(n, k) == n * C(n - 1, k)`.
proof fn lemma_binom_absorb_rest(n: nat, k: nat)
    requires
        n >= 1,
        k <= n,
    ensures
        (n - k) * binom(n, k) == n * binom((n - 1) as nat, k),
{
    let n1 = (n - 1) as nat;
    if k == 0 {
        assert(binom(n, 0) == 1 && binom(n1, 0) == 1);
    } else {
        let k1 = (k - 1) as nat;
        lemma_binom_absorb(n, k);
        assert(binom(n, k) == binom(n1, k1) + binom(n1, k));
        let c = binom(n, k);
        let a = binom(n1, k1);
        let b = binom(n1, k);
        assert((n - k) * c == n * b) by (nonlinear_arith)
            requires
                k * c == n * a,
                c == a + b,
        ;
    }
}

/// The ratio of two neighbouring coefficients of one row.
pub proof fn lemma_binom_step(n: nat, j: nat)
    requires
        j < n,
    ensures
        binom(n, j + 1) * (j + 1) == binom(n, j) * (n - j),
{
    lemma_binom_absorb(n, j + 1);
    lemma_binom_absorb_rest(n, j);
    assert(((j + 1) - 1) as nat == j);
    let x = binom(n, j + 1);
    let y = binom(n, j);
    assert(x * (j + 1) == (j + 1) * x && y * (n - j) == (n - j) * y) by (nonlinear_arith);
}

/// A row grows up to its middle.
pub proof fn lemma_binom_grows(n: nat, j: nat, k: nat)
    requires
        j <= k,
        2 * k <= n,
    ensures
        binom(n, j) <= binom(n, k),
    decreases k - j,
{
    if j < k {
        lemma_binom_grows(n, j + 1, k);
        lemma_binom_step(n, j);
        let x = binom(n, j + 1);
        let y = binom(n, j);
        assert(y <= x) by (nonlinear_arith)
            requires
                x * (j + 1) == y * (n - j),
                j + 1 <= n - j,
        ;
    }
}

/// Choosing `k` elements is choosing the `n - k` that stay.
pub proof fn lemma_binom_symmetric(n: nat, k: nat)
    requires
        k <= n,
    ensures
        binom(n, k) == binom(n, (n - k) as nat),
    decreases n,
{
    if k == 0 {
        lemma_binom_all(n);
    } else if k == n {
        lemma_binom_all(n);
    } else {
        let n1 = (n - 1) as nat;
        lemma_binom_symmetric(n1, (k - 1) as nat);
        lemma_binom_symmetric(n1, k);
        assert(binom(n, (n - k) as nat) == binom(n1, (n - k - 1) as nat) + binom(n1, (n - k) as nat));
    }
}

/// `C(n, k) == C(n, n - k)` for `k <= n`, `C(n, k) == 0` for `k > n`, and
/// `C(n, 0) == C(n, n) == 1`.
pub proof fn lemma_choose_laws(n: nat, k: nat)
    ensures
        k <= n ==> binom(n, k) == binom(n, (n - k) as nat),
        k > n ==> binom(n, k) == 0,
        binom(n, 0) == 1,
        binom(n, n) == 1,
{
    if k <= n {
        lemma_binom_symmetric(n, k);
    } else {
        lemma_binom_above(n, k);
    }
    lemma_binom_all(n);
}

/// `C(n, k)`, the number of ways of choosing `k` elements out of `n`.
pub fn ch(n: usize, k: usize) -> (r: usize)
    requires
        binom(n as nat, k as nat) <= usize::MAX,
    ensures
        r == binom(n as nat, k as nat),
{
    if k > n {
        proof {
            lemma_binom_above(n as nat, k as nat);
        }
        0
    } else if k == 0 || k == n {
        proof {
            lemma_binom_all(n as nat);
        }
        1
    } else {
        let m: usize = if k > n - k { n - k } else { k };
        proof {
            lemma_binom_symmetric(n as nat, k as nat);
        }
        let mut c: u128 = 1;
        let mut j: usize = 0;
        while j < m
            invariant
                j <= m,
                2 * m <= n,
                binom(n as nat, m as nat) == binom(n as nat, k as nat),
                binom(n as nat, k as nat) <= usize::MAX,
                c == binom(n as nat, j as nat),
            decreases m - j,
        {
            proof {
                lemma_binom_grows(n as nat, j as nat, m as nat);
                lemma_binom_step(n as nat, j as nat);
                vstd::arithmetic::mul::lemma_mul_upper_bound(
                    c as int,
                    usize::MAX as int,
                    (n - j) as int,
                    usize::MAX as int,
                );
                assert(usize::MAX * usize::MAX <= u128::MAX);
                let x = binom(n as nat, (j + 1) as nat);
                vstd::arithmetic::div_mod::lemma_div_multiples_vanish(x as int, (j + 1) as int);
                assert((j + 1) * x == c * (n - j)) by (nonlinear_arith)
                    requires
                        x * (j + 1) == c * (n - j),
                ;
            }
            c = c * ((n - j) as u128) / ((j + 1) as u128);
            j = j + 1;
        }
        c as usize
    }
}

/// `sum(j < i) C(a, j) * C(b, d - j)`: the ways of drawing `d` cards out of
/// `a + b` with fewer than `i` of them among the first `a`.
pub open spec fn vandermonde_sum(a: nat, b: nat, d: nat, i: nat) -> nat
    decreases i,
{
    if i == 0 {
        0
    } else {
        vandermonde_sum(a, b, d, (i - 1) as nat) + binom(a, (i - 1) as nat) * binom(
            b,
            (d - (i - 1)) as nat,
        )
    }
}

proof fn lemma_vandermonde_empty(b: nat, d: nat, i: nat)
    requires
        1 <= i <= d + 1,
    ensures
        vandermonde_sum(0, b, d, i) == binom(b, d),
    decreases i,
{
    if i == 1 {
        assert(binom(0, 0) == 1);
        assert(vandermonde_sum(0, b, d, 0) == 0);
        assert(1 * binom(b, d) == binom(b, d));
    } else {
        lemma_vandermonde_empty(b, d, (i - 1) as nat);
        assert(binom(0, (i - 1) as nat) == 0);
        assert(0 * binom(b, (d - (i - 1)) as nat) == 0);
    }
}

proof fn lemma_vandermonde_split(a: nat, b: nat, d: nat, i: nat)
    requires
        d >= 1,
        1 <= i <= d + 1,
    ensures
        vandermonde_sum(a + 1, b, d, i) == vandermonde_sum(a, b, d, i) + vandermonde_sum(
            a,
            b,
            (d - 1) as nat,
            (i - 1) as nat,
        ),
    decreases i,
{
    if i == 1 {
        assert(binom(a + 1, 0) == 1 && binom(a, 0) == 1);
        assert(vandermonde_sum(a, b, (d - 1) as nat, 0) == 0);
        assert(vandermonde_sum(a + 1, b, d, 1) == vandermonde_sum(a + 1, b, d, 0) + binom(a + 1, 0)
            * binom(b, d));
        assert(vandermonde_sum(a, b, d, 1) == vandermonde_sum(a, b, d, 0) + binom(a, 0) * binom(
            b,
            d,
        ));
        assert(vandermonde_sum(a + 1, b, d, 0) == 0 && vandermonde_sum(a, b, d, 0) == 0);
    } else {
        let j = (i - 1) as nat;
        lemma_vandermonde_split(a, b, d, j);
        assert(binom(a + 1, j) == binom(a, (j - 1) as nat) + binom(a, j));
        assert(((d - 1) as nat - (j - 1)) as nat == (d - j) as nat);
        let x = binom(a, (j - 1) as nat);
        let y = binom(a, j);
        let z = binom(b, (d - j) as nat);
        assert((x + y) * z == y * z + x * z) by (nonlinear_arith);
        assert(vandermonde_sum(a + 1, b, d, i) == vandermonde_sum(a + 1, b, d, j) + (x + y) * z);
        assert(vandermonde_sum(a, b, d, i) == vandermonde_sum(a, b, d, j) + y * z);
        assert(vandermonde_sum(a, b, (d - 1) as nat, j) == vandermonde_sum(
            a,
            b,
            (d - 1) as nat,
            (j - 1) as nat,
        ) + x * z);
    }
}

/// Vandermonde's identity: `sum(j <= d) C(a, j) * C(b, d - j) == C(a + b, d)`.
/// Divided by `C(a + b, d)`, it says that the probabilities of drawing
/// exactly `j` cards of the first kind, for every `j`, add up to one.
pub proof fn lemma_vandermonde(a: nat, b: nat, d: nat)
    ensures
        vandermonde_sum(a, b, d, d + 1) == binom(a + b, d),
    decreases a,
{
    if a == 0 {
        lemma_vandermonde_empty(b, d, d + 1);
        assert(a + b == b);
    } else if d == 0 {
        let x = binom(a, 0);
        let y = binom(b, 0);
        assert(x == 1 && y == 1 && binom(a + b, 0) == 1);
        assert(vandermonde_sum(a, b, 0, 0) == 0);
        assert(vandermonde_sum(a, b, 0, 1) == vandermonde_sum(a, b, 0, 0) + x * y);
        assert(x * y == 1) by (nonlinear_arith)
            requires
                x == 1,
                y == 1,
        ;
    } else {
        let a1 = (a - 1) as nat;
        lemma_vandermonde_split(a1, b, d, d + 1);
        lemma_vandermonde(a1, b, d);
        lemma_vandermonde(a1, b, (d - 1) as nat);
        assert(a1 + 1 == a);
        let n1 = (a + b - 1) as nat;
        assert(n1 == a1 + b);
        let s1 = vandermonde_sum(a1, b, d, d + 1);
        let s2 = vandermonde_sum(a1, b, (d - 1) as nat, d);
        assert(vandermonde_sum(a, b, d, d + 1) == s1 + s2);
        assert(s1 == binom(n1, d));
        assert(s2 == binom(n1, (d - 1) as nat));
        assert(binom(a + b, d) == binom(n1, (d - 1) as nat) + binom(n1, d));
    }
}

/// There is a way to choose at most all the elements.
pub proof fn lemma_binom_positive(n: nat, k: nat)
    requires
        k <= n,
    ensures
        binom(n, k) >= 1,
    decreases n,
{
    if k > 0 {
        lemma_binom_positive((n - 1) as nat, (k - 1) as nat);
    }
}

/// The partial sums of Vandermonde's identity grow with their bound.
pub proof fn lemma_vandermonde_sum_grows(a: nat, b: nat, d: nat, i: nat, j: nat)
    requires
        i <= j,
    ensures
        vandermonde_sum(a, b, d, i) <= vandermonde_sum(a, b, d, j),
    decreases j,
{
    if i < j {
        lemma_vandermonde_sum_grows(a, b, d, i, (j - 1) as nat);
    }
}

/// `C(n, k)` in 128 bits, for the sums of products of coefficients.
pub fn ch_wide(n: usize, k: usize) -> (r: u128)
    requires
        binom(n as nat, k as nat) * k <= u128::MAX,
    ensures
        r == binom(n as nat, k as nat),
{
    if k > n {
        proof {
            lemma_binom_above(n as nat, k as nat);
        }
        0
    } else if k == 0 || k == n {
        proof {
            lemma_binom_all(n as nat);
        }
        1
    } else {
        let m: usize = if k > n - k { n - k } else { k };
        proof {
            lemma_binom_symmetric(n as nat, k as nat);
            let b = binom(n as nat, k as nat);
            assert(b * m <= b * k) by (nonlinear_arith)
                requires
                    m <= k,
            ;
        }
        let mut c: u128 = 1;
        let mut j: usize = 0;
        while j < m
            invariant
                j <= m,
                2 * m <= n,
                binom(n as nat, m as nat) == binom(n as nat, k as nat),
                binom(n as nat, k as nat) * m <= u128::MAX,
                c == binom(n as nat, j as nat),
            decreases m - j,
        {
            proof {
                lemma_binom_grows(n as nat, (j + 1) as nat, m as nat);
                lemma_binom_step(n as nat, j as nat);
                let x = binom(n as nat, (j + 1) as nat);
                let b = binom(n as nat, m as nat);
                assert(x * (j + 1) <= b * m) by (nonlinear_arith)
                    requires
                        x <= b,
                        j + 1 <= m,
                ;
                vstd::arithmetic::div_mod::lemma_div_multiples_vanish(x as int, (j + 1) as int);
                assert((j + 1) * x == c * (n - j)) by (nonlinear_arith)
                    requires
                        x * (j + 1) == c * (n - j),
                ;
            }
            c = c * ((n - j) as u128) / ((j + 1) as u128);
            j = j + 1;
        }
        c
    }
}

} // verus!
