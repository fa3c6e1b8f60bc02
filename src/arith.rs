use vstd::arithmetic::power::{lemma_pow_increases, lemma_pow_positive, pow};
use vstd::prelude::*;

verus! {

/// `n!` divided by `k!`: the product `(k+1)(k+2)...n`, and 1 when `k >= n`.
pub open spec fn fall(n: nat, k: nat) -> nat
    decreases n - k,
{
    if k >= n {
        1
    } else {
        (k + 1) * fall(n, (k + 1) as nat)
    }
}

pub open spec fn fits(v: int) -> bool {
    0 <= v <= u128::MAX
}

pub proof fn lemma_fall_positive(n: nat, k: nat)
    ensures
        fall(n, k) >= 1,
    decreases n - k,
{
    if k < n {
        lemma_fall_positive(n, (k + 1) as nat);
        assert((k + 1) * fall(n, (k + 1) as nat) >= 1) by (nonlinear_arith)
            requires
                fall(n, (k + 1) as nat) >= 1,
        ;
    }
}

/// A product of factors no smaller than 1 is no smaller than either factor.
pub proof fn lemma_mul_grows(x: int, y: int)
    requires
        x >= 1,
        y >= 1,
    ensures
        x <= x * y,
        y <= x * y,
{
    assert(x <= x * y && y <= x * y) by (nonlinear_arith)
        requires
            x >= 1,
            y >= 1,
    ;
}

/// `x` to the power `e`, or `None` when it does not fit in 128 bits.
pub fn checked_pow(x: u128, e: u64) -> (r: Option<u128>)
    ensures
        r matches Some(v) ==> v == pow(x as int, e as nat),
        r is None ==> !fits(pow(x as int, e as nat)),
{
    let mut acc: u128 = 1;
    let mut i: u64 = 0;
    proof {
        assert(pow(x as int, 0) == 1) by {
            reveal(pow);
        }
    }
    while i < e
        invariant
            i <= e,
            acc == pow(x as int, i as nat),
        decreases e - i,
    {
        proof {
            reveal(pow);
            assert(pow(x as int, (i + 1) as nat) == x * pow(x as int, i as nat));
            assert(x * acc == acc * x) by (nonlinear_arith);
        }
        match acc.checked_mul(x) {
            Some(v) => {
                acc = v;
            },
            None => {
                proof {
                    assert(x > 0) by (nonlinear_arith)
                        requires
                            acc * x > u128::MAX,
                    ;
                    lemma_pow_positive(x as int, i as nat);
                    lemma_pow_increases(x as nat, (i + 1) as nat, e as nat);
                }
                return None;
            },
        }
        i = i + 1;
    }
    Some(acc)
}

/// `n! / k!` for `k <= n`, or `None` when it does not fit in 128 bits.
pub fn checked_fall(n: u64, k: u64) -> (r: Option<u128>)
    requires
        k <= n,
    ensures
        r matches Some(v) ==> v == fall(n as nat, k as nat),
        r is None ==> !fits(fall(n as nat, k as nat) as int),
{
    let mut acc: u128 = 1;
    let mut i: u64 = n;
    while i > k
        invariant
            k <= i <= n,
            acc == fall(n as nat, i as nat),
        decreases i - k,
    {
        assert(fall(n as nat, (i - 1) as nat) == i * fall(n as nat, i as nat));
        assert(i * acc == acc * i) by (nonlinear_arith);
        match acc.checked_mul(i as u128) {
            Some(v) => {
                acc = v;
            },
            None => {
                proof {
                    lemma_fall_below(n as nat, k as nat, (i - 1) as nat);
                }
                return None;
            },
        }
        i = i - 1;
    }
    Some(acc)
}

/// `fall(n, j) <= fall(n, k)` when `k <= j`.
pub proof fn lemma_fall_below(n: nat, k: nat, j: nat)
    requires
        k <= j,
    ensures
        fall(n, j) <= fall(n, k),
    decreases j - k,
{
    if k < j && k < n {
        lemma_fall_below(n, (k + 1) as nat, j);
        lemma_fall_positive(n, (k + 1) as nat);
        lemma_mul_grows((k + 1) as int, fall(n, (k + 1) as nat) as int);
    }
}

/// The product `w * x * y * z` of factors no smaller than 1, or `None` when
/// it does not fit in 128 bits.
pub fn checked_product(w: u128, x: u128, y: u128, z: u128) -> (r: Option<u128>)
    requires
        w >= 1,
        x >= 1,
        y >= 1,
        z >= 1,
    ensures
        r matches Some(v) ==> v == w * x * y * z,
        r is None ==> !fits(w * x * y * z),
{
    proof {
        lemma_mul_grows(w as int, x as int);
        lemma_mul_grows(w * x, y as int);
        lemma_mul_grows(w * x * y, z as int);
    }
    let wx = w.checked_mul(x)?;
    let wxy = wx.checked_mul(y)?;
    wxy.checked_mul(z)
}

/// The greatest common divisor, by Euclid's algorithm.
pub open spec fn gcd(a: nat, b: nat) -> nat
    decreases b,
{
    if b == 0 {
        a
    } else {
        gcd(b, a % b)
    }
}

/// `g` divides `x`.
pub open spec fn divides(g: int, x: int) -> bool {
    g > 0 && x == g * (x / g)
}

/// `gcd(a, b)` divides both `a` and `b`.
pub proof fn lemma_gcd_divides(a: nat, b: nat)
    requires
        a > 0 || b > 0,
    ensures
        divides(gcd(a, b) as int, a as int),
        divides(gcd(a, b) as int, b as int),
    decreases b,
{
    if b == 0 {
        vstd::arithmetic::div_mod::lemma_div_multiples_vanish(1, a as int);
        vstd::arithmetic::div_mod::lemma_div_multiples_vanish(0, a as int);
    } else {
        lemma_gcd_divides(b, a % b);
        let g = gcd(a, b) as int;
        vstd::arithmetic::div_mod::lemma_fundamental_div_mod(a as int, b as int);
        let (q, r) = (a as int / b as int, a as int % b as int);
        let (kb, kr) = (b as int / g, r / g);
        assert(a == g * (kb * q + kr)) by (nonlinear_arith)
            requires
                a == b * q + r,
                b == g * kb,
                r == g * kr,
        ;
        vstd::arithmetic::div_mod::lemma_div_multiples_vanish(kb * q + kr, g);
    }
}

/// The greatest common divisor of `a` and `b`.
pub fn gcd_exec(a: u128, b: u128) -> (r: u128)
    ensures
        r == gcd(a as nat, b as nat),
{
    let mut x = a;
    let mut y = b;
    while y != 0
        invariant
            gcd(x as nat, y as nat) == gcd(a as nat, b as nat),
        decreases y,
    {
        let t = x % y;
        x = y;
        y = t;
    }
    x
}

/// `x / g >= 1` when `g` divides `x >= 1`.
pub proof fn lemma_quotient_positive(x: int, g: int)
    requires
        x >= 1,
        divides(g, x),
    ensures
        x / g >= 1,
{
    if x / g <= 0 {
        assert(g * (x / g) <= 0) by (nonlinear_arith)
            requires
                g > 0,
                x / g <= 0,
        ;
    }
}

} // verus!
