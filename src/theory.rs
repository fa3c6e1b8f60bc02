use vstd::arithmetic::power::{lemma_pow_adds, lemma_pow_distributes, lemma_pow_positive, pow};
use vstd::prelude::*;

use crate::arith::{
    checked_fall, checked_pow, checked_product, divides, fall, fits, gcd, gcd_exec,
    lemma_fall_positive, lemma_gcd_divides, lemma_mul_grows, lemma_quotient_positive,
};
use crate::ratio::{Ratio, SignedRatio};

verus! {

/// Why a model cannot be built.
#[derive(Clone, Copy, Debug, PartialEq, Eq, Structural)]
pub enum TheoryError {
    /// An arrival or service rate is not positive.
    InvalidRate,
    /// A model needs at least one server.
    NoServers,
    /// The traffic intensity is 1 or more: an infinite waiting room has no
    /// steady state.
    Unstable,
    /// An exact value does not fit in 128 bits. Values are kept exact, with
    /// the offered load `λ/μ = a/b` in lowest terms. This happens when
    /// `λ.num μ.den` or `λ.den μ.num` does not fit, or when a value of the
    /// model does not: the normalising sum is a multiple of `c! b^c`
    /// (M/M/c) or `c! c^K b^(c+K)` (M/M/c/K), so it comes with more than
    /// about 30 servers, and sooner when `a` and `b` are large.
    Overflow,
}

/// The numerator of `λ/μ` as the rates give it: `λ.num μ.den`.
pub open spec fn raw_load_num(lambda: Ratio, mu: Ratio) -> int {
    lambda.num * mu.den
}

/// The denominator of `λ/μ` as the rates give it: `λ.den μ.num`.
pub open spec fn raw_load_den(lambda: Ratio, mu: Ratio) -> int {
    lambda.den * mu.num
}

/// The common divisor taken out of the offered load.
pub open spec fn load_gcd(lambda: Ratio, mu: Ratio) -> int {
    gcd(raw_load_num(lambda, mu) as nat, raw_load_den(lambda, mu) as nat) as int
}

/// The numerator `a` of the offered load `r = λ/μ = a/b` in lowest terms.
pub open spec fn load_num(lambda: Ratio, mu: Ratio) -> int {
    raw_load_num(lambda, mu) / load_gcd(lambda, mu)
}

/// The denominator `b` of the offered load `r = λ/μ = a/b` in lowest terms.
pub open spec fn load_den(lambda: Ratio, mu: Ratio) -> int {
    raw_load_den(lambda, mu) / load_gcd(lambda, mu)
}

/// For positive rates, `a/b` is `λ/μ`, with `a` and `b` positive.
pub proof fn lemma_load_is_ratio(lambda: Ratio, mu: Ratio)
    requires
        lambda.is_positive(),
        mu.is_positive(),
    ensures
        load_num(lambda, mu) * raw_load_den(lambda, mu) == load_den(lambda, mu) * raw_load_num(
            lambda,
            mu,
        ),
        load_num(lambda, mu) >= 1,
        load_den(lambda, mu) >= 1,
        raw_load_num(lambda, mu) >= 1,
        raw_load_den(lambda, mu) >= 1,
{
    let (x, y) = (raw_load_num(lambda, mu), raw_load_den(lambda, mu));
    assert(x >= 1 && y >= 1) by (nonlinear_arith)
        requires
            lambda.num >= 1,
            mu.den >= 1,
            lambda.den >= 1,
            mu.num >= 1,
            x == lambda.num * mu.den,
            y == lambda.den * mu.num,
    ;
    lemma_gcd_divides(x as nat, y as nat);
    let g = load_gcd(lambda, mu);
    lemma_quotient_positive(x, g);
    lemma_quotient_positive(y, g);
    let (a, b) = (x / g, y / g);
    assert(a * y == b * x) by (nonlinear_arith)
        requires
            x == g * a,
            y == g * b,
    ;
}

/// The offered load `λ/μ` in lowest terms, or `None` when `λ.num μ.den` or
/// `λ.den μ.num` does not fit in 128 bits.
fn offered_load(lambda: Ratio, mu: Ratio) -> (r: Option<(u128, u128)>)
    requires
        lambda.is_positive(),
        mu.is_positive(),
    ensures
        r is None <==> !fits(raw_load_num(lambda, mu)) || !fits(raw_load_den(lambda, mu)),
        r matches Some((a, b)) ==> a == load_num(lambda, mu) && b == load_den(lambda, mu) && a
            >= 1 && b >= 1,
{
    proof {
        lemma_load_is_ratio(lambda, mu);
    }
    let x = lambda.num.checked_mul(mu.den)?;
    let y = lambda.den.checked_mul(mu.num)?;
    let g = gcd_exec(x, y);
    proof {
        lemma_gcd_divides(x as nat, y as nat);
    }
    Some((x / g, y / g))
}

/// The steady-state measures of a queueing model.
pub trait QueueTheory {
    /// The invariant that a solved model keeps.
    spec fn solved(&self) -> bool;

    spec fn spec_number_in_system(&self) -> Ratio;

    spec fn spec_wait_in_system(&self) -> Ratio;

    spec fn spec_number_in_queue(&self) -> Ratio;

    spec fn spec_wait_in_queue(&self) -> SignedRatio;

    /// `p_n`, or `None` where its exact value does not fit in 128 bits.
    spec fn spec_proportion(&self, n: u32) -> Option<Ratio>;

    /// The number of customers in the system at steady state. Also known as L.
    fn number_in_system(&self) -> (r: Ratio)
        requires
            self.solved(),
        ensures
            r == self.spec_number_in_system(),
    ;

    /// The number of customers in the system at steady state: L.
    fn l(&self) -> (r: Ratio)
        requires
            self.solved(),
        ensures
            r == self.spec_number_in_system(),
    {
        self.number_in_system()
    }

    /// The average wait in the system at steady state. Also known as W.
    fn wait_in_system(&self) -> (r: Ratio)
        requires
            self.solved(),
        ensures
            r == self.spec_wait_in_system(),
    ;

    /// The average wait in the system at steady state: W.
    fn w(&self) -> (r: Ratio)
        requires
            self.solved(),
        ensures
            r == self.spec_wait_in_system(),
    {
        self.wait_in_system()
    }

    /// The number of customers in the queue at steady state. Also known as L_q.
    fn number_in_queue(&self) -> (r: Ratio)
        requires
            self.solved(),
        ensures
            r == self.spec_number_in_queue(),
    ;

    /// The number of customers in the queue at steady state: L_q.
    fn l_q(&self) -> (r: Ratio)
        requires
            self.solved(),
        ensures
            r == self.spec_number_in_queue(),
    {
        self.number_in_queue()
    }

    /// The average wait in the queue at steady state. Also known as W_q.
    fn wait_in_queue(&self) -> (r: SignedRatio)
        requires
            self.solved(),
        ensures
            r == self.spec_wait_in_queue(),
    ;

    /// The average wait in the queue at steady state: W_q.
    fn w_q(&self) -> (r: SignedRatio)
        requires
            self.solved(),
        ensures
            r == self.spec_wait_in_queue(),
    {
        self.wait_in_queue()
    }

    /// The proportion of time spent with `n` customers in the system. Also
    /// known as p_n.
    fn proportion(&self, n: u32) -> (r: Option<Ratio>)
        requires
            self.solved(),
        ensures
            r == self.spec_proportion(n),
    ;

    /// The proportion of time spent with `n` customers in the system: p_n.
    fn p(&self, n: u32) -> (r: Option<Ratio>)
        requires
            self.solved(),
        ensures
            r == self.spec_proportion(n),
    {
        self.proportion(n)
    }
}

/// A product of four factors no smaller than 1 is no smaller than any of them.
pub proof fn lemma_product_grows(w: int, x: int, y: int, z: int)
    requires
        w >= 1,
        x >= 1,
        y >= 1,
        z >= 1,
    ensures
        w <= w * x * y * z,
        x <= w * x * y * z,
        y <= w * x * y * z,
        z <= w * x * y * z,
        w * x * y * z >= 1,
{
    lemma_mul_grows(w, x);
    lemma_mul_grows(w * x, y);
    lemma_mul_grows(w * x * y, z);
}

// ----- M/M/c -----
/// The steady-state probability of `n < c` customers in an M/M/c system with
/// offered load `a/b`, times a constant that makes it an integer:
/// `weight(n) = a^n b^(c-n) (c!/n!) (bc - a)`, and `p_n = weight(n) / total`.
pub open spec fn mmc_weight(a: int, b: int, c: nat, n: nat) -> int {
    pow(a, n) * pow(b, (c - n) as nat) * fall(c, n) * (b * c - a)
}

/// `Σ_{n < m} weight(n)`.
pub open spec fn mmc_head(a: int, b: int, c: nat, m: nat) -> int
    decreases m,
{
    if m == 0 {
        0
    } else {
        mmc_head(a, b, c, (m - 1) as nat) + mmc_weight(a, b, c, (m - 1) as nat)
    }
}

/// The scaled weight `a^c b c` of all the states with every server busy.
pub open spec fn mmc_tail(a: int, b: int, c: nat) -> int {
    pow(a, c) * b * c * 1
}

/// The normalising constant: `p_0 = weight(0) / total`.
pub open spec fn mmc_total(a: int, b: int, c: nat) -> int {
    mmc_head(a, b, c, c) + mmc_tail(a, b, c)
}

/// `Lq = r^c ρ p_0 / (c! (1-ρ)²)` as `(numerator, denominator)`.
pub open spec fn mmc_l_q(a: int, b: int, c: nat) -> (int, int) {
    (pow(a, c + 1) * b * c * 1, (b * c - a) * mmc_total(a, b, c))
}

/// `L = r + Lq`.
pub open spec fn mmc_l(a: int, b: int, c: nat) -> (int, int) {
    let lq = mmc_l_q(a, b, c);
    (a * lq.1 + b * lq.0, b * lq.1)
}

/// `x / λ`, for Little's law.
pub open spec fn per_lambda(x: (int, int), lambda: Ratio) -> (int, int) {
    (x.0 * lambda.den, x.1 * lambda.num)
}

/// `p_n` for `n >= c`: `a^n (bc - a) / ((bc)^(n-c) total)`.
pub open spec fn mmc_tail_proportion(a: int, b: int, c: nat, n: nat) -> (int, int) {
    (pow(a, n) * (b * c - a), pow(b * c, (n - c) as nat) * mmc_total(a, b, c))
}

/// Every exact value of the M/M/c model fits in 128 bits.
pub open spec fn mmc_fits(lambda: Ratio, mu: Ratio, c: nat) -> bool {
    let a = load_num(lambda, mu);
    let b = load_den(lambda, mu);
    let lq = mmc_l_q(a, b, c);
    let l = mmc_l(a, b, c);
    let w = per_lambda(l, lambda);
    let wq = per_lambda(lq, lambda);
    &&& fits(mmc_total(a, b, c))
    &&& fits(lq.0)
    &&& fits(lq.1)
    &&& fits(l.0)
    &&& fits(l.1)
    &&& fits(w.0)
    &&& fits(w.1)
    &&& fits(wq.0)
    &&& fits(wq.1)
}

pub proof fn lemma_mmc_weight_positive(a: int, b: int, c: nat, n: nat)
    requires
        a >= 1,
        b >= 1,
        a < b * c,
        n <= c,
    ensures
        mmc_weight(a, b, c, n) >= 1,
{
    lemma_pow_positive(a, n);
    lemma_pow_positive(b, (c - n) as nat);
    lemma_fall_positive(c, n);
    lemma_product_grows(pow(a, n), pow(b, (c - n) as nat), fall(c, n) as int, b * c - a);
}

pub proof fn lemma_mmc_head_grows(a: int, b: int, c: nat, m1: nat, m2: nat)
    requires
        a >= 1,
        b >= 1,
        a < b * c,
        m1 <= m2 <= c,
    ensures
        0 <= mmc_head(a, b, c, m1) <= mmc_head(a, b, c, m2),
        m1 < m2 ==> mmc_head(a, b, c, m1) + mmc_weight(a, b, c, m1) <= mmc_head(a, b, c, m2),
    decreases m2,
{
    if m2 > 0 {
        let n = (m2 - 1) as nat;
        lemma_mmc_weight_positive(a, b, c, n);
        if m1 < m2 {
            lemma_mmc_head_grows(a, b, c, m1, n);
        } else {
            lemma_mmc_head_grows(a, b, c, n, n);
        }
    }
}

/// `weight(n)` of the M/M/c model, or `None` when it does not fit.
fn mmc_weight_exec(a: u128, b: u128, c: u64, d: u128, n: u64) -> (r: Option<u128>)
    requires
        a >= 1,
        b >= 1,
        a < b * c,
        d == b * c - a,
        n <= c,
    ensures
        r matches Some(v) ==> v == mmc_weight(a as int, b as int, c as nat, n as nat),
        r is None ==> !fits(mmc_weight(a as int, b as int, c as nat, n as nat)),
{
    proof {
        lemma_pow_positive(a as int, n as nat);
        lemma_pow_positive(b as int, (c - n) as nat);
        lemma_fall_positive(c as nat, n as nat);
        lemma_product_grows(
            pow(a as int, n as nat),
            pow(b as int, (c - n) as nat),
            fall(c as nat, n as nat) as int,
            d as int,
        );
    }
    let pa = checked_pow(a, n)?;
    let pb = checked_pow(b, c - n)?;
    let f = checked_fall(c, n)?;
    checked_product(pa, pb, f, d)
}

/// The M/M/c queue: `c` servers and an unbounded waiting room. Every value is
/// exact.
pub struct MMC {
    lambda: Ratio,
    mu: Ratio,
    servers: u8,
    a: u128,
    b: u128,
    total: u128,
    l: Ratio,
    l_q: Ratio,
    w: Ratio,
    w_q: Ratio,
}

/// An M/M/c model as the contracts see it.
pub struct MmcView {
    pub lambda: Ratio,
    pub mu: Ratio,
    pub servers: nat,
    pub a: int,
    pub b: int,
    pub total: int,
    pub l: Ratio,
    pub l_q: Ratio,
    pub w: Ratio,
    pub w_q: Ratio,
}

/// `(num, den)` as a `Ratio`.
pub open spec fn as_ratio(x: (int, int)) -> Ratio {
    Ratio { num: x.0 as u128, den: x.1 as u128 }
}

impl MmcView {
    /// The model of arrival rate `lambda`, service rate `mu` and `c` servers,
    /// with every value exact.
    pub open spec fn is_model(self, lambda: Ratio, mu: Ratio, c: nat) -> bool {
        let a = load_num(lambda, mu);
        let b = load_den(lambda, mu);
        &&& self.lambda == lambda
        &&& self.mu == mu
        &&& self.servers == c
        &&& self.a == a
        &&& self.b == b
        &&& self.total == mmc_total(a, b, c)
        &&& self.l_q == as_ratio(mmc_l_q(a, b, c))
        &&& self.l == as_ratio(mmc_l(a, b, c))
        &&& self.w == as_ratio(per_lambda(mmc_l(a, b, c), lambda))
        &&& self.w_q == as_ratio(per_lambda(mmc_l_q(a, b, c), lambda))
    }

    pub open spec fn wf(self) -> bool {
        &&& self.lambda.is_positive()
        &&& self.mu.is_positive()
        &&& self.servers >= 1
        &&& self.a >= 1
        &&& self.b >= 1
        &&& fits(self.a)
        &&& fits(self.b)
        &&& fits(self.b * self.servers)
        &&& self.a < self.b * self.servers
        &&& self.is_model(self.lambda, self.mu, self.servers)
        &&& mmc_fits(self.lambda, self.mu, self.servers)
    }
}

impl View for MMC {
    type V = MmcView;

    closed spec fn view(&self) -> MmcView {
        MmcView {
            lambda: self.lambda,
            mu: self.mu,
            servers: self.servers as nat,
            a: self.a as int,
            b: self.b as int,
            total: self.total as int,
            l: self.l,
            l_q: self.l_q,
            w: self.w,
            w_q: self.w_q,
        }
    }
}

impl MMC {
    pub fn lambda(&self) -> (r: Ratio)
        ensures
            r == self@.lambda,
    {
        self.lambda
    }

    pub fn mu(&self) -> (r: Ratio)
        ensures
            r == self@.mu,
    {
        self.mu
    }

    pub fn servers(&self) -> (r: u8)
        ensures
            r == self@.servers,
    {
        self.servers
    }

    /// Solves the model of arrival rate `lambda`, service rate `mu` and
    /// `servers` servers. It has a steady state only when `ρ = λ/(cμ) < 1`.
    /// `Overflow` comes when an exact value does not fit in 128 bits (see
    /// `TheoryError::Overflow`).
    pub fn new(lambda: Ratio, mu: Ratio, servers: u8) -> (r: Result<MMC, TheoryError>)
        ensures
            !lambda.is_positive() || !mu.is_positive() ==> r == Err::<MMC, TheoryError>(
                TheoryError::InvalidRate,
            ),
            lambda.is_positive() && mu.is_positive() && servers == 0 ==> r == Err::<
                MMC,
                TheoryError,
            >(TheoryError::NoServers),
            ({
                let a = load_num(lambda, mu);
                let b = load_den(lambda, mu);
                lambda.is_positive() && mu.is_positive() && servers > 0 ==> {
                    let raw = fits(raw_load_num(lambda, mu)) && fits(raw_load_den(lambda, mu));
                    &&& (raw && fits(b * servers) && a >= b * servers) ==> r == Err::<
                        MMC,
                        TheoryError,
                    >(TheoryError::Unstable)
                    &&& (!raw || !fits(b * servers)) ==> r == Err::<MMC, TheoryError>(
                        TheoryError::Overflow,
                    )
                    &&& (raw && fits(b * servers) && a < b * servers) ==> (r is Ok <==> mmc_fits(
                        lambda,
                        mu,
                        servers as nat,
                    ))
                }
            }),
            r matches Ok(m) ==> m@.wf() && m@.is_model(lambda, mu, servers as nat),
    {
        if lambda.num == 0 || lambda.den == 0 || mu.num == 0 || mu.den == 0 {
            return Err(TheoryError::InvalidRate);
        }
        if servers == 0 {
            return Err(TheoryError::NoServers);
        }
        let c = servers as u64;
        let ghost ci = c as nat;
        let (a, b) = match offered_load(lambda, mu) {
            Some(t) => t,
            None => return Err(TheoryError::Overflow),
        };
        let bc = match b.checked_mul(c as u128) {
            Some(v) => v,
            None => return Err(TheoryError::Overflow),
        };
        if a >= bc {
            return Err(TheoryError::Unstable);
        }
        let d = bc - a;
        let ghost (ai, bi) = (a as int, b as int);
        let mut head: u128 = 0;
        let mut n: u64 = 0;
        while n < c
            invariant
                a >= 1,
                b >= 1,
                a < b * c,
                d == b * c - a,
                n <= c,
                ai == a,
                bi == b,
                ci == c,
                head == mmc_head(ai, bi, ci, n as nat),
                lambda.is_positive(),
                mu.is_positive(),
                c == servers,
                servers > 0,
                a == load_num(lambda, mu),
                b == load_den(lambda, mu),
                bc == b * c,
            decreases c - n,
        {
            proof {
                lemma_mmc_head_grows(ai, bi, ci, n as nat, ci);
                lemma_mmc_head_grows(ai, bi, ci, ci, ci);
                lemma_pow_positive(ai, ci);
                lemma_product_grows(pow(ai, ci), bi, ci as int, 1);
            }
            let w = match mmc_weight_exec(a, b, c, d, n) {
                Some(v) => v,
                None => {
                    proof {
                        lemma_mmc_weight_positive(ai, bi, ci, n as nat);
                    }
                    return Err(TheoryError::Overflow);
                },
            };
            head = match head.checked_add(w) {
                Some(v) => v,
                None => return Err(TheoryError::Overflow),
            };
            n = n + 1;
        }
        proof {
            lemma_mmc_head_grows(ai, bi, ci, 0, ci);
            lemma_mmc_weight_positive(ai, bi, ci, 0);
            lemma_pow_positive(ai, ci);
            lemma_pow_positive(ai, ci + 1);
            lemma_product_grows(pow(ai, ci), bi, ci as int, 1);
            lemma_product_grows(pow(ai, ci + 1), bi, ci as int, 1);
        }
        let pa = match checked_pow(a, c) {
            Some(v) => v,
            None => return Err(TheoryError::Overflow),
        };
        let tail = match checked_product(pa, b, c as u128, 1) {
            Some(v) => v,
            None => return Err(TheoryError::Overflow),
        };
        let total = match head.checked_add(tail) {
            Some(v) => v,
            None => return Err(TheoryError::Overflow),
        };
        let pa1 = match checked_pow(a, c + 1) {
            Some(v) => v,
            None => return Err(TheoryError::Overflow),
        };
        let lq_num = match checked_product(pa1, b, c as u128, 1) {
            Some(v) => v,
            None => return Err(TheoryError::Overflow),
        };
        let lq_den = match d.checked_mul(total) {
            Some(v) => v,
            None => return Err(TheoryError::Overflow),
        };
        proof {
            assert(a * lq_den >= 0 && b * lq_num >= 0) by (nonlinear_arith)
                requires
                    a >= 1,
                    b >= 1,
            ;
        }
        let x = match a.checked_mul(lq_den) {
            Some(v) => v,
            None => return Err(TheoryError::Overflow),
        };
        let y = match b.checked_mul(lq_num) {
            Some(v) => v,
            None => return Err(TheoryError::Overflow),
        };
        let l_num = match x.checked_add(y) {
            Some(v) => v,
            None => return Err(TheoryError::Overflow),
        };
        let l_den = match b.checked_mul(lq_den) {
            Some(v) => v,
            None => return Err(TheoryError::Overflow),
        };
        let w_num = match l_num.checked_mul(lambda.den) {
            Some(v) => v,
            None => return Err(TheoryError::Overflow),
        };
        let w_den = match l_den.checked_mul(lambda.num) {
            Some(v) => v,
            None => return Err(TheoryError::Overflow),
        };
        let wq_num = match lq_num.checked_mul(lambda.den) {
            Some(v) => v,
            None => return Err(TheoryError::Overflow),
        };
        let wq_den = match lq_den.checked_mul(lambda.num) {
            Some(v) => v,
            None => return Err(TheoryError::Overflow),
        };
        Ok(MMC {
            lambda,
            mu,
            servers,
            a,
            b,
            total,
            l: Ratio::new(l_num, l_den),
            l_q: Ratio::new(lq_num, lq_den),
            w: Ratio::new(w_num, w_den),
            w_q: Ratio::new(wq_num, wq_den),
        })
    }
}

impl QueueTheory for MMC {
    open spec fn solved(&self) -> bool {
        self@.wf()
    }

    open spec fn spec_number_in_system(&self) -> Ratio {
        self@.l
    }

    open spec fn spec_wait_in_system(&self) -> Ratio {
        self@.w
    }

    open spec fn spec_number_in_queue(&self) -> Ratio {
        self@.l_q
    }

    open spec fn spec_wait_in_queue(&self) -> SignedRatio {
        SignedRatio { negative: false, magnitude: self@.w_q }
    }

    /// `weight(n) / total` below `c`, `a^n (bc - a) / ((bc)^(n-c) total)` from `c` on.
    open spec fn spec_proportion(&self, n: u32) -> Option<Ratio> {
        let v = self@;
        if n < v.servers {
            Some(Ratio { num: mmc_weight(v.a, v.b, v.servers, n as nat) as u128, den: v.total as u128 })
        } else {
            let x = mmc_tail_proportion(v.a, v.b, v.servers, n as nat);
            if fits(x.0) && fits(x.1) {
                Some(as_ratio(x))
            } else {
                None
            }
        }
    }

    fn number_in_system(&self) -> (r: Ratio) {
        self.l
    }

    fn wait_in_system(&self) -> (r: Ratio) {
        self.w
    }

    fn number_in_queue(&self) -> (r: Ratio) {
        self.l_q
    }

    fn wait_in_queue(&self) -> (r: SignedRatio) {
        SignedRatio { negative: false, magnitude: self.w_q }
    }

    fn proportion(&self, n: u32) -> (r: Option<Ratio>) {
        let c = self.servers as u64;
        let ghost (ai, bi, ci) = (self.a as int, self.b as int, c as nat);
        let bc = self.b * (c as u128);
        let d = bc - self.a;
        if (n as u64) < c {
            proof {
                lemma_mmc_head_grows(ai, bi, ci, n as nat, ci);
                lemma_mmc_weight_positive(ai, bi, ci, n as nat);
                lemma_pow_positive(ai, ci);
                lemma_product_grows(pow(ai, ci), bi, ci as int, 1);
            }
            match mmc_weight_exec(self.a, self.b, c, d, n as u64) {
                Some(w) => Some(Ratio::new(w, self.total)),
                None => None,
            }
        } else {
            proof {
                lemma_pow_positive(ai, n as nat);
                lemma_pow_positive(bc as int, (n - c) as nat);
                lemma_mul_grows(pow(ai, n as nat), d as int);
                lemma_mmc_head_grows(ai, bi, ci, 0, ci);
                lemma_mmc_weight_positive(ai, bi, ci, 0);
                lemma_pow_positive(ai, ci);
                lemma_product_grows(pow(ai, ci), bi, ci as int, 1);
                lemma_mul_grows(pow(bc as int, (n - c) as nat), self.total as int);
            }
            let pa = checked_pow(self.a, n as u64)?;
            let num = pa.checked_mul(d)?;
            let pb = checked_pow(bc, n as u64 - c)?;
            let den = pb.checked_mul(self.total)?;
            Some(Ratio::new(num, den))
        }
    }
}

// ----- Laws -----
/// Little's law holds exactly in the M/M/c model: `L = λ W` and `Lq = λ Wq`.
pub proof fn lemma_mmc_little(m: &MMC)
    requires
        m.solved(),
    ensures
        m@.lambda.num * m@.w.num * m@.l.den == m@.l.num * (m@.lambda.den * m@.w.den),
        m@.lambda.num * m@.w_q.num * m@.l_q.den == m@.l_q.num * (m@.lambda.den * m@.w_q.den),
{
    let v = m@;
    let l = mmc_l(v.a, v.b, v.servers);
    let lq = mmc_l_q(v.a, v.b, v.servers);
    let (ln, ld) = (v.lambda.num as int, v.lambda.den as int);
    assert(ln * (l.0 * ld) * l.1 == l.0 * (ld * (l.1 * ln))) by (nonlinear_arith);
    assert(ln * (lq.0 * ld) * lq.1 == lq.0 * (ld * (lq.1 * ln))) by (nonlinear_arith);
}

/// `Σ_{n < upto} p_n` of an M/M/c/K model, counted in numerators over the
/// common denominator `Σ weight`.
pub open spec fn mmck_proportion_sum(m: &MMCK, upto: nat) -> int
    decreases upto,
{
    if upto == 0 {
        0
    } else {
        mmck_proportion_sum(m, (upto - 1) as nat) + m.spec_proportion((upto - 1) as u32).unwrap().num
    }
}

/// The steady-state probabilities of an M/M/c/K model sum to exactly 1: every
/// `p_n` up to the capacity `c + K` has the same denominator, and their
/// numerators add up to it.
pub proof fn lemma_mmck_probabilities_sum_to_one(m: &MMCK)
    requires
        m.solved(),
        m@.servers + m@.queue_capacity <= u32::MAX,
    ensures
        forall|n: u32|
            n <= m@.servers + m@.queue_capacity ==> ((#[trigger] m.spec_proportion(n)) matches Some(
                p,
            ) && p.den == m@.total),
        mmck_proportion_sum(m, m@.servers + m@.queue_capacity + 1) == m@.total,
{
    let v = m@;
    let cap = v.servers + v.queue_capacity;
    assert forall|n: u32| n <= cap implies ((#[trigger] m.spec_proportion(n)) matches Some(p)
        && p.den == m@.total) by {}
    lemma_mmck_proportion_sum(m, cap + 1);
}

proof fn lemma_mmck_proportion_sum(m: &MMCK, upto: nat)
    requires
        m.solved(),
        upto <= m@.servers + m@.queue_capacity + 1,
        m@.servers + m@.queue_capacity <= u32::MAX,
    ensures
        mmck_proportion_sum(m, upto) == mmck_sum(m@.a, m@.b, m@.servers, m@.queue_capacity, upto),
    decreases upto,
{
    let v = m@;
    if upto > 0 {
        let n = (upto - 1) as nat;
        lemma_mmck_proportion_sum(m, n);
        lemma_mmck_sums_grow(v.a, v.b, v.servers, v.queue_capacity, n, v.servers + v.queue_capacity + 1);
        lemma_mmck_weight_positive(v.a, v.b, v.servers, v.queue_capacity, n);
        assert(n as u32 as nat == n);
    }
}

/// `Σ_{j < m} x^j y^(J-j)`.
pub open spec fn geometric(x: int, y: int, big_j: nat, m: nat) -> int
    decreases m,
{
    if m == 0 {
        0
    } else {
        geometric(x, y, big_j, (m - 1) as nat) + pow(x, (m - 1) as nat) * pow(
            y,
            (big_j - (m - 1)) as nat,
        )
    }
}

proof fn lemma_geometric(x: int, y: int, big_j: nat, m: nat)
    requires
        m <= big_j + 1,
    ensures
        (y - x) * geometric(x, y, big_j, m) == pow(y, big_j + 1) - pow(x, m) * pow(
            y,
            (big_j + 1 - m) as nat,
        ),
    decreases m,
{
    reveal(pow);
    if m == 0 {
        assert(pow(x, 0) == 1);
    } else {
        let k = (m - 1) as nat;
        lemma_geometric(x, y, big_j, k);
        let g = geometric(x, y, big_j, k);
        let xk = pow(x, k);
        let yk = pow(y, (big_j - k) as nat);
        assert(pow(x, m) == x * xk);
        assert(pow(y, (big_j + 1 - k) as nat) == y * yk);
        assert((y - x) * (g + xk * yk) == (y - x) * g + y * xk * yk - x * xk * yk) by (nonlinear_arith);
        assert(y * xk * yk == xk * (y * yk)) by (nonlinear_arith);
        assert(x * xk * yk == (x * xk) * yk) by (nonlinear_arith);
    }
}

/// `p_n` of the M/M/c model times `(bc)^J total`, for `n <= c + J`.
pub open spec fn mmc_scaled(a: int, b: int, c: nat, big_j: nat, n: nat) -> int {
    if n < c {
        mmc_weight(a, b, c, n) * pow(b * c, big_j)
    } else {
        pow(a, n) * (b * c - a) * pow(b * c, (c + big_j - n) as nat)
    }
}

/// `Σ_{n < m} p_n (bc)^J total`.
pub open spec fn mmc_scaled_sum(a: int, b: int, c: nat, big_j: nat, m: nat) -> int
    decreases m,
{
    if m == 0 {
        0
    } else {
        mmc_scaled_sum(a, b, c, big_j, (m - 1) as nat) + mmc_scaled(a, b, c, big_j, (m - 1) as nat)
    }
}

proof fn lemma_mmc_scaled_head(a: int, b: int, c: nat, big_j: nat, m: nat)
    requires
        m <= c,
    ensures
        mmc_scaled_sum(a, b, c, big_j, m) == mmc_head(a, b, c, m) * pow(b * c, big_j),
    decreases m,
{
    if m > 0 {
        lemma_mmc_scaled_head(a, b, c, big_j, (m - 1) as nat);
        let p = pow(b * c, big_j);
        let h = mmc_head(a, b, c, (m - 1) as nat);
        let w = mmc_weight(a, b, c, (m - 1) as nat);
        assert(h * p + w * p == (h + w) * p) by (nonlinear_arith);
    }
}

proof fn lemma_mmc_scaled_tail(a: int, b: int, c: nat, big_j: nat, i: nat)
    requires
        i <= big_j + 1,
    ensures
        mmc_scaled_sum(a, b, c, big_j, c + i) == mmc_head(a, b, c, c) * pow(b * c, big_j) + pow(
            a,
            c,
        ) * (b * c - a) * geometric(a, b * c, big_j, i),
    decreases i,
{
    if i == 0 {
        lemma_mmc_scaled_head(a, b, c, big_j, c);
    } else {
        let k = (i - 1) as nat;
        lemma_mmc_scaled_tail(a, b, c, big_j, k);
        lemma_pow_adds(a, c, k);
        assert((c + i - 1) as nat == c + k);
        let (ac, ak, d) = (pow(a, c), pow(a, k), b * c - a);
        let y = pow(b * c, (big_j - k) as nat);
        assert(mmc_scaled(a, b, c, big_j, c + k) == ac * ak * d * y);
        let g = geometric(a, b * c, big_j, k);
        assert(ac * d * g + ac * ak * d * y == ac * d * (g + ak * y)) by (nonlinear_arith);
    }
}

/// The steady-state probabilities of an M/M/c model sum to 1 in the limit:
/// with offered load `r = a/b`, normalising constant `total` and `ρ = a/(bc) < 1`,
/// `Σ_{n=0}^{c+J} p_n = 1 - a^(c+J+1) / ((bc)^J total)`, a remainder of
/// `(a^(c+1) / total) ρ^J` that vanishes as `J` grows. In integers: the
/// numerators `mmc_scaled` of the `p_n` over the common denominator
/// `(bc)^J total` add up to `(bc)^J total - a^(c+J+1)`.
pub proof fn lemma_mmc_probabilities_sum_to_one(m: &MMC, big_j: nat)
    requires
        m.solved(),
    ensures
        ({
            let (a, b, c) = (m@.a, m@.b, m@.servers);
            let scale = pow(b * c, big_j) * m@.total;
            &&& forall|n: nat|
                n < c ==> #[trigger] mmc_scaled(a, b, c, big_j, n) * m@.total == mmc_weight(
                    a,
                    b,
                    c,
                    n,
                ) * scale
            &&& forall|n: nat|
                c <= n <= c + big_j ==> #[trigger] mmc_scaled(a, b, c, big_j, n)
                    * mmc_tail_proportion(a, b, c, n).1 == mmc_tail_proportion(a, b, c, n).0
                    * scale
            &&& mmc_scaled_sum(a, b, c, big_j, c + big_j + 1) == scale - pow(a, c + big_j + 1)
            &&& 0 < a < b * c
        }),
{
    let v = m@;
    let (a, b, c) = (v.a, v.b, v.servers);
    let bc = b * c;
    let p = pow(bc, big_j);
    let t = v.total;
    assert forall|n: nat| n < c implies #[trigger] mmc_scaled(a, b, c, big_j, n) * t == mmc_weight(
        a,
        b,
        c,
        n,
    ) * (p * t) by {
        let w = mmc_weight(a, b, c, n);
        assert(w * p * t == w * (p * t)) by (nonlinear_arith);
    }
    assert forall|n: nat| c <= n <= c + big_j implies #[trigger] mmc_scaled(a, b, c, big_j, n)
        * mmc_tail_proportion(a, b, c, n).1 == mmc_tail_proportion(a, b, c, n).0 * (p * t) by {
        lemma_pow_adds(bc, (c + big_j - n) as nat, (n - c) as nat);
        assert((c + big_j - n) as nat + (n - c) as nat == big_j);
        let (x, y, z) = (pow(a, n) * (bc - a), pow(bc, (c + big_j - n) as nat), pow(bc, (n - c) as nat));
        assert(x * y * (z * t) == x * (y * z * t)) by (nonlinear_arith);
    }
    lemma_mmc_scaled_tail(a, b, c, big_j, big_j + 1);
    lemma_geometric(a, bc, big_j, big_j + 1);
    lemma_pow_adds(a, c, big_j + 1);
    reveal(pow);
    assert(pow(bc, 0) == 1);
    assert(pow(bc, big_j + 1) == bc * p);
    let (h, ac, d, g) = (mmc_head(a, b, c, c), pow(a, c), bc - a, geometric(a, bc, big_j, big_j + 1));
    let aj = pow(a, big_j + 1);
    assert(d * g == bc * p - aj);
    assert(t == h + ac * b * c * 1);
    assert(ac * d * g == ac * (d * g)) by (nonlinear_arith);
    assert(ac * (bc * p - aj) == ac * bc * p - ac * aj) by (nonlinear_arith);
    assert(p * (h + ac * b * c * 1) == p * h + p * (ac * b * c)) by (nonlinear_arith);
    assert(ac * bc * p == p * (ac * b * c)) by (nonlinear_arith)
        requires
            bc == b * c,
    ;
    assert(h * p == p * h) by (nonlinear_arith);
}

proof fn lemma_mmc_scaled_nonneg(a: int, b: int, c: nat, big_j: nat, n: nat)
    requires
        1 <= a < b * c,
        b >= 1,
    ensures
        mmc_scaled(a, b, c, big_j, n) >= 0,
{
    lemma_pow_positive(b * c, big_j);
    lemma_pow_positive(a, n);
    lemma_pow_positive(b * c, (c + big_j - n) as nat);
    if n < c {
        lemma_mmc_weight_positive(a, b, c, n);
        let (w, p) = (mmc_weight(a, b, c, n), pow(b * c, big_j));
        assert(w * p >= 0) by (nonlinear_arith)
            requires
                w >= 1,
                p >= 1,
        ;
    } else {
        let (x, d, y) = (pow(a, n), b * c - a, pow(b * c, (c + big_j - n) as nat));
        assert(x * d * y >= 0) by (nonlinear_arith)
            requires
                x >= 1,
                d >= 1,
                y >= 1,
        ;
    }
}

proof fn lemma_mmc_scaled_sum_grows(a: int, b: int, c: nat, big_j: nat, n: nat, m: nat)
    requires
        1 <= a < b * c,
        b >= 1,
        n < m,
    ensures
        0 <= mmc_scaled_sum(a, b, c, big_j, n),
        mmc_scaled_sum(a, b, c, big_j, n) + mmc_scaled(a, b, c, big_j, n) <= mmc_scaled_sum(
            a,
            b,
            c,
            big_j,
            m,
        ),
    decreases m,
{
    let k = (m - 1) as nat;
    lemma_mmc_scaled_nonneg(a, b, c, big_j, k);
    if n < k {
        lemma_mmc_scaled_sum_grows(a, b, c, big_j, n, k);
    } else if n > 0 {
        lemma_mmc_scaled_sum_grows(a, b, c, big_j, (n - 1) as nat, n);
        lemma_mmc_scaled_nonneg(a, b, c, big_j, (n - 1) as nat);
    }
}

/// Every steady-state probability of an M/M/c model lies in `[0, 1]`: over
/// the common denominator `(bc)^J total` of `lemma_mmc_probabilities_sum_to_one`,
/// each numerator `mmc_scaled` up to `n = c + J` lies between 0 and that
/// denominator.
pub proof fn lemma_mmc_proportions_bounded(m: &MMC, big_j: nat)
    requires
        m.solved(),
    ensures
        forall|n: nat|
            n <= m@.servers + big_j ==> 0 <= #[trigger] mmc_scaled(
                m@.a,
                m@.b,
                m@.servers,
                big_j,
                n,
            ) <= pow(m@.b * m@.servers, big_j) * m@.total,
{
    let (a, b, c) = (m@.a, m@.b, m@.servers);
    lemma_mmc_probabilities_sum_to_one(m, big_j);
    lemma_pow_positive(a, c + big_j + 1);
    assert forall|n: nat| n <= c + big_j implies 0 <= #[trigger] mmc_scaled(a, b, c, big_j, n)
        <= pow(b * c, big_j) * m@.total by {
        lemma_mmc_scaled_nonneg(a, b, c, big_j, n);
        lemma_mmc_scaled_sum_grows(a, b, c, big_j, n, c + big_j + 1);
    }
}

// ----- M/M/c/K -----
/// The steady-state probability of `n` customers in an M/M/c/K system with
/// offered load `a/b`, times a constant that makes every weight an integer:
/// `p_n = weight(n) / Σ weight`. With `N = c + k`,
/// `weight(n) = a^n b^(N-n) c^k c!/n!` for `n <= c` and
/// `weight(n) = a^n b^(N-n) c^(N-n)` for `c <= n <= N`.
pub open spec fn mmck_weight(a: int, b: int, c: nat, k: nat, n: nat) -> int {
    if n <= c {
        pow(a, n) * pow(b, (c + k - n) as nat) * pow(c as int, k) * fall(c, n)
    } else {
        pow(a, n) * pow(b, (c + k - n) as nat) * pow(c as int, (c + k - n) as nat) * 1
    }
}

/// `Σ_{n < m} weight(n)`.
pub open spec fn mmck_sum(a: int, b: int, c: nat, k: nat, m: nat) -> int
    decreases m,
{
    if m == 0 {
        0
    } else {
        mmck_sum(a, b, c, k, (m - 1) as nat) + mmck_weight(a, b, c, k, (m - 1) as nat)
    }
}

/// `Σ_{n < m} (n - c)⁺ weight(n)`: the weights of the customers waiting.
pub open spec fn mmck_queue_sum(a: int, b: int, c: nat, k: nat, m: nat) -> int
    decreases m,
{
    if m == 0 {
        0
    } else {
        let n = (m - 1) as nat;
        mmck_queue_sum(a, b, c, k, n) + (if n > c {
            (n - c) * mmck_weight(a, b, c, k, n)
        } else {
            0
        })
    }
}

pub proof fn lemma_mmck_weight_positive(a: int, b: int, c: nat, k: nat, n: nat)
    requires
        a >= 1,
        b >= 1,
        c >= 1,
        n <= c + k,
    ensures
        mmck_weight(a, b, c, k, n) >= 1,
        pow(a, n) <= mmck_weight(a, b, c, k, n),
{
    lemma_pow_positive(a, n);
    lemma_pow_positive(b, (c + k - n) as nat);
    lemma_fall_positive(c, n);
    if n <= c {
        lemma_pow_positive(c as int, k);
        lemma_product_grows(pow(a, n), pow(b, (c + k - n) as nat), pow(c as int, k), fall(c, n) as int);
    } else {
        lemma_pow_positive(c as int, (c + k - n) as nat);
        lemma_product_grows(pow(a, n), pow(b, (c + k - n) as nat), pow(c as int, (c + k - n) as nat), 1);
    }
}

/// Both sums grow with `m`, and each weight below `m` is part of them.
pub proof fn lemma_mmck_sums_grow(a: int, b: int, c: nat, k: nat, m1: nat, m2: nat)
    requires
        a >= 1,
        b >= 1,
        c >= 1,
        m1 <= m2 <= c + k + 1,
    ensures
        mmck_sum(a, b, c, k, m1) <= mmck_sum(a, b, c, k, m2),
        mmck_queue_sum(a, b, c, k, m1) <= mmck_queue_sum(a, b, c, k, m2),
        0 <= mmck_queue_sum(a, b, c, k, m1),
        0 <= mmck_sum(a, b, c, k, m1),
        m1 < m2 ==> mmck_sum(a, b, c, k, m1) + mmck_weight(a, b, c, k, m1) <= mmck_sum(a, b, c, k, m2),
        m1 < m2 && m1 > c ==> mmck_queue_sum(a, b, c, k, m1) + (m1 - c) * mmck_weight(a, b, c, k, m1)
            <= mmck_queue_sum(a, b, c, k, m2),
    decreases m2,
{
    if m2 > 0 {
        let n = (m2 - 1) as nat;
        lemma_mmck_weight_positive(a, b, c, k, n);
        if n > c {
            assert((n - c) * mmck_weight(a, b, c, k, n) >= 0) by (nonlinear_arith)
                requires
                    n > c,
                    mmck_weight(a, b, c, k, n) >= 1,
            ;
        }
        if m1 < m2 {
            lemma_mmck_sums_grow(a, b, c, k, m1, n);
        } else {
            lemma_mmck_sums_grow(a, b, c, k, n, n);
        }
    }
}

/// A weight of the M/M/c/K model, or `None` when it does not fit in 128 bits.
fn mmck_weight_exec(a: u128, b: u128, c: u64, k: u64, n: u64) -> (r: Option<u128>)
    requires
        a >= 1,
        b >= 1,
        c >= 1,
        n <= c + k <= u64::MAX,
    ensures
        r matches Some(v) ==> v == mmck_weight(a as int, b as int, c as nat, k as nat, n as nat),
        r is None ==> !fits(mmck_weight(a as int, b as int, c as nat, k as nat, n as nat)),
{
    let cap = c + k;
    let ghost w = mmck_weight(a as int, b as int, c as nat, k as nat, n as nat);
    proof {
        lemma_pow_positive(a as int, n as nat);
        lemma_pow_positive(b as int, (cap - n) as nat);
        lemma_pow_positive(c as int, k as nat);
        lemma_pow_positive(c as int, (cap - n) as nat);
        lemma_fall_positive(c as nat, n as nat);
        if n <= c {
            lemma_product_grows(
                pow(a as int, n as nat),
                pow(b as int, (cap - n) as nat),
                pow(c as int, k as nat),
                fall(c as nat, n as nat) as int,
            );
        } else {
            lemma_product_grows(
                pow(a as int, n as nat),
                pow(b as int, (cap - n) as nat),
                pow(c as int, (cap - n) as nat),
                1,
            );
        }
    }
    let pa = checked_pow(a, n)?;
    let pb = checked_pow(b, cap - n)?;
    if n <= c {
        let pc = checked_pow(c as u128, k)?;
        let f = checked_fall(c, n)?;
        checked_product(pa, pb, pc, f)
    } else {
        let pc = checked_pow(c as u128, cap - n)?;
        checked_product(pa, pb, pc, 1)
    }
}

/// The exact values of an M/M/c/K model with offered load `a/b`:
/// `(Σ weight, Σ (n-c)⁺ weight, weight(c+k))`.
pub open spec fn mmck_sums(a: int, b: int, c: nat, k: nat) -> (int, int, int) {
    (
        mmck_sum(a, b, c, k, c + k + 1),
        mmck_queue_sum(a, b, c, k, c + k + 1),
        mmck_weight(a, b, c, k, c + k),
    )
}

/// The three sums of the M/M/c/K model, or `None` when one does not fit.
fn mmck_sums_exec(a: u128, b: u128, c: u64, k: u64) -> (r: Option<(u128, u128, u128)>)
    requires
        a >= 1,
        b >= 1,
        c >= 1,
        c + k < u64::MAX,
    ensures
        r matches Some((g, q, last)) ==> (g as int, q as int, last as int) == mmck_sums(
            a as int,
            b as int,
            c as nat,
            k as nat,
        ),
        r is None ==> !fits(mmck_sums(a as int, b as int, c as nat, k as nat).0) || !fits(
            mmck_sums(a as int, b as int, c as nat, k as nat).1,
        ),
{
    let cap = c + k;
    let ghost (ai, bi, ci, ki) = (a as int, b as int, c as nat, k as nat);
    let ghost m = (cap + 1) as nat;
    let mut total: u128 = 0;
    let mut queue: u128 = 0;
    let mut last: u128 = 0;
    let mut n: u64 = 0;
    while n <= cap
        invariant
            cap == c + k,
            c + k < u64::MAX,
            a >= 1,
            b >= 1,
            c >= 1,
            n <= cap + 1,
            total == mmck_sum(ai, bi, ci, ki, n as nat),
            queue == mmck_queue_sum(ai, bi, ci, ki, n as nat),
            n > cap ==> last == mmck_weight(ai, bi, ci, ki, cap as nat),
            ai == a,
            bi == b,
            ci == c,
            ki == k,
            m == cap + 1,
        decreases cap + 1 - n,
    {
        proof {
            lemma_mmck_sums_grow(ai, bi, ci, ki, n as nat, m);
            lemma_mmck_weight_positive(ai, bi, ci, ki, n as nat);
        }
        let w = mmck_weight_exec(a, b, c, k, n)?;
        total = total.checked_add(w)?;
        if n > c {
            proof {
                assert((n - c) * w >= w) by (nonlinear_arith)
                    requires
                        n > c,
                        w >= 1,
                ;
            }
            let extra = ((n - c) as u128).checked_mul(w)?;
            queue = queue.checked_add(extra)?;
        }
        if n == cap {
            last = w;
        }
        n = n + 1;
    }
    Some((total, queue, last))
}

/// An M/M/c/K model as the contracts see it.
pub struct MmckView {
    pub lambda: Ratio,
    pub mu: Ratio,
    pub servers: nat,
    pub queue_capacity: nat,
    /// `a` and `b` of the offered load `a/b`.
    pub a: int,
    pub b: int,
    /// `Σ weight`, `Σ (n-c)⁺ weight` and `weight(c+k)`.
    pub total: int,
    pub queue_total: int,
    pub full: int,
    pub l: Ratio,
    pub l_q: Ratio,
    pub w: Ratio,
    pub w_q: SignedRatio,
}

/// `W = (Lq + r p_K) / (λ (1 - p_K))` as `(numerator, denominator)`.
pub open spec fn mmck_w(lambda: Ratio, a: int, b: int, g: int, q: int, last: int) -> (int, int) {
    ((b * q + a * last) * lambda.den, b * lambda.num * (g - last))
}

/// `Wq = W - 1/μ` as the two terms of its numerator and its denominator.
pub open spec fn mmck_w_q(mu: Ratio, w: (int, int)) -> (int, int, int) {
    (w.0 * mu.num, mu.den * w.1, w.1 * mu.num)
}

/// `x - y` over the denominator `den`, with its sign.
pub open spec fn signed_difference(x: int, y: int, den: int) -> SignedRatio {
    if x < y {
        SignedRatio { negative: true, magnitude: Ratio { num: (y - x) as u128, den: den as u128 } }
    } else {
        SignedRatio { negative: false, magnitude: Ratio { num: (x - y) as u128, den: den as u128 } }
    }
}

/// Every exact value of the M/M/c/K model fits in 128 bits.
pub open spec fn mmck_fits(lambda: Ratio, mu: Ratio, c: nat, k: nat) -> bool {
    let a = load_num(lambda, mu);
    let b = load_den(lambda, mu);
    let (g, q, last) = mmck_sums(a, b, c, k);
    let w = mmck_w(lambda, a, b, g, q, last);
    let wq = mmck_w_q(mu, w);
    &&& fits(raw_load_num(lambda, mu))
    &&& fits(raw_load_den(lambda, mu))
    &&& fits(g)
    &&& fits(q)
    &&& fits(b * q + a * (g - last))
    &&& fits(b * g)
    &&& fits(w.0)
    &&& fits(w.1)
    &&& fits(wq.0)
    &&& fits(wq.1)
    &&& fits(wq.2)
}

impl MmckView {
    /// The model of arrival rate `lambda`, service rate `mu`, `c` servers and
    /// room for `k` waiting customers, with every value exact.
    pub open spec fn is_model(self, lambda: Ratio, mu: Ratio, c: nat, k: nat) -> bool {
        let a = load_num(lambda, mu);
        let b = load_den(lambda, mu);
        let (g, q, last) = mmck_sums(a, b, c, k);
        let w = mmck_w(lambda, a, b, g, q, last);
        let wq = mmck_w_q(mu, w);
        &&& self.lambda == lambda
        &&& self.mu == mu
        &&& self.servers == c
        &&& self.queue_capacity == k
        &&& self.a == a
        &&& self.b == b
        &&& self.total == g
        &&& self.queue_total == q
        &&& self.full == last
        &&& self.l_q == (Ratio { num: q as u128, den: g as u128 })
        &&& self.l == (Ratio { num: (b * q + a * (g - last)) as u128, den: (b * g) as u128 })
        &&& self.w == (Ratio { num: w.0 as u128, den: w.1 as u128 })
        &&& self.w_q == signed_difference(wq.0, wq.1, wq.2)
    }

    pub open spec fn wf(self) -> bool {
        &&& self.lambda.is_positive()
        &&& self.mu.is_positive()
        &&& self.servers >= 1
        &&& self.servers + self.queue_capacity < u64::MAX
        &&& self.a >= 1
        &&& self.b >= 1
        &&& self.is_model(self.lambda, self.mu, self.servers, self.queue_capacity)
        &&& mmck_fits(self.lambda, self.mu, self.servers, self.queue_capacity)
    }
}

/// The M/M/c/K queue: `c` servers and room for `k` more customers waiting;
/// arrivals that find the system full are lost. Every value is exact.
pub struct MMCK {
    lambda: Ratio,
    mu: Ratio,
    servers: u8,
    queue_capacity: u32,
    a: u128,
    b: u128,
    total: u128,
    queue_total: u128,
    full: u128,
    l: Ratio,
    l_q: Ratio,
    w: Ratio,
    w_q: SignedRatio,
}

impl View for MMCK {
    type V = MmckView;

    closed spec fn view(&self) -> MmckView {
        MmckView {
            lambda: self.lambda,
            mu: self.mu,
            servers: self.servers as nat,
            queue_capacity: self.queue_capacity as nat,
            a: self.a as int,
            b: self.b as int,
            total: self.total as int,
            queue_total: self.queue_total as int,
            full: self.full as int,
            l: self.l,
            l_q: self.l_q,
            w: self.w,
            w_q: self.w_q,
        }
    }
}

impl MMCK {
    /// Solves the model of arrival rate `lambda`, service rate `mu`, `servers`
    /// servers and room for `queue_capacity` waiting customers. Any traffic
    /// intensity is allowed, 1 included: the normalising sum is finite.
    /// `Overflow` comes when an exact value does not fit in 128 bits (see
    /// `TheoryError::Overflow`).
    pub fn new(lambda: Ratio, mu: Ratio, servers: u8, queue_capacity: u32) -> (r: Result<
        MMCK,
        TheoryError,
    >)
        ensures
            !lambda.is_positive() || !mu.is_positive() ==> r == Err::<MMCK, TheoryError>(
                TheoryError::InvalidRate,
            ),
            lambda.is_positive() && mu.is_positive() && servers == 0 ==> r == Err::<
                MMCK,
                TheoryError,
            >(TheoryError::NoServers),
            lambda.is_positive() && mu.is_positive() && servers > 0 ==> (r is Ok <==> mmck_fits(
                lambda,
                mu,
                servers as nat,
                queue_capacity as nat,
            )),
            r matches Err(e) ==> e != TheoryError::Unstable,
            r matches Ok(m) ==> m@.wf() && m@.is_model(
                lambda,
                mu,
                servers as nat,
                queue_capacity as nat,
            ),
    {
        if lambda.num == 0 || lambda.den == 0 || mu.num == 0 || mu.den == 0 {
            return Err(TheoryError::InvalidRate);
        }
        if servers == 0 {
            return Err(TheoryError::NoServers);
        }
        let c = servers as u64;
        let k = queue_capacity as u64;
        let ghost (ci, ki) = (c as nat, k as nat);
        let (a, b) = match offered_load(lambda, mu) {
            Some(t) => t,
            None => return Err(TheoryError::Overflow),
        };
        let (g, q, last) = match mmck_sums_exec(a, b, c, k) {
            Some(t) => t,
            None => return Err(TheoryError::Overflow),
        };
        proof {
            lemma_mmck_sums_grow(a as int, b as int, ci, ki, 0, (ci + ki) as nat);
            lemma_mmck_sums_grow(a as int, b as int, ci, ki, (ci + ki) as nat, (ci + ki + 1) as nat);
            lemma_mmck_weight_positive(a as int, b as int, ci, ki, 0);
            lemma_mmck_weight_positive(a as int, b as int, ci, ki, (ci + ki) as nat);
            assert(g - last >= 1);
            assert(b * q >= 0 && a * (g - last) >= 0 && a * last >= 1) by (nonlinear_arith)
                requires
                    a >= 1,
                    b >= 1,
                    q >= 0,
                    g - last >= 1,
                    last >= 1,
            ;
            lemma_mul_grows(b as int, lambda.num as int);
            lemma_mul_grows(b * lambda.num, g - last);
        }
        // L = Lq + r (1 - p_K)
        let bq = match b.checked_mul(q) {
            Some(v) => v,
            None => return Err(TheoryError::Overflow),
        };
        let served = match a.checked_mul(g - last) {
            Some(v) => v,
            None => return Err(TheoryError::Overflow),
        };
        let l_num = match bq.checked_add(served) {
            Some(v) => v,
            None => return Err(TheoryError::Overflow),
        };
        let l_den = match b.checked_mul(g) {
            Some(v) => v,
            None => return Err(TheoryError::Overflow),
        };
        // W = (Lq + r p_K) / (λ (1 - p_K))
        proof {
            lemma_mul_grows(bq + a * last, lambda.den as int);
        }
        let blocked = match a.checked_mul(last) {
            Some(v) => v,
            None => return Err(TheoryError::Overflow),
        };
        let w_sum = match bq.checked_add(blocked) {
            Some(v) => v,
            None => return Err(TheoryError::Overflow),
        };
        let w_num = match w_sum.checked_mul(lambda.den) {
            Some(v) => v,
            None => return Err(TheoryError::Overflow),
        };
        let b_lambda = match b.checked_mul(lambda.num) {
            Some(v) => v,
            None => return Err(TheoryError::Overflow),
        };
        let w_den = match b_lambda.checked_mul(g - last) {
            Some(v) => v,
            None => return Err(TheoryError::Overflow),
        };
        // Wq = W - 1/μ
        let x = match w_num.checked_mul(mu.num) {
            Some(v) => v,
            None => return Err(TheoryError::Overflow),
        };
        let y = match mu.den.checked_mul(w_den) {
            Some(v) => v,
            None => return Err(TheoryError::Overflow),
        };
        let wq_den = match w_den.checked_mul(mu.num) {
            Some(v) => v,
            None => return Err(TheoryError::Overflow),
        };
        let w_q = if x < y {
            SignedRatio { negative: true, magnitude: Ratio::new(y - x, wq_den) }
        } else {
            SignedRatio { negative: false, magnitude: Ratio::new(x - y, wq_den) }
        };
        Ok(MMCK {
            lambda,
            mu,
            servers,
            queue_capacity,
            a,
            b,
            total: g,
            queue_total: q,
            full: last,
            l: Ratio::new(l_num, l_den),
            l_q: Ratio::new(q, g),
            w: Ratio::new(w_num, w_den),
            w_q,
        })
    }
}

impl QueueTheory for MMCK {
    open spec fn solved(&self) -> bool {
        self@.wf()
    }

    open spec fn spec_number_in_system(&self) -> Ratio {
        self@.l
    }

    open spec fn spec_wait_in_system(&self) -> Ratio {
        self@.w
    }

    open spec fn spec_number_in_queue(&self) -> Ratio {
        self@.l_q
    }

    open spec fn spec_wait_in_queue(&self) -> SignedRatio {
        self@.w_q
    }

    /// `weight(n) / Σ weight` up to the capacity, and zero beyond it.
    open spec fn spec_proportion(&self, n: u32) -> Option<Ratio> {
        let v = self@;
        if n <= v.servers + v.queue_capacity {
            Some(
                Ratio {
                    num: mmck_weight(v.a, v.b, v.servers, v.queue_capacity, n as nat) as u128,
                    den: v.total as u128,
                },
            )
        } else {
            Some(Ratio { num: 0, den: v.total as u128 })
        }
    }

    fn number_in_system(&self) -> (r: Ratio) {
        self.l
    }

    fn wait_in_system(&self) -> (r: Ratio) {
        self.w
    }

    fn number_in_queue(&self) -> (r: Ratio) {
        self.l_q
    }

    fn wait_in_queue(&self) -> (r: SignedRatio) {
        self.w_q
    }

    fn proportion(&self, n: u32) -> (r: Option<Ratio>) {
        let c = self.servers as u64;
        let k = self.queue_capacity as u64;
        if (n as u64) <= c + k {
            proof {
                lemma_mmck_sums_grow(
                    self.a as int,
                    self.b as int,
                    c as nat,
                    k as nat,
                    n as nat,
                    (c + k + 1) as nat,
                );
                lemma_mmck_weight_positive(self.a as int, self.b as int, c as nat, k as nat, n as nat);
            }
            match mmck_weight_exec(self.a, self.b, c, k, n as u64) {
                Some(w) => Some(Ratio::new(w, self.total)),
                None => None,
            }
        } else {
            Some(Ratio::new(0, self.total))
        }
    }
}


proof fn lemma_mmck_busy_sum(a: int, b: int, c: nat, k: nat, i: nat)
    requires
        i <= k + 1,
    ensures
        mmck_sum(a, b, c, k, c + i) - mmck_sum(a, b, c, k, c) == pow(a, c) * geometric(
            a,
            b * c,
            k,
            i,
        ),
    decreases i,
{
    if i > 0 {
        let j = (i - 1) as nat;
        lemma_mmck_busy_sum(a, b, c, k, j);
        let n = c + j;
        assert((c + i - 1) as nat == n);
        lemma_pow_adds(a, c, j);
        lemma_pow_distributes(b, c as int, (k - j) as nat);
        assert((c + k - n) as nat == (k - j) as nat);
        let (ac, aj, y) = (pow(a, c), pow(a, j), pow(b * c, (k - j) as nat));
        if j == 0 {
            assert(fall(c, c) == 1);
            assert(pow(a, 0) == 1) by {
                reveal(pow);
            }
        }
        let (pb, pc) = (pow(b, (k - j) as nat), pow(c as int, (k - j) as nat));
        assert(y == pb * pc);
        if j == 0 {
            assert(mmck_weight(a, b, c, k, n) == ac * pb * pc * 1);
        } else {
            assert(mmck_weight(a, b, c, k, n) == pow(a, n) * pb * pc * 1);
            assert(pow(a, n) == ac * aj);
        }
        assert(ac * pb * pc * 1 == ac * 1 * y * 1 || j != 0) by (nonlinear_arith)
            requires
                y == pb * pc,
        ;
        assert(ac * aj * pb * pc * 1 == ac * aj * y * 1) by (nonlinear_arith)
            requires
                y == pb * pc,
        ;
        assert(mmck_weight(a, b, c, k, n) == ac * aj * y * 1);
        let g = geometric(a, b * c, k, j);
        assert(ac * g + ac * aj * y * 1 == ac * (g + aj * y)) by (nonlinear_arith);
    }
}

proof fn lemma_geometric_unit(x: int, big_j: nat, m: nat)
    requires
        m <= big_j + 1,
    ensures
        geometric(x, x, big_j, m) == m * pow(x, big_j),
    decreases m,
{
    if m > 0 {
        lemma_geometric_unit(x, big_j, (m - 1) as nat);
        lemma_pow_adds(x, (m - 1) as nat, (big_j - (m - 1)) as nat);
        assert((m - 1) as nat + (big_j - (m - 1)) as nat == big_j);
        assert(pow(x, (m - 1) as nat) * pow(x, (big_j - (m - 1)) as nat) == pow(x, big_j));
        assert((m - 1) * pow(x, big_j) + pow(x, big_j) == m * pow(x, big_j)) by (nonlinear_arith);
    } else {
        assert(m * pow(x, big_j) == 0) by (nonlinear_arith)
            requires
                m == 0,
        ;
    }
}

/// The normalising sum of an M/M/c/K model in closed form. Divided by
/// `b^(c+k) c^k c!`, the weights of the states with every server busy add up
/// to `(r^c / c!) Σ_{j <= k} ρ^j`: in integers, `a^c Σ_{j <= k} a^j (bc)^(k-j)`.
/// When `ρ != 1` that is the truncated geometric tail
/// `(r^c / c!) (1 - ρ^(k+1)) / (1 - ρ)`, here
/// `(bc - a) busy = a^c ((bc)^(k+1) - a^(k+1))`; when `ρ = 1` (`a = bc`) it is
/// the limiting case `(r^c / c!) (k + 1)`, here `busy = (k + 1) a^c (bc)^k`.
pub proof fn lemma_mmck_closed_form(a: int, b: int, c: nat, k: nat)
    ensures
        ({
            let busy = mmck_sum(a, b, c, k, c + k + 1) - mmck_sum(a, b, c, k, c);
            &&& busy == pow(a, c) * geometric(a, b * c, k, k + 1)
            &&& (b * c - a) * busy == pow(a, c) * (pow(b * c, k + 1) - pow(a, k + 1))
            &&& a == b * c ==> busy == (k + 1) * pow(a, c) * pow(b * c, k)
        }),
{
    lemma_mmck_busy_sum(a, b, c, k, k + 1);
    lemma_geometric(a, b * c, k, k + 1);
    assert(pow(b * c, 0) == 1) by {
        reveal(pow);
    }
    let g = geometric(a, b * c, k, k + 1);
    let ac = pow(a, c);
    assert((b * c - a) * (ac * g) == ac * ((b * c - a) * g)) by (nonlinear_arith);
    if a == b * c {
        lemma_geometric_unit(a, k, k + 1);
        assert(ac * ((k + 1) * pow(a, k)) == (k + 1) * ac * pow(a, k)) by (nonlinear_arith);
    }
}

} // verus!
