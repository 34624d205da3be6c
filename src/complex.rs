//! Exact complex amplitudes.
//!
//! Amplitudes live in the field GF(p²) with p = 2³¹ − 1: pairs `re + i·im`
//! of residues modulo p, with i² = −1. Since p ≡ 3 (mod 4), −1 is not a
//! square modulo p, so this is a field, and complex conjugation
//! (`im ↦ −im`) is a field automorphism. Since p ≡ 7 (mod 8), 2 is a square
//! modulo p: √2 = 2¹⁶ and 1/√2 = 2¹⁵. Every amplitude that the optical
//! elements use (±1, ±i, 1/√2, 1/2) is therefore represented exactly, every
//! operation is exact, and a zero test is a plain comparison with zero.
use vstd::arithmetic::div_mod::*;
use vstd::prelude::*;

verus! {

/// The prime p = 2³¹ − 1 over which amplitudes are computed.
pub const MODULUS: u64 = 2147483647;

/// 2¹⁵, the residue of 1/√2 modulo p.
pub const FRAC_1_SQRT_2: u32 = 32768;

/// The residue of `x` modulo p, in `0..p`.
pub open spec fn md(x: int) -> int {
    x % (MODULUS as int)
}

/// An element `re + i·im` of GF(p²).
#[derive(Clone, Copy, Debug, PartialEq, Eq, Structural)]
pub struct Complex {
    pub re: u32,
    pub im: u32,
}

/// The reduced amplitude with real part `re` and imaginary part `im`.
pub open spec fn cx_spec(re: int, im: int) -> Complex {
    Complex { re: md(re) as u32, im: md(im) as u32 }
}

impl Complex {
    /// Both parts are reduced residues.
    pub open spec fn wf(self) -> bool {
        self.re < MODULUS && self.im < MODULUS
    }

    pub open spec fn is_zero_spec(self) -> bool {
        self.re == 0 && self.im == 0
    }

    pub open spec fn zero_spec() -> Complex {
        Complex { re: 0, im: 0 }
    }

    pub open spec fn one_spec() -> Complex {
        Complex { re: 1, im: 0 }
    }

    pub open spec fn add_spec(self, o: Complex) -> Complex {
        cx_spec(self.re + o.re, self.im + o.im)
    }

    pub open spec fn sub_spec(self, o: Complex) -> Complex {
        cx_spec(self.re - o.re, self.im - o.im)
    }

    pub open spec fn neg_spec(self) -> Complex {
        cx_spec(-self.re, -self.im)
    }

    pub open spec fn mul_spec(self, o: Complex) -> Complex {
        cx_spec(self.re * o.re - self.im * o.im, self.re * o.im + self.im * o.re)
    }

    pub open spec fn conj_spec(self) -> Complex {
        cx_spec(self.re as int, -self.im)
    }

    /// |z|² = re² + im², a residue modulo p.
    pub open spec fn abs2_spec(self) -> int {
        md(self.re * self.re + self.im * self.im)
    }

    /// The amplitude `re + i·im`, both parts taken modulo p.
    pub fn new(re: i64, im: i64) -> (r: Complex)
        ensures
            r == cx_spec(re as int, im as int),
            r.wf(),
    {
        Complex { re: reduce(re), im: reduce(im) }
    }

    pub fn zero() -> (r: Complex)
        ensures
            r == Complex::zero_spec(),
            r.wf(),
    {
        Complex { re: 0, im: 0 }
    }

    pub fn one() -> (r: Complex)
        ensures
            r == Complex::one_spec(),
            r.wf(),
    {
        Complex { re: 1, im: 0 }
    }

    /// The imaginary unit.
    pub fn i() -> (r: Complex)
        ensures
            r == (Complex { re: 0, im: 1 }),
            r.wf(),
    {
        Complex { re: 0, im: 1 }
    }

    /// 1/√2, exactly.
    pub fn frac_1_sqrt_2() -> (r: Complex)
        ensures
            r == (Complex { re: FRAC_1_SQRT_2, im: 0 }),
            r.wf(),
            r.mul_spec(r).add_spec(r.mul_spec(r)) == Complex::one_spec(),
    {
        assert(md(32768int * 32768 - 0 * 0) == 1073741824);
        assert(md(32768int * 0 + 0 * 32768) == 0);
        assert(md(1073741824int + 1073741824) == 1);
        Complex { re: FRAC_1_SQRT_2, im: 0 }
    }

    /// Whether the amplitude is exactly zero.
    pub fn is_zero(&self) -> (r: bool)
        ensures
            r == self.is_zero_spec(),
    {
        self.re == 0 && self.im == 0
    }

    pub fn add(&self, o: &Complex) -> (r: Complex)
        requires
            self.wf(),
            o.wf(),
        ensures
            r == self.add_spec(*o),
            r.wf(),
    {
        let re = ((self.re as u64 + o.re as u64) % MODULUS) as u32;
        let im = ((self.im as u64 + o.im as u64) % MODULUS) as u32;
        Complex { re, im }
    }

    pub fn neg(&self) -> (r: Complex)
        requires
            self.wf(),
        ensures
            r == self.neg_spec(),
            r.wf(),
    {
        Complex { re: negate(self.re), im: negate(self.im) }
    }

    pub fn sub(&self, o: &Complex) -> (r: Complex)
        requires
            self.wf(),
            o.wf(),
        ensures
            r == self.sub_spec(*o),
            r.wf(),
    {
        let re = ((self.re as u64 + (MODULUS - o.re as u64)) % MODULUS) as u32;
        let im = ((self.im as u64 + (MODULUS - o.im as u64)) % MODULUS) as u32;
        proof {
            lemma_mod_multiples_vanish(1, self.re - o.re, MODULUS as int);
            lemma_mod_multiples_vanish(1, self.im - o.im, MODULUS as int);
        }
        Complex { re, im }
    }

    pub fn mul(&self, o: &Complex) -> (r: Complex)
        requires
            self.wf(),
            o.wf(),
        ensures
            r == self.mul_spec(*o),
            r.wf(),
    {
        let p = MODULUS;
        let (a, b, c, d) = (self.re as u64, self.im as u64, o.re as u64, o.im as u64);
        assert(a * c < 0x4000_0000_0000_0000) by (nonlinear_arith)
            requires a < p, c < p, p == MODULUS;
        assert(b * d < 0x4000_0000_0000_0000) by (nonlinear_arith)
            requires b < p, d < p, p == MODULUS;
        assert(a * d < 0x4000_0000_0000_0000) by (nonlinear_arith)
            requires a < p, d < p, p == MODULUS;
        assert(b * c < 0x4000_0000_0000_0000) by (nonlinear_arith)
            requires b < p, c < p, p == MODULUS;
        let ac = (a * c) % p;
        let bd = (b * d) % p;
        let ad = (a * d) % p;
        let bc = (b * c) % p;
        let re = ((ac + (p - bd)) % p) as u32;
        let im = ((ad + bc) % p) as u32;
        proof {
            let pi = p as int;
            lemma_mod_multiples_vanish(1, ac - bd, pi);
            lemma_sub_mod_noop((a * c) as int, (b * d) as int, pi);
            lemma_add_mod_noop((a * d) as int, (b * c) as int, pi);
        }
        Complex { re, im }
    }

    /// The complex conjugate `re − i·im`.
    pub fn conj(&self) -> (r: Complex)
        requires
            self.wf(),
        ensures
            r == self.conj_spec(),
            r.wf(),
    {
        Complex { re: self.re, im: negate(self.im) }
    }

    /// |z|² = re² + im², as a residue modulo p.
    pub fn abs2(&self) -> (r: u32)
        requires
            self.wf(),
        ensures
            r as int == self.abs2_spec(),
    {
        let p = MODULUS;
        let (a, b) = (self.re as u64, self.im as u64);
        assert(a * a < 0x4000_0000_0000_0000) by (nonlinear_arith)
            requires a < p, p == MODULUS;
        assert(b * b < 0x4000_0000_0000_0000) by (nonlinear_arith)
            requires b < p, p == MODULUS;
        proof {
            lemma_add_mod_noop((a * a) as int, (b * b) as int, p as int);
        }
        (((a * a) % p + (b * b) % p) % p) as u32
    }
}

/// `x` modulo p.
fn reduce(x: i64) -> (r: u32)
    ensures
        r as int == md(x as int),
{
    if x >= 0 {
        ((x as u64) % MODULUS) as u32
    } else {
        let n = (-(x + 1)) as u64;
        let q = n % MODULUS;
        proof {
            let p = MODULUS as int;
            lemma_fundamental_div_mod(n as int, p);
            let k = (n as int) / p;
            assert(x as int == p * (-k - 1) + (p - 1 - q)) by (nonlinear_arith)
                requires x as int == -(n as int) - 1, n as int == p * k + q;
            lemma_mod_multiples_vanish(-k - 1, p - 1 - q, p);
            lemma_small_mod((p - 1 - q) as nat, p as nat);
        }
        (MODULUS - 1 - q) as u32
    }
}

/// −x modulo p, for a reduced residue x.
fn negate(x: u32) -> (r: u32)
    requires
        x < MODULUS,
    ensures
        r as int == md(-(x as int)),
{
    proof {
        lemma_mod_multiples_vanish(1, -(x as int), MODULUS as int);
    }
    ((MODULUS - x as u64) % MODULUS) as u32
}

} // verus!

verus! {

/// Zero is neutral for addition.
pub proof fn lemma_add_zero(a: Complex)
    requires
        a.wf(),
    ensures
        a.add_spec(Complex::zero_spec()) == a,
        Complex::zero_spec().add_spec(a) == a,
{
    lemma_small_mod(a.re as nat, MODULUS as nat);
    lemma_small_mod(a.im as nat, MODULUS as nat);
}

/// Multiplying by zero gives zero.
pub proof fn lemma_mul_zero(a: Complex)
    ensures
        a.mul_spec(Complex::zero_spec()) == Complex::zero_spec(),
        Complex::zero_spec().mul_spec(a) == Complex::zero_spec(),
{
}

/// One is neutral for multiplication.
pub proof fn lemma_mul_one(a: Complex)
    requires
        a.wf(),
    ensures
        a.mul_spec(Complex::one_spec()) == a,
        Complex::one_spec().mul_spec(a) == a,
{
    lemma_small_mod(a.re as nat, MODULUS as nat);
    lemma_small_mod(a.im as nat, MODULUS as nat);
}

/// An amplitude minus itself is zero.
pub proof fn lemma_sub_self(a: Complex)
    ensures
        a.sub_spec(a) == Complex::zero_spec(),
{
}

/// Adding then subtracting the same amplitude gives back the first one.
pub proof fn lemma_add_sub_cancel(a: Complex, b: Complex)
    requires
        a.wf(),
        b.wf(),
    ensures
        a.add_spec(b).sub_spec(b) == a,
{
    let p = MODULUS as int;
    lemma_sub_mod_noop(a.re + b.re, b.re as int, p);
    lemma_sub_mod_noop(a.im + b.im, b.im as int, p);
    lemma_small_mod(a.re as nat, MODULUS as nat);
    lemma_small_mod(a.im as nat, MODULUS as nat);
    lemma_small_mod(b.re as nat, MODULUS as nat);
    lemma_small_mod(b.im as nat, MODULUS as nat);
}

/// Conjugating twice gives back the amplitude.
pub proof fn lemma_conj_conj(a: Complex)
    requires
        a.wf(),
    ensures
        a.conj_spec().conj_spec() == a,
        a.conj_spec().wf(),
{
    let p = MODULUS as int;
    lemma_sub_mod_noop_right(0, -(a.im as int), p);
    lemma_small_mod(a.re as nat, MODULUS as nat);
    lemma_small_mod(a.im as nat, MODULUS as nat);
}

/// Subtracting is adding the negation.
pub proof fn lemma_sub_is_add_neg(a: Complex, b: Complex)
    requires
        a.wf(),
        b.wf(),
    ensures
        a.sub_spec(b) == a.add_spec(b.neg_spec()),
{
    let p = MODULUS as int;
    lemma_add_mod_noop_right(a.re as int, -(b.re as int), p);
    lemma_add_mod_noop_right(a.im as int, -(b.im as int), p);
}

} // verus!

verus! {

/// Subtracting then adding the same amplitude gives back the first one.
pub proof fn lemma_sub_add_cancel(a: Complex, b: Complex)
    requires
        a.wf(),
        b.wf(),
    ensures
        b.add_spec(a.sub_spec(b)) == a,
{
    let p = MODULUS as int;
    lemma_add_mod_noop_right(b.re as int, a.re - b.re, p);
    lemma_add_mod_noop_right(b.im as int, a.im - b.im, p);
    lemma_small_mod(a.re as nat, MODULUS as nat);
    lemma_small_mod(a.im as nat, MODULUS as nat);
}

} // verus!

verus! {

/// Multiplying by −1 negates.
pub proof fn lemma_mul_minus_one(a: Complex)
    requires
        a.wf(),
    ensures
        cx_spec(-1, 0).mul_spec(a) == a.neg_spec(),
{
    let p = MODULUS as int;
    assert(cx_spec(-1, 0).re == p - 1) by {
        lemma_mod_multiples_vanish(-1, p - 1, p);
        lemma_small_mod((p - 1) as nat, p as nat);
    }
    assert((p - 1) * a.re - 0 * a.im == p * a.re + (-(a.re as int))) by (nonlinear_arith);
    assert((p - 1) * a.im + 0 * a.re == p * a.im + (-(a.im as int))) by (nonlinear_arith);
    lemma_mod_multiples_vanish(a.re as int, -(a.re as int), p);
    lemma_mod_multiples_vanish(a.im as int, -(a.im as int), p);
}

/// Results of the arithmetic are reduced.
pub proof fn lemma_mul_wf(a: Complex, b: Complex)
    ensures
        a.mul_spec(b).wf(),
        a.add_spec(b).wf(),
        a.sub_spec(b).wf(),
        a.conj_spec().wf(),
        a.neg_spec().wf(),
{
}

} // verus!

verus! {

/// Reducing the factors of a sum or difference of products first does not
/// change the residue.
proof fn lemma_reduce_combination(x: int, y: int, c: int, d: int)
    ensures
        md(md(x) * c - md(y) * d) == md(x * c - y * d),
        md(md(x) * c + md(y) * d) == md(x * c + y * d),
        md(c * md(x) - d * md(y)) == md(c * x - d * y),
        md(c * md(x) + d * md(y)) == md(c * x + d * y),
{
    let p = MODULUS as int;
    lemma_mul_mod_noop_left(x, c, p);
    lemma_mul_mod_noop_left(y, d, p);
    lemma_mul_mod_noop_right(c, x, p);
    lemma_mul_mod_noop_right(d, y, p);
    lemma_sub_mod_noop(md(x) * c, md(y) * d, p);
    lemma_sub_mod_noop(x * c, y * d, p);
    lemma_add_mod_noop(md(x) * c, md(y) * d, p);
    lemma_add_mod_noop(x * c, y * d, p);
    lemma_sub_mod_noop(c * md(x), d * md(y), p);
    lemma_sub_mod_noop(c * x, d * y, p);
    lemma_add_mod_noop(c * md(x), d * md(y), p);
    lemma_add_mod_noop(c * x, d * y, p);
}

/// Multiplication is associative.
pub proof fn lemma_mul_assoc(a: Complex, b: Complex, c: Complex)
    ensures
        a.mul_spec(b).mul_spec(c) == a.mul_spec(b.mul_spec(c)),
{
    let (ar, ai, br, bi, cr, ci) = (
        a.re as int,
        a.im as int,
        b.re as int,
        b.im as int,
        c.re as int,
        c.im as int,
    );
    let x = ar * br - ai * bi;
    let y = ar * bi + ai * br;
    let u = br * cr - bi * ci;
    let v = br * ci + bi * cr;
    lemma_reduce_combination(x, y, cr, ci);
    lemma_reduce_combination(x, y, ci, cr);
    lemma_reduce_combination(u, v, ar, ai);
    lemma_reduce_combination(v, u, ar, ai);
    assert(x * cr == ar * br * cr - ai * bi * cr) by (nonlinear_arith)
        requires x == ar * br - ai * bi;
    assert(y * ci == ar * bi * ci + ai * br * ci) by (nonlinear_arith)
        requires y == ar * bi + ai * br;
    assert(x * ci == ar * br * ci - ai * bi * ci) by (nonlinear_arith)
        requires x == ar * br - ai * bi;
    assert(y * cr == ar * bi * cr + ai * br * cr) by (nonlinear_arith)
        requires y == ar * bi + ai * br;
    assert(ar * u == ar * br * cr - ar * bi * ci) by (nonlinear_arith)
        requires u == br * cr - bi * ci;
    assert(ai * v == ai * br * ci + ai * bi * cr) by (nonlinear_arith)
        requires v == br * ci + bi * cr;
    assert(ar * v == ar * br * ci + ar * bi * cr) by (nonlinear_arith)
        requires v == br * ci + bi * cr;
    assert(ai * u == ai * br * cr - ai * bi * ci) by (nonlinear_arith)
        requires u == br * cr - bi * ci;
}

} // verus!

verus! {

/// Residues that agree modulo p give the same residue after adding or
/// subtracting the same amount.
proof fn lemma_congruent_shift(x: int, y: int, z: int)
    requires
        md(x) == md(y),
    ensures
        md(z - x) == md(z - y),
        md(z + x) == md(z + y),
{
    let p = MODULUS as int;
    lemma_sub_mod_noop_right(z, x, p);
    lemma_sub_mod_noop_right(z, y, p);
    lemma_add_mod_noop_right(z, x, p);
    lemma_add_mod_noop_right(z, y, p);
}

/// Addition is commutative.
pub proof fn lemma_add_comm(a: Complex, b: Complex)
    ensures
        a.add_spec(b) == b.add_spec(a),
{
}

/// Addition is associative.
pub proof fn lemma_add_assoc(a: Complex, b: Complex, c: Complex)
    requires
        a.wf(),
        b.wf(),
        c.wf(),
    ensures
        a.add_spec(b).add_spec(c) == a.add_spec(b.add_spec(c)),
{
    let p = MODULUS as int;
    lemma_small_mod(c.re as nat, MODULUS as nat);
    lemma_small_mod(c.im as nat, MODULUS as nat);
    lemma_add_mod_noop(a.re + b.re, c.re as int, p);
    lemma_add_mod_noop(a.im + b.im, c.im as int, p);
    lemma_add_mod_noop_right(a.re as int, b.re + c.re, p);
    lemma_add_mod_noop_right(a.im as int, b.im + c.im, p);
}

/// Multiplication is commutative.
pub proof fn lemma_mul_comm(a: Complex, b: Complex)
    ensures
        a.mul_spec(b) == b.mul_spec(a),
{
    assert(a.re * b.re - a.im * b.im == b.re * a.re - b.im * a.im) by (nonlinear_arith);
    assert(a.re * b.im + a.im * b.re == b.re * a.im + b.im * a.re) by (nonlinear_arith);
}

/// Conjugation distributes over addition.
pub proof fn lemma_conj_add(a: Complex, b: Complex)
    requires
        a.wf(),
        b.wf(),
    ensures
        a.add_spec(b).conj_spec() == a.conj_spec().add_spec(b.conj_spec()),
{
    let p = MODULUS as int;
    let s = a.add_spec(b);
    lemma_mod_twice(a.re + b.re, p);
    lemma_small_mod(a.re as nat, MODULUS as nat);
    lemma_small_mod(b.re as nat, MODULUS as nat);
    lemma_add_mod_noop(-(a.im as int), -(b.im as int), p);
    lemma_sub_mod_noop_right(0, a.im + b.im, p);
    assert(0 - (a.im + b.im) == -(a.im as int) + -(b.im as int));
    assert(s.conj_spec().im == md(-(s.im as int)));
    assert(s.im as int == md(a.im + b.im));
}

/// Conjugation distributes over multiplication.
pub proof fn lemma_conj_mul(a: Complex, b: Complex)
    requires
        a.wf(),
        b.wf(),
    ensures
        a.mul_spec(b).conj_spec() == a.conj_spec().mul_spec(b.conj_spec()),
{
    let p = MODULUS as int;
    let (ar, ai, br, bi) = (a.re as int, a.im as int, b.re as int, b.im as int);
    let (ni, nb) = (md(-ai), md(-bi));
    lemma_small_mod(a.re as nat, MODULUS as nat);
    lemma_small_mod(b.re as nat, MODULUS as nat);
    // real part: ar·br − ni·nb ≡ ar·br − ai·bi
    lemma_mul_mod_noop(-ai, -bi, p);
    assert((-ai) * (-bi) == ai * bi) by (nonlinear_arith);
    assert(md(ni * nb) == md(ai * bi));
    lemma_congruent_shift(ni * nb, ai * bi, ar * br);
    lemma_mod_twice(ar * br - ai * bi, p);
    // imaginary part: ar·nb + ni·br ≡ −(ar·bi + ai·br)
    lemma_mul_mod_noop_right(ar, -bi, p);
    lemma_mul_mod_noop_left(-ai, br, p);
    lemma_add_mod_noop(ar * nb, ni * br, p);
    lemma_add_mod_noop(ar * (-bi), (-ai) * br, p);
    assert(ar * (-bi) + (-ai) * br == 0 - (ar * bi + ai * br)) by (nonlinear_arith);
    lemma_sub_mod_noop_right(0, ar * bi + ai * br, p);
}

} // verus!
