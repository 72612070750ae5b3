//! Affine point addition on an elliptic curve over a prime field.
use vstd::prelude::*;
use vstd::arithmetic::div_mod::{
    lemma_add_mod_noop,
    lemma_mod_twice,
    lemma_mul_mod_noop_left,
    lemma_small_mod,
    lemma_sub_mod_noop,
};
use crate::arithmetic256::{
    addm_spec,
    has_inverse,
    is_prime,
    limb_base,
    mulm_spec,
    subm_spec,
    u256,
    word_mod,
};
use crate::error::CryptoError;

verus! {

/// A point `(x, y)` in affine coordinates.
#[derive(Clone, Copy, Debug, PartialEq, Eq, Structural)]
pub struct EcPoint {
    pub x: u256,
    pub y: u256,
}

/// The curve `y^2 = x^3 + a*x + b` over the integers modulo the prime `p`.
#[derive(Clone, Copy, Debug, PartialEq, Eq, Structural)]
pub struct EllCurve {
    pub p: u256,
    pub a: u256,
    pub b: u256,
}

/// `(x3, y3)` is the third point on the chord through `(x1, y1)` and
/// `(x2, y2)`, reflected: for the chord's slope `alpha` modulo `p`,
/// `x3 = alpha^2 - x1 - x2` and `y3 = alpha * (x2 - x3) - y2`, both reduced.
pub open spec fn chord_sum(x1: int, y1: int, x2: int, y2: int, p: int, x3: int, y3: int) -> bool {
    exists|alpha: int|
        0 <= alpha < p && #[trigger] ((alpha * (x1 - x2)) % p) == (y1 - y2) % p && x3 == (alpha
            * alpha - x1 - x2) % p && y3 == (alpha * (x2 - x3) - y2) % p
}

/// The chord sum in the 256-bit modular operations, for reduced coordinates
/// and an inverse `i` of `x1 - x2`: slope, then `x3`, then `y3`.
pub open spec fn modular_chord(x1: int, y1: int, x2: int, y2: int, i: int, p: int) -> (int, int) {
    let alpha = mulm_spec(subm_spec(y1, y2, p), i, p);
    let x3 = addm_spec(subm_spec(subm_spec(0, x1, p), x2, p), mulm_spec(alpha, alpha, p), p);
    let y3 = addm_spec(subm_spec(0, y2, p), mulm_spec(subm_spec(x2, x3, p), alpha, p), p);
    (x3, y3)
}

impl EllCurve {
    /// The sum of two points with distinct x coordinates, by the chord rule.
    /// `DegenerateAddition` where the x coordinates agree modulo `p`;
    /// `NonInvertible` where `x1 - x2` has no inverse modulo `p` (never, for a prime `p`).
    #[verifier::rlimit(100)]
    pub fn add(&self, a: &EcPoint, b: &EcPoint) -> (r: Result<EcPoint, CryptoError>)
        requires
            self.p.val() != 0,
        ensures
            a.x.val() % self.p.val() == b.x.val() % self.p.val() <==> r == Err::<
                EcPoint,
                CryptoError,
            >(CryptoError::DegenerateAddition),
            r matches Err(e) ==> e == CryptoError::DegenerateAddition || e
                == CryptoError::NonInvertible,
            r matches Ok(s) ==> s.x.val() < self.p.val() && s.y.val() < self.p.val(),
            self.p.val() < limb_base() && a.x.val() % self.p.val() != b.x.val() % self.p.val()
                && has_inverse(a.x.val() - b.x.val(), self.p.val()) ==> r is Ok,
            self.p.val() < limb_base() && is_prime(self.p.val()) && a.x.val() % self.p.val()
                != b.x.val() % self.p.val() ==> r is Ok,
            r matches Ok(s) ==> exists|i: int|
                0 <= i < self.p.val() && mulm_spec(
                    i,
                    subm_spec(a.x.val() % self.p.val(), b.x.val() % self.p.val(), self.p.val()),
                    self.p.val(),
                ) == 1 && (s.x.val(), s.y.val()) == #[trigger] modular_chord(
                    a.x.val() % self.p.val(),
                    a.y.val() % self.p.val(),
                    b.x.val() % self.p.val(),
                    b.y.val() % self.p.val(),
                    i,
                    self.p.val(),
                ),
            r matches Ok(s) ==> self.p.val() < limb_base() ==> chord_sum(
                a.x.val(),
                a.y.val(),
                b.x.val(),
                b.y.val(),
                self.p.val(),
                s.x.val(),
                s.y.val(),
            ),
    {
        let base = &self.p;
        let x1 = a.x.reduced(base);
        let y1 = a.y.reduced(base);
        let x2 = b.x.reduced(base);
        let y2 = b.y.reduced(base);
        if x1.le(&x2) && x2.le(&x1) {
            return Err(CryptoError::DegenerateAddition);
        }
        let mut dx = x1;
        dx.subm(&x2, base);
        proof {
            let p = base.val();
            if p < limb_base() && has_inverse(a.x.val() - b.x.val(), p) {
                let y = choose|y: int| #[trigger] (((a.x.val() - b.x.val()) * y) % p) == 1;
                lemma_sub_mod_noop(a.x.val(), b.x.val(), p);
                lemma_mul_mod_noop_left(a.x.val() - b.x.val(), y, p);
                lemma_mul_mod_noop_left(dx.val(), y, p);
                lemma_mod_twice(a.x.val() - b.x.val(), p);
                assert(((dx.val() * y) % p) == 1);
            }
            lemma_small_mod(dx.val() as nat, p as nat);
            let (u, v) = (x1.val(), x2.val());
            if u > v {
                lemma_small_mod((u - v) as nat, p as nat);
            } else {
                vstd::arithmetic::div_mod::lemma_mod_add_multiples_vanish(u - v, p);
                lemma_small_mod((u - v + p) as nat, p as nat);
            }
            assert(dx.val() != 0);
        }
        let inv = match dx.inv(base) {
            Ok(i) => i,
            Err(_) => {
                return Err(CryptoError::NonInvertible);
            },
        };
        // alpha = (y1 - y2) / (x1 - x2)
        let mut dy = y1;
        dy.subm(&y2, base);
        let mut alpha = dy;
        alpha.mulm(&inv, base);
        // x3 = alpha^2 - x1 - x2
        let mut t1 = u256::zero();
        t1.subm(&x1, base);
        let ghost t1a = t1.val();
        t1.subm(&x2, base);
        let mut t0 = alpha;
        t0.mulm(&alpha, base);
        let ghost t1b = t1.val();
        t1.addm(&t0, base);
        let x3 = t1;
        // y3 = alpha * (x2 - x3) - y2
        let mut y3 = u256::zero();
        y3.subm(&y2, base);
        let mut t2 = x2;
        t2.subm(&x3, base);
        let ghost t2a = t2.val();
        t2.mulm(&alpha, base);
        let ghost y3a = y3.val();
        y3.addm(&t2, base);
        proof {
            let p = base.val();
            lemma_small_mod(dx.val() as nat, p as nat);
            assert(mulm_spec(inv.val(), dx.val(), p) == 1);
            assert((x3.val(), y3.val()) == modular_chord(
                x1.val(),
                y1.val(),
                x2.val(),
                y2.val(),
                inv.val(),
                p,
            ));
            if p < limb_base() {
                let (dv, iv) = (dy.val(), inv.val());
                assert(dv * iv < word_mod()) by (nonlinear_arith)
                    requires
                        0 <= dv < p,
                        0 <= iv < p,
                        p < limb_base(),
                        word_mod() == limb_base() * limb_base(),
                ;
                let (al, ta) = (alpha.val(), t2a);
                assert(al * al < word_mod() && ta * al < word_mod()) by (nonlinear_arith)
                    requires
                        0 <= al < p,
                        0 <= ta < p,
                        p < limb_base(),
                        word_mod() == limb_base() * limb_base(),
                ;
                lemma_small_mod(dx.val() as nat, p as nat);
            let (u, v) = (x1.val(), x2.val());
            if u > v {
                lemma_small_mod((u - v) as nat, p as nat);
            } else {
                vstd::arithmetic::div_mod::lemma_mod_add_multiples_vanish(u - v, p);
                lemma_small_mod((u - v + p) as nat, p as nat);
            }
            assert(dx.val() != 0);
                lemma_chord(
                    a.x.val(), a.y.val(), b.x.val(), b.y.val(), p,
                    dx.val(), inv.val(), dy.val(), alpha.val(),
                    t1a, t1b, t0.val(), x3.val(), y3a, t2a, t2.val(), y3.val(),
                );
            }
        }
        Ok(EcPoint { x: x3, y: y3 })
    }
}

proof fn lemma_chord(
    x1: int, y1: int, x2: int, y2: int, p: int,
    dx: int, inv: int, dy: int, alpha: int,
    t1a: int, t1b: int, t0: int, x3: int, y3a: int, t2a: int, t2b: int, y3: int,
)
    requires
        0 < p < limb_base(),
        0 <= x1, 0 <= y1, 0 <= x2, 0 <= y2,
        dx == (x1 % p - x2 % p) % p,
        0 <= inv < p,
        ((inv * dx) % (limb_base() * limb_base())) % p == 1,
        dy == (y1 % p - y2 % p) % p,
        alpha == (dy * inv) % p,
        t1a == (0 - x1 % p) % p,
        t1b == (t1a - x2 % p) % p,
        t0 == (alpha * alpha) % p,
        x3 == (t1b + t0) % p,
        y3a == (0 - y2 % p) % p,
        t2a == (x2 % p - x3) % p,
        t2b == (t2a * alpha) % p,
        y3 == (y3a + t2b) % p,
    ensures
        chord_sum(x1, y1, x2, y2, p, x3, y3),
{
    let m = limb_base() * limb_base();
    assert(0 <= inv * dx < m) by (nonlinear_arith)
        requires
            0 <= inv < p,
            0 <= dx < p,
            p < limb_base(),
            m == limb_base() * limb_base(),
    ;
    lemma_small_mod((inv * dx) as nat, m as nat);
    if p == 1 {
        assert((inv * dx) % 1 == 0);
    }
    lemma_small_mod(1, p as nat);
    // The slope: alpha * (x1 - x2) == y1 - y2.
    lemma_sub_mod_noop(x1, x2, p);
    lemma_mod_twice(x1 - x2, p);
    lemma_sub_mod_noop(y1, y2, p);
    lemma_mod_twice(dy * inv, p);
    lemma_cong_mul(x1 - x2, dx, alpha, p);
    lemma_cong_mul(alpha, dy * inv, dx, p);
    lemma_cong_mul(inv * dx, 1, dy, p);
    lemma_mod_twice(y1 - y2, p);
    assert((x1 - x2) * alpha == alpha * (x1 - x2)) by (nonlinear_arith);
    assert(dx * alpha == alpha * dx) by (nonlinear_arith);
    assert(dy * inv * dx == (inv * dx) * dy) by (nonlinear_arith);
    assert((alpha * (x1 - x2)) % p == (y1 - y2) % p);
    // x3 == alpha^2 - x1 - x2
    lemma_sub_mod_noop(0, x1, p);
    lemma_sub_mod_noop(0 - x1, x2, p);
    lemma_add_mod_noop(0 - x1 - x2, alpha * alpha, p);
    lemma_mod_twice(0 - x1 - x2, p);
    lemma_mod_twice(alpha * alpha, p);
    assert(x3 == (alpha * alpha - x1 - x2) % p);
    // y3 == alpha * (x2 - x3) - y2
    lemma_sub_mod_noop(0, y2, p);
    lemma_mod_twice(0 - x1 - x2 + alpha * alpha, p);
    lemma_sub_mod_noop(x2, x3, p);
    lemma_mul_mod_noop_left(x2 - x3, alpha, p);
    lemma_add_mod_noop(0 - y2, (x2 - x3) * alpha, p);
    lemma_mod_twice(0 - y2, p);
    lemma_mod_twice((x2 - x3) * alpha, p);
    assert((x2 - x3) * alpha == alpha * (x2 - x3)) by (nonlinear_arith);
    assert(y3 == (alpha * (x2 - x3) - y2) % p);
}

/// Congruence modulo `p` is kept by multiplication.
proof fn lemma_cong_mul(u: int, v: int, w: int, p: int)
    requires
        0 < p,
        u % p == v % p,
    ensures
        (u * w) % p == (v * w) % p,
{
    lemma_mul_mod_noop_left(u, w, p);
    lemma_mul_mod_noop_left(v, w, p);
}

} // verus!
