//! The 256-bit unsigned integer `u256` and the modular arithmetic built on it.
use vstd::prelude::*;
use vstd::arithmetic::power2::pow2;
use vstd::arithmetic::div_mod::{lemma_mod_twice, lemma_mul_mod_noop_left, lemma_sub_mod_noop};
use crate::error::CryptoError;

verus! {

/// 2^128, the weight of the high limb.
pub open spec fn limb_base() -> int {
    (0x8000_0000_0000_0000_0000_0000_0000_0000 * 2) as int
}

/// 2^256: every non-modular operation wraps modulo this.
pub open spec fn word_mod() -> int {
    limb_base() * limb_base()
}

/// An unsigned 256-bit integer held as two 128-bit limbs, low limb first.
#[allow(non_camel_case_types)]
#[derive(Clone, Copy, Debug, PartialEq, Eq, Structural)]
pub struct u256 {
    pub lo: u128,
    pub hi: u128,
}

impl u256 {
    /// The number this value stands for.
    pub open spec fn val(self) -> int {
        self.hi * limb_base() + self.lo
    }

    /// The value `data[0] * 2^128 + data[1]`: limbs are given most significant first.
    pub fn new(data: &[u128; 2]) -> (r: u256)
        ensures
            r.val() == data[0] * limb_base() + data[1],
    {
        u256 { lo: data[1], hi: data[0] }
    }

    /// Zero.
    pub fn zero() -> (r: u256)
        ensures
            r.val() == 0,
    {
        u256 { lo: 0, hi: 0 }
    }

    /// The low limb and the high limb.
    pub fn limbs(&self) -> (r: (u128, u128))
        ensures
            r.0 == self.lo,
            r.1 == self.hi,
            self.val() == r.1 * limb_base() + r.0,
    {
        (self.lo, self.hi)
    }

    /// `self = self + other (mod 2^256)`.
    pub fn add(&mut self, other: &u256)
        ensures
            final(self).val() == (old(self).val() + other.val()) % word_mod(),
    {
        let lo = self.lo.wrapping_add(other.lo);
        let carry: u128 = if lo < self.lo { 1 } else { 0 };
        let hi = self.hi.wrapping_add(other.hi).wrapping_add(carry);
        proof {
            let t = old(self).hi + other.hi + carry;
            let j: int = if t >= limb_base() { 1 } else { 0 };
            lemma_limb_wrap(old(self).val() + other.val(), t, j, hi as int, lo as int);
        }
        self.lo = lo;
        self.hi = hi;
    }

    /// `self = self - other (mod 2^256)`.
    pub fn sub(&mut self, other: &u256)
        ensures
            final(self).val() == (old(self).val() - other.val()) % word_mod(),
    {
        let lo = self.lo.wrapping_sub(other.lo);
        let borrow: u128 = if self.lo < other.lo { 1 } else { 0 };
        let hi = self.hi.wrapping_sub(other.hi).wrapping_sub(borrow);
        proof {
            let t = old(self).hi - other.hi - borrow;
            let j: int = if t < 0 { -1 } else { 0 };
            assert(lo == old(self).lo - other.lo + borrow * limb_base());
            assert(hi == t - j * limb_base());
            lemma_limb_wrap(old(self).val() - other.val(), t, j, hi as int, lo as int);
        }
        self.lo = lo;
        self.hi = hi;
    }

    /// `self = self * 2 (mod 2^256)`.
    pub fn shl(&mut self)
        ensures
            final(self).val() == (old(self).val() * 2) % word_mod(),
    {
        let top: u128 = self.lo >> 127u32;
        let lo = self.lo << 1u32;
        let hi = (self.hi << 1u32) | top;
        let (l0, h0) = (self.lo, self.hi);
        assert(lo == 2 * l0 - top * limb_base() && top <= 1) by (bit_vector)
            requires
                top == l0 >> 127u32,
                lo == l0 << 1u32,
        ;
        assert(hi == 2 * h0 + top - (h0 >> 127u32) * limb_base() && (h0 >> 127u32) <= 1)
            by (bit_vector)
            requires
                top <= 1,
                hi == (h0 << 1u32) | top,
        ;
        proof {
            let l = limb_base();
            let v = old(self).val();
            assert(v * 2 == (2 * h0 + top) * l + lo) by (nonlinear_arith)
                requires
                    lo == 2 * l0 - top * l,
                    v == h0 * l + l0,
            ;
            assert(2 * h0 + top == hi + (h0 >> 127u32) * limb_base());
            lemma_limb_wrap(old(self).val() * 2, 2 * h0 + top as int, (h0 >> 127u32) as int, hi as int, lo as int);
        }
        self.lo = lo;
        self.hi = hi;
    }

    /// `self = floor(self / 2)`.
    pub fn shr(&mut self)
        ensures
            final(self).val() == old(self).val() / 2,
    {
        let low_bit: u128 = self.hi & 1;
        let lo = (self.lo >> 1u32) | (low_bit << 127u32);
        let hi = self.hi >> 1u32;
        let (l0, h0) = (self.lo, self.hi);
        assert(lo * 2 + (l0 & 1) == l0 + low_bit * limb_base() && (l0 & 1) <= 1 && low_bit
            <= 1) by (bit_vector)
            requires
                low_bit == h0 & 1,
                lo == (l0 >> 1u32) | (low_bit << 127u32),
        ;
        assert(hi * 2 + low_bit == h0) by (bit_vector)
            requires
                low_bit == h0 & 1,
                hi == h0 >> 1u32,
        ;
        proof {
            let l = limb_base();
            let v = old(self).val();
            assert(v == (hi * l + lo) * 2 + (l0 & 1)) by (nonlinear_arith)
                requires
                    lo * 2 + (l0 & 1) == l0 + low_bit * l,
                    hi * 2 + low_bit == h0,
                    v == h0 * l + l0,
            ;
        }
        self.lo = lo;
        self.hi = hi;
    }

    /// Whether bit `bit` is set, bit 0 being the least significant.
    pub fn isset(&self, bit: u8) -> (r: bool)
        ensures
            r == ((self.val() / (pow2(bit as nat) as int)) % 2 == 1),
    {
        proof {
            lemma_bit_of(*self, bit as nat);
        }
        if bit < 128 {
            let w = self.lo >> (bit as u128);
            proof {
                vstd::bits::lemma_u128_shr_is_div(self.lo, bit as u128);
                assert((w & 1 == 1) == (w % 2 == 1)) by (bit_vector);
            }
            w & 1 == 1
        } else {
            let w = self.hi >> ((bit - 128) as u128);
            proof {
                vstd::bits::lemma_u128_shr_is_div(self.hi, (bit - 128) as u128);
                assert((w & 1 == 1) == (w % 2 == 1)) by (bit_vector);
            }
            w & 1 == 1
        }
    }

    /// `self <= other`.
    pub fn le(&self, other: &u256) -> (r: bool)
        ensures
            r == (self.val() <= other.val()),
    {
        proof {
            lemma_val_order(*self, *other);
        }
        if self.hi > other.hi {
            false
        } else if self.hi == other.hi && self.lo > other.lo {
            false
        } else {
            true
        }
    }

    /// `self < other`.
    pub fn lt(&self, other: &u256) -> (r: bool)
        ensures
            r == (self.val() < other.val()),
    {
        proof {
            lemma_val_order(*self, *other);
        }
        if self.hi < other.hi {
            true
        } else if self.hi == other.hi && self.lo < other.lo {
            true
        } else {
            false
        }
    }

    /// `self = self * other (mod 2^256)`, by shift-and-add over the bits of `self`.
    pub fn mul(&mut self, other: &u256)
        ensures
            final(self).val() == (old(self).val() * other.val()) % word_mod(),
    {
        let ghost a = self.val();
        let ghost b = other.val();
        proof {
            lemma_word_mod();
        }
        let mut res = u256::zero();
        let mut multiplier = *other;
        let mut i: u32 = 0;
        proof {
            lemma_val_order(*self, *other);
            lemma_val_order(*other, *self);
            vstd::arithmetic::power2::lemma2_to64();
            assert(a % 1 == 0);
            assert(b * 0 == 0);
            assert(b % word_mod() == b) by {
                vstd::arithmetic::div_mod::lemma_small_mod(b as nat, word_mod() as nat);
            }
        }
        while i < 256
            invariant
                i <= 256,
                a == self.val(),
                0 <= a < word_mod(),
                0 <= b,
                multiplier.val() == (b * pow2(i as nat)) % word_mod(),
                res.val() == (b * (a % (pow2(i as nat) as int))) % word_mod(),
            decreases 256 - i,
        {
            let bit_set = self.isset(i as u8);
            proof {
                lemma_mul_step(a, b, i as nat, bit_set);
            }
            if bit_set {
                res.add(&multiplier);
            }
            multiplier.shl();
            i = i + 1;
        }
        proof {
            lemma_pow2_256();
            vstd::arithmetic::div_mod::lemma_small_mod(a as nat, word_mod() as nat);
            assert(b * a == a * b) by (nonlinear_arith);
        }
        self.copy(&res);
    }

    /// Floor division: `Ok((self / d, self % d))`, or `InvalidOperand` where `d` is zero.
    pub fn div(&self, d: &u256) -> (r: Result<(u256, u256), CryptoError>)
        ensures
            d.val() == 0 <==> r == Err::<(u256, u256), CryptoError>(CryptoError::InvalidOperand),
            d.val() != 0 <==> r is Ok,
            r matches Ok((q, rem)) ==> q.val() == self.val() / d.val() && rem.val() == self.val()
                % d.val(),
    {
        proof {
            lemma_val_order(*d, *self);
        }
        if d.hi == 0 && d.lo == 0 {
            return Err(CryptoError::InvalidOperand);
        }
        let ghost a = self.val();
        let ghost dv = d.val();
        proof {
            lemma_word_mod();
            lemma_val_order(*self, *d);
            vstd::arithmetic::power2::lemma2_to64();
        }
        // Align the divisor under the most significant bit of the dividend.
        let mut dd = *d;
        let mut k: u32 = 0;
        while dd.hi < 0x8000_0000_0000_0000_0000_0000_0000_0000u128
            invariant
                0 <= a < word_mod(),
                1 <= dv,
                a == self.val(),
                1 <= dd.val() < word_mod(),
                dd.val() == dv * pow2(k as nat),
            ensures
                dd.val() == dv * pow2(k as nat),
                dd.hi < 0x8000_0000_0000_0000_0000_0000_0000_0000u128 ==> a < 2 * dd.val(),
            decreases word_mod() - dd.val(),
        {
            let mut t = dd;
            proof {
                lemma_val_order(dd, dd);
                lemma_pow2_256();
                if k >= 255 {
                    if k > 255 {
                        vstd::arithmetic::power2::lemma_pow2_strictly_increases(255, k as nat);
                    }
                    assert(dv * pow2(k as nat) >= pow2(255)) by (nonlinear_arith)
                        requires
                            1 <= dv,
                            pow2(k as nat) >= pow2(255),
                    ;
                    vstd::arithmetic::power2::lemma_pow2_unfold(256);
                }
                let l = limb_base();
                let (h, lo) = (dd.hi as int, dd.lo as int);
                assert(2 * (h * l + lo) < l * l) by (nonlinear_arith)
                    requires
                        0 <= h < 0x8000_0000_0000_0000_0000_0000_0000_0000,
                        0 <= lo < l,
                        l == 0x8000_0000_0000_0000_0000_0000_0000_0000 * 2,
                ;
                vstd::arithmetic::power2::lemma_pow2_unfold((k + 1) as nat);
                vstd::arithmetic::div_mod::lemma_small_mod((dd.val() * 2) as nat, word_mod() as nat);
                assert(dv * pow2((k + 1) as nat) == 2 * (dv * pow2(k as nat))) by (nonlinear_arith)
                    requires
                        pow2((k + 1) as nat) == 2 * pow2(k as nat),
                ;
            }
            t.shl();
            proof {
                lemma_val_order(t, t);
                assert(t.val() == dd.val() * 2);
            }
            if !t.le(self) {
                break;
            }
            dd = t;
            k = k + 1;
        }
        proof {
            lemma_val_order(dd, dd);
            if dd.hi >= 0x8000_0000_0000_0000_0000_0000_0000_0000u128 {
                let l = limb_base();
                let (h, lo) = (dd.hi as int, dd.lo as int);
                assert(2 * (h * l + lo) >= l * l) by (nonlinear_arith)
                    requires
                        h >= 0x8000_0000_0000_0000_0000_0000_0000_0000,
                        0 <= lo,
                        l == 0x8000_0000_0000_0000_0000_0000_0000_0000 * 2,
                ;
            }
        }
        let mut q = u256::zero();
        let mut rem = *self;
        div_step(&mut q, &mut rem, &dd);
        let mut j: u32 = k;
        while j > 0
            invariant
                1 <= dv,
                0 <= a < word_mod(),
                dd.val() == dv * pow2(j as nat),
                a == q.val() * dd.val() + rem.val(),
                0 <= rem.val() < dd.val(),
            decreases j,
        {
            proof {
                vstd::arithmetic::power2::lemma_pow2_unfold(j as nat);
                assert(dd.val() == 2 * (dv * pow2((j - 1) as nat))) by (nonlinear_arith)
                    requires
                        dd.val() == dv * pow2(j as nat),
                        pow2(j as nat) == 2 * pow2((j - 1) as nat),
                ;
            }
            dd.shr();
            div_step(&mut q, &mut rem, &dd);
            j = j - 1;
        }
        proof {
            vstd::arithmetic::div_mod::lemma_fundamental_div_mod_converse(a, dv, q.val(), rem.val());
        }
        Ok((q, rem))
    }

    /// `Ok(self mod m)`, or `InvalidOperand` where `m` is zero.
    pub fn residue(&self, m: &u256) -> (r: Result<u256, CryptoError>)
        ensures
            m.val() == 0 <==> r == Err::<u256, CryptoError>(CryptoError::InvalidOperand),
            m.val() != 0 <==> r is Ok,
            r matches Ok(v) ==> v.val() == self.val() % m.val(),
    {
        match self.div(m) {
            Ok((_, rem)) => Ok(rem),
            Err(e) => Err(e),
        }
    }

    /// `self mod m` for a non-zero modulus.
    pub(crate) fn reduced(&self, m: &u256) -> (r: u256)
        requires
            m.val() != 0,
        ensures
            r.val() == self.val() % m.val(),
            r.val() < m.val(),
    {
        proof {
            lemma_val_order(*m, *self);
        }
        match self.div(m) {
            Ok((_, rem)) => rem,
            Err(_) => *self,
        }
    }

    /// `self = (self + other mod 2^256) mod base`.
    pub fn addm(&mut self, other: &u256, base: &u256)
        requires
            base.val() != 0,
        ensures
            final(self).val() == addm_spec(old(self).val(), other.val(), base.val()),
            final(self).val() < base.val(),
            old(self).val() + other.val() < word_mod() ==> final(self).val() == (old(self).val()
                + other.val()) % base.val(),
    {
        proof {
            lemma_val_order(*self, *other);
            lemma_val_order(*other, *self);
            lemma_word_mod();
        }
        self.add(other);
        proof {
            if old(self).val() + other.val() < word_mod() {
                vstd::arithmetic::div_mod::lemma_small_mod(
                    (old(self).val() + other.val()) as nat,
                    word_mod() as nat,
                );
            }
        }
        let r = self.reduced(base);
        self.copy(&r);
    }

    /// `self = (self - other) mod base`, lifting `self` by `base` first where
    /// `self <= other` so that the difference is not negative.
    pub fn subm(&mut self, other: &u256, base: &u256)
        requires
            base.val() != 0,
        ensures
            final(self).val() == subm_spec(old(self).val(), other.val(), base.val()),
            final(self).val() < base.val(),
            old(self).val() < base.val() && other.val() < base.val() ==> final(self).val() == (
            old(self).val() - other.val()) % base.val(),
    {
        let ghost a = self.val();
        let ghost b = other.val();
        let ghost m = base.val();
        proof {
            lemma_val_order(*self, *other);
            lemma_val_order(*other, *self);
            lemma_val_order(*base, *self);
            lemma_word_mod();
        }
        let lift = self.le(other);
        if lift {
            self.add(base);
        }
        self.sub(other);
        proof {
            if a < m && b < m {
                let big = word_mod();
                if lift {
                    assert(((a + m) % big - b) % big == (a + m - b) % big) by {
                        vstd::arithmetic::div_mod::lemma_sub_mod_noop(a + m, b, big);
                        vstd::arithmetic::div_mod::lemma_small_mod(b as nat, big as nat);
                    }
                    vstd::arithmetic::div_mod::lemma_small_mod((a + m - b) as nat, big as nat);
                    vstd::arithmetic::div_mod::lemma_mod_add_multiples_vanish(a - b, m);
                } else {
                    vstd::arithmetic::div_mod::lemma_small_mod((a - b) as nat, big as nat);
                }
            }
        }
        let r = self.reduced(base);
        self.copy(&r);
    }

    /// `self = (self * other mod 2^256) mod base`.
    pub fn mulm(&mut self, other: &u256, base: &u256)
        requires
            base.val() != 0,
        ensures
            final(self).val() == mulm_spec(old(self).val(), other.val(), base.val()),
            final(self).val() < base.val(),
            old(self).val() * other.val() < word_mod() ==> final(self).val() == (old(self).val()
                * other.val()) % base.val(),
    {
        proof {
            lemma_val_order(*self, *other);
            lemma_val_order(*other, *self);
            lemma_word_mod();
            let (x, y) = (old(self).val(), other.val());
            if x * y < word_mod() {
                assert(0 <= x * y) by (nonlinear_arith)
                    requires
                        0 <= x,
                        0 <= y,
                ;
                vstd::arithmetic::div_mod::lemma_small_mod(
                    (old(self).val() * other.val()) as nat,
                    word_mod() as nat,
                );
            }
        }
        self.mul(other);
        let r = self.reduced(base);
        self.copy(&r);
    }

    /// A modular inverse of `self` modulo `base`, found by the extended
    /// Euclidean algorithm: `Ok(y)` with `y < base` and
    /// `mulm(y, self mod base, base) == 1`. `InvalidOperand` where `base` is
    /// zero; `NonInvertible` where no such `y` was found, which for a modulus
    /// below 2^128 happens only where `self` has no inverse at all.
    pub fn inv(&self, base: &u256) -> (r: Result<u256, CryptoError>)
        ensures
            base.val() == 0 <==> r == Err::<u256, CryptoError>(CryptoError::InvalidOperand),
            r matches Ok(y) ==> y.val() < base.val() && mulm_spec(
                y.val(),
                self.val() % base.val(),
                base.val(),
            ) == 1,
            r matches Err(e) ==> e == CryptoError::InvalidOperand || e == CryptoError::NonInvertible,
            0 < base.val() < limb_base() && has_inverse(self.val(), base.val()) ==> r is Ok,
            base.val() < limb_base() && is_prime(base.val()) && self.val() % base.val() != 0
                ==> r is Ok,
    {
        proof {
            lemma_val_order(*base, *self);
            lemma_word_mod();
        }
        if base.hi == 0 && base.lo == 0 {
            return Err(CryptoError::InvalidOperand);
        }
        let ghost p = base.val();
        let ghost small = p < limb_base();
        let x = self.reduced(base);
        let ghost xv = x.val();
        let one = u256 { lo: 1, hi: 0 };
        // Remainders r0 > r1, each paired with its coefficient of x modulo base.
        let mut r0 = *base;
        let mut r1 = x;
        let mut s0 = u256::zero();
        let mut s1 = one.reduced(base);
        proof {
            lemma_val_order(x, x);
            vstd::arithmetic::div_mod::lemma_mod_self_0(p);
            assert(0 * xv == 0);
            if small {
                lemma_small_product(1int % p, xv, p);
                vstd::arithmetic::div_mod::lemma_mul_mod_noop_left(1, xv, p);
                vstd::arithmetic::div_mod::lemma_small_mod(xv as nat, p as nat);
            }
        }
        while r1.hi != 0 || r1.lo != 0
            invariant
                p == base.val(),
                0 < p,
                small == (p < limb_base()),
                xv == x.val(),
                0 <= xv < p,
                s0.val() < p,
                s1.val() < p,
                0 <= r1.val() < r0.val() <= p,
                small ==> (s0.val() * xv) % p == r0.val() % p,
                small ==> (s1.val() * xv) % p == r1.val() % p,
                forall|d: int|
                    0 < d && #[trigger] (r0.val() % d) == 0 && r1.val() % d == 0 ==> p % d == 0
                        && xv % d == 0,
            decreases r1.val(),
        {
            proof {
                lemma_val_order(r1, r0);
                lemma_val_order(r0, r1);
            }
            match r0.div(&r1) {
                Ok((q, rem)) => {
                    let mut t = q;
                    t.mulm(&s1, base);
                    let mut s2 = s0;
                    s2.subm(&t, base);
                    proof {
                        lemma_val_order(rem, r1);
                        lemma_val_order(q, r1);
                        lemma_euclid_step(
                            r0.val(),
                            r1.val(),
                            q.val(),
                            rem.val(),
                            s0.val(),
                            s1.val(),
                            t.val(),
                            s2.val(),
                            xv,
                            p,
                        );
                    }
                    r0 = r1;
                    r1 = rem;
                    s0 = s1;
                    s1 = s2;
                },
                Err(_) => {
                    return Err(CryptoError::NonInvertible);
                },
            }
        }
        let mut check = s0;
        check.mulm(&x, base);
        proof {
            lemma_val_order(r1, r0);
            lemma_val_order(check, check);
            let g = r0.val();
            vstd::arithmetic::div_mod::lemma_mod_self_0(g);
            assert(r1.val() == 0);
            assert(0int % g == 0);
            assert(p % g == 0 && xv % g == 0);
            let prime_case = small && is_prime(p) && xv != 0;
            if prime_case {
                lemma_prime_gcd_one(xv, g, p);
            }
            if small && (has_inverse(self.val(), p) || prime_case) {
                if !prime_case {
                    lemma_gcd_one(self.val(), xv, r0.val(), p);
                }
                lemma_small_product(s0.val(), xv, p);
                vstd::arithmetic::div_mod::lemma_small_mod(1, p as nat);
                assert(check.val() == 1);
                let (h, l, lb) = (check.hi as int, check.lo as int, limb_base());
                assert(h == 0 && l == 1) by (nonlinear_arith)
                    requires
                        h * lb + l == 1,
                        0 <= l < lb,
                        0 <= h,
                        lb > 1,
                ;
            }
        }
        if check.hi == 0 && check.lo == 1 {
            Ok(s0)
        } else {
            Err(CryptoError::NonInvertible)
        }
    }

    /// Overwrites `self` with `other`.
    pub fn copy(&mut self, other: &u256)
        ensures
            *final(self) == *other,
    {
        self.lo = other.lo;
        self.hi = other.hi;
    }
}

/// Modular addition of two 256-bit values: the sum wraps at 2^256, then reduces.
pub open spec fn addm_spec(a: int, b: int, m: int) -> int {
    ((a + b) % word_mod()) % m
}

/// Modular subtraction of two 256-bit values: `a` is lifted by `m` where
/// `a <= b`, the difference wraps at 2^256, then reduces.
pub open spec fn subm_spec(a: int, b: int, m: int) -> int {
    let lifted = if a <= b { (a + m) % word_mod() } else { a };
    ((lifted - b) % word_mod()) % m
}

/// Modular multiplication of two 256-bit values: the product is truncated to
/// 256 bits, then reduces.
pub open spec fn mulm_spec(a: int, b: int, m: int) -> int {
    ((a * b) % word_mod()) % m
}

/// Wrapping addition commutes.
pub proof fn lemma_add_commutes(a: u256, b: u256)
    ensures
        (a.val() + b.val()) % word_mod() == (b.val() + a.val()) % word_mod(),
{
}

/// Wrapping addition associates: `(a + b) + c == a + (b + c)` modulo 2^256.
pub proof fn lemma_add_associates(a: u256, b: u256, c: u256)
    ensures
        ((a.val() + b.val()) % word_mod() + c.val()) % word_mod() == (a.val() + (b.val()
            + c.val()) % word_mod()) % word_mod(),
{
    lemma_word_mod();
    let m = word_mod();
    vstd::arithmetic::div_mod::lemma_add_mod_noop(a.val() + b.val(), c.val(), m);
    vstd::arithmetic::div_mod::lemma_add_mod_noop(a.val(), b.val() + c.val(), m);
    lemma_val_order(a, b);
    lemma_val_order(b, c);
    lemma_val_order(c, a);
    vstd::arithmetic::div_mod::lemma_small_mod(a.val() as nat, m as nat);
    vstd::arithmetic::div_mod::lemma_small_mod(c.val() as nat, m as nat);
    vstd::arithmetic::div_mod::lemma_mod_twice(a.val() + b.val(), m);
    vstd::arithmetic::div_mod::lemma_mod_twice(b.val() + c.val(), m);
}

/// The quotient and remainder that `div` gives rebuild the dividend with the
/// wrapping `mul` and `add`, and the remainder is below the divisor.
pub proof fn lemma_div_rebuilds(a: u256, d: u256, q: u256, r: u256)
    requires
        d.val() != 0,
        q.val() == a.val() / d.val(),
        r.val() == a.val() % d.val(),
    ensures
        ((q.val() * d.val()) % word_mod() + r.val()) % word_mod() == a.val(),
        r.val() < d.val(),
{
    lemma_word_mod();
    lemma_val_order(a, d);
    lemma_val_order(d, a);
    let m = word_mod();
    vstd::arithmetic::div_mod::lemma_fundamental_div_mod(a.val(), d.val());
    assert(q.val() * d.val() == d.val() * (a.val() / d.val())) by (nonlinear_arith)
        requires
            q.val() == a.val() / d.val(),
    ;
    vstd::arithmetic::div_mod::lemma_add_mod_noop(q.val() * d.val(), r.val(), m);
    lemma_val_order(r, q);
    vstd::arithmetic::div_mod::lemma_small_mod(r.val() as nat, m as nat);
    vstd::arithmetic::div_mod::lemma_small_mod(a.val() as nat, m as nat);
}

/// Every modular result lies below the modulus.
pub proof fn lemma_modular_results_reduced(a: u256, b: u256, m: u256)
    requires
        m.val() != 0,
    ensures
        addm_spec(a.val(), b.val(), m.val()) < m.val(),
        subm_spec(a.val(), b.val(), m.val()) < m.val(),
        mulm_spec(a.val(), b.val(), m.val()) < m.val(),
{
    lemma_val_order(m, a);
}

/// `x` has an inverse modulo `m`.
pub open spec fn has_inverse(x: int, m: int) -> bool {
    exists|y: int| #[trigger] ((x * y) % m) == 1
}

/// Below 2^128 a product of two values under the modulus does not wrap.
proof fn lemma_small_product(a: int, b: int, p: int)
    requires
        0 <= a <= p,
        0 <= b < p,
        p < limb_base(),
    ensures
        0 <= a * b < word_mod(),
        (a * b) % word_mod() == a * b,
{
    lemma_word_mod();
    assert(0 <= a * b < word_mod()) by (nonlinear_arith)
        requires
            0 <= a <= p,
            0 <= b < p,
            p < limb_base(),
            word_mod() == limb_base() * limb_base(),
    ;
    vstd::arithmetic::div_mod::lemma_small_mod((a * b) as nat, word_mod() as nat);
}

/// One step of the extended Euclidean algorithm keeps its invariants:
/// `s * x == r (mod p)` for both pairs, and every common divisor of the two
/// remainders divides both `p` and `x`.
proof fn lemma_euclid_step(
    r0: int,
    r1: int,
    q: int,
    r2: int,
    s0: int,
    s1: int,
    t: int,
    s2: int,
    x: int,
    p: int,
)
    requires
        0 < r1 < r0 <= p,
        0 <= s0 < p,
        0 <= s1 < p,
        0 <= x < p,
        q == r0 / r1,
        r2 == r0 % r1,
        0 <= q <= r0,
        t == mulm_spec(q, s1, p),
        t < p,
        p < limb_base() ==> s2 == (s0 - t) % p,
        p < limb_base() ==> (s0 * x) % p == r0 % p,
        p < limb_base() ==> (s1 * x) % p == r1 % p,
        forall|d: int| 0 < d && #[trigger] (r0 % d) == 0 && r1 % d == 0 ==> p % d == 0 && x % d == 0,
    ensures
        p < limb_base() ==> (s2 * x) % p == r2 % p,
        forall|d: int| 0 < d && #[trigger] (r1 % d) == 0 && r2 % d == 0 ==> p % d == 0 && x % d == 0,
{
    vstd::arithmetic::div_mod::lemma_fundamental_div_mod(r0, r1);
    assert forall|d: int| 0 < d && #[trigger] (r1 % d) == 0 && r2 % d == 0 implies p % d == 0 && x
        % d == 0 by {
        lemma_divides_combination(d, r1, r2, q);
        assert(r1 * q + r2 == r0) by (nonlinear_arith)
            requires
                r0 == r1 * (r0 / r1) + r0 % r1,
                q == r0 / r1,
                r2 == r0 % r1,
        ;
    }
    if p < limb_base() {
        lemma_small_product(q, s1, p);
        // t == q * s1 (mod p), so s2 * x == s0 * x - q * (s1 * x) == r0 - q * r1 == r2.
        lemma_mul_mod_noop_left(s0 - t, x, p);
        lemma_sub_mod_noop(s0 * x, t * x, p);
        assert((s0 - t) * x == s0 * x - t * x) by (nonlinear_arith);
        lemma_mul_mod_noop_left(q * s1, x, p);
        assert(q * s1 * x == q * (s1 * x)) by (nonlinear_arith);
        vstd::arithmetic::div_mod::lemma_mul_mod_noop_right(q, s1 * x, p);
        vstd::arithmetic::div_mod::lemma_mul_mod_noop_right(q, r1, p);
        lemma_sub_mod_noop(s0 * x, q * (s1 * x), p);
        lemma_sub_mod_noop(r0, q * r1, p);
        lemma_mod_twice(s0 * x, p);
        assert(r0 - q * r1 == r2) by (nonlinear_arith)
            requires
                r0 == r1 * (r0 / r1) + r0 % r1,
                q == r0 / r1,
                r2 == r0 % r1,
        ;
        assert(((s0 * x) % p - (t * x) % p) % p == ((s0 * x) % p - (q * (s1 * x)) % p) % p);
        assert(((s0 * x) % p - (q * (s1 * x)) % p) % p == ((r0 % p) - (q * r1) % p) % p);
    }
}

/// A common divisor of `a` and `b` divides `a * q + b`.
proof fn lemma_divides_combination(d: int, a: int, b: int, q: int)
    requires
        0 < d,
        a % d == 0,
        b % d == 0,
    ensures
        (a * q + b) % d == 0,
{
    vstd::arithmetic::div_mod::lemma_fundamental_div_mod(a, d);
    vstd::arithmetic::div_mod::lemma_fundamental_div_mod(b, d);
    let k = (a / d) * q + b / d;
    assert(a * q + b == d * k) by (nonlinear_arith)
        requires
            a == d * (a / d) + a % d,
            b == d * (b / d) + b % d,
            a % d == 0,
            b % d == 0,
            k == (a / d) * q + b / d,
    ;
    vstd::arithmetic::div_mod::lemma_mod_multiples_basic(k, d);
    assert(k * d == d * k) by (nonlinear_arith);
}

/// `p` is a prime number.
pub open spec fn is_prime(p: int) -> bool {
    p > 1 && forall|d: int| 1 < d < p ==> #[trigger] (p % d) != 0
}

/// A common divisor `g` of a prime `p` and of `0 < x < p` is 1.
proof fn lemma_prime_gcd_one(x: int, g: int, p: int)
    requires
        is_prime(p),
        0 < x < p,
        0 < g,
        p % g == 0,
        x % g == 0,
    ensures
        g == 1,
        p > 1,
{
    vstd::arithmetic::div_mod::lemma_fundamental_div_mod(x, g);
    let k = x / g;
    assert(g <= x) by (nonlinear_arith)
        requires
            x == g * k,
            0 < x,
            0 < g,
    ;
    if g > 1 {
        assert(p % g != 0);
    }
}

/// Where `x` has an inverse modulo `p`, the last non-zero remainder `g`,
/// which divides both `p` and `x mod p`, is 1.
proof fn lemma_gcd_one(x: int, xr: int, g: int, p: int)
    requires
        0 <= x,
        0 < p,
        xr == x % p,
        has_inverse(x, p),
        0 < g,
        p % g == 0,
        xr % g == 0,
    ensures
        g == 1,
        p > 1,
{
    let y = choose|y: int| #[trigger] ((x * y) % p) == 1;
    vstd::arithmetic::div_mod::lemma_mul_mod_noop_left(x, y, p);
    // xr * y == 1 + k * p for some k; g divides xr * y and k * p, hence 1.
    vstd::arithmetic::div_mod::lemma_fundamental_div_mod(xr * y, p);
    let k = (xr * y) / p;
    vstd::arithmetic::div_mod::lemma_fundamental_div_mod(xr, g);
    vstd::arithmetic::div_mod::lemma_fundamental_div_mod(p, g);
    let (i, j) = (xr / g, p / g);
    assert(g * (i * y - j * k) == 1) by (nonlinear_arith)
        requires
            xr * y == p * k + 1,
            xr == g * i,
            p == g * j,
    ;
    assert(g == 1) by (nonlinear_arith)
        requires
            g * (i * y - j * k) == 1,
            0 < g,
    ;
    if p == 1 {
        assert((x * y) % 1 == 0);
    }
}

/// One step of long division against the shifted divisor `dd`: doubles the
/// quotient and, where `dd` fits in the remainder, subtracts it and counts it.
fn div_step(q: &mut u256, rem: &mut u256, dd: &u256)
    requires
        1 <= dd.val(),
        0 <= old(rem).val() < 2 * dd.val(),
        old(q).val() * (2 * dd.val()) + old(rem).val() < word_mod(),
        0 <= old(q).val(),
    ensures
        final(q).val() * dd.val() + final(rem).val() == old(q).val() * (2 * dd.val()) + old(
            rem,
        ).val(),
        0 <= final(rem).val() < dd.val(),
{
    let ghost q0 = q.val();
    let ghost r0 = rem.val();
    let ghost dv = dd.val();
    proof {
        lemma_word_mod();
        assert(2 * q0 + 1 < word_mod()) by (nonlinear_arith)
            requires
                q0 * (2 * dv) + r0 < word_mod(),
                1 <= dv,
                0 <= r0,
                0 <= q0,
                word_mod() % 2 == 0,
        ;
        vstd::arithmetic::div_mod::lemma_small_mod((q0 * 2) as nat, word_mod() as nat);
        vstd::arithmetic::div_mod::lemma_small_mod((q0 * 2 + 1) as nat, word_mod() as nat);
    }
    q.shl();
    if dd.le(rem) {
        rem.sub(dd);
        q.add(&u256 { lo: 1, hi: 0 });
        proof {
            vstd::arithmetic::div_mod::lemma_small_mod((r0 - dv) as nat, word_mod() as nat);
        }
    }
    assert(final(q).val() * dv + final(rem).val() == q0 * (2 * dv) + r0) by (nonlinear_arith)
        requires
            final(q).val() == 2 * q0 + 1 && final(rem).val() == r0 - dv || final(q).val() == 2 * q0
                && final(rem).val() == r0,
    ;
}

/// One round of shift-and-add multiplication: the bit of `a` at position `i`
/// decides whether `b * 2^i` joins the partial product.
proof fn lemma_mul_step(a: int, b: int, i: nat, bit_set: bool)
    requires
        0 <= a,
        0 <= b,
        bit_set == ((a / (pow2(i) as int)) % 2 == 1),
    ensures
        pow2(i + 1) == 2 * pow2(i),
        ((b * pow2(i)) % word_mod()) * 2 % word_mod() == (b * pow2(i + 1)) % word_mod(),
        bit_set ==> ((b * (a % (pow2(i) as int))) % word_mod() + (b * pow2(i)) % word_mod())
            % word_mod() == (b * (a % (pow2(i + 1) as int))) % word_mod(),
        !bit_set ==> (b * (a % (pow2(i) as int))) % word_mod() == (b * (a % (pow2(i + 1) as int)))
            % word_mod(),
{
    let p = pow2(i) as int;
    let m = word_mod();
    lemma_word_mod();
    vstd::arithmetic::power2::lemma_pow2_unfold(i + 1);
    vstd::arithmetic::power2::lemma_pow2_pos(i);
    vstd::arithmetic::div_mod::lemma_mod_breakdown(a, p, 2);
    assert(p * 2 == 2 * p);
    vstd::arithmetic::div_mod::lemma_mul_mod_noop_left(b * p, 2, m);
    assert(b * p * 2 == b * (2 * p)) by (nonlinear_arith);
    if bit_set {
        assert(a % (2 * p) == a % p + p);
        vstd::arithmetic::div_mod::lemma_add_mod_noop(b * (a % p), b * p, m);
        assert(b * (a % p) + b * p == b * (a % p + p)) by (nonlinear_arith);
    } else {
        assert(a % (2 * p) == a % p);
    }
}

/// The facts about 2^128 and 2^256 that the proofs here use.
proof fn lemma_word_mod()
    ensures
        limb_base() == 0x8000_0000_0000_0000_0000_0000_0000_0000 * 2,
        word_mod() == limb_base() * limb_base(),
        word_mod() > 0,
        word_mod() % 2 == 0,
{
    assert(word_mod() > 0) by (nonlinear_arith)
        requires
            word_mod() == limb_base() * limb_base(),
            limb_base() > 0,
    ;
    assert(word_mod() % 2 == 0) by (nonlinear_arith)
        requires
            word_mod() == limb_base() * limb_base(),
            limb_base() == 0x8000_0000_0000_0000_0000_0000_0000_0000 * 2,
    ;
}

/// Bit `b` of a value is bit `b` of its low limb, or bit `b - 128` of its high limb.
proof fn lemma_bit_of(x: u256, b: nat)
    requires
        b < 256,
    ensures
        b < 128 ==> (x.val() / (pow2(b) as int)) % 2 == (x.lo as int / (pow2(b) as int)) % 2,
        b >= 128 ==> x.val() / (pow2(b) as int) == x.hi as int / (pow2((b - 128) as nat) as int),
{
    lemma_word_mod();
    vstd::arithmetic::power2::lemma2_to64();
    vstd::arithmetic::power2::lemma_pow2_adds(64, 64);
    assert(pow2(128) == limb_base());
    vstd::arithmetic::power2::lemma_pow2_pos(b);
    if b < 128 {
        let k = (127 - b) as nat;
        vstd::arithmetic::power2::lemma_pow2_adds(b, k);
        vstd::arithmetic::power2::lemma_pow2_unfold(k + 1);
        vstd::arithmetic::power2::lemma_pow2_adds(b, (k + 1) as nat);
        assert(b + (k + 1) == 128);
        let pb = pow2(b) as int;
        let j = x.hi * pow2(k);
        assert(x.hi * limb_base() == (2 * j) * pb) by (nonlinear_arith)
            requires
                limb_base() == pow2(b) * pow2((k + 1) as nat),
                pow2((k + 1) as nat) == 2 * pow2(k),
                pb == pow2(b),
                j == x.hi * pow2(k),
        ;
        vstd::arithmetic::div_mod::lemma_hoist_over_denominator(x.lo as int, 2 * j, pb as nat);
        vstd::arithmetic::div_mod::lemma_mod_multiples_vanish(j, x.lo as int / pb, 2);
        assert(x.lo as int / pb + 2 * j == 2 * j + x.lo as int / pb);
    } else {
        let e = (b - 128) as nat;
        vstd::arithmetic::power2::lemma_pow2_adds(128, e);
        vstd::arithmetic::power2::lemma_pow2_pos(e);
        vstd::arithmetic::div_mod::lemma_div_denominator(x.val(), limb_base(), pow2(e) as int);
        vstd::arithmetic::div_mod::lemma_fundamental_div_mod_converse(
            x.val(),
            limb_base(),
            x.hi as int,
            x.lo as int,
        );
        assert(pow2(b) == limb_base() * pow2(e));
    }
}

/// 2^256 as a power of two.
pub proof fn lemma_pow2_256()
    ensures
        pow2(256) == word_mod(),
{
    vstd::arithmetic::power2::lemma2_to64();
    vstd::arithmetic::power2::lemma_pow2_adds(64, 64);
    vstd::arithmetic::power2::lemma_pow2_adds(128, 128);
}

/// Values compare as their high limbs do, and as their low limbs where those agree.
pub proof fn lemma_val_order(a: u256, b: u256)
    ensures
        a.hi < b.hi ==> a.val() < b.val(),
        a.hi == b.hi ==> (a.val() < b.val() <==> a.lo < b.lo),
        0 <= a.val() < word_mod(),
        a.val() == 0 <==> (a.hi == 0 && a.lo == 0),
{
    let l = limb_base();
    let (ah, al, bh, bl) = (a.hi as int, a.lo as int, b.hi as int, b.lo as int);
    assert(ah < bh ==> ah * l + al < bh * l + bl) by (nonlinear_arith)
        requires
            0 <= al < l,
            0 <= bl < l,
    ;
    assert(0 <= ah * l + al < l * l) by (nonlinear_arith)
        requires
            0 <= al < l,
            0 <= ah < l,
    ;
    assert(ah * l + al == 0 ==> ah == 0 && al == 0) by (nonlinear_arith)
        requires
            0 <= al < l,
            0 <= ah,
            0 < l,
    ;
}

/// `s = t * 2^128 + lo` with `t = hi + j * 2^128`: then `s mod 2^256` has limbs `hi`, `lo`.
proof fn lemma_limb_wrap(s: int, t: int, j: int, hi: int, lo: int)
    requires
        0 <= lo < limb_base(),
        0 <= hi < limb_base(),
        s == t * limb_base() + lo,
        t == hi + j * limb_base(),
    ensures
        s % word_mod() == hi * limb_base() + lo,
{
    let l = limb_base();
    assert(s == j * (l * l) + (hi * l + lo)) by (nonlinear_arith)
        requires
            s == t * l + lo,
            t == hi + j * l,
    ;
    assert(0 <= hi * l + lo < l * l) by (nonlinear_arith)
        requires
            0 <= lo < l,
            0 <= hi < l,
    ;
    vstd::arithmetic::div_mod::lemma_fundamental_div_mod_converse(s, l * l, j, hi * l + lo);
}

} // verus!
