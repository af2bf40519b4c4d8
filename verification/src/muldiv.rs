//! Scaling, schoolbook multiplication, long division by a single limb,
//! and binary-search division by an arbitrary value.

use vstd::prelude::*;
use core::cmp::Ordering;
use vstd::arithmetic::power::lemma_pow_adds;
use vstd::arithmetic::power2::pow2;
use vstd::bits::{lemma_u64_pow2_no_overflow, lemma_u64_shl_is_mul};
use vstd::arithmetic::mul::{
    lemma_mul_unary_negation, lemma_mul_cancels_negatives, lemma_mul_is_commutative,
    lemma_mul_strict_inequality_converse,
};
use vstd::arithmetic::div_mod::{
    lemma_fundamental_div_mod, lemma_mod_bound, lemma_div_pos_is_pos, lemma_div_is_ordered,
    lemma_div_multiples_vanish, lemma_fundamental_div_mod_converse,
};
use crate::model::{
    mag, iabs, tdiv, pow_b, limb_base, lemma_mag_push, lemma_mag_bound, lemma_mag_lower,
    lemma_pow_b_zero, lemma_pow_b_unfold, lemma_pow_b_positive, lemma_quotient_unique,
    lemma_tmod_props,
};
use crate::num::{Int, normalize};
use crate::limbs::mag_mul_limb;

verus! {

impl Int {
    /// Append `num` zero limbs at the least significant end, multiplying the
    /// value by the radix to the power `num`; zero stays canonical zero.
    pub fn zeroes_at_right(&self, num: usize) -> (r: Int)
        requires
            self.wf(),
        ensures
            r.wf(),
            r@ == self@ * pow_b(num as nat),
    {
        proof {
            lemma_pow_b_positive(num as nat);
        }
        if self.size == 0 {
            proof {
                assert(self@ * pow_b(num as nat) == 0) by (nonlinear_arith)
                    requires
                        self@ == 0,
                {}
            }
            Int::zero()
        } else {
            let mut v = crate::num::copy_limbs(&self.value);
            let mut i: usize = 0;
            while i < num
                invariant
                    i <= num,
                    v@ == self.value@ + Seq::new(i as nat, |k: int| 0u64),
                decreases num - i,
            {
                v.push(0);
                proof {
                    assert((self.value@ + Seq::new(i as nat, |k: int| 0u64)).push(0u64)
                        =~= self.value@ + Seq::new((i + 1) as nat, |k: int| 0u64));
                }
                i = i + 1;
            }
            let sz = v.len();
            proof {
                crate::model::lemma_mag_append_zeros(self.value@, Seq::new(num as nat, |k: int| 0u64));
                lemma_mul_unary_negation(mag(self.value@) as int, pow_b(num as nat));
            }
            Int { size: sz, sign: self.sign, value: v }
        }
    }

    /// Multiply by a single machine-width limb; the sign is inherited.
    pub fn mul_by_limb(&self, k: u64) -> (r: Int)
        requires
            self.wf(),
        ensures
            r.wf(),
            r@ == self@ * k,
    {
        let prod = mag_mul_limb(&self.value, k);
        proof {
            lemma_mul_unary_negation(mag(self.value@) as int, k as int);
        }
        normalize(prod, self.sign)
    }

    /// Shift the magnitude left by `bits` bit positions, multiplying the
    /// value by two to the power `bits`; `bits` must stay below the limb width.
    pub fn shift_left(&self, bits: u64) -> (r: Int)
        requires
            self.wf(),
            bits < 64,
        ensures
            r.wf(),
            r@ == self@ * pow2(bits as nat),
    {
        proof {
            lemma_u64_pow2_no_overflow(bits as nat);
            lemma_u64_shl_is_mul(1u64, bits);
        }
        let m: u64 = 1u64 << bits;
        self.mul_by_limb(m)
    }

    /// Schoolbook multiplication: the sum of shifted single-limb products.
    pub fn mul(&self, other: &Int) -> (r: Int)
        requires
            self.wf(),
            other.wf(),
        ensures
            r.wf(),
            r@ == self@ * other@,
    {
        let y_abs = other.abs();
        let mut acc = Int::zero();
        let n = self.size;
        let mut i: usize = 0;
        proof {
            assert(self.value@.take(0) =~= Seq::<u64>::empty());
            assert(acc@ == mag(self.value@.take(0)) * pow_b((n - 0) as nat) * mag(other.value@))
                by (nonlinear_arith)
                requires
                    acc@ == 0,
                    mag(self.value@.take(0)) == 0,
            {}
            other.lemma_view_sign();
        }
        while i < n
            invariant
                i <= n,
                n == self.size,
                self.wf(),
                y_abs.wf(),
                acc.wf(),
                y_abs@ == mag(other.value@),
                acc@ == mag(self.value@.take(i as int)) * pow_b((n - i) as nat) * mag(other.value@),
            decreases n - i,
        {
            let term = y_abs.mul_by_limb(self.value[i]).zeroes_at_right(n - 1 - i);
            let ghost acc_old = acc@;
            acc = acc.add(&term);
            i = i + 1;
            proof {
                let b = limb_base() as int;
                let my = mag(other.value@) as int;
                let ai = self.value@[i - 1];
                assert(self.value@.take(i as int) =~= self.value@.take(i - 1).push(ai));
                lemma_mag_push(self.value@.take(i - 1), ai);
                lemma_pow_b_unfold((n - i + 1) as nat);
                assert(acc@ == mag(self.value@.take(i as int)) * pow_b((n - i) as nat) * my)
                    by (nonlinear_arith)
                    requires
                        acc@ == acc_old + my * ai * pow_b((n - i) as nat),
                        acc_old == mag(self.value@.take(i - 1)) * pow_b((n - i + 1) as nat) * my,
                        mag(self.value@.take(i as int)) == mag(self.value@.take(i - 1)) * b + ai,
                        pow_b((n - i + 1) as nat) == b * pow_b((n - i) as nat),
                {}
            }
        }
        proof {
            self.lemma_view_sign();
            assert(self.value@.take(n as int) =~= self.value@);
            lemma_pow_b_zero();
            let mx = mag(self.value@) as int;
            let my = mag(other.value@) as int;
            assert(acc@ == mx * my) by (nonlinear_arith)
                requires
                    acc@ == mx * pow_b(0) * my,
                    pow_b(0) == 1,
            {}
            lemma_mul_unary_negation(mx, my);
            lemma_mul_unary_negation(my, mx);
            lemma_mul_is_commutative(mx, my);
            lemma_mul_is_commutative(mx, -my);
            lemma_mul_is_commutative(-mx, my);
            lemma_mul_cancels_negatives(mx, my);
        }
        if self.sign != other.sign {
            acc.negate()
        } else {
            acc
        }
    }
}

/// Limb-serial long division of a magnitude by a single non-zero limb:
/// quotient limbs and the final running remainder.
fn mag_divmod_limb(v: &Vec<u64>, d: u64) -> (res: (Vec<u64>, u64))
    requires
        d != 0,
    ensures
        mag(v@) == mag(res.0@) * d + res.1,
        res.1 < d,
{
    let n = v.len();
    let mut q: Vec<u64> = Vec::new();
    let mut rem: u64 = 0;
    let mut i: usize = 0;
    proof {
        assert(v@.take(0) =~= Seq::<u64>::empty());
        assert(mag(q@) * d + rem == 0) by (nonlinear_arith)
            requires
                mag(q@) == 0,
                rem == 0,
        {}
    }
    while i < n
        invariant
            i <= n,
            n == v@.len(),
            d != 0,
            q@.len() == i,
            rem < d,
            mag(v@.take(i as int)) == mag(q@) * d + rem,
        decreases n - i,
    {
        let a: u128 = rem as u128 * 0x1_0000_0000_0000_0000u128 + v[i] as u128;
        proof {
            let b = limb_base() as int;
            assert(a < d * b) by (nonlinear_arith)
                requires
                    a == rem * b + v@[i as int],
                    rem < d,
                    v@[i as int] < b,
            {}
            lemma_fundamental_div_mod(a as int, d as int);
            lemma_mod_bound(a as int, d as int);
            lemma_div_pos_is_pos(a as int, d as int);
            assert((a as int / d as int) < b) by {
                assert(d as int * (a as int / d as int) <= a as int);
                lemma_mul_is_commutative(d as int, a as int / d as int);
                lemma_mul_is_commutative(d as int, b);
                assert((a as int / d as int) * (d as int) < b * (d as int)) by (nonlinear_arith)
                    requires
                        (a as int / d as int) * (d as int) <= a as int,
                        a < d * (b as int),
                        (d as int) * b == b * (d as int),
                {}
                lemma_mul_strict_inequality_converse(a as int / d as int, b, d as int);
            }
        }
        let qd: u64 = (a / d as u128) as u64;
        let rd: u64 = (a % d as u128) as u64;
        let ghost q_old = q@;
        let ghost rem_old = rem;
        q.push(qd);
        rem = rd;
        i = i + 1;
        proof {
            let b = limb_base() as int;
            assert(v@.take(i as int) =~= v@.take(i - 1).push(v@[i - 1]));
            lemma_mag_push(v@.take(i - 1), v@[i - 1]);
            lemma_mag_push(q_old, qd);
            assert(mag(v@.take(i as int)) == mag(q@) * d + rem) by (nonlinear_arith)
                requires
                    mag(v@.take(i as int)) == mag(v@.take(i - 1)) * b + v@[i - 1],
                    mag(v@.take(i - 1)) == mag(q_old) * d + rem_old,
                    mag(q@) == mag(q_old) * b + qd,
                    a == rem_old * b + v@[i - 1],
                    a == d * (a as int / d as int) + a as int % d as int,
                    qd == a as int / d as int,
                    rem == a as int % d as int,
            {}
        }
    }
    proof {
        assert(v@.take(n as int) =~= v@);
    }
    (q, rem)
}

impl Int {
    /// Quotient of truncating division by a single non-zero limb.
    pub fn div_by_limb(&self, d: u64) -> (r: Int)
        requires
            self.wf(),
            d != 0,
        ensures
            r.wf(),
            r@ == tdiv(self@, d as int),
    {
        let res = mag_divmod_limb(&self.value, d);
        let quotient = normalize(res.0, self.sign);
        proof {
            self.lemma_view_sign();
            let m = mag(self.value@) as int;
            let mq = mag(res.0@) as int;
            lemma_mul_is_commutative(mq, d as int);
            lemma_fundamental_div_mod_converse(m, d as int, mq, res.1 as int);
            assert(iabs(self@) / iabs(d as int) == mq);
        }
        quotient
    }

    /// Remainder of the magnitude modulo a single non-zero limb.
    pub fn rem_by_limb(&self, d: u64) -> (r: u64)
        requires
            self.wf(),
            d != 0,
        ensures
            r as int == (iabs(self@) as int) % (d as int),
            r < d,
    {
        let res = mag_divmod_limb(&self.value, d);
        proof {
            self.lemma_view_sign();
            let m = mag(self.value@) as int;
            let mq = mag(res.0@) as int;
            lemma_mul_is_commutative(mq, d as int);
            lemma_fundamental_div_mod_converse(m, d as int, mq, res.1 as int);
        }
        res.1
    }

    /// Quotient of truncating division: binary search over the magnitude
    /// quotient, with the sign of the operands' product.
    pub fn div(&self, other: &Int) -> (r: Int)
        requires
            self.wf(),
            other.wf(),
            other@ != 0,
        ensures
            r.wf(),
            r@ == tdiv(self@, other@),
    {
        let x = self.abs();
        let y = other.abs();
        proof {
            self.lemma_view_sign();
            other.lemma_view_sign();
        }
        match x.compare(&y) {
            Ordering::Less => {
                proof {
                    let ia = iabs(self@) as int;
                    let ib = iabs(other@) as int;
                    assert(ia == 0 * ib + ia);
                    lemma_fundamental_div_mod_converse(ia, ib, 0, ia);
                    assert(tdiv(self@, other@) == 0);
                }
                Int::zero()
            },
            _ => {
                proof {
                    if self.value@.len() < other.value@.len() {
                        crate::model::lemma_mag_len_order(self.value@, other.value@);
                    }
                }
                let k = self.size - other.size;
                let mut left = Int::one();
                let mut right = Int::base().zeroes_at_right(k);
                proof {
                    let mx = mag(self.value@) as int;
                    let my = mag(other.value@) as int;
                    assert(1 * my <= mx) by (nonlinear_arith)
                        requires
                            my <= mx,
                    {}
                    lemma_mag_bound(self.value@);
                    lemma_mag_lower(other.value@);
                    lemma_pow_b_unfold((k + 1) as nat);
                    lemma_pow_b_positive(k as nat);
                    assert(right@ == limb_base() * pow_b(k as nat));
                    lemma_pow_adds(limb_base() as int, (k + 1) as nat, (other.size - 1) as nat);
                    assert(mx < right@ * my) by (nonlinear_arith)
                        requires
                            mx < pow_b(self.size as nat),
                            my >= pow_b((other.size - 1) as nat),
                            right@ == pow_b((k + 1) as nat),
                            pow_b((k + 1) as nat) * pow_b((other.size - 1) as nat)
                                == pow_b(self.size as nat),
                            pow_b((k + 1) as nat) > 0,
                            my >= 1,
                    {}
                    assert(1 < right@) by (nonlinear_arith)
                        requires
                            1 * my <= mx,
                            mx < right@ * my,
                            my >= 1,
                            right@ >= 0,
                    {}
                }
                loop
                    invariant
                        x.wf(),
                        y.wf(),
                        left.wf(),
                        right.wf(),
                        x@ == mag(self.value@),
                        y@ == mag(other.value@),
                        y@ >= 1,
                        1 <= left@,
                        left@ < right@,
                        left@ * y@ <= x@,
                        x@ < right@ * y@,
                    ensures
                        left.wf(),
                        1 <= left@,
                        left@ * y@ <= x@,
                        x@ < (left@ + 1) * y@,
                    decreases right@ - left@,
                {
                    let next = left.add(&Int::one());
                    match next.compare(&right) {
                        Ordering::Less => {},
                        _ => {
                            proof {
                                assert(right@ <= left@ + 1);
                            }
                            break;
                        },
                    }
                    let mid = left.add(&right).div_by_limb(2);
                    proof {
                        let s = left@ + right@;
                        assert(tdiv(s, 2) == s / 2) by {
                            lemma_tmod_props(s, 2);
                        }
                        assert(s / 2 >= left@ + 1) by {
                            lemma_div_multiples_vanish(left@ + 1, 2);
                            lemma_div_is_ordered(2 * (left@ + 1), s, 2);
                        }
                        assert(s / 2 <= right@ - 1) by {
                            lemma_div_multiples_vanish(right@ - 1, 2);
                            lemma_div_is_ordered(s, 2 * (right@ - 1), 2);
                        }
                    }
                    let prod = mid.mul(&y);
                    match prod.compare(&x) {
                        Ordering::Greater => {
                            right = mid;
                        },
                        _ => {
                            left = mid;
                        },
                    }
                }
                proof {
                    let mx = mag(self.value@) as int;
                    let my = mag(other.value@) as int;
                    lemma_quotient_unique(mx, my, left@);
                    assert(iabs(self@) / iabs(other@) == left@);
                }
                if self.sign != other.sign {
                    left.negate()
                } else {
                    left
                }
            },
        }
    }

    /// Remainder of truncating division, derived by direct subtraction; it
    /// carries the sign of the dividend and is smaller than the divisor in
    /// magnitude.
    pub fn rem(&self, other: &Int) -> (r: Int)
        requires
            self.wf(),
            other.wf(),
            other@ != 0,
        ensures
            r.wf(),
            r@ == crate::model::tmod(self@, other@),
            iabs(r@) < iabs(other@),
    {
        let q = self.div(other);
        let r = self.sub(&q.mul(other));
        proof {
            lemma_tmod_props(self@, other@);
        }
        r
    }
}

} // verus!
