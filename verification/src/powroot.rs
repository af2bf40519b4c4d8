//! Binary (square-and-multiply) exponentiation, plain and modular, and the
//! integer square root by binary search.

use vstd::prelude::*;
use core::cmp::Ordering;
use vstd::arithmetic::power::{pow, lemma_pow0, lemma_pow1, lemma_pow_adds, lemma_pow_multiplies};
use vstd::arithmetic::div_mod::{lemma_fundamental_div_mod, lemma_small_mod, lemma_mod_bound};
use crate::model::{iabs, tdiv, tmod, lemma_tmod_props, lemma_mid_bounds};
use crate::num::Int;

verus! {

/// Two integers are congruent modulo `m` when their difference is a
/// multiple of `m`.
pub open spec fn congruent(a: int, b: int, m: int) -> bool {
    exists|c: int| a - b == #[trigger] (c * m)
}

proof fn lemma_congruent_refl(a: int, m: int)
    ensures
        congruent(a, a, m),
{
    assert(a - a == 0 * m) by (nonlinear_arith);
}

/// Congruence is compatible with multiplication.
proof fn lemma_congruent_mul(a: int, b: int, c: int, d: int, m: int)
    requires
        congruent(a, b, m),
        congruent(c, d, m),
    ensures
        congruent(a * c, b * d, m),
{
    let k1 = choose|k: int| a - b == #[trigger] (k * m);
    let k2 = choose|k: int| c - d == #[trigger] (k * m);
    assert(a * c - b * d == (c * k1 + b * k2) * m) by (nonlinear_arith)
        requires
            a - b == k1 * m,
            c - d == k2 * m,
    {}
}

/// The truncating remainder is congruent to the dividend.
proof fn lemma_congruent_tmod(a: int, m: int)
    requires
        m != 0,
    ensures
        congruent(tmod(a, m), a, m),
{
    assert(tmod(a, m) - a == (-tdiv(a, m)) * m) by (nonlinear_arith)
        requires
            tmod(a, m) == a - tdiv(a, m) * m,
    {}
}

/// Congruence is compatible with exponentiation.
proof fn lemma_congruent_pow(a: int, b: int, e: nat, m: int)
    requires
        congruent(a, b, m),
    ensures
        congruent(pow(a, e), pow(b, e), m),
    decreases e,
{
    if e == 0 {
        lemma_pow0(a);
        lemma_pow0(b);
        lemma_congruent_refl(1, m);
    } else {
        lemma_congruent_pow(a, b, (e - 1) as nat, m);
        lemma_pow1(a);
        lemma_pow1(b);
        lemma_pow_adds(a, 1, (e - 1) as nat);
        lemma_pow_adds(b, 1, (e - 1) as nat);
        lemma_congruent_mul(a, b, pow(a, (e - 1) as nat), pow(b, (e - 1) as nat), m);
    }
}

impl Int {
    /// Raise to a non-negative arbitrary-precision power by binary
    /// exponentiation: square the base and halve the exponent, multiplying
    /// the accumulator in on each set bit.
    pub fn pow(&self, exp: &Int) -> (r: Int)
        requires
            self.wf(),
            exp.wf(),
            exp@ >= 0,
        ensures
            r.wf(),
            r@ == pow(self@, exp@ as nat),
    {
        let ghost b0 = self@;
        let ghost e0 = exp@;
        let mut result = Int::one();
        let mut base_acc = self.duplicate();
        let mut e = exp.duplicate();
        loop
            invariant
                result.wf(),
                base_acc.wf(),
                e.wf(),
                e@ >= 0,
                result@ * pow(base_acc@, e@ as nat) == pow(b0, e0 as nat),
            ensures
                result.wf(),
                result@ == pow(b0, e0 as nat),
            decreases e@,
        {
            proof {
                e.lemma_view_sign();
            }
            if e.size == 0 {
                proof {
                    lemma_pow0(base_acc@);
                    assert(result@ == pow(b0, e0 as nat)) by (nonlinear_arith)
                        requires
                            result@ * pow(base_acc@, 0) == pow(b0, e0 as nat),
                            pow(base_acc@, 0) == 1,
                    {}
                }
                break;
            }
            let ghost eo = e@;
            let ghost bo = base_acc@;
            let ghost ro = result@;
            let bit = e.rem_by_limb(2);
            if bit == 1 {
                result = result.mul(&base_acc);
            }
            e = e.div_by_limb(2);
            base_acc = base_acc.mul(&base_acc);
            proof {
                let k = e@;
                lemma_tmod_props(eo, 2);
                lemma_fundamental_div_mod(eo, 2);
                assert(eo == 2 * k + bit);
                lemma_pow_multiplies(bo, 2, k as nat);
                lemma_pow1(bo);
                lemma_pow_adds(bo, 1, 1);
                assert(pow(bo, 2) == bo * bo);
                assert(pow(bo * bo, k as nat) == pow(bo, (2 * k) as nat));
                if bit == 1 {
                    lemma_pow_adds(bo, (2 * k) as nat, 1);
                    assert(pow(bo, eo as nat) == pow(bo, (2 * k) as nat) * bo);
                    assert(result@ * pow(base_acc@, e@ as nat) == pow(b0, e0 as nat))
                        by (nonlinear_arith)
                        requires
                            result@ == ro * bo,
                            base_acc@ == bo * bo,
                            pow(base_acc@, e@ as nat) == pow(bo, (2 * k) as nat),
                            pow(bo, eo as nat) == pow(bo, (2 * k) as nat) * bo,
                            ro * pow(bo, eo as nat) == pow(b0, e0 as nat),
                    {}
                } else {
                    assert(eo == 2 * k);
                    assert(result@ * pow(base_acc@, e@ as nat) == pow(b0, e0 as nat))
                        by (nonlinear_arith)
                        requires
                            result@ == ro,
                            base_acc@ == bo * bo,
                            pow(base_acc@, e@ as nat) == pow(bo, eo as nat),
                            ro * pow(bo, eo as nat) == pow(b0, e0 as nat),
                    {}
                }
                assert(e@ < eo) by (nonlinear_arith)
                    requires
                        eo == 2 * e@ + bit,
                        eo >= 1,
                        e@ >= 0,
                        bit <= 1,
                {}
            }
        }
        result
    }

    /// Modular exponentiation: as `pow`, reducing the accumulator and the
    /// squared base by the modulus after every multiplication.  On a
    /// non-negative base and positive modulus the result is the remainder of
    /// the power; in general it is congruent to the power modulo the modulus.
    pub fn mod_pow(&self, exp: &Int, m: &Int) -> (r: Int)
        requires
            self.wf(),
            exp.wf(),
            m.wf(),
            exp@ >= 0,
            m@ != 0,
        ensures
            r.wf(),
            m@ == 1 ==> r@ == 0,
            self@ >= 0 && m@ > 0 ==> r@ == pow(self@, exp@ as nat) % m@,
            congruent(r@, pow(self@, exp@ as nat), m@),
            exp@ >= 1 ==> iabs(r@) < iabs(m@),
    {
        let ghost b0 = self@;
        let ghost e0 = exp@;
        let ghost mm = m@;
        let one = Int::one();
        match m.compare(&one) {
            Ordering::Equal => {
                proof {
                    let p = pow(b0, e0 as nat);
                    assert(0 - p == (-p) * 1) by (nonlinear_arith);
                    lemma_mod_bound(p, 1);
                }
                Int::zero()
            },
            _ => {
                let mut result = Int::one();
                let mut base_acc = self.rem(m);
                let mut e = exp.duplicate();
                proof {
                    lemma_congruent_tmod(b0, mm);
                    lemma_congruent_pow(base_acc@, b0, e0 as nat, mm);
                    let k0 = choose|c: int| pow(base_acc@, e0 as nat) - pow(b0, e0 as nat) == #[trigger] (c * mm);
                    assert(result@ * pow(base_acc@, e0 as nat) - pow(b0, e0 as nat) == k0 * mm)
                        by (nonlinear_arith)
                        requires
                            result@ == 1,
                            pow(base_acc@, e0 as nat) - pow(b0, e0 as nat) == k0 * mm,
                    {}
                    lemma_tmod_props(b0, mm);
                }
                loop
                    invariant
                        result.wf(),
                        base_acc.wf(),
                        e.wf(),
                        m.wf(),
                        e@ >= 0,
                        m@ == mm,
                        mm != 0,
                        mm != 1,
                        congruent(result@ * pow(base_acc@, e@ as nat), pow(b0, e0 as nat), mm),
                        b0 >= 0 && mm >= 2 ==> 0 <= result@ < mm && 0 <= base_acc@ < mm,
                        e@ == 0 && e0 >= 1 ==> iabs(result@) < iabs(mm),
                    ensures
                        result.wf(),
                        congruent(result@, pow(b0, e0 as nat), mm),
                        b0 >= 0 && mm >= 2 ==> 0 <= result@ < mm,
                        e0 >= 1 ==> iabs(result@) < iabs(mm),
                    decreases e@,
                {
                    proof {
                        e.lemma_view_sign();
                    }
                    if e.size == 0 {
                        proof {
                            lemma_pow0(base_acc@);
                            let kq = choose|c: int|
                                result@ * pow(base_acc@, 0) - pow(b0, e0 as nat) == #[trigger] (c * mm);
                            assert(result@ - pow(b0, e0 as nat) == kq * mm) by (nonlinear_arith)
                                requires
                                    result@ * pow(base_acc@, 0) - pow(b0, e0 as nat) == kq * mm,
                                    pow(base_acc@, 0) == 1,
                            {}
                        }
                        break;
                    }
                    let ghost eo = e@;
                    let ghost bo = base_acc@;
                    let ghost ro = result@;
                    let bit = e.rem_by_limb(2);
                    if bit == 1 {
                        result = result.mul(&base_acc).rem(m);
                    }
                    e = e.div_by_limb(2);
                    base_acc = base_acc.mul(&base_acc).rem(m);
                    proof {
                        let k = e@;
                        lemma_tmod_props(eo, 2);
                        lemma_fundamental_div_mod(eo, 2);
                        assert(eo == 2 * k + bit);
                        lemma_pow_multiplies(bo, 2, k as nat);
                        lemma_pow1(bo);
                        lemma_pow_adds(bo, 1, 1);
                        assert(pow(bo, 2) == bo * bo);
                        assert(pow(bo * bo, k as nat) == pow(bo, (2 * k) as nat));
                        lemma_congruent_tmod(bo * bo, mm);
                        lemma_congruent_pow(base_acc@, bo * bo, k as nat, mm);
                        lemma_tmod_props(bo * bo, mm);
                        if bit == 1 {
                            lemma_pow_adds(bo, (2 * k) as nat, 1);
                            lemma_congruent_tmod(ro * bo, mm);
                            lemma_congruent_mul(
                                result@, ro * bo,
                                pow(base_acc@, k as nat), pow(bo, (2 * k) as nat),
                                mm,
                            );
                            let kq = choose|c: int|
                                result@ * pow(base_acc@, k as nat)
                                    - (ro * bo) * pow(bo, (2 * k) as nat) == #[trigger] (c * mm);
                            let kp = choose|c: int|
                                ro * pow(bo, eo as nat) - pow(b0, e0 as nat) == #[trigger] (c * mm);
                            assert(result@ * pow(base_acc@, k as nat) - pow(b0, e0 as nat)
                                == (kq + kp) * mm) by (nonlinear_arith)
                                requires
                                    result@ * pow(base_acc@, k as nat)
                                        - (ro * bo) * pow(bo, (2 * k) as nat) == kq * mm,
                                    ro * pow(bo, eo as nat) - pow(b0, e0 as nat) == kp * mm,
                                    pow(bo, eo as nat) == pow(bo, (2 * k) as nat) * bo,
                            {}
                            lemma_tmod_props(ro * bo, mm);
                        } else {
                            assert(eo == 2 * k);
                            lemma_congruent_refl(result@, mm);
                            lemma_congruent_mul(
                                result@, result@,
                                pow(base_acc@, k as nat), pow(bo, eo as nat),
                                mm,
                            );
                            let kq = choose|c: int|
                                result@ * pow(base_acc@, k as nat)
                                    - result@ * pow(bo, eo as nat) == #[trigger] (c * mm);
                            let kp = choose|c: int|
                                result@ * pow(bo, eo as nat) - pow(b0, e0 as nat) == #[trigger] (c * mm);
                            assert(result@ * pow(base_acc@, k as nat) - pow(b0, e0 as nat)
                                == (kq + kp) * mm) by (nonlinear_arith)
                                requires
                                    result@ * pow(base_acc@, k as nat)
                                        - result@ * pow(bo, eo as nat) == kq * mm,
                                    result@ * pow(bo, eo as nat) - pow(b0, e0 as nat) == kp * mm,
                            {}
                        }
                        if b0 >= 0 && mm >= 2 {
                            assert(0 <= bo * bo) by (nonlinear_arith)
                                requires
                                    0 <= bo,
                            {}
                            if bit == 1 {
                                assert(0 <= ro * bo) by (nonlinear_arith)
                                    requires
                                        0 <= ro,
                                        0 <= bo,
                                {}
                            }
                        }
                        assert(e@ < eo) by (nonlinear_arith)
                            requires
                                eo == 2 * e@ + bit,
                                eo >= 1,
                                e@ >= 0,
                                bit <= 1,
                        {}
                    }
                }
                proof {
                    if b0 >= 0 && mm > 0 {
                        assert(mm >= 2);
                        let kq = choose|c: int| result@ - pow(b0, e0 as nat) == #[trigger] (c * mm);
                        assert(pow(b0, e0 as nat) == mm * (-kq) + result@) by (nonlinear_arith)
                            requires
                                result@ - pow(b0, e0 as nat) == kq * mm,
                        {}
                        vstd::arithmetic::div_mod::lemma_mod_multiples_vanish(-kq, result@, mm);
                        lemma_small_mod(result@ as nat, mm as nat);
                    }
                }
                result
            },
        }
    }

    /// Integer square root of a non-negative value, by binary search.
    pub fn isqrt(&self) -> (r: Int)
        requires
            self.wf(),
            self@ >= 0,
        ensures
            r.wf(),
            r@ >= 0,
            r@ * r@ <= self@,
            self@ < (r@ + 1) * (r@ + 1),
    {
        proof {
            self.lemma_view_sign();
        }
        if self.size == 0 {
            let r = Int::zero();
            proof {
                assert(r@ * r@ <= self@ && self@ < (r@ + 1) * (r@ + 1)) by (nonlinear_arith)
                    requires
                        r@ == 0,
                        self@ == 0,
                {}
            }
            return r;
        }
        let mut left = Int::one();
        let mut right = self.add(&Int::one());
        proof {
            assert(left@ * left@ <= self@ && self@ < right@ * right@) by (nonlinear_arith)
                requires
                    left@ == 1,
                    right@ == self@ + 1,
                    self@ >= 1,
            {}
        }
        loop
            invariant
                self.wf(),
                left.wf(),
                right.wf(),
                1 <= left@,
                left@ < right@,
                left@ * left@ <= self@,
                self@ < right@ * right@,
            ensures
                left.wf(),
                1 <= left@,
                left@ * left@ <= self@,
                self@ < (left@ + 1) * (left@ + 1),
            decreases right@ - left@,
        {
            let next = left.add(&Int::one());
            match next.compare(&right) {
                Ordering::Less => {},
                _ => {
                    break;
                },
            }
            let mid = left.add(&right).div_by_limb(2);
            proof {
                lemma_tmod_props(left@ + right@, 2);
                lemma_mid_bounds(left@, right@);
            }
            let sq = mid.mul(&mid);
            match sq.compare(self) {
                Ordering::Greater => {
                    right = mid;
                },
                _ => {
                    left = mid;
                },
            }
        }
        left
    }
}

} // verus!
