//! Magnitude arithmetic on raw limb vectors: addition with carry
//! propagation, the complement-based subtraction, and scaling by one limb.

use vstd::prelude::*;
use vstd::math::max;
use vstd::arithmetic::div_mod::lemma_fundamental_div_mod;
use vstd::arithmetic::mul::{lemma_mul_upper_bound, lemma_mul_inequality};
use crate::model::{
    mag, mag_l, pow_b, limb_base, low_mag, limb_from_right, lemma_low_mag_zero,
    lemma_low_mag_step, lemma_mag_l_push, lemma_mag_flip, lemma_pow_b_zero, lemma_pow_b_unfold,
    lemma_mag_push, lemma_mag_bound, lemma_mag_lower, lemma_mag_first, lemma_mag_skip_zeros,
    lemma_pow_b_positive,
};

verus! {

/// Reverse a limb vector.
pub(crate) fn flip_limbs(v: &Vec<u64>) -> (r: Vec<u64>)
    ensures
        r@.len() == v@.len(),
        forall|j: int| 0 <= j < v@.len() ==> r@[j] == v@[v@.len() - 1 - j],
{
    let n = v.len();
    let mut r: Vec<u64> = Vec::new();
    let mut i: usize = 0;
    while i < n
        invariant
            i <= n,
            n == v@.len(),
            r@.len() == i,
            forall|j: int| 0 <= j < i ==> r@[j] == v@[n - 1 - j],
        decreases n - i,
    {
        r.push(v[n - 1 - i]);
        i = i + 1;
    }
    r
}

/// Magnitude addition: limb-by-limb from the least significant end, with a
/// carry computed in double-width arithmetic; a final carry extends the
/// result by one limb whose value is 1.
pub(crate) fn mag_add(x: &Vec<u64>, y: &Vec<u64>) -> (r: Vec<u64>)
    ensures
        mag(r@) == mag(x@) + mag(y@),
        r@.len() == max(x@.len() as int, y@.len() as int)
            || (r@.len() == max(x@.len() as int, y@.len() as int) + 1 && r@[0] == 1),
{
    let xl = x.len();
    let yl = y.len();
    let n = if xl > yl { xl } else { yl };
    let mut acc: Vec<u64> = Vec::new();
    let mut carry: u64 = 0;
    let mut i: usize = 0;
    proof {
        lemma_low_mag_zero(x@);
        lemma_low_mag_zero(y@);
        lemma_pow_b_zero();
    }
    while i < n
        invariant
            i <= n,
            xl == x@.len(),
            yl == y@.len(),
            n == max(x@.len() as int, y@.len() as int),
            acc@.len() == i,
            carry <= 1,
            mag_l(acc@) + carry * pow_b(i as nat) == low_mag(x@, i as int) + low_mag(y@, i as int),
        decreases n - i,
    {
        let xi: u64 = if i < xl { x[xl - 1 - i] } else { 0 };
        let yi: u64 = if i < yl { y[yl - 1 - i] } else { 0 };
        let s: u128 = xi as u128 + yi as u128 + carry as u128;
        let lo: u64 = (s % 0x1_0000_0000_0000_0000u128) as u64;
        let hi: u64 = (s / 0x1_0000_0000_0000_0000u128) as u64;
        let ghost acc_old = acc@;
        let ghost carry_old = carry;
        acc.push(lo);
        carry = hi;
        i = i + 1;
        proof {
            let b = limb_base() as int;
            let p = pow_b((i - 1) as nat);
            lemma_fundamental_div_mod(s as int, b);
            lemma_mag_l_push(acc_old, lo);
            lemma_low_mag_step(x@, i - 1);
            lemma_low_mag_step(y@, i - 1);
            lemma_pow_b_unfold(i as nat);
            assert(xi == limb_from_right(x@, i - 1));
            assert(yi == limb_from_right(y@, i - 1));
            assert(mag_l(acc@) + carry * pow_b(i as nat)
                == low_mag(x@, i as int) + low_mag(y@, i as int)) by (nonlinear_arith)
                requires
                    mag_l(acc@) == mag_l(acc_old) + lo * p,
                    pow_b(i as nat) == b * p,
                    s as int == b * (hi as int) + lo as int,
                    s as int == xi + yi + carry_old,
                    carry == hi,
                    mag_l(acc_old) + carry_old * p == low_mag(x@, i - 1) + low_mag(y@, i - 1),
                    low_mag(x@, i as int) == xi * p + low_mag(x@, i - 1),
                    low_mag(y@, i as int) == yi * p + low_mag(y@, i - 1),
            {}
        }
    }
    if carry > 0 {
        proof {
            lemma_mag_l_push(acc@, carry);
        }
        acc.push(carry);
    }
    let r = flip_limbs(&acc);
    proof {
        lemma_mag_flip(acc@, r@);
    }
    r
}

/// Scale a magnitude by a single limb, least significant limb first, with a
/// double-width carry.
pub(crate) fn mag_mul_limb(x: &Vec<u64>, k: u64) -> (r: Vec<u64>)
    ensures
        mag(r@) == mag(x@) * k,
{
    let xl = x.len();
    let mut acc: Vec<u64> = Vec::new();
    let mut carry: u64 = 0;
    let mut i: usize = 0;
    proof {
        lemma_low_mag_zero(x@);
        lemma_pow_b_zero();
    }
    while i < xl
        invariant
            i <= xl,
            xl == x@.len(),
            acc@.len() == i,
            mag_l(acc@) + carry * pow_b(i as nat) == low_mag(x@, i as int) * k,
        decreases xl - i,
    {
        let xi: u64 = x[xl - 1 - i];
        proof {
            lemma_mul_upper_bound(xi as int, 0xFFFF_FFFF_FFFF_FFFF, k as int, 0xFFFF_FFFF_FFFF_FFFF);
        }
        let s: u128 = xi as u128 * k as u128 + carry as u128;
        let lo: u64 = (s % 0x1_0000_0000_0000_0000u128) as u64;
        let hi: u64 = (s / 0x1_0000_0000_0000_0000u128) as u64;
        let ghost acc_old = acc@;
        let ghost carry_old = carry;
        acc.push(lo);
        carry = hi;
        i = i + 1;
        proof {
            let b = limb_base() as int;
            let p = pow_b((i - 1) as nat);
            lemma_fundamental_div_mod(s as int, b);
            lemma_mag_l_push(acc_old, lo);
            lemma_low_mag_step(x@, i - 1);
            lemma_pow_b_unfold(i as nat);
            assert(xi == limb_from_right(x@, i - 1));
            assert(mag_l(acc@) + carry * pow_b(i as nat)
                == low_mag(x@, i as int) * k) by (nonlinear_arith)
                requires
                    mag_l(acc@) == mag_l(acc_old) + lo * p,
                    pow_b(i as nat) == b * p,
                    s as int == b * (hi as int) + lo as int,
                    s as int == xi * k + carry_old,
                    carry == hi,
                    mag_l(acc_old) + carry_old * p == low_mag(x@, i - 1) * k,
                    low_mag(x@, i as int) == xi * p + low_mag(x@, i - 1),
            {}
        }
    }
    if carry > 0 {
        proof {
            lemma_mag_l_push(acc@, carry);
        }
        acc.push(carry);
    }
    let r = flip_limbs(&acc);
    proof {
        lemma_mag_flip(acc@, r@);
    }
    r
}

/// The digit-wise complement of `y` zero-padded to `n` limbs: each limb
/// becomes `2^64 - 1` minus it, so the whole denotes `base^n - 1 - mag(y)`.
fn complement_pad(y: &Vec<u64>, n: usize) -> (c: Vec<u64>)
    requires
        y@.len() <= n,
    ensures
        c@.len() == n,
        mag(c@) as int == pow_b(n as nat) - 1 - mag(y@),
{
    let yl = y.len();
    let pad = n - yl;
    let ghost pz = Seq::new((n - yl) as nat, |k: int| 0u64) + y@;
    let mut c: Vec<u64> = Vec::new();
    let mut i: usize = 0;
    proof {
        lemma_pow_b_zero();
        assert(pz.take(0) =~= Seq::<u64>::empty());
    }
    while i < n
        invariant
            i <= n,
            yl == y@.len(),
            pad == n - yl,
            pz == Seq::new((n - yl) as nat, |k: int| 0u64) + y@,
            pz.len() == n,
            c@.len() == i,
            mag(c@) as int == pow_b(i as nat) - 1 - mag(pz.take(i as int)),
        decreases n - i,
    {
        let limb: u64 = if i < pad { 0 } else { y[i - pad] };
        let ghost c_old = c@;
        c.push(0xFFFF_FFFF_FFFF_FFFFu64 - limb);
        i = i + 1;
        proof {
            let b = limb_base() as int;
            let p = pow_b((i - 1) as nat);
            assert(limb == pz[i - 1]);
            lemma_mag_push(c_old, (0xFFFF_FFFF_FFFF_FFFF - limb) as u64);
            assert(pz.take(i as int) =~= pz.take(i - 1).push(pz[i - 1]));
            lemma_mag_push(pz.take(i - 1), pz[i - 1]);
            lemma_pow_b_unfold(i as nat);
            assert(mag(c@) as int == pow_b(i as nat) - 1 - mag(pz.take(i as int)))
                by (nonlinear_arith)
                requires
                    mag(c@) == mag(c_old) * b + (0xFFFF_FFFF_FFFF_FFFF - limb),
                    mag(c_old) as int == p - 1 - mag(pz.take(i - 1)),
                    mag(pz.take(i as int)) == mag(pz.take(i - 1)) * b + limb,
                    pow_b(i as nat) == b * p,
                    b == 0x1_0000_0000_0000_0000,
            {}
        }
    }
    proof {
        assert(pz.take(n as int) =~= pz);
        lemma_mag_skip_zeros(pz, pad as int);
        assert(pz.skip(pad as int) =~= y@);
    }
    c
}

/// Magnitude subtraction by the complement technique: add the padded
/// complement of the subtrahend and one, then discard the overflow limb.
pub(crate) fn mag_sub(x: &Vec<u64>, y: &Vec<u64>) -> (r: Vec<u64>)
    requires
        y@.len() <= x@.len(),
        mag(y@) <= mag(x@),
    ensures
        mag(r@) as int == mag(x@) - mag(y@),
        r@.len() == x@.len(),
{
    let n = x.len();
    let c = complement_pad(y, n);
    let s = mag_add(x, &c);
    let mut one_v: Vec<u64> = Vec::new();
    one_v.push(1);
    proof {
        lemma_mag_push(Seq::<u64>::empty(), 1);
    }
    let t = mag_add(&s, &one_v);
    proof {
        lemma_mag_bound(x@);
        lemma_pow_b_unfold((n + 1) as nat);
        lemma_pow_b_positive(n as nat);
        assert(mag(t@) as int == mag(x@) + pow_b(n as nat) - mag(y@));
        assert(pow_b(n as nat) <= mag(t@) as int);
        assert((mag(t@) as int) < 2 * pow_b(n as nat));
        if t@.len() <= n {
            lemma_mag_bound(t@);
            lemma_pow_b_positive(t@.len());
            assert(limb_base() as int >= 1);
            vstd::arithmetic::power::lemma_pow_increases(limb_base(), t@.len(), n as nat);
            assert(false);
        }
        if t@.len() > n + 1 {
            assert(t@.len() == max(s@.len() as int, 1) + 1 && t@[0] == 1);
            lemma_mag_lower(t@);
            vstd::arithmetic::power::lemma_pow_increases(limb_base(), (n + 1) as nat, (t@.len() - 1) as nat);
            assert(pow_b((t@.len() - 1) as nat) >= pow_b((n + 1) as nat));
            assert(false);
        }
        assert(t@.len() == n + 1);
        lemma_mag_first(t@);
        lemma_mag_bound(t@.skip(1));
        if t@[0] == 0 {
            assert(false);
        }
        if t@[0] >= 2 {
            lemma_mul_inequality(2, t@[0] as int, pow_b(n as nat));
            assert(false);
        }
        assert(t@[0] == 1);
    }
    let mut r: Vec<u64> = Vec::new();
    let tl = t.len();
    let mut j: usize = 1;
    while j < tl
        invariant
            1 <= j <= tl,
            tl == t@.len(),
            tl == x@.len() + 1,
            t@[0] == 1,
            mag(t@) as int == mag(x@) + pow_b(x@.len()) - mag(y@),
            r@ == t@.subrange(1, j as int),
        decreases tl - j,
    {
        r.push(t[j]);
        proof {
            assert(t@.subrange(1, j as int).push(t@[j as int]) =~= t@.subrange(1, j + 1));
        }
        j = j + 1;
    }
    proof {
        assert(r@ =~= t@.skip(1));
        lemma_mag_first(t@);
        assert(mag(t@) == t@[0] * pow_b((t@.len() - 1) as nat) + mag(t@.skip(1)));
        assert(pow_b((t@.len() - 1) as nat) == pow_b(x@.len()));
        assert(t@[0] * pow_b((t@.len() - 1) as nat) == pow_b(x@.len())) by (nonlinear_arith)
            requires
                t@[0] == 1,
                pow_b((t@.len() - 1) as nat) == pow_b(x@.len()),
        {}
        assert(mag(r@) == mag(t@.skip(1)));
        assert(mag(r@) as int == mag(x@) - mag(y@));
    }
    r
}

} // verus!
