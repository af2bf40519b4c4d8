//! The mathematical model of a limb sequence: the magnitude it denotes,
//! and the lemmas about magnitudes that the arithmetic proofs rest on.

use vstd::prelude::*;
use vstd::arithmetic::power::{
    pow, lemma_pow_positive, lemma_pow_adds, lemma_pow_increases, lemma_pow0, lemma_pow1,
};
use vstd::arithmetic::mul::{
    lemma_mul_inequality, lemma_mul_is_distributive_add_other_way,
    lemma_mul_is_associative, lemma_mul_is_commutative,
    lemma_mul_cancels_negatives, lemma_mul_unary_negation,
};
use vstd::arithmetic::div_mod::{
    lemma_fundamental_div_mod_converse, lemma_fundamental_div_mod, lemma_mod_bound,
};

verus! {

/// Numeric base of the limb system: 2^64.
pub open spec fn limb_base() -> nat {
    0x1_0000_0000_0000_0000
}

/// `limb_base()` raised to the power `n`.
pub open spec fn pow_b(n: nat) -> int {
    pow(limb_base() as int, n)
}

/// Absolute value of a mathematical integer.
pub open spec fn iabs(a: int) -> nat {
    if a < 0 {
        (-a) as nat
    } else {
        a as nat
    }
}

/// Quotient of truncating division: the magnitudes divide, and the result is
/// negative exactly when the operands' signs differ.
pub open spec fn tdiv(a: int, b: int) -> int {
    if (a < 0) != (b < 0) {
        -((iabs(a) / iabs(b)) as int)
    } else {
        (iabs(a) / iabs(b)) as int
    }
}

/// Remainder of truncating division; it carries the sign of the dividend.
pub open spec fn tmod(a: int, b: int) -> int {
    a - tdiv(a, b) * b
}

/// A bracketed multiple pins the quotient down.
pub proof fn lemma_quotient_unique(x: int, y: int, q: int)
    requires
        y > 0,
        x >= 0,
        q >= 0,
        q * y <= x,
        x < (q + 1) * y,
    ensures
        x / y == q,
        x % y == x - q * y,
{
    assert((q + 1) * y == q * y + y) by {
        lemma_mul_is_distributive_add_other_way(y, q, 1);
    }
    lemma_fundamental_div_mod_converse(x, y, q, x - q * y);
}

/// The midpoint of a bracket of width at least two lies strictly inside it.
pub proof fn lemma_mid_bounds(l: int, r: int)
    requires
        l + 1 < r,
    ensures
        l + 1 <= (l + r) / 2 <= r - 1,
{
    vstd::arithmetic::div_mod::lemma_div_multiples_vanish(l + 1, 2);
    vstd::arithmetic::div_mod::lemma_div_is_ordered(2 * (l + 1), l + r, 2);
    vstd::arithmetic::div_mod::lemma_div_multiples_vanish(r - 1, 2);
    vstd::arithmetic::div_mod::lemma_div_is_ordered(l + r, 2 * (r - 1), 2);
}

/// Properties of truncating division: the remainder is smaller than the
/// divisor in magnitude, carries the sign of the dividend, and both agree
/// with ordinary Euclidean division on non-negative operands.
pub proof fn lemma_tmod_props(a: int, b: int)
    requires
        b != 0,
    ensures
        iabs(tmod(a, b)) < iabs(b),
        a >= 0 ==> tmod(a, b) >= 0,
        a < 0 ==> tmod(a, b) <= 0,
        a >= 0 && b > 0 ==> tdiv(a, b) == a / b && tmod(a, b) == a % b,
{
    let ia = iabs(a) as int;
    let ib = iabs(b) as int;
    let q = ia / ib;
    let r = ia % ib;
    lemma_fundamental_div_mod(ia, ib);
    lemma_mod_bound(ia, ib);
    lemma_mul_is_commutative(q, ib);
    if a >= 0 {
        if b > 0 {
            assert(tdiv(a, b) == q);
            assert(tmod(a, b) == ia - q * ib);
            lemma_fundamental_div_mod_converse(ia, ib, q, r);
        } else {
            assert(tdiv(a, b) == -q);
            assert((-q) * b == q * ib) by {
                lemma_mul_cancels_negatives(q, ib);
            }
            assert(tmod(a, b) == r);
        }
    } else {
        if b > 0 {
            assert(tdiv(a, b) == -q);
            assert((-q) * ib == -(q * ib)) by {
                lemma_mul_unary_negation(q, ib);
            }
            assert(tmod(a, b) == -r);
        } else {
            assert(tdiv(a, b) == q);
            assert(q * (-ib) == -(q * ib)) by {
                lemma_mul_unary_negation(ib, q);
                lemma_mul_is_commutative(q, -ib);
                lemma_mul_is_commutative(ib, q);
                lemma_mul_unary_negation(q, ib);
            }
            assert(tmod(a, b) == -r);
        }
    }
}

/// Magnitude denoted by a limb sequence, most significant limb first.
pub open spec fn mag(s: Seq<u64>) -> nat
    decreases s.len(),
{
    if s.len() == 0 {
        0
    } else {
        (mag(s.drop_last()) * limb_base() + s.last()) as nat
    }
}

/// Magnitude denoted by a limb sequence, least significant limb first.
pub open spec fn mag_l(s: Seq<u64>) -> nat
    decreases s.len(),
{
    if s.len() == 0 {
        0
    } else {
        (s.first() + mag_l(s.skip(1)) * limb_base()) as nat
    }
}

pub proof fn lemma_pow_b_positive(n: nat)
    ensures
        pow_b(n) > 0,
{
    lemma_pow_positive(limb_base() as int, n);
}

pub proof fn lemma_pow_b_unfold(n: nat)
    requires
        n > 0,
    ensures
        pow_b(n) == limb_base() * pow_b((n - 1) as nat),
{
    lemma_pow1(limb_base() as int);
    lemma_pow_adds(limb_base() as int, 1, (n - 1) as nat);
}

pub proof fn lemma_pow_b_zero()
    ensures
        pow_b(0) == 1,
{
    lemma_pow0(limb_base() as int);
}

pub proof fn lemma_mag_push(s: Seq<u64>, x: u64)
    ensures
        mag(s.push(x)) == mag(s) * limb_base() + x,
{
    assert(s.push(x).drop_last() =~= s);
    assert(s.push(x).last() == x);
}

pub proof fn lemma_mag_singleton(x: u64)
    ensures
        mag(seq![x]) == x,
{
    assert(seq![x] =~= Seq::<u64>::empty().push(x));
    lemma_mag_push(Seq::<u64>::empty(), x);
}

/// Splitting a sequence at position `k` splits its magnitude.
pub proof fn lemma_mag_split(s: Seq<u64>, k: int)
    requires
        0 <= k <= s.len(),
    ensures
        mag(s) == mag(s.take(k)) * pow_b((s.len() - k) as nat) + mag(s.skip(k)),
    decreases s.len(),
{
    if k == s.len() {
        assert(s.take(k) =~= s);
        assert(s.skip(k) =~= Seq::<u64>::empty());
        lemma_pow_b_zero();
    } else {
        let t = s.drop_last();
        let x = s.last();
        lemma_mag_split(t, k);
        assert(s.take(k) =~= t.take(k));
        assert(s.skip(k) =~= t.skip(k).push(x));
        lemma_mag_push(t.skip(k), x);
        let p = pow_b((t.len() - k) as nat);
        let b = limb_base() as int;
        lemma_pow_b_unfold((s.len() - k) as nat);
        assert(mag(s) == mag(t) * b + x);
        assert(mag(t) * b == (mag(t.take(k)) * p + mag(t.skip(k))) * b);
        lemma_mul_is_distributive_add_other_way(b, mag(t.take(k)) * p as int, mag(t.skip(k)) as int);
        lemma_mul_is_associative(mag(t.take(k)) as int, p, b);
        assert(pow_b((s.len() - k) as nat) == b * p);
        lemma_mul_is_commutative(b, p);
    }
}

/// A magnitude is bounded by the base raised to the limb count.
pub proof fn lemma_mag_bound(s: Seq<u64>)
    ensures
        mag(s) < pow_b(s.len()),
    decreases s.len(),
{
    let b = limb_base() as int;
    if s.len() == 0 {
        lemma_pow_b_zero();
    } else {
        let t = s.drop_last();
        lemma_mag_bound(t);
        lemma_pow_b_unfold(s.len());
        lemma_mul_inequality(mag(t) as int, pow_b(t.len()) - 1, b);
        assert((pow_b(t.len()) - 1) * b == pow_b(t.len()) * b - b) by {
            lemma_mul_is_distributive_add_other_way(b, pow_b(t.len()), -1);
        }
        lemma_mul_is_commutative(pow_b(t.len()), b);
    }
}

/// The leading limb contributes its positional weight in full.
pub proof fn lemma_mag_first(s: Seq<u64>)
    requires
        s.len() > 0,
    ensures
        mag(s) == s[0] * pow_b((s.len() - 1) as nat) + mag(s.skip(1)),
{
    lemma_mag_split(s, 1);
    assert(s.take(1) =~= seq![s[0]]);
    lemma_mag_singleton(s[0]);
}

/// A sequence with a non-zero leading limb denotes at least its weight.
pub proof fn lemma_mag_lower(s: Seq<u64>)
    requires
        s.len() > 0,
        s[0] != 0,
    ensures
        mag(s) >= pow_b((s.len() - 1) as nat),
{
    lemma_mag_first(s);
    lemma_pow_b_positive((s.len() - 1) as nat);
    lemma_mul_inequality(1, s[0] as int, pow_b((s.len() - 1) as nat));
}

pub proof fn lemma_mag_all_zero(s: Seq<u64>)
    requires
        forall|i: int| 0 <= i < s.len() ==> s[i] == 0,
    ensures
        mag(s) == 0,
    decreases s.len(),
{
    if s.len() > 0 {
        lemma_mag_all_zero(s.drop_last());
    }
}

/// Leading zero limbs do not change the magnitude.
pub proof fn lemma_mag_skip_zeros(s: Seq<u64>, k: int)
    requires
        0 <= k <= s.len(),
        forall|i: int| 0 <= i < k ==> s[i] == 0,
    ensures
        mag(s) == mag(s.skip(k)),
{
    lemma_mag_split(s, k);
    lemma_mag_all_zero(s.take(k));
}

/// Trailing zero limbs multiply the magnitude by their weight.
pub proof fn lemma_mag_append_zeros(s: Seq<u64>, z: Seq<u64>)
    requires
        forall|i: int| 0 <= i < z.len() ==> z[i] == 0,
    ensures
        mag(s + z) == mag(s) * pow_b(z.len()),
{
    let c = s + z;
    lemma_mag_split(c, s.len() as int);
    assert(c.take(s.len() as int) =~= s);
    assert(c.skip(s.len() as int) =~= z);
    lemma_mag_all_zero(z);
}

/// Equal-length sequences with equal magnitudes are identical.
pub proof fn lemma_mag_same_len_eq(s: Seq<u64>, t: Seq<u64>)
    requires
        s.len() == t.len(),
        mag(s) == mag(t),
    ensures
        s =~= t,
    decreases s.len(),
{
    if s.len() > 0 {
        let b = limb_base() as int;
        lemma_fundamental_div_mod_converse(mag(s) as int, b, mag(s.drop_last()) as int, s.last() as int);
        lemma_fundamental_div_mod_converse(mag(t) as int, b, mag(t.drop_last()) as int, t.last() as int);
        assert(s.last() == t.last());
        assert(mag(s.drop_last()) == mag(t.drop_last()));
        lemma_mag_same_len_eq(s.drop_last(), t.drop_last());
        assert(s =~= s.drop_last().push(s.last()));
        assert(t =~= t.drop_last().push(t.last()));
    }
}

/// On equal lengths, the first differing limb decides the order.
pub proof fn lemma_mag_lex(s: Seq<u64>, t: Seq<u64>, i: int)
    requires
        s.len() == t.len(),
        0 <= i < s.len(),
        forall|j: int| 0 <= j < i ==> s[j] == t[j],
        s[i] < t[i],
    ensures
        mag(s) < mag(t),
{
    lemma_mag_split(s, i);
    lemma_mag_split(t, i);
    assert(s.take(i) =~= t.take(i));
    let q = pow_b((s.len() - i - 1) as nat);
    lemma_mag_first(s.skip(i));
    lemma_mag_first(t.skip(i));
    assert(s.skip(i)[0] == s[i]);
    assert(t.skip(i)[0] == t[i]);
    assert(s.skip(i).skip(1) =~= s.skip(i + 1));
    assert(t.skip(i).skip(1) =~= t.skip(i + 1));
    lemma_mag_bound(s.skip(i + 1));
    assert(mag(s.skip(i)) == s[i] * q + mag(s.skip(i + 1)));
    assert(mag(s.skip(i)) < s[i] * q + q);
    assert(s[i] * q + q == (s[i] + 1) * q) by {
        lemma_mul_is_distributive_add_other_way(q, s[i] as int, 1);
    }
    lemma_mul_inequality(s[i] + 1, t[i] as int, q);
    lemma_pow_b_positive((s.len() - i - 1) as nat);
    assert(mag(t.skip(i)) >= t[i] * q);
}

/// A shorter normalized sequence denotes a smaller magnitude.
pub proof fn lemma_mag_len_order(s: Seq<u64>, t: Seq<u64>)
    requires
        s.len() < t.len(),
        t.len() > 0,
        t[0] != 0,
    ensures
        mag(s) < mag(t),
{
    lemma_mag_bound(s);
    lemma_mag_lower(t);
    assert(limb_base() as int >= 1);
    lemma_pow_increases(limb_base(), s.len(), (t.len() - 1) as nat);
}

/// Reading a sequence back to front yields the least-significant-first value.
pub proof fn lemma_mag_flip(a: Seq<u64>, b: Seq<u64>)
    requires
        a.len() == b.len(),
        forall|j: int| 0 <= j < a.len() ==> b[j] == a[a.len() - 1 - j],
    ensures
        mag(b) == mag_l(a),
    decreases a.len(),
{
    if a.len() > 0 {
        let n = a.len();
        assert(b.last() == a[0]);
        let bd = b.drop_last();
        let ask = a.skip(1);
        assert(forall|j: int| 0 <= j < ask.len() ==> bd[j] == ask[ask.len() - 1 - j]);
        lemma_mag_flip(ask, bd);
    }
}

pub proof fn lemma_mag_l_push(s: Seq<u64>, x: u64)
    ensures
        mag_l(s.push(x)) == mag_l(s) + x * pow_b(s.len()),
    decreases s.len(),
{
    let b = limb_base() as int;
    if s.len() == 0 {
        lemma_pow_b_zero();
        assert(s.push(x).skip(1) =~= Seq::<u64>::empty());
        assert(mag_l(s.push(x)) == x + mag_l(Seq::<u64>::empty()) * limb_base());
    } else {
        assert(s.push(x).skip(1) =~= s.skip(1).push(x));
        assert(s.push(x).first() == s.first());
        lemma_mag_l_push(s.skip(1), x);
        lemma_pow_b_unfold(s.len());
        assert((mag_l(s.skip(1)) + x * pow_b((s.len() - 1) as nat)) * b
            == mag_l(s.skip(1)) * b + (x * pow_b((s.len() - 1) as nat)) * b) by {
            lemma_mul_is_distributive_add_other_way(b, mag_l(s.skip(1)) as int, x * pow_b((s.len() - 1) as nat));
        }
        lemma_mul_is_associative(x as int, pow_b((s.len() - 1) as nat), b);
        lemma_mul_is_commutative(pow_b((s.len() - 1) as nat), b);
    }
}

/// The magnitude of the lowest `i` limbs of `s` (most significant first).
pub open spec fn low_mag(s: Seq<u64>, i: int) -> nat {
    if i >= s.len() {
        mag(s)
    } else {
        mag(s.skip(s.len() - i))
    }
}

/// The limb of `s` at distance `i` from the least significant end.
pub open spec fn limb_from_right(s: Seq<u64>, i: int) -> u64 {
    if 0 <= i < s.len() {
        s[s.len() - 1 - i]
    } else {
        0
    }
}

pub proof fn lemma_low_mag_zero(s: Seq<u64>)
    ensures
        low_mag(s, 0) == 0,
{
    if s.len() > 0 {
        assert(s.skip(s.len() as int) =~= Seq::<u64>::empty());
    }
}

pub proof fn lemma_low_mag_step(s: Seq<u64>, i: int)
    requires
        0 <= i,
    ensures
        low_mag(s, i + 1) == limb_from_right(s, i) * pow_b(i as nat) + low_mag(s, i),
{
    if i >= s.len() {
        assert(limb_from_right(s, i) == 0);
        assert(low_mag(s, i + 1) == mag(s));
    } else {
        let u = s.skip(s.len() - i - 1);
        lemma_mag_first(u);
        assert(u.len() == i + 1);
        assert(u[0] == s[s.len() - 1 - i]);
        assert(u.skip(1) =~= s.skip(s.len() - i));
        assert(mag(u) == limb_from_right(s, i) * pow_b(i as nat) + low_mag(s, i));
        if i + 1 >= s.len() {
            assert(u =~= s);
        }
        assert(low_mag(s, i + 1) == mag(u));
    }
}

} // verus!
