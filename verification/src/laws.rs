//! The algebraic laws of the engine, stated over the views and spec
//! functions that the operations' contracts use, and proved once for all
//! values.

use vstd::prelude::*;
use core::cmp::Ordering;
use crate::model::{tdiv, tmod};
use crate::num::Int;
use crate::decimal::{dec_repr, dec_value, dec_digits, valid_decimal, is_digit,
    lemma_dec_mag_of_digits};

verus! {

/// The canonical decimal text of any value is accepted by the parser and
/// denotes that value: the round trip `from_str(to_str(v))` returns `v`.
pub proof fn lemma_dec_repr_round_trip(i: int)
    ensures
        valid_decimal(dec_repr(i)),
        dec_value(dec_repr(i)) == i,
{
    if i < 0 {
        lemma_dec_mag_of_digits(-i);
        let s = seq!['-'] + dec_digits(-i);
        assert(s[0] == '-');
        assert(s.skip(1) =~= dec_digits(-i));
    } else {
        lemma_dec_mag_of_digits(i);
        let s = dec_digits(i);
        assert(is_digit(s[0]));
        assert(s[0] != '-');
    }
}

/// Round trip at the value level: a parsed rendering of a well-formed value
/// is that value, field for field.
pub proof fn lemma_round_trip(v: Int, w: Int)
    requires
        v.wf(),
        w.wf(),
        w@ == dec_value(dec_repr(v@)),
    ensures
        w.size == v.size,
        w.sign == v.sign,
        w.value@ == v.value@,
{
    lemma_dec_repr_round_trip(v@);
    Int::lemma_canonical(v, w);
}

/// Additive inverse: the sum of a value and its negation is canonical zero.
pub proof fn lemma_additive_inverse(v: Int, n: Int, s: Int)
    requires
        v.wf(),
        n.wf(),
        s.wf(),
        n@ == -v@,
        s@ == v@ + n@,
    ensures
        s.size == 0,
        s.sign == false,
        s.value@ == Seq::<u64>::empty(),
{
    s.lemma_view_sign();
    assert(s.value@ =~= Seq::<u64>::empty());
}

/// Subtracting a value from itself yields canonical zero.
pub proof fn lemma_sub_self(v: Int, d: Int)
    requires
        v.wf(),
        d.wf(),
        d@ == v@ - v@,
    ensures
        d.size == 0,
        d.sign == false,
        d.value@ == Seq::<u64>::empty(),
{
    d.lemma_view_sign();
    assert(d.value@ =~= Seq::<u64>::empty());
}

/// Subtracting and then adding back the same constant restores the value.
pub proof fn lemma_sub_then_add(v: Int, k: Int, d: Int, s: Int)
    requires
        v.wf(),
        k.wf(),
        d.wf(),
        s.wf(),
        d@ == v@ - k@,
        s@ == d@ + k@,
    ensures
        s.size == v.size,
        s.sign == v.sign,
        s.value@ == v.value@,
{
    Int::lemma_canonical(s, v);
}

/// Multiplicative identity: multiplying by one returns the value itself.
pub proof fn lemma_mul_identity(v: Int, one: Int, p: Int)
    requires
        v.wf(),
        one.wf(),
        p.wf(),
        one@ == 1,
        p@ == v@ * one@,
    ensures
        p.size == v.size,
        p.sign == v.sign,
        p.value@ == v.value@,
{
    assert(p@ == v@) by (nonlinear_arith)
        requires
            p@ == v@ * one@,
            one@ == 1,
    {}
    Int::lemma_canonical(p, v);
}

/// Division–remainder reconstruction: for a non-zero divisor,
/// `q * b + r == a` where `q` and `r` are the quotient and remainder.
pub proof fn lemma_div_rem_reconstruction(a: Int, b: Int, q: Int, r: Int, p: Int, s: Int)
    requires
        a.wf(),
        b.wf(),
        q.wf(),
        r.wf(),
        p.wf(),
        s.wf(),
        b@ != 0,
        q@ == tdiv(a@, b@),
        r@ == tmod(a@, b@),
        p@ == q@ * b@,
        s@ == p@ + r@,
    ensures
        s@ == a@,
        s.size == a.size,
        s.sign == a.sign,
        s.value@ == a.value@,
{
    Int::lemma_canonical(s, a);
}

/// Ordering totality: of the three outcomes of a comparison exactly one
/// holds, and it is the sign of the difference.
pub proof fn lemma_ordering_totality(a: Int, b: Int, d: Int, o: Ordering)
    requires
        a.wf(),
        b.wf(),
        d.wf(),
        d@ == a@ - b@,
        o == Ordering::Less <==> a@ < b@,
        o == Ordering::Equal <==> a@ == b@,
        o == Ordering::Greater <==> a@ > b@,
    ensures
        o == Ordering::Less <==> d@ < 0,
        o == Ordering::Equal <==> d.size == 0,
        o == Ordering::Greater <==> d@ > 0,
        o == Ordering::Less <==> d.sign,
        o == Ordering::Less || o == Ordering::Equal || o == Ordering::Greater,
        !(o == Ordering::Less && o == Ordering::Equal),
        !(o == Ordering::Less && o == Ordering::Greater),
        !(o == Ordering::Equal && o == Ordering::Greater),
{
    d.lemma_view_sign();
}

} // verus!
