//! The value type: sign-magnitude representation, its invariant,
//! construction, normalization, negation and ordering.

use vstd::prelude::*;
use core::cmp::Ordering;
use crate::model::{
    mag, iabs, limb_base, lemma_mag_push, lemma_mag_all_zero,
    lemma_mag_skip_zeros, lemma_mag_lower, lemma_mag_len_order, lemma_mag_same_len_eq,
    lemma_mag_lex, lemma_pow_b_positive,
};

verus! {

/// An arbitrary-precision signed integer in sign-magnitude form.
#[derive(Debug)]
pub struct Int {
    /// Number of significant limbs; the first limb of a non-zero value is never zero.
    pub size: usize,
    /// `false` for non-negative, `true` for negative; canonical zero is non-negative.
    pub sign: bool,
    /// The limbs of the magnitude, most significant first; length equals `size`.
    pub value: Vec<u64>,
}

impl Int {
    /// The representation invariant of a canonical value.
    pub open spec fn wf(self) -> bool {
        &&& self.value@.len() == self.size
        &&& (self.size > 0 ==> self.value@[0] != 0)
        &&& (self.size == 0 ==> self.sign == false)
    }
}

impl View for Int {
    type V = int;

    /// The mathematical value: the magnitude of the limbs, negated when the sign is set.
    open spec fn view(&self) -> int {
        if self.sign {
            -(mag(self.value@) as int)
        } else {
            mag(self.value@) as int
        }
    }
}

impl Int {
    /// A canonical value is zero exactly when it has no limbs, and negative
    /// exactly when its sign is set.
    pub proof fn lemma_view_sign(self)
        requires
            self.wf(),
        ensures
            self@ == 0 <==> self.size == 0,
            self@ < 0 <==> self.sign,
            iabs(self@) == mag(self.value@),
    {
        if self.size > 0 {
            lemma_mag_lower(self.value@);
            lemma_pow_b_positive((self.size - 1) as nat);
        }
    }

    /// Canonical representations are unique: two well-formed values with the
    /// same mathematical value agree in every field.
    pub proof fn lemma_canonical(a: Int, b: Int)
        requires
            a.wf(),
            b.wf(),
            a@ == b@,
        ensures
            a.size == b.size,
            a.sign == b.sign,
            a.value@ == b.value@,
    {
        a.lemma_view_sign();
        b.lemma_view_sign();
        if a.value@.len() < b.value@.len() {
            lemma_mag_len_order(a.value@, b.value@);
        } else if a.value@.len() > b.value@.len() {
            lemma_mag_len_order(b.value@, a.value@);
        }
        lemma_mag_same_len_eq(a.value@, b.value@);
    }

    /// Zero: no limbs, non-negative sign.
    pub fn zero() -> (r: Int)
        ensures
            r.wf(),
            r@ == 0,
    {
        Int { size: 0, sign: false, value: Vec::new() }
    }

    /// One: a single limb holding 1.
    pub fn one() -> (r: Int)
        ensures
            r.wf(),
            r@ == 1,
    {
        let mut v: Vec<u64> = Vec::new();
        v.push(1);
        proof {
            lemma_mag_push(Seq::<u64>::empty(), 1);
        }
        Int { size: 1, sign: false, value: v }
    }

    /// The radix of the limb system, 2^64, as a value.
    pub fn base() -> (r: Int)
        ensures
            r.wf(),
            r@ == limb_base(),
    {
        let mut v: Vec<u64> = Vec::new();
        v.push(1);
        v.push(0);
        proof {
            lemma_mag_push(Seq::<u64>::empty(), 1);
            lemma_mag_push(Seq::<u64>::empty().push(1), 0);
        }
        Int { size: 2, sign: false, value: v }
    }

    /// A single-limb non-negative value.
    pub fn from_limb(k: u64) -> (r: Int)
        ensures
            r.wf(),
            r@ == k,
    {
        if k == 0 {
            Int::zero()
        } else {
            let mut v: Vec<u64> = Vec::new();
            v.push(k);
            proof {
                lemma_mag_push(Seq::<u64>::empty(), k);
            }
            Int { size: 1, sign: false, value: v }
        }
    }

    /// An identical copy of the value.
    pub fn duplicate(&self) -> (r: Int)
        requires
            self.wf(),
        ensures
            r.wf(),
            r@ == self@,
    {
        Int { size: self.size, sign: self.sign, value: copy_limbs(&self.value) }
    }

    /// The negation; negating canonical zero yields canonical zero.
    pub fn negate(&self) -> (r: Int)
        requires
            self.wf(),
        ensures
            r.wf(),
            r@ == -self@,
    {
        if self.size == 0 {
            Int::zero()
        } else {
            Int { size: self.size, sign: !self.sign, value: copy_limbs(&self.value) }
        }
    }

    /// The absolute value.
    pub fn abs(&self) -> (r: Int)
        requires
            self.wf(),
        ensures
            r.wf(),
            r@ == iabs(self@),
    {
        if self.size == 0 {
            Int::zero()
        } else {
            Int { size: self.size, sign: false, value: copy_limbs(&self.value) }
        }
    }

    /// Total order, consistent with the mathematical values.
    pub fn compare(&self, other: &Int) -> (o: Ordering)
        requires
            self.wf(),
            other.wf(),
        ensures
            o == Ordering::Less <==> self@ < other@,
            o == Ordering::Equal <==> self@ == other@,
            o == Ordering::Greater <==> self@ > other@,
    {
        proof {
            self.lemma_view_sign();
            other.lemma_view_sign();
        }
        if self.sign && other.sign {
            swap(mag_cmp(&self.value, &other.value))
        } else if self.sign && !other.sign {
            Ordering::Less
        } else if !self.sign && other.sign {
            Ordering::Greater
        } else {
            mag_cmp(&self.value, &other.value)
        }
    }
}

/// Flip an ordering to the opposite direction.
fn swap(ord: Ordering) -> (r: Ordering)
    ensures
        r == Ordering::Less <==> ord == Ordering::Greater,
        r == Ordering::Equal <==> ord == Ordering::Equal,
        r == Ordering::Greater <==> ord == Ordering::Less,
{
    match ord {
        Ordering::Less => Ordering::Greater,
        Ordering::Greater => Ordering::Less,
        Ordering::Equal => Ordering::Equal,
    }
}

/// Compare two normalized magnitudes: by length, then lexicographically.
pub(crate) fn mag_cmp(x: &Vec<u64>, y: &Vec<u64>) -> (o: Ordering)
    requires
        x@.len() > 0 ==> x@[0] != 0,
        y@.len() > 0 ==> y@[0] != 0,
    ensures
        o == Ordering::Less <==> mag(x@) < mag(y@),
        o == Ordering::Equal <==> mag(x@) == mag(y@),
        o == Ordering::Greater <==> mag(x@) > mag(y@),
{
    if x.len() < y.len() {
        proof {
            lemma_mag_len_order(x@, y@);
        }
        Ordering::Less
    } else if y.len() < x.len() {
        proof {
            lemma_mag_len_order(y@, x@);
        }
        Ordering::Greater
    } else {
        let n = x.len();
        let mut i: usize = 0;
        while i < n
            invariant
                i <= n,
                n == x@.len(),
                n == y@.len(),
                forall|j: int| 0 <= j < i ==> x@[j] == y@[j],
            decreases n - i,
        {
            if x[i] < y[i] {
                proof {
                    lemma_mag_lex(x@, y@, i as int);
                }
                return Ordering::Less;
            }
            if y[i] < x[i] {
                proof {
                    lemma_mag_lex(y@, x@, i as int);
                }
                return Ordering::Greater;
            }
            i = i + 1;
        }
        proof {
            assert(x@ =~= y@);
        }
        Ordering::Equal
    }
}

/// Copy a limb vector.
pub(crate) fn copy_limbs(v: &Vec<u64>) -> (r: Vec<u64>)
    ensures
        r@ == v@,
{
    let mut r: Vec<u64> = Vec::new();
    let mut i: usize = 0;
    while i < v.len()
        invariant
            i <= v@.len(),
            r@ == v@.take(i as int),
        decreases v@.len() - i,
    {
        r.push(v[i]);
        proof {
            assert(v@.take(i as int).push(v@[i as int]) =~= v@.take(i + 1));
        }
        i = i + 1;
    }
    proof {
        assert(v@.take(v@.len() as int) =~= v@);
    }
    r
}

/// Strip leading zero limbs and build a canonical value; a magnitude of
/// zero yields canonical zero whatever the requested sign.
pub(crate) fn normalize(limbs: Vec<u64>, sign: bool) -> (r: Int)
    ensures
        r.wf(),
        r@ == if sign { -(mag(limbs@) as int) } else { mag(limbs@) as int },
{
    let n = limbs.len();
    let mut i: usize = 0;
    while i < n && limbs[i] == 0
        invariant
            i <= n,
            n == limbs@.len(),
            forall|j: int| 0 <= j < i ==> limbs@[j] == 0,
        decreases n - i,
    {
        i = i + 1;
    }
    if i == n {
        proof {
            lemma_mag_all_zero(limbs@);
        }
        Int::zero()
    } else {
        let mut v: Vec<u64> = Vec::new();
        let mut j = i;
        while j < n
            invariant
                i <= j <= n,
                n == limbs@.len(),
                v@ == limbs@.subrange(i as int, j as int),
            decreases n - j,
        {
            v.push(limbs[j]);
            proof {
                assert(limbs@.subrange(i as int, j as int).push(limbs@[j as int])
                    =~= limbs@.subrange(i as int, j + 1));
            }
            j = j + 1;
        }
        proof {
            lemma_mag_skip_zeros(limbs@, i as int);
            assert(limbs@.skip(i as int) =~= limbs@.subrange(i as int, n as int));
        }
        Int { size: n - i, sign, value: v }
    }
}

impl PartialEq for Int {
    /// Structural equality: equal size, equal sign, identical limbs.
    fn eq(&self, other: &Int) -> (r: bool) {
        if self.size != other.size || self.sign != other.sign
            || self.value.len() != other.value.len() {
            false
        } else {
            let n = self.value.len();
            let mut i: usize = 0;
            while i < n
                invariant
                    i <= n,
                    n == self.value@.len(),
                    n == other.value@.len(),
                    forall|j: int| 0 <= j < i ==> self.value@[j] == other.value@[j],
                decreases n - i,
            {
                if self.value[i] != other.value[i] {
                    return false;
                }
                i = i + 1;
            }
            proof {
                assert(self.value@ =~= other.value@);
            }
            true
        }
    }
}

impl vstd::std_specs::cmp::PartialEqSpecImpl for Int {
    open spec fn obeys_eq_spec() -> bool {
        true
    }

    open spec fn eq_spec(&self, other: &Int) -> bool {
        self.size == other.size && self.sign == other.sign && self.value@ == other.value@
    }
}

} // verus!
