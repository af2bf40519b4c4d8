//! Signed addition and subtraction, by case dispatch on the operand signs
//! over the magnitude-level addition and complement-based subtraction.

use vstd::prelude::*;
use core::cmp::Ordering;
use crate::model::{mag, lemma_mag_len_order};
use crate::num::{Int, normalize, mag_cmp};
use crate::limbs::{mag_add, mag_sub};

verus! {

/// Two normalized magnitudes in order have their lengths in order.
proof fn lemma_len_from_mag(x: Seq<u64>, y: Seq<u64>)
    requires
        y.len() > 0 ==> y[0] != 0,
        mag(y) <= mag(x),
    ensures
        y.len() <= x.len(),
{
    if x.len() < y.len() {
        lemma_mag_len_order(x, y);
    }
}

impl Int {
    /// The sum of two values.
    pub fn add(&self, other: &Int) -> (r: Int)
        requires
            self.wf(),
            other.wf(),
        ensures
            r.wf(),
            r@ == self@ + other@,
    {
        proof {
            self.lemma_view_sign();
            other.lemma_view_sign();
        }
        if self.sign == other.sign {
            normalize(mag_add(&self.value, &other.value), self.sign)
        } else {
            match mag_cmp(&self.value, &other.value) {
                Ordering::Less => {
                    proof {
                        lemma_len_from_mag(other.value@, self.value@);
                    }
                    normalize(mag_sub(&other.value, &self.value), other.sign)
                },
                _ => {
                    proof {
                        lemma_len_from_mag(self.value@, other.value@);
                    }
                    normalize(mag_sub(&self.value, &other.value), self.sign)
                },
            }
        }
    }

    /// The difference of two values.
    pub fn sub(&self, other: &Int) -> (r: Int)
        requires
            self.wf(),
            other.wf(),
        ensures
            r.wf(),
            r@ == self@ - other@,
    {
        proof {
            self.lemma_view_sign();
            other.lemma_view_sign();
        }
        if self.sign != other.sign {
            normalize(mag_add(&self.value, &other.value), self.sign)
        } else {
            match mag_cmp(&self.value, &other.value) {
                Ordering::Less => {
                    proof {
                        lemma_len_from_mag(other.value@, self.value@);
                    }
                    normalize(mag_sub(&other.value, &self.value), !self.sign)
                },
                _ => {
                    proof {
                        lemma_len_from_mag(self.value@, other.value@);
                    }
                    normalize(mag_sub(&self.value, &other.value), self.sign)
                },
            }
        }
    }
}

} // verus!
