//! Decimal string conversion: parsing by Horner's method and printing by
//! repeated division by ten, with the canonical decimal form as the model.

use vstd::prelude::*;
use vstd::string::StrSliceExecFns;
use crate::model::{iabs, lemma_tmod_props};
use crate::num::Int;

verus! {

/// The ten ASCII decimal digits.
pub open spec fn is_digit(c: char) -> bool {
    c == '0' || c == '1' || c == '2' || c == '3' || c == '4' || c == '5' || c == '6' || c == '7'
        || c == '8' || c == '9'
}

/// Numeric value of a decimal digit character.
pub open spec fn digit_val(c: char) -> int {
    if c == '0' { 0 }
    else if c == '1' { 1 }
    else if c == '2' { 2 }
    else if c == '3' { 3 }
    else if c == '4' { 4 }
    else if c == '5' { 5 }
    else if c == '6' { 6 }
    else if c == '7' { 7 }
    else if c == '8' { 8 }
    else { 9 }
}

/// Decimal digit character of a value below ten.
pub open spec fn digit_chr(d: int) -> char {
    if d == 0 { '0' }
    else if d == 1 { '1' }
    else if d == 2 { '2' }
    else if d == 3 { '3' }
    else if d == 4 { '4' }
    else if d == 5 { '5' }
    else if d == 6 { '6' }
    else if d == 7 { '7' }
    else if d == 8 { '8' }
    else { '9' }
}

pub open spec fn all_digits(s: Seq<char>) -> bool {
    forall|i: int| 0 <= i < s.len() ==> is_digit(#[trigger] s[i])
}

/// Value of a digit string read most significant digit first.
pub open spec fn dec_mag(s: Seq<char>) -> int
    decreases s.len(),
{
    if s.len() == 0 {
        0
    } else {
        dec_mag(s.drop_last()) * 10 + digit_val(s.last())
    }
}

/// An accepted decimal text: possibly empty digits, with an optional
/// leading minus sign.
pub open spec fn valid_decimal(s: Seq<char>) -> bool {
    if s.len() > 0 && s[0] == '-' {
        all_digits(s.skip(1))
    } else {
        all_digits(s)
    }
}

/// The value a decimal text denotes.
pub open spec fn dec_value(s: Seq<char>) -> int {
    if s.len() > 0 && s[0] == '-' {
        -dec_mag(s.skip(1))
    } else {
        dec_mag(s)
    }
}

/// Canonical digit string of a non-negative value, most significant first.
pub open spec fn dec_digits(n: int) -> Seq<char>
    decreases n,
{
    if n < 10 {
        seq![digit_chr(n)]
    } else {
        dec_digits(n / 10).push(digit_chr(n % 10))
    }
}

/// The canonical decimal text of a value: a minus sign before the digits of
/// the magnitude when negative, `"0"` for zero.
pub open spec fn dec_repr(i: int) -> Seq<char> {
    if i < 0 {
        seq!['-'] + dec_digits(-i)
    } else {
        dec_digits(i)
    }
}

/// Digit characters of collected remainders, least significant first,
/// read back to front.
pub open spec fn chr_rev(ds: Seq<u64>) -> Seq<char>
    decreases ds.len(),
{
    if ds.len() == 0 {
        Seq::<char>::empty()
    } else {
        seq![digit_chr(ds.last() as int)] + chr_rev(ds.drop_last())
    }
}

pub proof fn lemma_chr_rev_index(ds: Seq<u64>)
    ensures
        chr_rev(ds).len() == ds.len(),
        forall|j: int| 0 <= j < ds.len()
            ==> chr_rev(ds)[j] == digit_chr(ds[ds.len() - 1 - j] as int),
    decreases ds.len(),
{
    if ds.len() > 0 {
        lemma_chr_rev_index(ds.drop_last());
    }
}

/// Parsing the canonical digits of `n` yields `n` back.
pub proof fn lemma_dec_mag_of_digits(n: int)
    requires
        n >= 0,
    ensures
        dec_mag(dec_digits(n)) == n,
        dec_digits(n).len() >= 1,
        all_digits(dec_digits(n)),
    decreases n,
{
    if n < 10 {
        let s = seq![digit_chr(n)];
        assert(s.drop_last() =~= Seq::<char>::empty());
        assert(dec_mag(Seq::<char>::empty()) == 0);
        assert(s.last() == digit_chr(n));
        assert(dec_mag(s) == digit_val(digit_chr(n)));
    } else {
        vstd::arithmetic::div_mod::lemma_mod_bound(n, 10);
        vstd::arithmetic::div_mod::lemma_div_pos_is_pos(n, 10);
        lemma_dec_mag_of_digits(n / 10);
        let t = dec_digits(n / 10);
        let c = digit_chr(n % 10);
        assert(t.push(c).drop_last() =~= t);
        assert(dec_mag(t.push(c)) == dec_mag(t) * 10 + digit_val(c));
        vstd::arithmetic::div_mod::lemma_fundamental_div_mod(n, 10);
        assert(forall|i: int| 0 <= i < t.push(c).len() ==> is_digit(#[trigger] t.push(c)[i]));
    }
}

/// Exec mapping from a digit character to its value.
fn digit_to_val(c: char) -> (d: u64)
    requires
        is_digit(c),
    ensures
        d as int == digit_val(c),
        d < 10,
{
    match c {
        '0' => 0,
        '1' => 1,
        '2' => 2,
        '3' => 3,
        '4' => 4,
        '5' => 5,
        '6' => 6,
        '7' => 7,
        '8' => 8,
        _ => 9,
    }
}

/// Exec mapping from a value below ten to its digit character.
fn digit_to_chr(d: u64) -> (c: char)
    requires
        d < 10,
    ensures
        c == digit_chr(d as int),
{
    match d {
        0 => '0',
        1 => '1',
        2 => '2',
        3 => '3',
        4 => '4',
        5 => '5',
        6 => '6',
        7 => '7',
        8 => '8',
        _ => '9',
    }
}

/// Appends one character to a string.
///
/// Relies on `String::push`: the new contents are the old contents with the
/// character at the end.
#[verifier::external_body]
fn push_char(s: &mut String, c: char)
    ensures
        final(s)@ == old(s)@.push(c),
{
    s.push(c);
}

impl Int {
    /// Horner's-method accumulation of the digits in `string[start..n]`.
    fn parse_digits(string: &str, start: usize, n: usize) -> (r: Int)
        requires
            n == string@.len(),
            start <= n,
            all_digits(string@.subrange(start as int, n as int)),
        ensures
            r.wf(),
            r@ == dec_mag(string@.subrange(start as int, n as int)),
    {
        let mut acc = Int::zero();
        let mut i = start;
        proof {
            assert(string@.subrange(start as int, start as int) =~= Seq::<char>::empty());
        }
        while i < n
            invariant
                start <= i <= n,
                n == string@.len(),
                acc.wf(),
                all_digits(string@.subrange(start as int, n as int)),
                acc@ == dec_mag(string@.subrange(start as int, i as int)),
            decreases n - i,
        {
            proof {
                assert(string@[i as int]
                    == string@.subrange(start as int, n as int)[i - start]);
            }
            let c = string.get_char(i);
            let d = digit_to_val(c);
            acc = acc.mul_by_limb(10).add(&Int::from_limb(d));
            i = i + 1;
            proof {
                assert(string@.subrange(start as int, i as int).drop_last()
                    =~= string@.subrange(start as int, i - 1));
                assert(string@.subrange(start as int, i as int).last() == string@[i - 1]);
            }
        }
        acc
    }

    /// Parse a decimal text: an empty text is zero, a leading minus sign
    /// negates the value of the remaining digits.
    pub fn from_str(string: &str) -> (r: Int)
        requires
            valid_decimal(string@),
        ensures
            r.wf(),
            r@ == dec_value(string@),
    {
        let n = string.unicode_len();
        if n == 0 {
            return Int::zero();
        }
        let first = string.get_char(0);
        if first == '-' {
            proof {
                assert(string@.skip(1) =~= string@.subrange(1, n as int));
            }
            let magnitude = Int::parse_digits(string, 1, n);
            magnitude.negate()
        } else {
            proof {
                assert(string@ =~= string@.subrange(0, n as int));
            }
            Int::parse_digits(string, 0, n)
        }
    }

    /// Render as decimal text: repeated division by ten collects the digits
    /// of the magnitude, and a negative value is prefixed with a minus sign.
    pub fn to_str(&self) -> (r: String)
        requires
            self.wf(),
        ensures
            r@ == dec_repr(self@),
    {
        proof {
            self.lemma_view_sign();
        }
        if self.size == 0 {
            let r = "0".to_owned();
            proof {
                reveal_strlit("0");
                assert(r@ =~= dec_digits(0));
            }
            return r;
        }
        let ghost mm = iabs(self@) as int;
        let mut digits: Vec<u64> = Vec::new();
        let mut num = self.abs();
        proof {
            assert(dec_digits(mm) + chr_rev(digits@) =~= dec_digits(mm));
        }
        while num.size > 0
            invariant
                num.wf(),
                num@ >= 0,
                forall|t: int| 0 <= t < digits@.len() ==> #[trigger] digits@[t] < 10,
                num@ > 0 ==> dec_digits(mm) == dec_digits(num@) + chr_rev(digits@),
                num@ == 0 ==> dec_digits(mm) == chr_rev(digits@),
            decreases num@,
        {
            proof {
                num.lemma_view_sign();
            }
            let ghost v = num@;
            let ghost ds_old = digits@;
            let d = num.rem_by_limb(10);
            digits.push(d);
            num = num.div_by_limb(10);
            proof {
                lemma_tmod_props(v, 10);
                assert(d as int == v % 10);
                assert(num@ == v / 10);
                assert(digits@.drop_last() =~= ds_old);
                assert(digits@.last() == d);
                assert(chr_rev(digits@) == seq![digit_chr(d as int)] + chr_rev(ds_old));
                vstd::arithmetic::div_mod::lemma_fundamental_div_mod(v, 10);
                if v >= 10 {
                    assert(dec_digits(v) == dec_digits(v / 10).push(digit_chr(v % 10)));
                    assert(dec_digits(v / 10).push(digit_chr(v % 10)) + chr_rev(ds_old)
                        =~= dec_digits(v / 10) + (seq![digit_chr(v % 10)] + chr_rev(ds_old)));
                } else {
                    assert(dec_digits(v) =~= seq![digit_chr(v)]);
                    assert(seq![digit_chr(v)] + chr_rev(ds_old) =~= chr_rev(digits@));
                }
                assert(num@ < v) by (nonlinear_arith)
                    requires
                        v == 10 * (v / 10) + v % 10,
                        0 <= v % 10 < 10,
                        v >= 1,
                        num@ == v / 10,
                        num@ >= 0,
                {}
            }
        }
        proof {
            num.lemma_view_sign();
            assert(dec_digits(mm) == chr_rev(digits@));
            lemma_chr_rev_index(digits@);
        }
        let mut s = String::new();
        if self.sign {
            push_char(&mut s, '-');
        }
        let ghost prefix = s@;
        let dn = digits.len();
        let mut j: usize = 0;
        proof {
            assert(chr_rev(digits@).take(0) =~= Seq::<char>::empty());
            assert(s@ =~= prefix + chr_rev(digits@).take(0));
        }
        while j < dn
            invariant
                j <= dn,
                dn == digits@.len(),
                forall|t: int| 0 <= t < digits@.len() ==> #[trigger] digits@[t] < 10,
                chr_rev(digits@).len() == dn,
                forall|t: int| 0 <= t < dn
                    ==> chr_rev(digits@)[t] == digit_chr(digits@[dn - 1 - t] as int),
                s@ == prefix + chr_rev(digits@).take(j as int),
            decreases dn - j,
        {
            let d = digits[dn - 1 - j];
            let c = digit_to_chr(d);
            push_char(&mut s, c);
            j = j + 1;
            proof {
                assert((prefix + chr_rev(digits@).take(j - 1)).push(c)
                    =~= prefix + chr_rev(digits@).take(j as int));
            }
        }
        proof {
            assert(chr_rev(digits@).take(dn as int) =~= chr_rev(digits@));
            if self.sign {
                assert(prefix =~= seq!['-']);
                assert(s@ =~= seq!['-'] + dec_digits(mm));
            } else {
                assert(prefix =~= Seq::<char>::empty());
                assert(s@ =~= dec_digits(mm));
            }
        }
        s
    }
}

} // verus!
