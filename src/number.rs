use vstd::prelude::*;

use crate::error::Error;

verus! {

/// The value of a sequence of decimal digits, most significant first.
pub open spec fn digits_value(d: Seq<u8>) -> nat
    decreases d.len(),
{
    if d.len() == 0 {
        0
    } else {
        digits_value(d.drop_last()) * 10 + d.last() as nat
    }
}

/// A decimal number literal kept at full precision:
/// `(-1)^negative * digits / 10^scale`.
#[derive(Debug)]
pub struct Number {
    negative: bool,
    digits: Vec<u8>,
    scale: u32,
}

impl View for Number {
    type V = (bool, Seq<u8>, u32);

    closed spec fn view(&self) -> (bool, Seq<u8>, u32) {
        (self.negative, self.digits@, self.scale)
    }
}

/// The digits standing before the decimal point.
pub open spec fn whole_digits(n: (bool, Seq<u8>, u32)) -> Seq<u8> {
    if n.2 as int >= n.1.len() {
        Seq::empty()
    } else {
        n.1.take(n.1.len() - n.2 as int)
    }
}

/// All digits after the decimal point are zero.
pub open spec fn is_integral(n: (bool, Seq<u8>, u32)) -> bool {
    forall|i: int| n.1.len() - n.2 <= i < n.1.len() && 0 <= i ==> n.1[i] == 0
}

/// The integer that an integral literal denotes.
pub open spec fn integer_value(n: (bool, Seq<u8>, u32)) -> int {
    if n.0 {
        -(digits_value(whole_digits(n)) as int)
    } else {
        digits_value(whole_digits(n)) as int
    }
}

pub open spec fn fits_i64(x: int) -> bool {
    i64::MIN <= x <= i64::MAX
}

proof fn lemma_digits_monotone(d: Seq<u8>, i: int, j: int)
    requires
        0 <= i <= j <= d.len(),
    ensures
        digits_value(d.take(i)) <= digits_value(d.take(j)),
    decreases j - i,
{
    if i < j {
        lemma_digits_monotone(d, i, j - 1);
        assert(d.take(j).drop_last() =~= d.take(j - 1));
    }
}

impl Number {
    #[verifier::type_invariant]
    spec fn well_formed(&self) -> bool {
        forall|i: int| 0 <= i < self.digits@.len() ==> self.digits@[i] < 10
    }

    /// Builds the literal `(-1)^negative * digits / 10^scale`; `None` when a digit is not below ten.
    pub fn new(negative: bool, digits: Vec<u8>, scale: u32) -> (r: Option<Number>)
        ensures
            r is Some <==> (forall|i: int| 0 <= i < digits@.len() ==> digits@[i] < 10),
            r is Some ==> r->Some_0@ == (negative, digits@, scale),
    {
        let mut i: usize = 0;
        while i < digits.len()
            invariant
                0 <= i <= digits@.len(),
                forall|k: int| 0 <= k < i ==> digits@[k] < 10,
            decreases digits@.len() - i,
        {
            if digits[i] >= 10 {
                return None;
            }
            i = i + 1;
        }
        Some(Number { negative, digits, scale })
    }

    pub fn is_negative(&self) -> (r: bool)
        ensures
            r == self@.0,
    {
        self.negative
    }

    pub fn digits(&self) -> (r: &Vec<u8>)
        ensures
            r@ == self@.1,
    {
        &self.digits
    }

    pub fn scale(&self) -> (r: u32)
        ensures
            r == self@.2,
    {
        self.scale
    }

    /// The magnitude of the literal when it is a whole number of at most `limit`.
    fn whole_magnitude(&self, limit: u128) -> (r: Option<u128>)
        ensures
            r is Some <==> is_integral(self@) && digits_value(whole_digits(self@)) <= limit,
            r is Some ==> r->Some_0 as nat == digits_value(whole_digits(self@)),
    {
        proof { use_type_invariant(self); }
        let len = self.digits.len();
        let whole: usize = if (self.scale as usize) >= len { 0 } else { len - self.scale as usize };
        let mut k: usize = whole;
        while k < len
            invariant
                whole <= k <= len,
                len == self.digits@.len(),
                whole as int == if self.scale as int >= len { 0 } else { len - self.scale as int },
                forall|i: int| whole <= i < k ==> self.digits@[i] == 0,
            decreases len - k,
        {
            if self.digits[k] != 0 {
                return None;
            }
            k = k + 1;
        }
        let mut acc: u128 = 0;
        let mut i: usize = 0;
        proof {
            assert(whole_digits(self@) =~= self.digits@.take(whole as int));
        }
        while i < whole
            invariant
                i <= whole <= len,
                len == self.digits@.len(),
                whole_digits(self@) =~= self.digits@.take(whole as int),
                acc as nat == digits_value(self.digits@.take(i as int)),
                acc <= limit,
                forall|q: int| 0 <= q < len ==> self.digits@[q] < 10,
            decreases whole - i,
        {
            let d = self.digits[i] as u128;
            proof {
                assert(self.digits@.take(i + 1).drop_last() =~= self.digits@.take(i as int));
            }
            if d > limit || acc > (limit - d) / 10 {
                proof {
                    lemma_digits_monotone(self.digits@, i + 1, whole as int);
                    assert(acc * 10 + d > limit);
                    assert(digits_value(whole_digits(self@)) > limit);
                }
                return None;
            }
            acc = acc * 10 + d;
            i = i + 1;
        }
        Some(acc)
    }

    /// The literal as an `i64`, or `NumericPrecisionLoss` when it has a fraction or does not fit.
    pub fn to_i64(&self) -> (r: Result<i64, Error>)
        ensures
            r is Ok <==> is_integral(self@) && fits_i64(integer_value(self@)),
            r is Ok ==> r->Ok_0 as int == integer_value(self@),
            r is Err ==> r->Err_0 is NumericPrecisionLoss,
    {
        let limit: u128 = if self.negative { 9223372036854775808u128 } else { 9223372036854775807u128 };
        match self.whole_magnitude(limit) {
            None => Err(Error::NumericPrecisionLoss),
            Some(m) => if self.negative {
                if m == 9223372036854775808u128 {
                    Ok(-9223372036854775807i64 - 1)
                } else {
                    Ok(0i64 - m as i64)
                }
            } else {
                Ok(m as i64)
            },
        }
    }

    /// The literal as a `u64`, or `NumericPrecisionLoss` when it has a fraction or does not fit.
    pub fn to_u64(&self) -> (r: Result<u64, Error>)
        ensures
            r is Ok <==> is_integral(self@) && 0 <= integer_value(self@) <= u64::MAX,
            r is Ok ==> r->Ok_0 as int == integer_value(self@),
            r is Err ==> r->Err_0 is NumericPrecisionLoss,
    {
        let limit: u128 = if self.negative { 0 } else { 18446744073709551615u128 };
        match self.whole_magnitude(limit) {
            None => Err(Error::NumericPrecisionLoss),
            Some(m) => Ok(m as u64),
        }
    }

    /// The literal as an `i128`, or `NumericPrecisionLoss` when it has a fraction or does not fit.
    pub fn to_i128(&self) -> (r: Result<i128, Error>)
        ensures
            r is Ok <==> is_integral(self@) && i128::MIN <= integer_value(self@) <= i128::MAX,
            r is Ok ==> r->Ok_0 as int == integer_value(self@),
            r is Err ==> r->Err_0 is NumericPrecisionLoss,
    {
        let limit: u128 = if self.negative { 0x8000_0000_0000_0000_0000_0000_0000_0000u128 } else { 0x7fff_ffff_ffff_ffff_ffff_ffff_ffff_ffffu128 };
        match self.whole_magnitude(limit) {
            None => Err(Error::NumericPrecisionLoss),
            Some(m) => if self.negative {
                if m == 0x8000_0000_0000_0000_0000_0000_0000_0000u128 {
                    Ok(i128::MIN)
                } else {
                    Ok(0i128 - m as i128)
                }
            } else {
                Ok(m as i128)
            },
        }
    }

    /// The literal as a `u128`, or `NumericPrecisionLoss` when it has a fraction or does not fit.
    pub fn to_u128(&self) -> (r: Result<u128, Error>)
        ensures
            r is Ok <==> is_integral(self@) && 0 <= integer_value(self@) <= u128::MAX,
            r is Ok ==> r->Ok_0 as int == integer_value(self@),
            r is Err ==> r->Err_0 is NumericPrecisionLoss,
    {
        let limit: u128 = if self.negative { 0 } else { u128::MAX };
        match self.whole_magnitude(limit) {
            None => Err(Error::NumericPrecisionLoss),
            Some(m) => Ok(m),
        }
    }
}

} // verus!
