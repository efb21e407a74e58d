//! Arbitrary-precision signed integers stored as base-10^9 limbs.
//!
//! A `BigInt` keeps its magnitude as a sequence of unsigned 32-bit limbs,
//! least significant first, each strictly below 10^9; the sign is a separate
//! flag that is never set for the value zero.  The base-10^9 representation
//! keeps conversion to and from decimal strings cheap.

use vstd::prelude::*;

verus! {

use core::cmp::Ordering;
use vstd::arithmetic::div_mod::lemma_fundamental_div_mod;
use vstd::string::StrSliceExecFns;
use vstd::string::StringSliceAdditionalSpecFns;

/// Limb base: 10^9, the largest power of ten whose square fits in a `u64`
/// product, so schoolbook arithmetic never overflows 64-bit intermediates.
pub const BASE: u64 = 1_000_000_000;

/// Mathematical value of a limb sequence, least significant limb first.
pub open spec fn limbs_value(s: Seq<u32>) -> int
    decreases s.len(),
{
    if s.len() == 0 {
        0
    } else {
        s[0] + (BASE as int) * limbs_value(s.subrange(1, s.len() as int))
    }
}

/// The first `i` limbs of `s`, or all of them when `s` is shorter.
pub open spec fn take_upto(s: Seq<u32>, i: int) -> Seq<u32> {
    if i <= s.len() {
        s.take(i)
    } else {
        s
    }
}

/// An arbitrary-precision signed integer.
#[derive(Debug, PartialEq, Eq)]
pub struct BigInt {
    digits: Vec<u32>,
    negative: bool,
}

impl View for BigInt {
    type V = int;

    closed spec fn view(&self) -> int {
        if self.negative {
            -limbs_value(self.digits@)
        } else {
            limbs_value(self.digits@)
        }
    }
}

impl BigInt {
    /// Representation invariant: at least one limb, every limb below the
    /// base, no trailing zero limb except for the single `[0]` of zero,
    /// and zero is never negative.
    pub closed spec fn wf(&self) -> bool {
        &&& self.digits@.len() >= 1
        &&& forall|i: int| 0 <= i < self.digits@.len() ==> self.digits@[i] < BASE
        &&& (self.digits@.len() > 1 ==> self.digits@[self.digits@.len() - 1] != 0)
        &&& (limbs_value(self.digits@) == 0 ==> !self.negative)
    }

    /// The zero value.
    pub fn new() -> (r: BigInt)
        ensures
            r.wf(),
            r@ == 0,
    {
        let mut digits: Vec<u32> = Vec::new();
        digits.push(0u32);
        proof {
            assert(limbs_value(digits@) == 0) by {
                assert(limbs_value(digits@.subrange(1, 1)) == 0) by {
                    assert(digits@.subrange(1, 1).len() == 0);
                }
                assert(digits@[0] == 0);
            }
        }
        BigInt { digits, negative: false }
    }

    /// The magnitude (absolute value) of this integer.
    pub closed spec fn mag(&self) -> int {
        limbs_value(self.digits@)
    }

    /// Compare magnitudes: longer sequences are larger, equal lengths are
    /// compared from the most significant limb down.
    fn cmp_magnitude(&self, other: &BigInt) -> (r: Ordering)
        requires
            self.wf(),
            other.wf(),
        ensures
            r == Ordering::Less <==> self.mag() < other.mag(),
            r == Ordering::Greater <==> self.mag() > other.mag(),
            r == Ordering::Equal <==> self.mag() == other.mag(),
    {
        let la = self.digits.len();
        let lb = other.digits.len();
        if la < lb {
            proof {
                lemma_limbs_upper(self.digits@);
                lemma_limbs_lower(other.digits@);
                lemma_pow_base_mono(la as nat, (lb - 1) as nat);
            }
            return Ordering::Less;
        }
        if la > lb {
            proof {
                lemma_limbs_upper(other.digits@);
                lemma_limbs_lower(self.digits@);
                lemma_pow_base_mono(lb as nat, (la - 1) as nat);
            }
            return Ordering::Greater;
        }
        let mut i: usize = la;
        while i > 0
            invariant
                self.wf(),
                other.wf(),
                i <= la,
                la == self.digits@.len(),
                la == other.digits@.len(),
                forall|j: int| i <= j < la ==> self.digits@[j] == other.digits@[j],
            decreases i,
        {
            i = i - 1;
            let da = self.digits[i];
            let db = other.digits[i];
            if da > db {
                proof {
                    lemma_limbs_cmp_at(self.digits@, other.digits@, i as int);
                }
                return Ordering::Greater;
            }
            if da < db {
                proof {
                    lemma_limbs_cmp_at(other.digits@, self.digits@, i as int);
                }
                return Ordering::Less;
            }
        }
        proof {
            assert(self.digits@ =~= other.digits@);
        }
        Ordering::Equal
    }

    /// Sum of the magnitudes, as a nonnegative integer.
    fn add_magnitude(&self, other: &BigInt) -> (r: BigInt)
        requires
            self.wf(),
            other.wf(),
        ensures
            r.wf(),
            !r.negative,
            r@ == self.mag() + other.mag(),
    {
        let a = &self.digits;
        let b = &other.digits;
        let la = a.len();
        let lb = b.len();
        let max_len = if la > lb {
            la
        } else {
            lb
        };
        let mut result: Vec<u32> = Vec::new();
        let mut carry: u64 = 0;
        let mut i: usize = 0;
        while i < max_len
            invariant
                self.wf(),
                other.wf(),
                a == self.digits,
                b == other.digits,
                la == a@.len(),
                lb == b@.len(),
                max_len == if la > lb { la as int } else { lb as int },
                i <= max_len,
                carry <= 1,
                result@.len() == i,
                forall|k: int| 0 <= k < result@.len() ==> result@[k] < BASE,
                limbs_value(result@) + carry * pow_base(i as nat) == limbs_value(
                    take_upto(a@, i as int),
                ) + limbs_value(take_upto(b@, i as int)),
            decreases max_len - i,
        {
            let da: u64 = if i < la {
                a[i] as u64
            } else {
                0
            };
            let db: u64 = if i < lb {
                b[i] as u64
            } else {
                0
            };
            let sum = da + db + carry;
            let ghost old_result = result@;
            let ghost old_carry = carry as int;
            result.push((sum % BASE) as u32);
            carry = sum / BASE;
            proof {
                lemma_fundamental_div_mod(sum as int, BASE as int);
                lemma_limbs_push(old_result, ((sum as int) % (BASE as int)) as u32);
                let p = pow_base(i as nat);
                assert((sum as int) * p == ((sum as int) % (BASE as int)) * p + ((sum as int)
                    / (BASE as int)) * ((BASE as int) * p)) by (nonlinear_arith)
                    requires
                        sum as int == (BASE as int) * ((sum as int) / (BASE as int)) + (
                        sum as int) % (BASE as int),
                ;
                assert((da + db + old_carry) * p == da * p + db * p + old_carry * p)
                    by (nonlinear_arith);
                if i < la {
                    lemma_limbs_take_succ(a@, i as int);
                    assert(take_upto(a@, i as int) =~= a@.take(i as int));
                    assert(take_upto(a@, i + 1) =~= a@.take(i + 1));
                } else {
                    assert(take_upto(a@, i as int) =~= a@);
                    assert(take_upto(a@, i + 1) =~= a@);
                }
                if i < lb {
                    lemma_limbs_take_succ(b@, i as int);
                    assert(take_upto(b@, i as int) =~= b@.take(i as int));
                    assert(take_upto(b@, i + 1) =~= b@.take(i + 1));
                } else {
                    assert(take_upto(b@, i as int) =~= b@);
                    assert(take_upto(b@, i + 1) =~= b@);
                }
            }
            i = i + 1;
        }
        if carry > 0 {
            let ghost old_result = result@;
            result.push(carry as u32);
            proof {
                lemma_limbs_push(old_result, carry as u32);
            }
        }
        proof {
            assert(take_upto(a@, max_len as int) =~= a@);
            assert(take_upto(b@, max_len as int) =~= b@);
        }
        let mut digits = result;
        normalize_limbs(&mut digits);
        BigInt { digits, negative: false }
    }

    /// Difference of the magnitudes, requiring the left one to be at least
    /// as large; the result is nonnegative.
    fn sub_magnitude_ge(&self, other: &BigInt) -> (r: BigInt)
        requires
            self.wf(),
            other.wf(),
            self.mag() >= other.mag(),
        ensures
            r.wf(),
            !r.negative,
            r@ == self.mag() - other.mag(),
    {
        let a = &self.digits;
        let b = &other.digits;
        let la = a.len();
        let lb = b.len();
        proof {
            if lb > la {
                lemma_limbs_upper(a@);
                lemma_limbs_lower(b@);
                lemma_pow_base_mono(la as nat, (lb - 1) as nat);
            }
        }
        let mut result: Vec<u32> = Vec::new();
        let mut borrow: i64 = 0;
        let mut i: usize = 0;
        while i < la
            invariant
                self.wf(),
                other.wf(),
                a == self.digits,
                b == other.digits,
                la == a@.len(),
                lb == b@.len(),
                lb <= la,
                i <= la,
                0 <= borrow <= 1,
                result@.len() == i,
                forall|k: int| 0 <= k < result@.len() ==> result@[k] < BASE,
                limbs_value(result@) == limbs_value(a@.take(i as int)) - limbs_value(
                    take_upto(b@, i as int),
                ) + borrow * pow_base(i as nat),
            decreases la - i,
        {
            let da: i64 = a[i] as i64;
            let db: i64 = if i < lb {
                b[i] as i64
            } else {
                0
            };
            let diff = da - db - borrow;
            let ghost old_result = result@;
            let ghost old_borrow = borrow as int;
            let limb: u32;
            if diff < 0 {
                limb = (diff + BASE as i64) as u32;
                borrow = 1;
            } else {
                limb = diff as u32;
                borrow = 0;
            }
            result.push(limb);
            proof {
                lemma_limbs_push(old_result, limb);
                let p = pow_base(i as nat);
                lemma_pow_base_pos(i as nat);
                assert(pow_base((i + 1) as nat) == (BASE as int) * p);
                assert(limb as int == da - db - old_borrow + (borrow as int) * (BASE as int));
                assert((limb as int) * p == da * p - db * p - old_borrow * p + (borrow as int)
                    * ((BASE as int) * p)) by (nonlinear_arith)
                    requires
                        limb as int == da - db - old_borrow + (borrow as int) * (BASE as int),
                ;
                lemma_limbs_take_succ(a@, i as int);
                if i < lb {
                    lemma_limbs_take_succ(b@, i as int);
                    assert(take_upto(b@, i as int) =~= b@.take(i as int));
                    assert(take_upto(b@, i + 1) =~= b@.take(i + 1));
                } else {
                    assert(take_upto(b@, i as int) =~= b@);
                    assert(take_upto(b@, i + 1) =~= b@);
                }
            }
            i = i + 1;
        }
        proof {
            assert(a@.take(la as int) =~= a@);
            assert(take_upto(b@, la as int) =~= b@);
            if borrow == 1 {
                lemma_limbs_upper(result@);
                assert(false);
            }
        }
        let mut digits = result;
        normalize_limbs(&mut digits);
        BigInt { digits, negative: false }
    }

    /// Signed difference of the magnitudes: negative when the right
    /// magnitude is the larger one.
    fn sub_magnitude(&self, other: &BigInt) -> (r: BigInt)
        requires
            self.wf(),
            other.wf(),
        ensures
            r.wf(),
            r@ == self.mag() - other.mag(),
    {
        match self.cmp_magnitude(other) {
            Ordering::Less => {
                let m = other.sub_magnitude_ge(self);
                with_sign(m, true)
            },
            _ => self.sub_magnitude_ge(other),
        }
    }

    /// Total order on values: sign first, then magnitude.
    pub fn cmp(&self, other: &BigInt) -> (r: Ordering)
        requires
            self.wf(),
            other.wf(),
        ensures
            r == Ordering::Less <==> self@ < other@,
            r == Ordering::Greater <==> self@ > other@,
            r == Ordering::Equal <==> self@ == other@,
    {
        proof {
            lemma_limbs_value_zero(self.digits@);
            lemma_limbs_value_zero(other.digits@);
        }
        match (self.negative, other.negative) {
            (false, true) => Ordering::Greater,
            (true, false) => Ordering::Less,
            (false, false) => self.cmp_magnitude(other),
            (true, true) => other.cmp_magnitude(self),
        }
    }

    /// Signed addition.
    pub fn add(&self, other: &BigInt) -> (r: BigInt)
        requires
            self.wf(),
            other.wf(),
        ensures
            r.wf(),
            r@ == self@ + other@,
    {
        match (self.negative, other.negative) {
            (false, false) => self.add_magnitude(other),
            (true, true) => {
                let m = self.add_magnitude(other);
                with_sign(m, true)
            },
            (false, true) => self.sub_magnitude(other),
            (true, false) => other.sub_magnitude(self),
        }
    }

    /// Signed subtraction.
    pub fn sub(&self, other: &BigInt) -> (r: BigInt)
        requires
            self.wf(),
            other.wf(),
        ensures
            r.wf(),
            r@ == self@ - other@,
    {
        match (self.negative, other.negative) {
            (false, true) => self.add_magnitude(other),
            (true, false) => {
                let m = self.add_magnitude(other);
                with_sign(m, true)
            },
            (false, false) => self.sub_magnitude(other),
            (true, true) => other.sub_magnitude(self),
        }
    }

    /// Signed multiplication: schoolbook over limbs, quadratic in the limb
    /// counts, with carry propagation in 64-bit intermediates.
    pub fn mul(&self, other: &BigInt) -> (r: BigInt)
        requires
            self.wf(),
            other.wf(),
        ensures
            r.wf(),
            r@ == self@ * other@,
    {
        proof {
            lemma_limbs_value_zero(self.digits@);
            lemma_limbs_value_zero(other.digits@);
        }
        let za = self.is_zero();
        let zb = other.is_zero();
        if za || zb {
            proof {
                assert(self@ * other@ == 0) by (nonlinear_arith)
                    requires
                        self@ == 0 || other@ == 0,
                ;
            }
            return BigInt::new();
        }
        let a = &self.digits;
        let b = &other.digits;
        let la = a.len();
        let lb = b.len();
        let ghost lv_b = limbs_value(b@);
        let mut result: Vec<u32> = Vec::new();
        let mut k: usize = 0;
        while k < la
            invariant
                result@.len() == k,
                k <= la,
                forall|t: int| 0 <= t < result@.len() ==> result@[t] == 0,
            decreases la - k,
        {
            result.push(0u32);
            k = k + 1;
        }
        let mut k2: usize = 0;
        while k2 < lb
            invariant
                result@.len() == la + k2,
                k2 <= lb,
                forall|t: int| 0 <= t < result@.len() ==> result@[t] == 0,
            decreases lb - k2,
        {
            result.push(0u32);
            k2 = k2 + 1;
        }
        proof {
            lemma_limbs_value_zero(result@);
        }
        let total: usize = result.len();
        proof {
            assert(total == la + lb);
        }
        let mut i: usize = 0;
        while i < la
            invariant
                self.wf(),
                other.wf(),
                a == self.digits,
                b == other.digits,
                la == a@.len(),
                lb == b@.len(),
                lv_b == limbs_value(b@),
                i <= la,
                la + lb <= usize::MAX,
                result@.len() == la + lb,
                forall|t: int| 0 <= t < result@.len() ==> result@[t] < BASE,
                forall|t: int| i + lb <= t < result@.len() ==> result@[t] == 0,
                limbs_value(result@) == limbs_value(a@.take(i as int)) * lv_b,
            decreases la - i,
        {
            let ai: u64 = a[i] as u64;
            let mut carry: u64 = 0;
            let mut j: usize = 0;
            while j < lb
                invariant
                    self.wf(),
                    other.wf(),
                    a == self.digits,
                    b == other.digits,
                    la == a@.len(),
                    lb == b@.len(),
                    lv_b == limbs_value(b@),
                    i < la,
                    ai == a@[i as int],
                    j <= lb,
                    carry < BASE,
                    la + lb <= usize::MAX,
                    result@.len() == la + lb,
                    forall|t: int| 0 <= t < result@.len() ==> result@[t] < BASE,
                    forall|t: int| i + lb <= t < result@.len() ==> result@[t] == 0,
                    limbs_value(result@) + carry * pow_base((i + j) as nat) == limbs_value(
                        a@.take(i as int),
                    ) * lv_b + ai * pow_base(i as nat) * limbs_value(b@.take(j as int)),
                decreases lb - j,
            {
                let bj: u64 = b[j] as u64;
                let cell: u64 = result[i + j] as u64;
                proof {
                    assert(ai * bj <= (BASE - 1) * (BASE - 1)) by (nonlinear_arith)
                        requires
                            ai <= BASE - 1,
                            bj <= BASE - 1,
                    ;
                }
                let prod: u64 = ai * bj + cell + carry;
                let ghost old_result = result@;
                let ghost old_carry = carry as int;
                result.set(i + j, (prod % BASE) as u32);
                carry = prod / BASE;
                proof {
                    lemma_fundamental_div_mod(prod as int, BASE as int);
                    lemma_limbs_update(old_result, i + j, ((prod as int) % (BASE as int))
                        as u32);
                    lemma_limbs_take_succ(b@, j as int);
                    lemma_pow_base_add(i as nat, j as nat);
                    lemma_pow_base_add(i as nat, (j + 1) as nat);
                    let pij = pow_base((i + j) as nat);
                    let pi = pow_base(i as nat);
                    let pj = pow_base(j as nat);
                    assert(pow_base(((i + j) + 1) as nat) == (BASE as int) * pij);
                    assert(pow_base((j + 1) as nat) == (BASE as int) * pj);
                    // The limb write plus the new carry account for exactly
                    // the product term a[i] * b[j] at weight BASE^(i+j).
                    assert(limbs_value(result@) + (carry as int) * ((BASE as int) * pij)
                        == limbs_value(old_result) + old_carry * pij + (ai as int) * (
                    bj as int) * pij) by (nonlinear_arith)
                        requires
                            limbs_value(result@) == limbs_value(old_result) + ((
                            prod as int) % (BASE as int) - cell) * pij,
                            prod as int == (BASE as int) * ((prod as int) / (BASE as int))
                                + (prod as int) % (BASE as int),
                            carry as int == (prod as int) / (BASE as int),
                            prod as int == (ai as int) * (bj as int) + cell + old_carry,
                    ;
                    assert(ai * pi * (limbs_value(b@.take(j as int)) + bj * pj) == ai * pi
                        * limbs_value(b@.take(j as int)) + ai * bj * (pi * pj))
                        by (nonlinear_arith);
                    assert(pi * pj == pij);
                    assert(carry < BASE) by (nonlinear_arith)
                        requires
                            prod as int <= (BASE as int) * (BASE as int) - 1,
                            carry as int == (prod as int) / (BASE as int),
                            prod as int == (BASE as int) * ((prod as int) / (BASE as int))
                                + (prod as int) % (BASE as int),
                            0 <= (prod as int) % (BASE as int),
                    ;
                }
                j = j + 1;
            }
            let ghost old_result = result@;
            let ghost final_carry = carry as int;
            result.set(i + lb, carry as u32);
            proof {
                lemma_limbs_update(old_result, i + lb, carry as u32);
                lemma_limbs_take_succ(a@, i as int);
                assert(b@.take(lb as int) =~= b@);
                let pi = pow_base(i as nat);
                lemma_pow_base_add(i as nat, lb as nat);
                assert(old_result[i + lb] == 0);
                assert(limbs_value(result@) == limbs_value(old_result) + final_carry
                    * pow_base((i + lb) as nat));
                assert((limbs_value(a@.take(i as int)) + ai * pi) * lv_b == limbs_value(
                    a@.take(i as int),
                ) * lv_b + ai * pi * lv_b) by (nonlinear_arith);
            }
            i = i + 1;
        }
        proof {
            assert(a@.take(la as int) =~= a@);
        }
        let mut digits = result;
        normalize_limbs(&mut digits);
        let m = BigInt { digits, negative: false };
        proof {
            assert(m.mag() == self.mag() * other.mag());
            assert(self.mag() >= 1 && other.mag() >= 1);
            assert(m.mag() >= 1) by (nonlinear_arith)
                requires
                    m.mag() == self.mag() * other.mag(),
                    self.mag() >= 1,
                    other.mag() >= 1,
            ;
        }
        let neg = self.negative != other.negative;
        let r = with_sign(m, neg);
        proof {
            assert(r@ == self@ * other@) by (nonlinear_arith)
                requires
                    r@ == if neg {
                        -(self.mag() * other.mag())
                    } else {
                        self.mag() * other.mag()
                    },
                    neg == (self.negative != other.negative),
                    self@ == if self.negative {
                        -self.mag()
                    } else {
                        self.mag()
                    },
                    other@ == if other.negative {
                        -other.mag()
                    } else {
                        other.mag()
                    },
            ;
        }
        r
    }

    /// Construct from a 64-bit machine integer.
    pub fn from_i64(value: i64) -> (r: BigInt)
        ensures
            r.wf(),
            r@ == value as int,
    {
        if value == 0 {
            return BigInt::new();
        }
        let negative = value < 0;
        let mag: u64 = if value == i64::MIN {
            9223372036854775808u64
        } else if value < 0 {
            (-value) as u64
        } else {
            value as u64
        };
        let mut digits: Vec<u32> = Vec::new();
        let mut remaining: u64 = mag;
        while remaining > 0
            invariant
                limbs_value(digits@) + remaining * pow_base(digits@.len()) == mag,
                forall|k: int| 0 <= k < digits@.len() ==> digits@[k] < BASE,
                remaining == 0 ==> digits@.len() >= 1 && digits@[digits@.len() - 1] != 0,
            decreases remaining,
        {
            let d = (remaining % BASE) as u32;
            let ghost old_digits = digits@;
            let ghost old_rem = remaining as int;
            digits.push(d);
            remaining = remaining / BASE;
            proof {
                lemma_fundamental_div_mod(old_rem, BASE as int);
                lemma_limbs_push(old_digits, d);
                let p = pow_base(old_digits.len());
                assert(pow_base(digits@.len()) == (BASE as int) * p);
                assert(old_rem * p == d * p + (remaining as int) * ((BASE as int) * p))
                    by (nonlinear_arith)
                    requires
                        old_rem == (BASE as int) * (remaining as int) + d,
                ;
                if remaining == 0 {
                    assert(d == old_rem);
                }
            }
        }
        proof {
            assert(remaining * pow_base(digits@.len()) == 0) by (nonlinear_arith)
                requires
                    remaining == 0,
            ;
            if digits@.len() == 0 {
                assert(limbs_value(digits@) == 0);
                assert(false);
            }
        }
        BigInt { digits, negative }
    }

    /// Parse a decimal string: an optional leading `-` followed by a
    /// nonempty run of digits.  Anything else is rejected.
    pub fn from_string(s: &str) -> (r: Result<BigInt, String>)
        ensures
            match r {
                Ok(b) => b.wf() && valid_decimal(s@) && b@ == decimal_value(s@),
                Err(_) => !valid_decimal(s@),
            },
    {
        let n = s.unicode_len();
        if n == 0 {
            return Err("Empty string".to_owned());
        }
        let first = s.get_char(0);
        let start: usize = if first == '-' {
            1
        } else {
            0
        };
        if start == n {
            // A lone minus sign has no digits.
            return Err("Invalid number format".to_owned());
        }
        let mut i: usize = start;
        while i < n
            invariant
                start <= i <= n,
                n == s@.len(),
                start == 1 <==> s@[0] == '-',
                start <= 1,
                forall|j: int| start <= j < i ==> is_dec_digit(#[trigger] s@[j]),
            decreases n - i,
        {
            let c = s.get_char(i);
            if c < '0' || c > '9' {
                proof {
                    assert(!is_dec_digit(s@[i as int]));
                    if valid_decimal(s@) {
                        if s@[0] == '-' {
                            assert(s@.skip(1)[i - 1] == s@[i as int]);
                            assert(is_dec_digit(s@[i as int]));
                        } else {
                            assert(is_dec_digit(s@[i as int]));
                        }
                    }
                }
                return Err("Invalid number format".to_owned());
            }
            i = i + 1;
        }
        let ten = BigInt::from_i64(10);
        let mut acc = BigInt::new();
        let mut i2: usize = start;
        proof {
            assert(s@.subrange(start as int, start as int).len() == 0);
        }
        while i2 < n
            invariant
                start <= i2 <= n,
                n == s@.len(),
                start <= 1,
                forall|j: int| start <= j < n ==> is_dec_digit(#[trigger] s@[j]),
                ten.wf(),
                ten@ == 10,
                acc.wf(),
                acc@ == digits_value(s@.subrange(start as int, i2 as int)),
            decreases n - i2,
        {
            let c = s.get_char(i2);
            proof {
                assert(is_dec_digit(s@[i2 as int]));
                assert(('0' as u32) == 48 && ('9' as u32) == 57);
            }
            let d = (c as u32) - 48;
            let db = BigInt::from_i64(d as i64);
            acc = acc.mul(&ten).add(&db);
            proof {
                let pre = s@.subrange(start as int, i2 as int);
                let cur = s@.subrange(start as int, i2 + 1);
                assert(cur.drop_last() =~= pre);
                assert(cur.last() == s@[i2 as int]);
                assert(digits_value(cur) == digits_value(pre) * 10 + digit_val(
                    s@[i2 as int],
                ));
                assert(digit_val(s@[i2 as int]) == d);
            }
            i2 = i2 + 1;
        }
        let negative = start == 1;
        proof {
            let digits_part = s@.subrange(start as int, n as int);
            if start == 1 {
                assert(digits_part =~= s@.skip(1));
            } else {
                assert(digits_part =~= s@);
            }
            assert(valid_decimal(s@));
            lemma_digits_value_nonneg(digits_part);
        }
        if negative {
            let z = acc.is_zero();
            if z {
                Ok(acc)
            } else {
                proof {
                    lemma_limbs_value_zero(acc.digits@);
                    if acc.negative {
                        assert(acc@ == -limbs_value(acc.digits@));
                        assert(limbs_value(acc.digits@) != 0);
                        assert(acc@ < 0);
                    }
                }
                Ok(with_sign(acc, true))
            }
        } else {
            Ok(acc)
        }
    }

    /// Convert back to a 64-bit machine integer when the magnitude is at
    /// most two limbs; larger magnitudes yield nothing.
    pub fn to_i64(&self) -> (r: Option<i64>)
        requires
            self.wf(),
        ensures
            match r {
                Some(v) => v as int == self@,
                None => true,
            },
            r is Some <==> -1_000_000_000_000_000_000 < self@ < 1_000_000_000_000_000_000,
    {
        proof {
            lemma_limbs_value_zero(self.digits@);
        }
        if self.digits.len() > 2 {
            proof {
                lemma_limbs_lower(self.digits@);
                lemma_pow_base_mono(2, (self.digits@.len() - 1) as nat);
                assert(pow_base(2) == 1_000_000_000_000_000_000) by {
                    assert(pow_base(0) == 1);
                    assert(pow_base(1) == (BASE as int) * pow_base(0));
                    assert(pow_base(2) == (BASE as int) * pow_base(1));
                }
            }
            return None;
        }
        proof {
            lemma_limbs_upper(self.digits@);
            lemma_pow_base_mono(self.digits@.len(), 2);
            assert(pow_base(2) == 1_000_000_000_000_000_000) by {
                assert(pow_base(0) == 1);
                assert(pow_base(1) == (BASE as int) * pow_base(0));
                assert(pow_base(2) == (BASE as int) * pow_base(1));
            }
        }
        let mut value: u64 = self.digits[0] as u64;
        if self.digits.len() == 2 {
            value = value + self.digits[1] as u64 * BASE;
        }
        proof {
            let s = self.digits@;
            let t = s.subrange(1, s.len() as int);
            assert(limbs_value(s) == s[0] + (BASE as int) * limbs_value(t));
            if s.len() == 1 {
                assert(t.len() == 0);
            } else {
                assert(t.len() == 1);
                assert(limbs_value(t) == t[0] + (BASE as int) * limbs_value(
                    t.subrange(1, 1),
                ));
                assert(t.subrange(1, 1).len() == 0);
            }
            assert(value == self.mag());
        }
        if self.negative {
            Some(-(value as i64))
        } else {
            Some(value as i64)
        }
    }

    /// Render as a decimal string: most significant limb unpadded, the
    /// remaining limbs zero-padded to nine digits, with a leading minus
    /// sign for negative values.
    pub fn to_string(&self) -> (r: String)
        requires
            self.wf(),
        ensures
            r@ == decimal_string_of(self@),
    {
        proof {
            lemma_limbs_value_zero(self.digits@);
        }
        let mut out = String::new();
        if self.negative {
            out.append("-");
            proof {
                reveal_strlit("-");
                assert(out@ =~= seq!['-']);
            }
        }
        let ghost prefix = out@;
        let len = self.digits.len();
        let top = self.digits[len - 1];
        proof {
            assert(self.digits@.skip(len - 1)[0] == self.digits@[len - 1]);
            assert(self.digits@.skip(len - 1).subrange(1, 1).len() == 0);
            assert(limbs_value(self.digits@.skip(len - 1).subrange(1, 1)) == 0);
            assert(limbs_value(self.digits@.skip(len - 1)) == top as int);
        }
        push_decimal_u32(&mut out, top);
        let mut i: usize = len - 1;
        while i > 0
            invariant
                self.wf(),
                len == self.digits@.len(),
                i <= len - 1,
                out@ == prefix + dec_digits_of(limbs_value(self.digits@.skip(i as int))),
            decreases i,
        {
            i = i - 1;
            let d = self.digits[i];
            let ghost hi = limbs_value(self.digits@.skip(i + 1));
            proof {
                assert(pow10(9) == (BASE as int)) by {
                    assert(pow10(0) == 1);
                    assert(pow10(1) == 10);
                    assert(pow10(2) == 100);
                    assert(pow10(3) == 1000);
                    assert(pow10(4) == 10000);
                    assert(pow10(5) == 100000);
                    assert(pow10(6) == 1000000);
                    assert(pow10(7) == 10000000);
                    assert(pow10(8) == 100000000);
                    assert(pow10(9) == 1000000000);
                }
                let sk = self.digits@.skip(i as int);
                assert(sk[0] == self.digits@[i as int]);
                assert(sk.subrange(1, sk.len() as int) =~= self.digits@.skip(i + 1));
                assert(limbs_value(sk) == d + (BASE as int) * hi);
                let sk1 = self.digits@.skip(i + 1);
                assert(sk1.len() >= 1);
                assert(sk1[sk1.len() - 1] == self.digits@[len - 1]);
                assert(self.digits@[len - 1] != 0) by {
                    if len > 1 {
                    } else {
                        assert(i + 1 <= len - 1);
                        assert(false);
                    }
                }
                lemma_limbs_lower(sk1);
                lemma_pow_base_pos((sk1.len() - 1) as nat);
                assert(hi >= 1);
                lemma_dec_append(hi, d as int, 9);
                assert(hi * (BASE as int) + d == d + (BASE as int) * hi)
                    by (nonlinear_arith);
            }
            push_padded_u32(&mut out, d, 9);
            proof {
                assert(prefix + dec_digits_of(hi) + padded_digits_of(d as int, 9) =~= prefix
                    + (dec_digits_of(hi) + padded_digits_of(d as int, 9)));
            }
        }
        proof {
            assert(self.digits@.skip(0) =~= self.digits@);
            if self.negative {
                assert(self.mag() != 0);
                assert(self@ < 0);
                assert(out@ == seq!['-'] + dec_digits_of(self.mag()));
                assert(decimal_string_of(self@) == seq!['-'] + dec_digits_of(-self@));
            } else {
                assert(prefix =~= Seq::<char>::empty());
                assert(prefix + dec_digits_of(self.mag()) =~= dec_digits_of(self.mag()));
            }
        }
        out
    }

    /// Convert to a 64-bit machine integer exactly when the value is in
    /// the machine range.
    pub fn to_i64_exact(&self) -> (r: Option<i64>)
        requires
            self.wf(),
        ensures
            r is Some <==> -0x8000_0000_0000_0000 <= self@ < 0x8000_0000_0000_0000,
            match r {
                Some(v) => v as int == self@,
                None => true,
            },
    {
        proof {
            lemma_limbs_value_zero(self.digits@);
        }
        if self.digits.len() > 3 {
            proof {
                lemma_limbs_lower(self.digits@);
                lemma_pow_base_mono(3, (self.digits@.len() - 1) as nat);
                assert(pow_base(3) == 1_000_000_000_000_000_000_000_000_000) by {
                    assert(pow_base(0) == 1);
                    assert(pow_base(1) == (BASE as int) * pow_base(0));
                    assert(pow_base(2) == (BASE as int) * pow_base(1));
                    assert(pow_base(3) == (BASE as int) * pow_base(2));
                }
            }
            return None;
        }
        let d0 = self.digits[0] as u64;
        let d1: u64 = if self.digits.len() > 1 {
            self.digits[1] as u64
        } else {
            0
        };
        let d2: u64 = if self.digits.len() > 2 {
            self.digits[2] as u64
        } else {
            0
        };
        proof {
            let s = self.digits@;
            let t1 = s.subrange(1, s.len() as int);
            assert(limbs_value(s) == s[0] + (BASE as int) * limbs_value(t1));
            if s.len() == 1 {
                assert(t1.len() == 0);
                assert(limbs_value(t1) == 0);
                assert(self.mag() == d0);
            } else {
                let t2 = t1.subrange(1, t1.len() as int);
                assert(t1[0] == s[1]);
                assert(limbs_value(t1) == t1[0] + (BASE as int) * limbs_value(t2));
                if s.len() == 2 {
                    assert(t2.len() == 0);
                    assert(limbs_value(t2) == 0);
                    assert(self.mag() == d0 + (BASE as int) * d1);
                } else {
                    assert(t2[0] == s[2]);
                    assert(limbs_value(t2) == t2[0] + (BASE as int) * limbs_value(
                        t2.subrange(1, t2.len() as int),
                    ));
                    assert(t2.subrange(1, t2.len() as int).len() == 0);
                    assert(limbs_value(t2.subrange(1, t2.len() as int)) == 0);
                    assert(limbs_value(t2) == d2);
                    assert(limbs_value(t1) == d1 + (BASE as int) * d2);
                    assert((BASE as int) * (d1 + (BASE as int) * d2) == (BASE as int) * d1
                        + (BASE as int) * (BASE as int) * d2) by (nonlinear_arith);
                }
            }
            assert(self.mag() == d0 + (BASE as int) * d1 + (BASE as int) * (BASE as int)
                * d2);
        }
        if d2 > 9 {
            proof {
                assert(self.mag() >= 10_000_000_000_000_000_000) by (nonlinear_arith)
                    requires
                        self.mag() == d0 + (BASE as int) * d1 + (BASE as int) * (
                        BASE as int) * d2,
                        d2 >= 10,
                        d0 >= 0,
                        d1 >= 0,
                ;
            }
            return None;
        }
        let mag: u64 = d0 + BASE * d1 + BASE * BASE * d2;
        if self.negative {
            if mag > 9223372036854775808u64 {
                return None;
            }
            if mag == 9223372036854775808u64 {
                Some(i64::MIN)
            } else {
                Some(-(mag as i64))
            }
        } else {
            if mag > 9223372036854775807u64 {
                return None;
            }
            Some(mag as i64)
        }
    }

    /// Whether this value is in canonical representation; values built by
    /// this module always are, but values assembled elsewhere are checked
    /// before use.
    pub fn is_canonical(&self) -> (r: bool)
        ensures
            r == self.wf(),
    {
        let n = self.digits.len();
        if n == 0 {
            return false;
        }
        let mut i: usize = 0;
        while i < n
            invariant
                i <= n,
                n == self.digits@.len(),
                forall|j: int| 0 <= j < i ==> self.digits@[j] < BASE,
            decreases n - i,
        {
            if self.digits[i] >= BASE as u32 {
                return false;
            }
            i = i + 1;
        }
        if n > 1 && self.digits[n - 1] == 0 {
            return false;
        }
        if self.negative {
            let z = {
                proof {
                    lemma_limbs_value_zero(self.digits@);
                }
                self.digits.len() == 1 && self.digits[0] == 0
            };
            if z {
                return false;
            }
        }
        proof {
            lemma_limbs_value_zero(self.digits@);
        }
        true
    }

    /// Whether this value is zero.
    pub fn is_zero(&self) -> (r: bool)
        requires
            self.wf(),
        ensures
            r == (self@ == 0),
    {
        proof {
            lemma_limbs_value_zero(self.digits@);
        }
        self.digits.len() == 1 && self.digits[0] == 0
    }
}

/// BASE raised to the power `n`: the weight of the limb at position `n`.
pub open spec fn pow_base(n: nat) -> int
    decreases n,
{
    if n == 0 {
        1
    } else {
        (BASE as int) * pow_base((n - 1) as nat)
    }
}

pub proof fn lemma_pow_base_pos(n: nat)
    ensures
        pow_base(n) >= 1,
    decreases n,
{
    if n > 0 {
        lemma_pow_base_pos((n - 1) as nat);
        assert((BASE as int) * pow_base((n - 1) as nat) >= pow_base((n - 1) as nat))
            by (nonlinear_arith)
            requires
                pow_base((n - 1) as nat) >= 1,
        ;
    }
}

/// Appending a limb adds its value weighted by the base power of its position.
pub proof fn lemma_limbs_push(s: Seq<u32>, d: u32)
    ensures
        limbs_value(s.push(d)) == limbs_value(s) + d * pow_base(s.len()),
    decreases s.len(),
{
    if s.len() == 0 {
        assert(s.push(d)[0] == d);
        assert(limbs_value(s.push(d).subrange(1, 1)) == 0) by {
            assert(s.push(d).subrange(1, 1).len() == 0);
        }
        assert(limbs_value(s.push(d)) == d);
    } else {
        let t = s.subrange(1, s.len() as int);
        lemma_limbs_push(t, d);
        assert(s.push(d).subrange(1, s.len() as int + 1) =~= t.push(d));
        assert(limbs_value(s.push(d)) == s[0] + (BASE as int) * limbs_value(t.push(d)));
        assert((BASE as int) * (limbs_value(t) + d * pow_base(t.len())) == (BASE as int)
            * limbs_value(t) + d * ((BASE as int) * pow_base(t.len()))) by (nonlinear_arith);
    }
}

/// Taking one more limb adds that limb's weighted value.
pub proof fn lemma_limbs_take_succ(s: Seq<u32>, i: int)
    requires
        0 <= i < s.len(),
    ensures
        limbs_value(s.take(i + 1)) == limbs_value(s.take(i)) + s[i] * pow_base(i as nat),
{
    assert(s.take(i + 1) =~= s.take(i).push(s[i]));
    lemma_limbs_push(s.take(i), s[i]);
}

/// A sequence of in-range limbs denotes a value below BASE^len.
pub proof fn lemma_limbs_upper(s: Seq<u32>)
    requires
        forall|i: int| 0 <= i < s.len() ==> s[i] < BASE,
    ensures
        0 <= limbs_value(s) < pow_base(s.len()),
    decreases s.len(),
{
    lemma_limbs_value_zero(s);
    if s.len() > 0 {
        let t = s.subrange(1, s.len() as int);
        lemma_limbs_upper(t);
        assert(limbs_value(s) == s[0] + (BASE as int) * limbs_value(t));
        assert(s[0] + (BASE as int) * limbs_value(t) < (BASE as int) * pow_base(t.len()))
            by (nonlinear_arith)
            requires
                s[0] < BASE,
                limbs_value(t) < pow_base(t.len()),
                limbs_value(t) >= 0,
                pow_base(t.len()) >= 1,
        {
            lemma_pow_base_pos(t.len());
        }
        assert(pow_base(s.len()) == (BASE as int) * pow_base(t.len()));
    }
}

/// A sequence whose last limb is nonzero denotes at least BASE^(len-1).
pub proof fn lemma_limbs_lower(s: Seq<u32>)
    requires
        s.len() >= 1,
        s[s.len() - 1] != 0,
    ensures
        limbs_value(s) >= pow_base((s.len() - 1) as nat),
{
    let t = s.drop_last();
    assert(s =~= t.push(s[s.len() - 1]));
    lemma_limbs_push(t, s[s.len() - 1]);
    lemma_limbs_value_zero(t);
    lemma_pow_base_pos(t.len());
    assert(s[s.len() - 1] * pow_base(t.len()) >= pow_base(t.len())) by (nonlinear_arith)
        requires
            s[s.len() - 1] >= 1,
            pow_base(t.len()) >= 1,
    ;
}

pub proof fn lemma_pow_base_add(m: nat, n: nat)
    ensures
        pow_base(m + n) == pow_base(m) * pow_base(n),
    decreases m,
{
    if m == 0 {
        assert(pow_base(n) == 1 * pow_base(n)) by (nonlinear_arith);
    } else {
        lemma_pow_base_add((m - 1) as nat, n);
        assert((BASE as int) * (pow_base((m - 1) as nat) * pow_base(n)) == ((BASE as int)
            * pow_base((m - 1) as nat)) * pow_base(n)) by (nonlinear_arith);
    }
}

pub proof fn lemma_pow_base_mono(m: nat, n: nat)
    requires
        m <= n,
    ensures
        pow_base(m) <= pow_base(n),
{
    lemma_pow_base_add(m, (n - m) as nat);
    lemma_pow_base_pos(m);
    lemma_pow_base_pos((n - m) as nat);
    assert(pow_base(m) * pow_base((n - m) as nat) >= pow_base(m) * 1) by (nonlinear_arith)
        requires
            pow_base(m) >= 1,
            pow_base((n - m) as nat) >= 1,
    ;
}

/// Splitting a limb sequence at `k` splits its value with weight BASE^k.
pub proof fn lemma_limbs_split(s: Seq<u32>, k: int)
    requires
        0 <= k <= s.len(),
    ensures
        limbs_value(s) == limbs_value(s.take(k)) + pow_base(k as nat) * limbs_value(
            s.skip(k),
        ),
    decreases k,
{
    if k == 0 {
        assert(s.take(0).len() == 0);
        assert(s.skip(0) =~= s);
    } else {
        lemma_limbs_split(s, k - 1);
        lemma_limbs_take_succ(s, k - 1);
        let sk = s.skip(k - 1);
        if sk.len() > 0 {
            assert(sk[0] == s[k - 1]);
            assert(sk.subrange(1, sk.len() as int) =~= s.skip(k));
            assert(limbs_value(sk) == s[k - 1] + (BASE as int) * limbs_value(s.skip(k)));
        }
        assert(pow_base((k - 1) as nat) * (s[k - 1] + (BASE as int) * limbs_value(s.skip(k)))
            == s[k - 1] * pow_base((k - 1) as nat) + ((BASE as int) * pow_base((k - 1) as nat))
            * limbs_value(s.skip(k))) by (nonlinear_arith);
    }
}

/// If two equally long limb sequences agree above position `i` and differ at
/// `i`, the one with the larger limb at `i` denotes the larger value.
pub proof fn lemma_limbs_cmp_at(s1: Seq<u32>, s2: Seq<u32>, i: int)
    requires
        s1.len() == s2.len(),
        0 <= i < s1.len(),
        s1[i] > s2[i],
        forall|j: int| i < j < s1.len() ==> s1[j] == s2[j],
        forall|j: int| 0 <= j < s1.len() ==> s1[j] < BASE,
        forall|j: int| 0 <= j < s2.len() ==> s2[j] < BASE,
    ensures
        limbs_value(s1) > limbs_value(s2),
{
    lemma_limbs_split(s1, i + 1);
    lemma_limbs_split(s2, i + 1);
    assert(s1.skip(i + 1) =~= s2.skip(i + 1));
    lemma_limbs_take_succ(s1, i);
    lemma_limbs_take_succ(s2, i);
    lemma_limbs_upper(s1.take(i));
    lemma_limbs_upper(s2.take(i));
    lemma_pow_base_pos(i as nat);
    assert(limbs_value(s1.take(i)) + s1[i] * pow_base(i as nat) > limbs_value(s2.take(i))
        + s2[i] * pow_base(i as nat)) by (nonlinear_arith)
        requires
            limbs_value(s1.take(i)) >= 0,
            limbs_value(s2.take(i)) < pow_base(i as nat),
            s1[i] >= s2[i] + 1,
            pow_base(i as nat) >= 1,
    ;
}

/// Overwriting one limb shifts the value by the weighted difference.
pub proof fn lemma_limbs_update(s: Seq<u32>, k: int, v: u32)
    requires
        0 <= k < s.len(),
    ensures
        limbs_value(s.update(k, v)) == limbs_value(s) + (v - s[k]) * pow_base(k as nat),
    decreases s.len(),
{
    let u = s.update(k, v);
    if k == 0 {
        assert(u.subrange(1, u.len() as int) =~= s.subrange(1, s.len() as int));
        assert(limbs_value(u) == v + (BASE as int) * limbs_value(s.subrange(1, s.len() as int)));
    } else {
        let st = s.subrange(1, s.len() as int);
        lemma_limbs_update(st, k - 1, v);
        assert(u.subrange(1, u.len() as int) =~= st.update(k - 1, v));
        assert(u[0] == s[0]);
        assert((BASE as int) * (limbs_value(st) + (v - st[k - 1]) * pow_base((k - 1) as nat))
            == (BASE as int) * limbs_value(st) + (v - st[k - 1]) * ((BASE as int) * pow_base(
            (k - 1) as nat))) by (nonlinear_arith);
        assert(st[k - 1] == s[k]);
    }
}

/// Whether `c` is a decimal digit character.
pub open spec fn is_dec_digit(c: char) -> bool {
    '0' <= c && c <= '9'
}

/// Numeric value of a decimal digit character.
pub open spec fn digit_val(c: char) -> int {
    (c as u32) - ('0' as u32)
}

/// Whether every character of `s` is a decimal digit.
pub open spec fn all_dec_digits(s: Seq<char>) -> bool {
    forall|i: int| 0 <= i < s.len() ==> is_dec_digit(#[trigger] s[i])
}

/// Value of a nonempty digit string, most significant digit first.
pub open spec fn digits_value(s: Seq<char>) -> int
    decreases s.len(),
{
    if s.len() == 0 {
        0
    } else {
        digits_value(s.drop_last()) * 10 + digit_val(s.last())
    }
}

/// A valid decimal literal: an optional leading minus sign followed by a
/// nonempty run of digits.
pub open spec fn valid_decimal(s: Seq<char>) -> bool {
    if s.len() >= 1 && s[0] == '-' {
        s.len() >= 2 && all_dec_digits(s.skip(1))
    } else {
        s.len() >= 1 && all_dec_digits(s)
    }
}

/// Signed value of a valid decimal literal.
pub open spec fn decimal_value(s: Seq<char>) -> int {
    if s.len() >= 1 && s[0] == '-' {
        -digits_value(s.skip(1))
    } else {
        digits_value(s)
    }
}

/// A digit string denotes a nonnegative value.
pub proof fn lemma_digits_value_nonneg(s: Seq<char>)
    requires
        all_dec_digits(s),
    ensures
        digits_value(s) >= 0,
    decreases s.len(),
{
    if s.len() > 0 {
        assert(all_dec_digits(s.drop_last())) by {
            assert(forall|i: int|
                0 <= i < s.len() - 1 ==> s.drop_last()[i] == #[trigger] s[i]);
        }
        lemma_digits_value_nonneg(s.drop_last());
        assert(digits_value(s.drop_last()) * 10 >= 0) by (nonlinear_arith)
            requires
                digits_value(s.drop_last()) >= 0,
        ;
    }
}

/// A digit string without a leading zero denotes at least 1.
pub proof fn lemma_digits_value_pos(s: Seq<char>)
    requires
        all_dec_digits(s),
        s.len() >= 1,
        s[0] != '0',
    ensures
        digits_value(s) >= 1,
    decreases s.len(),
{
    assert(is_dec_digit(s[s.len() - 1]));
    if s.len() == 1 {
        assert(digits_value(s.drop_last()) == 0) by {
            assert(s.drop_last().len() == 0);
        }
        assert(s.last() == s[0]);
        assert(digit_val(s[0]) >= 1) by {
            if s[0] as u32 == '0' as u32 {
                vstd::utf8::char_u32_cast(s[0], s[0] as u32);
                vstd::utf8::char_u32_cast('0', '0' as u32);
                assert(s[0] == '0');
            }
            assert(('0' as u32) == 48);
            assert(s[0] as u32 >= 48);
        }
    } else {
        let t = s.drop_last();
        assert(all_dec_digits(t)) by {
            assert(forall|i: int| 0 <= i < t.len() ==> t[i] == #[trigger] s[i]);
        }
        lemma_digits_value_pos(t);
        assert(digits_value(t) * 10 >= 10) by (nonlinear_arith)
            requires
                digits_value(t) >= 1,
        ;
        assert(digit_val(s.last()) >= 0) by {
            assert(s.last() == s[s.len() - 1]);
            assert(('0' as u32) == 48);
            assert(s.last() as u32 >= 48);
        }
    }
}

/// Ten to the power `k`.
pub open spec fn pow10(k: nat) -> int
    decreases k,
{
    if k == 0 {
        1
    } else {
        10 * pow10((k - 1) as nat)
    }
}

/// The decimal digit character for a value below ten.
pub open spec fn digit_char(n: int) -> char {
    if n == 0 {
        '0'
    } else if n == 1 {
        '1'
    } else if n == 2 {
        '2'
    } else if n == 3 {
        '3'
    } else if n == 4 {
        '4'
    } else if n == 5 {
        '5'
    } else if n == 6 {
        '6'
    } else if n == 7 {
        '7'
    } else if n == 8 {
        '8'
    } else {
        '9'
    }
}

/// Canonical decimal digits of a nonnegative value, without leading zeros
/// (a single zero digit for the value zero).
pub open spec fn dec_digits_of(n: int) -> Seq<char>
    decreases n,
    when n >= 0
{
    if n < 10 {
        seq![digit_char(n)]
    } else {
        dec_digits_of(n / 10).push(digit_char(n % 10))
    }
}

/// Exactly `k` decimal digits of a value below 10^k, zero-padded on the
/// left.
pub open spec fn padded_digits_of(n: int, k: nat) -> Seq<char>
    decreases k,
{
    if k == 0 {
        Seq::empty()
    } else {
        padded_digits_of(n / 10, (k - 1) as nat).push(digit_char(n % 10))
    }
}

/// Canonical decimal string of a signed value: a minus sign for negative
/// values, then the digits of the magnitude without leading zeros.
pub open spec fn decimal_string_of(v: int) -> Seq<char> {
    if v < 0 {
        seq!['-'] + dec_digits_of(-v)
    } else {
        dec_digits_of(v)
    }
}

/// A canonical decimal literal: no leading zeros beyond a single "0", and
/// no minus sign on zero.
pub open spec fn canonical_decimal(s: Seq<char>) -> bool {
    &&& valid_decimal(s)
    &&& if s.len() >= 1 && s[0] == '-' {
        s.skip(1)[0] != '0'
    } else {
        s[0] != '0' || s.len() == 1
    }
}

/// Writing a number `a` followed by the `k`-digit zero-padded form of `b`
/// spells the number a * 10^k + b.
pub proof fn lemma_dec_append(a: int, b: int, k: nat)
    requires
        a >= 1,
        0 <= b < pow10(k),
    ensures
        dec_digits_of(a * pow10(k) + b) == dec_digits_of(a) + padded_digits_of(b, k),
    decreases k,
{
    if k == 0 {
        assert(b == 0);
        assert(a * 1 + 0 == a) by (nonlinear_arith);
        assert(dec_digits_of(a) + padded_digits_of(0, 0) =~= dec_digits_of(a));
    } else {
        let n = a * pow10(k) + b;
        let p1 = pow10((k - 1) as nat);
        assert(pow10(k) == 10 * p1);
        lemma_pow10_pos((k - 1) as nat);
        assert(n >= 10) by (nonlinear_arith)
            requires
                a >= 1,
                pow10(k) == 10 * p1,
                p1 >= 1,
                b >= 0,
                n == a * pow10(k) + b,
        ;
        lemma_fundamental_div_mod(b, 10);
        let bq = b / 10;
        let br = b % 10;
        assert(n == 10 * (a * p1 + bq) + br) by (nonlinear_arith)
            requires
                n == a * (10 * p1) + b,
                b == 10 * bq + br,
        ;
        vstd::arithmetic::div_mod::lemma_fundamental_div_mod_converse(
            n,
            10,
            a * p1 + bq,
            br,
        );
        assert(n / 10 == a * p1 + bq && n % 10 == br);
        assert(bq < p1) by (nonlinear_arith)
            requires
                b < 10 * p1,
                b == 10 * bq + br,
                0 <= br < 10,
        ;
        lemma_dec_append(a, bq, (k - 1) as nat);
        assert(dec_digits_of(n) == dec_digits_of(n / 10).push(digit_char(n % 10)));
        assert((dec_digits_of(a) + padded_digits_of(bq, (k - 1) as nat)).push(digit_char(br))
            =~= dec_digits_of(a) + padded_digits_of(bq, (k - 1) as nat).push(
            digit_char(br),
        ));
    }
}

pub proof fn lemma_pow10_pos(k: nat)
    ensures
        pow10(k) >= 1,
    decreases k,
{
    if k > 0 {
        lemma_pow10_pos((k - 1) as nat);
    }
}

/// A decimal digit character is recovered from its numeric value.
pub proof fn lemma_digit_char_val(c: char)
    requires
        is_dec_digit(c),
    ensures
        digit_char(digit_val(c)) == c,
        0 <= digit_val(c) <= 9,
{
    let u = c as u32;
    assert(('0' as u32) == 48 && ('9' as u32) == 57);
    assert(48 <= u <= 57);
    vstd::utf8::char_u32_cast(c, u);
    if u == 48 {
        vstd::utf8::char_u32_cast('0', 48);
    } else if u == 49 {
        vstd::utf8::char_u32_cast('1', 49);
    } else if u == 50 {
        vstd::utf8::char_u32_cast('2', 50);
    } else if u == 51 {
        vstd::utf8::char_u32_cast('3', 51);
    } else if u == 52 {
        vstd::utf8::char_u32_cast('4', 52);
    } else if u == 53 {
        vstd::utf8::char_u32_cast('5', 53);
    } else if u == 54 {
        vstd::utf8::char_u32_cast('6', 54);
    } else if u == 55 {
        vstd::utf8::char_u32_cast('7', 55);
    } else if u == 56 {
        vstd::utf8::char_u32_cast('8', 56);
    } else {
        vstd::utf8::char_u32_cast('9', 57);
    }
}

/// The canonical digits of the value of a digit string without leading
/// zeros are that very string.
pub proof fn lemma_dec_digits_roundtrip(t: Seq<char>)
    requires
        all_dec_digits(t),
        t.len() >= 1,
        t[0] != '0' || t.len() == 1,
    ensures
        dec_digits_of(digits_value(t)) == t,
    decreases t.len(),
{
    lemma_digits_value_nonneg(t);
    let v = digits_value(t);
    if t.len() == 1 {
        assert(digits_value(t.drop_last()) == 0) by {
            assert(t.drop_last().len() == 0);
        }
        lemma_digit_char_val(t[0]);
        assert(v == digit_val(t[0]));
        assert(dec_digits_of(v) =~= t);
    } else {
        let u = t.drop_last();
        assert(all_dec_digits(u)) by {
            assert(forall|i: int| 0 <= i < u.len() ==> u[i] == #[trigger] t[i]);
        }
        assert(u[0] == t[0]);
        lemma_digits_value_pos(u);
        let v1 = digits_value(u);
        let d = digit_val(t.last());
        lemma_digit_char_val(t.last());
        assert(v == v1 * 10 + d);
        assert(v == 10 * v1 + d) by (nonlinear_arith)
            requires
                v == v1 * 10 + d,
        ;
        vstd::arithmetic::div_mod::lemma_fundamental_div_mod_converse(v, 10, v1, d);
        assert(v >= 10) by (nonlinear_arith)
            requires
                v1 >= 1,
                d >= 0,
                v == 10 * v1 + d,
        ;
        lemma_dec_digits_roundtrip(u);
        assert(dec_digits_of(v) == dec_digits_of(v1).push(digit_char(d)));
        assert(u.push(t.last()) =~= t);
    }
}

/// The canonical decimal string of the value of a canonical literal is
/// that very literal: parsing and printing decimal strings are mutually
/// inverse on canonical inputs.
pub proof fn lemma_decimal_round_trip(s: Seq<char>)
    requires
        canonical_decimal(s),
    ensures
        decimal_string_of(decimal_value(s)) == s,
{
    if s.len() >= 1 && s[0] == '-' {
        let d = s.skip(1);
        lemma_digits_value_pos(d);
        lemma_dec_digits_roundtrip(d);
        assert(decimal_value(s) == -digits_value(d));
        assert(decimal_string_of(decimal_value(s)) == seq!['-'] + dec_digits_of(
            digits_value(d),
        ));
        assert(seq!['-'] + d =~= s);
    } else {
        lemma_digits_value_nonneg(s);
        lemma_dec_digits_roundtrip(s);
    }
}

/// Append the single digit character for `d`.
fn push_digit(out: &mut String, d: u32)
    requires
        d < 10,
    ensures
        final(out)@ == old(out)@.push(digit_char(d as int)),
{
    if d == 0 {
        out.append("0");
        proof {
            reveal_strlit("0");
            assert(old(out)@ + "0"@ =~= old(out)@.push('0'));
        }
    } else if d == 1 {
        out.append("1");
        proof {
            reveal_strlit("1");
            assert(old(out)@ + "1"@ =~= old(out)@.push('1'));
        }
    } else if d == 2 {
        out.append("2");
        proof {
            reveal_strlit("2");
            assert(old(out)@ + "2"@ =~= old(out)@.push('2'));
        }
    } else if d == 3 {
        out.append("3");
        proof {
            reveal_strlit("3");
            assert(old(out)@ + "3"@ =~= old(out)@.push('3'));
        }
    } else if d == 4 {
        out.append("4");
        proof {
            reveal_strlit("4");
            assert(old(out)@ + "4"@ =~= old(out)@.push('4'));
        }
    } else if d == 5 {
        out.append("5");
        proof {
            reveal_strlit("5");
            assert(old(out)@ + "5"@ =~= old(out)@.push('5'));
        }
    } else if d == 6 {
        out.append("6");
        proof {
            reveal_strlit("6");
            assert(old(out)@ + "6"@ =~= old(out)@.push('6'));
        }
    } else if d == 7 {
        out.append("7");
        proof {
            reveal_strlit("7");
            assert(old(out)@ + "7"@ =~= old(out)@.push('7'));
        }
    } else if d == 8 {
        out.append("8");
        proof {
            reveal_strlit("8");
            assert(old(out)@ + "8"@ =~= old(out)@.push('8'));
        }
    } else {
        out.append("9");
        proof {
            reveal_strlit("9");
            assert(old(out)@ + "9"@ =~= old(out)@.push('9'));
        }
    }
}

/// Append the canonical (unpadded) decimal digits of `d`.
fn push_decimal_u32(out: &mut String, d: u32)
    ensures
        final(out)@ == old(out)@ + dec_digits_of(d as int),
    decreases d,
{
    if d < 10 {
        push_digit(out, d);
        proof {
            assert(old(out)@.push(digit_char(d as int)) =~= old(out)@ + dec_digits_of(
                d as int,
            ));
        }
    } else {
        push_decimal_u32(out, d / 10);
        push_digit(out, d % 10);
        proof {
            assert((old(out)@ + dec_digits_of((d / 10) as int)).push(digit_char(
                (d % 10) as int,
            )) =~= old(out)@ + dec_digits_of((d / 10) as int).push(digit_char(
                (d % 10) as int,
            )));
        }
    }
}

/// Append exactly `k` decimal digits of `d`, zero-padded on the left.
fn push_padded_u32(out: &mut String, d: u32, k: u32)
    requires
        (d as int) < pow10(k as nat),
    ensures
        final(out)@ == old(out)@ + padded_digits_of(d as int, k as nat),
    decreases k,
{
    if k == 0 {
        proof {
            assert(old(out)@ + padded_digits_of(d as int, 0) =~= old(out)@);
        }
        return ;
    }
    proof {
        lemma_fundamental_div_mod(d as int, 10);
        lemma_pow10_pos((k - 1) as nat);
        assert(pow10(k as nat) == 10 * pow10((k - 1) as nat));
        assert((d as int) / 10 < pow10((k - 1) as nat)) by (nonlinear_arith)
            requires
                d as int == 10 * ((d as int) / 10) + (d as int) % 10,
                0 <= (d as int) % 10 < 10,
                (d as int) < 10 * pow10((k - 1) as nat),
        ;
    }
    push_padded_u32(out, d / 10, k - 1);
    push_digit(out, d % 10);
    proof {
        assert((old(out)@ + padded_digits_of((d / 10) as int, (k - 1) as nat)).push(
            digit_char((d % 10) as int),
        ) =~= old(out)@ + padded_digits_of((d / 10) as int, (k - 1) as nat).push(
            digit_char((d % 10) as int),
        ));
        assert((d as int) / 10 == (d / 10) as int && (d as int) % 10 == (d % 10) as int);
    }
}

/// Drop trailing zero limbs until the representation is canonical: at least
/// one limb, and the last limb nonzero unless the whole value is zero.
fn normalize_limbs(digits: &mut Vec<u32>)
    requires
        old(digits)@.len() >= 1,
        forall|i: int| 0 <= i < old(digits)@.len() ==> old(digits)@[i] < BASE,
    ensures
        final(digits)@.len() >= 1,
        forall|i: int| 0 <= i < final(digits)@.len() ==> final(digits)@[i] < BASE,
        final(digits)@.len() > 1 ==> final(digits)@[final(digits)@.len() - 1] != 0,
        limbs_value(final(digits)@) == limbs_value(old(digits)@),
{
    while digits.len() > 1 && digits[digits.len() - 1] == 0
        invariant
            digits@.len() >= 1,
            forall|i: int| 0 <= i < digits@.len() ==> digits@[i] < BASE,
            limbs_value(digits@) == limbs_value(old(digits)@),
        decreases digits@.len(),
    {
        let ghost before = digits@;
        digits.pop();
        proof {
            assert(before =~= digits@.push(before[before.len() - 1]));
            lemma_limbs_push(digits@, before[before.len() - 1]);
        }
    }
}

/// Attach a sign to a nonnegative value: the zero value never becomes
/// negative.
fn with_sign(b: BigInt, neg: bool) -> (r: BigInt)
    requires
        b.wf(),
        !b.negative,
    ensures
        r.wf(),
        r@ == if neg {
            -b@
        } else {
            b@
        },
{
    let z = b.is_zero();
    if neg && !z {
        BigInt { digits: b.digits, negative: true }
    } else {
        b
    }
}

impl Clone for BigInt {
    /// Cloning preserves both the mathematical value and well-formedness.
    fn clone(&self) -> (r: Self)
        ensures
            r@ == self@,
            r.wf() == self.wf(),
    {
        let digits = self.digits.clone();
        proof {
            assert(digits@ =~= self.digits@);
        }
        BigInt { digits, negative: self.negative }
    }
}

/// Ordering law: the big-integer images of two machine integers compare
/// exactly as the machine integers themselves do, so `cmp` on values
/// built with `from_i64` answers the machine comparison.
pub proof fn lemma_from_i64_order(a: i64, b: i64, ba: BigInt, bb: BigInt)
    requires
        ba.wf(),
        bb.wf(),
        ba@ == a as int,
        bb@ == b as int,
    ensures
        (ba@ < bb@) <==> a < b,
        (ba@ == bb@) <==> a == b,
        (ba@ > bb@) <==> a > b,
{
}

/// A limb sequence denotes zero exactly when all its limbs are zero, and in
/// general its value is nonnegative and below BASE^len.
pub proof fn lemma_limbs_value_zero(s: Seq<u32>)
    ensures
        limbs_value(s) == 0 <==> forall|i: int| 0 <= i < s.len() ==> s[i] == 0,
        0 <= limbs_value(s),
    decreases s.len(),
{
    if s.len() == 0 {
    } else {
        let tail = s.subrange(1, s.len() as int);
        lemma_limbs_value_zero(tail);
        assert(forall|i: int| 0 <= i < tail.len() ==> tail[i] == s[i + 1]);
        assert(limbs_value(s) == s[0] + (BASE as int) * limbs_value(tail));
        assert((BASE as int) * limbs_value(tail) >= 0) by (nonlinear_arith)
            requires
                limbs_value(tail) >= 0,
        ;
        if limbs_value(s) == 0 {
            assert(s[0] == 0 && limbs_value(tail) == 0) by (nonlinear_arith)
                requires
                    s[0] >= 0,
                    limbs_value(tail) >= 0,
                    s[0] + (BASE as int) * limbs_value(tail) == 0,
            ;
            assert(forall|i: int| 0 <= i < s.len() ==> s[i] == 0) by {
                assert(forall|i: int| 1 <= i < s.len() ==> s[i] == tail[i - 1] && tail[i - 1]
                    == 0);
            }
        }
        if forall|i: int| 0 <= i < s.len() ==> s[i] == 0 {
            assert(forall|i: int| 0 <= i < tail.len() ==> tail[i] == 0);
            assert(limbs_value(tail) == 0);
            assert(s[0] == 0);
            assert(limbs_value(s) == 0);
        }
    }
}

} // verus!
