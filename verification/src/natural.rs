//! Natural numbers of any size, as far as the reading of literals needs them:
//! a number can be multiplied by a small number, with a small number added, and
//! one number can be taken from another.

use vstd::prelude::*;
use vstd::arithmetic::power2::{lemma2_to64, lemma_pow2_adds, lemma_pow2_pos, pow2};

verus! {

/// The base of the digits of a [`Natural`]: `2^32`.
pub const BASE: u64 = 0x1_0000_0000;

/// A natural number: its digits to the base `2^32`, the lowest first.
pub struct Natural {
    pub digits: Vec<u32>,
}

/// The number that digits to the base `2^32` stand for, the lowest first.
pub open spec fn number(digits: Seq<u32>) -> nat
    decreases digits.len(),
{
    if digits.len() == 0 {
        0
    } else {
        number(digits.drop_last()) + digits.last() as nat * pow2((32 * (digits.len() - 1)) as nat)
    }
}

impl View for Natural {
    type V = nat;

    open spec fn view(&self) -> nat {
        number(self.digits@)
    }
}

/// The digits of a number up to a place, and zeros from the end of the digits
/// on: what they stand for.
pub open spec fn low(digits: Seq<u32>, places: int) -> nat {
    if places <= digits.len() {
        number(digits.take(places))
    } else {
        number(digits)
    }
}

/// The digit at a place, and zero behind the end of the digits.
pub open spec fn digit(digits: Seq<u32>, place: int) -> nat {
    if 0 <= place < digits.len() {
        digits[place] as nat
    } else {
        0
    }
}

/// A number of `n` digits is below the `n`-th power of the base.
pub proof fn lemma_number_bound(digits: Seq<u32>)
    ensures
        number(digits) < pow2((32 * digits.len()) as nat),
    decreases digits.len(),
{
    lemma2_to64();
    if digits.len() > 0 {
        lemma_number_bound(digits.drop_last());
        let place = (32 * (digits.len() - 1)) as nat;
        lemma_pow2_adds(32, place);
        lemma_pow2_pos(place);
        let p = pow2(place) as int;
        let last = digits.last() as int;
        assert(last * p + p <= 0x1_0000_0000 * p) by (nonlinear_arith)
            requires
                0 <= last < 0x1_0000_0000,
                p > 0,
        ;
    }
}

/// What the digits up to a place stand for grows by the digit at the place.
pub proof fn lemma_low_step(digits: Seq<u32>, place: int)
    requires
        0 <= place,
    ensures
        low(digits, place + 1) == low(digits, place) + digit(digits, place) * pow2((32 * place) as nat),
{
    if place < digits.len() {
        assert(digits.take(place + 1).drop_last() =~= digits.take(place));
        assert(digits.take(place + 1).last() == digits[place]);
    } else {
        assert(digits.take(digits.len() as int) =~= digits);
        assert(0 * pow2((32 * place) as nat) == 0) by (nonlinear_arith);
    }
}

impl Natural {
    /// The number 0.
    pub fn zero() -> (r: Natural)
        ensures
            r@ == 0,
    {
        Natural { digits: Vec::new() }
    }

    /// The number 1.
    pub fn one() -> (r: Natural)
        ensures
            r@ == 1,
    {
        let mut digits: Vec<u32> = Vec::new();
        digits.push(1);
        proof {
            lemma2_to64();
            assert(digits@.drop_last() =~= Seq::<u32>::empty());
            assert(number(digits@) == number(digits@.drop_last()) + digits@.last() as nat * pow2(0));
        }
        Natural { digits }
    }

    /// A number that 64 bits hold.
    pub fn from_u64(value: u64) -> (r: Natural)
        ensures
            r@ == value,
    {
        let low = (value % BASE) as u32;
        let high = (value / BASE) as u32;
        let mut digits: Vec<u32> = Vec::new();
        digits.push(low);
        let ghost first = digits@;
        digits.push(high);
        proof {
            lemma2_to64();
            assert(first.drop_last() =~= Seq::<u32>::empty());
            assert(number(first) == number(first.drop_last()) + first.last() as nat * pow2(0));
            assert(low * pow2(0) == low) by (nonlinear_arith)
                requires
                    pow2(0) == 1,
            ;
            assert(number(Seq::<u32>::empty()) == 0);
            assert(number(first) == low);
            assert(digits@.drop_last() =~= first);
            assert(digits@.last() == high);
            assert(pow2(32) == 0x1_0000_0000);
            assert(number(digits@) == number(first) + high as nat * pow2(32));
            assert(value == high * 0x1_0000_0000 + low);
        }
        Natural { digits }
    }

    /// This number times `factor`, plus `addend`.
    pub fn times_plus(&self, factor: u32, addend: u32) -> (r: Natural)
        ensures
            r@ == self@ * factor + addend,
    {
        let mut digits: Vec<u32> = Vec::new();
        let mut carry: u64 = addend as u64;
        let mut i: usize = 0;
        proof {
            lemma2_to64();
            assert(self.digits@.take(0) =~= Seq::<u32>::empty());
            assert(0 * (factor as int) == 0) by (nonlinear_arith);
            assert(carry * pow2(0) == carry) by (nonlinear_arith)
                requires
                    pow2(0) == 1,
            ;
        }
        while i < self.digits.len()
            invariant
                i <= self.digits.len(),
                digits.len() == i,
                carry < BASE,
                number(digits@) + carry * pow2((32 * i) as nat) == number(self.digits@.take(i as int)) * factor
                    + addend,
            decreases self.digits.len() - i,
        {
            let ghost before = digits@;
            let ghost place = pow2((32 * i) as nat) as int;
            let old = self.digits[i] as u64;
            assert(old * factor + carry < 0x1_0000_0000 * 0x1_0000_0000) by (nonlinear_arith)
                requires
                    0 <= old < 0x1_0000_0000,
                    0 <= factor < 0x1_0000_0000,
                    0 <= carry < 0x1_0000_0000,
            ;
            let total = old * factor as u64 + carry;
            let kept = (total % BASE) as u32;
            let next = total / BASE;
            assert(next < BASE) by (nonlinear_arith)
                requires
                    next == total / 0x1_0000_0000,
                    total < 0x1_0000_0000 * 0x1_0000_0000,
                    total >= 0,
            ;
            digits.push(kept);
            proof {
                lemma_low_step(self.digits@, i as int);
                assert(digit(self.digits@, i as int) == old);
                assert(digits@.drop_last() =~= before);
                lemma2_to64();
                lemma_pow2_adds(32, (32 * i) as nat);
                let lower = number(self.digits@.take(i as int)) as int;
                assert(number(digits@) + next * pow2((32 * (i + 1)) as nat) == (lower + old * place) * factor
                    + addend) by (nonlinear_arith)
                    requires
                        number(digits@) == number(before) + kept * place,
                        number(before) + carry * place == lower * factor + addend,
                        total == old * factor + carry,
                        total == 0x1_0000_0000 * next + kept,
                        pow2((32 * (i + 1)) as nat) == 0x1_0000_0000 * place,
                ;
            }
            carry = next;
            i += 1;
        }
        proof {
            assert(self.digits@.take(self.digits.len() as int) =~= self.digits@);
        }
        if carry > 0 {
            let ghost before = digits@;
            digits.push(carry as u32);
            proof {
                assert(digits@.drop_last() =~= before);
            }
        } else {
            proof {
                assert(carry * pow2((32 * i) as nat) == 0) by (nonlinear_arith)
                    requires
                        carry == 0,
                ;
            }
        }
        Natural { digits }
    }

    /// This number less `other`, where it is not less than `other`: else
    /// nothing.
    pub fn minus(&self, other: &Natural) -> (r: Option<Natural>)
        ensures
            r is Some <==> self@ >= other@,
            r matches Some(rest) ==> rest@ == self@ - other@,
    {
        let n = if self.digits.len() >= other.digits.len() {
            self.digits.len()
        } else {
            other.digits.len()
        };
        let mut digits: Vec<u32> = Vec::new();
        let mut borrow: u64 = 0;
        let mut i: usize = 0;
        proof {
            lemma2_to64();
            assert(self.digits@.take(0) =~= Seq::<u32>::empty());
            assert(other.digits@.take(0) =~= Seq::<u32>::empty());
            assert(borrow * pow2(0) == 0) by (nonlinear_arith)
                requires
                    borrow == 0,
            ;
        }
        while i < n
            invariant
                i <= n,
                n >= self.digits.len(),
                n >= other.digits.len(),
                digits.len() == i,
                borrow <= 1,
                number(digits@) + low(other.digits@, i as int) == low(self.digits@, i as int) + borrow * pow2(
                    (32 * i) as nat,
                ),
            decreases n - i,
        {
            let ghost before = digits@;
            let ghost place = pow2((32 * i) as nat) as int;
            let mine: u64 = if i < self.digits.len() {
                self.digits[i] as u64
            } else {
                0
            };
            let theirs: u64 = if i < other.digits.len() {
                other.digits[i] as u64
            } else {
                0
            };
            let taken = theirs + borrow;
            let (kept, next): (u32, u64) = if mine >= taken {
                ((mine - taken) as u32, 0)
            } else {
                ((mine + BASE - taken) as u32, 1)
            };
            digits.push(kept);
            proof {
                lemma_low_step(self.digits@, i as int);
                lemma_low_step(other.digits@, i as int);
                assert(digits@.drop_last() =~= before);
                lemma2_to64();
                lemma_pow2_adds(32, (32 * i) as nat);
                let a = low(self.digits@, i as int) as int;
                let b = low(other.digits@, i as int) as int;
                assert(number(digits@) + (b + theirs * place) == (a + mine * place) + next * pow2(
                    (32 * (i + 1)) as nat,
                )) by (nonlinear_arith)
                    requires
                        number(digits@) == number(before) + kept * place,
                        number(before) + b == a + borrow * place,
                        kept + theirs + borrow == mine + next * 0x1_0000_0000,
                        pow2((32 * (i + 1)) as nat) == 0x1_0000_0000 * place,
                ;
            }
            borrow = next;
            i += 1;
        }
        proof {
            lemma_number_bound(digits@);
            assert(low(self.digits@, n as int) == self@) by {
                if n == self.digits.len() {
                    assert(self.digits@.take(n as int) =~= self.digits@);
                }
            }
            assert(low(other.digits@, n as int) == other@) by {
                if n == other.digits.len() {
                    assert(other.digits@.take(n as int) =~= other.digits@);
                }
            }
            if borrow == 0 {
                assert(borrow * pow2((32 * n) as nat) == 0) by (nonlinear_arith)
                    requires
                        borrow == 0,
                ;
            } else {
                assert(borrow * pow2((32 * n) as nat) == pow2((32 * n) as nat)) by (nonlinear_arith)
                    requires
                        borrow == 1,
                ;
            }
        }
        if borrow == 0 {
            Some(Natural { digits })
        } else {
            None
        }
    }

    /// Whether this number is 0.
    pub fn is_zero(&self) -> (r: bool)
        ensures
            r == (self@ == 0),
    {
        let mut i: usize = 0;
        proof {
            assert(self.digits@.take(0) =~= Seq::<u32>::empty());
        }
        while i < self.digits.len()
            invariant
                i <= self.digits.len(),
                number(self.digits@.take(i as int)) == 0,
            decreases self.digits.len() - i,
        {
            if self.digits[i] != 0 {
                proof {
                    lemma_rest_counts(self.digits@, i as int);
                    lemma_pow2_pos((32 * i) as nat);
                    let p = pow2((32 * i) as nat) as int;
                    let d = self.digits[i as int] as int;
                    assert(d * p > 0) by (nonlinear_arith)
                        requires
                            d >= 1,
                            p >= 1,
                    ;
                }
                return false;
            }
            proof {
                lemma_low_step(self.digits@, i as int);
                assert(0 * pow2((32 * i) as nat) == 0) by (nonlinear_arith);
            }
            i += 1;
        }
        proof {
            assert(self.digits@.take(self.digits.len() as int) =~= self.digits@);
        }
        true
    }
}

/// A number is at least what one of its digits stands for.
pub proof fn lemma_rest_counts(digits: Seq<u32>, place: int)
    requires
        0 <= place < digits.len(),
    ensures
        number(digits) >= digits[place] as nat * pow2((32 * place) as nat),
    decreases digits.len(),
{
    if place < digits.len() - 1 {
        lemma_rest_counts(digits.drop_last(), place);
    } else {
        let p = pow2((32 * place) as nat);
    }
}

} // verus!
