//! Natural numbers of any size.

use vstd::arithmetic::power2;
use vstd::prelude::*;

verus! {

/// A natural number: its digits to the base 2^32, the least significant one first.
pub struct Big {
    pub digits: Vec<u32>,
}

/// A digit; there are zeros after the last one.
pub open spec fn digit(digits: Seq<u32>, i: int) -> nat {
    if 0 <= i < digits.len() {
        digits[i] as nat
    } else {
        0
    }
}

/// A power of the base.
pub open spec fn base(k: nat) -> nat
    decreases k,
{
    if k == 0 {
        1
    } else {
        0x1_0000_0000 * base((k - 1) as nat)
    }
}

/// The number that the first `n` digits make.
pub open spec fn value_up_to(digits: Seq<u32>, n: nat) -> nat
    decreases n,
{
    if n == 0 {
        0
    } else {
        value_up_to(digits, (n - 1) as nat) + digit(digits, n - 1) * base((n - 1) as nat)
    }
}

impl View for Big {
    type V = nat;

    open spec fn view(&self) -> nat {
        value_up_to(self.digits@, self.digits@.len())
    }
}

// ---- Digits ----

proof fn lemma_base_positive(k: nat)
    ensures
        base(k) > 0,
    decreases k,
{
    if k > 0 {
        lemma_base_positive((k - 1) as nat);
    }
}

proof fn lemma_base_is_power(k: nat)
    ensures
        base(k) == power2::pow2(32 * k),
    decreases k,
{
    power2::lemma2_to64();
    if k > 0 {
        lemma_base_is_power((k - 1) as nat);
        power2::lemma_pow2_adds(32, (32 * (k - 1)) as nat);
    }
}

/// Zeros after the last digit do not count.
proof fn lemma_more_digits(digits: Seq<u32>, n: nat)
    requires
        n >= digits.len(),
    ensures
        value_up_to(digits, n) == value_up_to(digits, digits.len()),
    decreases n,
{
    if n > digits.len() {
        lemma_more_digits(digits, (n - 1) as nat);
        assert(0 * base((n - 1) as nat) == 0) by (nonlinear_arith);
    }
}

/// The first digits make the same number wherever they stand.
proof fn lemma_same_digits(a: Seq<u32>, b: Seq<u32>, n: nat)
    requires
        forall|i: int| 0 <= i < n ==> digit(a, i) == #[trigger] digit(b, i),
    ensures
        value_up_to(a, n) == value_up_to(b, n),
    decreases n,
{
    if n > 0 {
        lemma_same_digits(a, b, (n - 1) as nat);
        assert(digit(a, n - 1) == digit(b, n - 1));
    }
}

proof fn lemma_push(digits: Seq<u32>, last: u32)
    ensures
        value_up_to(digits.push(last), digits.len() + 1) == value_up_to(digits, digits.len()) + last
            * base(digits.len()),
{
    let more = digits.push(last);
    assert forall|i: int| 0 <= i < digits.len() implies digit(more, i) == #[trigger] digit(
        digits,
        i,
    ) by {}
    lemma_same_digits(more, digits, digits.len());
    assert(digit(more, digits.len() as int) == last);
}

proof fn lemma_value_below_base(digits: Seq<u32>, n: nat)
    ensures
        value_up_to(digits, n) < base(n),
    decreases n,
{
    if n > 0 {
        lemma_value_below_base(digits, (n - 1) as nat);
        let d = digit(digits, n - 1);
        let b = base((n - 1) as nat);
        assert(d * b + b <= 0x1_0000_0000 * b) by (nonlinear_arith)
            requires
                d + 1 <= 0x1_0000_0000,
        ;
    }
}

// ---- Arithmetic ----

/// Splits off the last digit of a number.
proof fn lemma_carry(before: nat, rest: nat, carry: nat, unit: nat)
    requires
        carry == 0x1_0000_0000 * rest + before,
    ensures
        before * unit + rest * (0x1_0000_0000 * unit) == carry * unit,
{
    assert(before * unit + rest * (0x1_0000_0000 * unit) == carry * unit) by (nonlinear_arith)
        requires
            carry == 0x1_0000_0000 * rest + before,
    ;
}

impl Big {
    /// A small number.
    pub fn new(n: u64) -> (big: Self)
        ensures
            big@ == n,
    {
        let mut digits: Vec<u32> = Vec::new();
        digits.push((n % 0x1_0000_0000) as u32);
        digits.push((n / 0x1_0000_0000) as u32);
        proof {
            assert(base(0) == 1);
            assert(base(1) == 0x1_0000_0000 * base(0));
            assert(value_up_to(digits@, 0) == 0);
            assert(value_up_to(digits@, 1) == value_up_to(digits@, 0) + digit(digits@, 0) * base(0));
            assert(value_up_to(digits@, 2) == value_up_to(digits@, 1) + digit(digits@, 1) * base(1));
        }
        Big { digits }
    }

    /// A digit; there are zeros after the last one.
    fn digit_at(&self, i: usize) -> (d: u32)
        ensures
            d == digit(self.digits@, i as int),
    {
        if i < self.digits.len() {
            self.digits[i]
        } else {
            0
        }
    }

    /// The product with a small number, and a small number added to it.
    pub fn times_plus(&self, factor: u64, addend: u64) -> (result: Self)
        ensures
            result@ == self@ * factor + addend,
    {
        let mut digits: Vec<u32> = Vec::new();
        let mut carry: u128 = addend as u128;
        let mut i: usize = 0;
        assert(0 * factor == 0) by (nonlinear_arith);
        assert(addend * 1 == addend) by (nonlinear_arith);
        while i < self.digits.len()
            invariant
                i <= self.digits@.len(),
                digits@.len() == i,
                carry < 0x2_0000_0000_0000_0000,
                value_up_to(digits@, i as nat) + carry * base(i as nat) == value_up_to(
                    self.digits@,
                    i as nat,
                ) * factor + addend,
            decreases self.digits@.len() - i,
        {
            let d: u32 = self.digits[i];
            assert(0 <= d * factor <= 0xffff_ffff * 0xffff_ffff_ffff_ffff) by (nonlinear_arith)
                requires
                    0 <= d <= 0xffff_ffff,
                    0 <= factor <= 0xffff_ffff_ffff_ffff,
            ;
            let sum: u128 = d as u128 * factor as u128 + carry;
            let low: u32 = (sum % 0x1_0000_0000) as u32;
            proof {
                let unit = base(i as nat);
                lemma_push(digits@, low);
                lemma_carry(low as nat, (sum / 0x1_0000_0000) as nat, sum as nat, unit);
                let before = value_up_to(self.digits@, i as nat);
                assert((before + d * unit) * factor == before * factor + (d * factor) * unit)
                    by (nonlinear_arith);
                assert(sum * unit == (d * factor) * unit + carry * unit) by (nonlinear_arith)
                    requires
                        sum == d * factor + carry,
                ;
            }
            digits.push(low);
            carry = sum / 0x1_0000_0000;
            i = i + 1;
        }
        while carry > 0
            invariant
                value_up_to(digits@, digits@.len()) + carry * base(digits@.len()) == self@ * factor
                    + addend,
            decreases carry,
        {
            let low: u32 = (carry % 0x1_0000_0000) as u32;
            proof {
                lemma_push(digits@, low);
                lemma_carry(
                    low as nat,
                    (carry / 0x1_0000_0000) as nat,
                    carry as nat,
                    base(digits@.len()),
                );
            }
            digits.push(low);
            carry = carry / 0x1_0000_0000;
        }
        assert(0 * base(digits@.len()) == 0) by (nonlinear_arith);
        Big { digits }
    }

    /// The product with a power of two.
    pub fn shifted(&self, count: u64) -> (result: Self)
        ensures
            result@ == self@ * power2::pow2(count as nat),
    {
        let mut digits: Vec<u32> = Vec::new();
        let zeros: u64 = count / 32;
        let mut i: u64 = 0;
        while i < zeros
            invariant
                i <= zeros,
                digits@.len() == i,
                value_up_to(digits@, i as nat) == 0,
            decreases zeros - i,
        {
            proof {
                lemma_push(digits@, 0);
                assert(0 * base(i as nat) == 0) by (nonlinear_arith);
            }
            digits.push(0);
            i = i + 1;
        }
        let mut k: usize = 0;
        let ghost whole = base(zeros as nat);
        assert(0 * whole == 0) by (nonlinear_arith);
        while k < self.digits.len()
            invariant
                k <= self.digits@.len(),
                digits@.len() == zeros + k,
                whole == base(zeros as nat),
                value_up_to(digits@, digits@.len()) == value_up_to(self.digits@, k as nat) * whole,
            decreases self.digits@.len() - k,
        {
            let d: u32 = self.digits[k];
            proof {
                lemma_push(digits@, d);
                lemma_base_is_power(zeros as nat);
                lemma_base_is_power(k as nat);
                lemma_base_is_power((zeros + k) as nat);
                power2::lemma_pow2_adds((32 * k) as nat, (32 * zeros) as nat);
                let before = value_up_to(self.digits@, k as nat);
                let unit = base(k as nat);
                assert((before + d * unit) * whole == before * whole + d * (unit * whole))
                    by (nonlinear_arith);
            }
            digits.push(d);
            k = k + 1;
        }
        let moved = Big { digits };
        let rest: u64 = count % 32;
        let mut power: u64 = 1;
        let mut j: u64 = 0;
        proof {
            power2::lemma2_to64();
        }
        while j < rest
            invariant
                j <= rest < 32,
                power == power2::pow2(j as nat),
                power2::pow2(32) == 0x1_0000_0000,
            decreases rest - j,
        {
            proof {
                power2::lemma_pow2_unfold((j + 1) as nat);
                power2::lemma_pow2_strictly_increases(j as nat, 32);
            }
            power = 2 * power;
            j = j + 1;
        }
        proof {
            lemma_base_is_power(zeros as nat);
            power2::lemma_pow2_adds((32 * zeros) as nat, rest as nat);
            assert((self@ * whole) * power == self@ * (whole * power)) by (nonlinear_arith);
        }
        moved.times_plus(power, 0)
    }

    /// The sum of two numbers.
    pub fn plus(&self, other: &Self) -> (result: Self)
        ensures
            result@ == self@ + other@,
    {
        let n: usize = if self.digits.len() < other.digits.len() {
            other.digits.len()
        } else {
            self.digits.len()
        };
        let mut digits: Vec<u32> = Vec::new();
        let mut carry: u64 = 0;
        let mut i: usize = 0;
        assert(0 * base(0) == 0);
        while i < n
            invariant
                i <= n,
                digits@.len() == i,
                carry <= 1,
                value_up_to(digits@, i as nat) + carry * base(i as nat) == value_up_to(
                    self.digits@,
                    i as nat,
                ) + value_up_to(other.digits@, i as nat),
            decreases n - i,
        {
            let x: u32 = self.digit_at(i);
            let y: u32 = other.digit_at(i);
            let sum: u64 = x as u64 + y as u64 + carry;
            let low: u32 = (sum % 0x1_0000_0000) as u32;
            proof {
                let unit = base(i as nat);
                lemma_push(digits@, low);
                lemma_carry(low as nat, (sum / 0x1_0000_0000) as nat, sum as nat, unit);
                assert(sum * unit == x * unit + y * unit + carry * unit) by (nonlinear_arith)
                    requires
                        sum == x + y + carry,
                ;
            }
            digits.push(low);
            carry = sum / 0x1_0000_0000;
            i = i + 1;
        }
        proof {
            lemma_push(digits@, carry as u32);
            lemma_more_digits(self.digits@, n as nat);
            lemma_more_digits(other.digits@, n as nat);
        }
        digits.push(carry as u32);
        Big { digits }
    }

    /// The difference of two numbers, the first of which is not the smaller one.
    pub fn minus(&self, other: &Self) -> (result: Self)
        requires
            self@ >= other@,
        ensures
            result@ == self@ - other@,
    {
        let n: usize = if self.digits.len() < other.digits.len() {
            other.digits.len()
        } else {
            self.digits.len()
        };
        let mut digits: Vec<u32> = Vec::new();
        let mut borrow: u64 = 0;
        let mut i: usize = 0;
        while i < n
            invariant
                i <= n,
                digits@.len() == i,
                borrow <= 1,
                value_up_to(digits@, i as nat) + value_up_to(other.digits@, i as nat)
                    == value_up_to(self.digits@, i as nat) + borrow * base(i as nat),
            decreases n - i,
        {
            let x: u32 = self.digit_at(i);
            let y: u32 = other.digit_at(i);
            let rest: u64 = 0x1_0000_0000 + x as u64 - y as u64 - borrow;
            let low: u32 = (rest % 0x1_0000_0000) as u32;
            let next: u64 = 1 - rest / 0x1_0000_0000;
            proof {
                let unit = base(i as nat);
                lemma_push(digits@, low);
                assert(low + y + borrow == x + 0x1_0000_0000 * next);
                assert(low * unit + y * unit + borrow * unit == x * unit + next * (0x1_0000_0000
                    * unit)) by (nonlinear_arith)
                    requires
                        low + y + borrow == x + 0x1_0000_0000 * next,
                ;
            }
            digits.push(low);
            borrow = next;
            i = i + 1;
        }
        proof {
            lemma_more_digits(self.digits@, n as nat);
            lemma_more_digits(other.digits@, n as nat);
            lemma_value_below_base(digits@, n as nat);
            if borrow == 1 {
                assert(1 * base(n as nat) == base(n as nat)) by (nonlinear_arith);
            } else {
                assert(0 * base(n as nat) == 0) by (nonlinear_arith);
            }
        }
        Big { digits }
    }

    /// Whether a number is smaller than another one.
    pub fn is_below(&self, other: &Self) -> (below: bool)
        ensures
            below == (self@ < other@),
    {
        let n: usize = if self.digits.len() < other.digits.len() {
            other.digits.len()
        } else {
            self.digits.len()
        };
        let mut i: usize = n;
        proof {
            lemma_more_digits(self.digits@, n as nat);
            lemma_more_digits(other.digits@, n as nat);
        }
        while i > 0
            invariant
                i <= n,
                self@ - value_up_to(self.digits@, i as nat) == other@ - value_up_to(
                    other.digits@,
                    i as nat,
                ),
            decreases i,
        {
            i = i - 1;
            let x: u32 = self.digit_at(i);
            let y: u32 = other.digit_at(i);
            proof {
                let unit = base(i as nat);
                lemma_value_below_base(self.digits@, i as nat);
                lemma_value_below_base(other.digits@, i as nat);
                if x < y {
                    assert(x * unit + unit <= y * unit) by (nonlinear_arith)
                        requires
                            x + 1 <= y,
                    ;
                } else if y < x {
                    assert(y * unit + unit <= x * unit) by (nonlinear_arith)
                        requires
                            y + 1 <= x,
                    ;
                }
            }
            if x < y {
                return true;
            }
            if y < x {
                return false;
            }
        }
        false
    }

    /// Whether a number is zero.
    pub fn is_zero(&self) -> (zero: bool)
        ensures
            zero == (self@ == 0),
    {
        let nothing = Big::new(0);
        !nothing.is_below(self)
    }

    /// The quotient by a small number, and the remainder.
    pub fn divided(&self, divisor: u32) -> (result: (Self, u32))
        requires
            divisor > 0,
        ensures
            self@ == divisor * result.0@ + result.1,
            result.1 < divisor,
    {
        let n: usize = self.digits.len();
        let mut digits: Vec<u32> = Vec::new();
        let mut i: usize = 0;
        while i < n
            invariant
                i <= n,
                digits@.len() == i,
                value_up_to(digits@, i as nat) == 0,
                forall|k: int| 0 <= k < i ==> #[trigger] digits@[k] == 0,
            decreases n - i,
        {
            proof {
                lemma_push(digits@, 0);
                assert(0 * base(i as nat) == 0) by (nonlinear_arith);
            }
            digits.push(0);
            i = i + 1;
        }
        let mut rest: u64 = 0;
        assert(divisor * 0 == 0) by (nonlinear_arith);
        assert(0 * base(n as nat) == 0) by (nonlinear_arith);
        while i > 0
            invariant
                i <= n,
                n == self.digits@.len(),
                digits@.len() == n,
                divisor > 0,
                rest < divisor,
                forall|k: int| 0 <= k < i ==> #[trigger] digits@[k] == 0,
                self@ - value_up_to(self.digits@, i as nat) == divisor * value_up_to(
                    digits@,
                    n as nat,
                ) + rest * base(i as nat),
            decreases i,
        {
            i = i - 1;
            let d: u32 = self.digits[i];
            let part: u64 = rest * 0x1_0000_0000 + d as u64;
            let q: u64 = part / divisor as u64;
            proof {
                assert(q < 0x1_0000_0000) by (nonlinear_arith)
                    requires
                        q == part / (divisor as u64),
                        part < divisor * 0x1_0000_0000,
                        divisor > 0,
                ;
                lemma_set_digit(digits@, i as int, q as u32, n as nat);
                let unit = base(i as nat);
                let r = part % divisor as u64;
                assert(part == divisor * q + r) by {
                    vstd::arithmetic::div_mod::lemma_fundamental_div_mod(part as int, divisor as int);
                }
                let before = value_up_to(digits@, n as nat);
                assert(divisor * (before + q * unit) + r * unit == divisor * before + part * unit)
                    by (nonlinear_arith)
                    requires
                        part == divisor * q + r,
                ;
                assert(part * unit == rest * (0x1_0000_0000 * unit) + d * unit) by (nonlinear_arith)
                    requires
                        part == rest * 0x1_0000_0000 + d,
                ;
            }
            digits.set(i, q as u32);
            rest = part % divisor as u64;
        }
        proof {
            assert(rest * 1 == rest) by (nonlinear_arith);
        }
        (Big { digits }, rest as u32)
    }
}

impl Big {
    /// The number in 128 bits.
    pub fn to_u128(&self) -> (n: u128)
        requires
            self@ < 0x1000_0000_0000_0000_0000_0000_0000_0000,
        ensures
            n == self@,
    {
        let (q, a) = self.divided(0x8000_0000);
        let (q, b) = q.divided(0x8000_0000);
        let (q, c) = q.divided(0x8000_0000);
        let (_, d) = q.divided(0x8000_0000);
        a as u128 + 0x8000_0000 * (b as u128 + 0x8000_0000 * (c as u128 + 0x8000_0000
            * d as u128))
    }
}

proof fn lemma_set_digit(digits: Seq<u32>, i: int, d: u32, n: nat)
    requires
        0 <= i < digits.len(),
        digits[i] == 0,
    ensures
        value_up_to(digits.update(i, d), n) == value_up_to(digits, n) + (if i < n {
            d * base(i as nat)
        } else {
            0
        }),
    decreases n,
{
    if n > 0 {
        lemma_set_digit(digits, i, d, (n - 1) as nat);
        if i == n - 1 {
            assert(0 * base(i as nat) == 0) by (nonlinear_arith);
        } else {
            assert(digit(digits.update(i, d), n - 1) == digit(digits, n - 1));
        }
    }
}

} // verus!
