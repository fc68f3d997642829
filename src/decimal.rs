use vstd::prelude::*;
use vstd::arithmetic::div_mod::{lemma_div_denominator, lemma_div_is_ordered};
use vstd::arithmetic::mul::lemma_mul_inequality;
use crate::error::PoolError;

verus! {

/// The largest number of fractional digits whose scale factor fits a `u64`.
pub const MAX_PRECISION: u64 = 19;

/// Ten to the power `n`.
pub open spec fn pow10(n: nat) -> nat
    decreases n,
{
    if n == 0 {
        1
    } else {
        10 * pow10((n - 1) as nat)
    }
}

/// Whether `v` is representable as a raw amount.
pub open spec fn fits(v: int) -> bool {
    0 <= v <= u64::MAX
}

/// Raw form of the fixed-point product of two raw amounts at scale factor `s`.
pub open spec fn mul_raw(a: int, b: int, s: int) -> int {
    a * b / s
}

/// Raw form of the fixed-point quotient of two raw amounts at scale factor `s`.
pub open spec fn div_raw(a: int, b: int, s: int) -> int {
    a * s / b
}

pub proof fn lemma_pow10_positive(n: nat)
    ensures
        pow10(n) >= 1,
    decreases n,
{
    if n > 0 {
        lemma_pow10_positive((n - 1) as nat);
    }
}

pub proof fn lemma_pow10_add(a: nat, b: nat)
    ensures
        pow10(a + b) == pow10(a) * pow10(b),
    decreases b,
{
    if b > 0 {
        let c = (b - 1) as nat;
        lemma_pow10_add(a, c);
        let x = pow10(a) as int;
        let y = pow10(c) as int;
        assert(pow10(a + b) == 10 * pow10(a + c));
        assert(pow10(b) == 10 * y);
        assert(x * (10 * y) == 10 * (x * y)) by (nonlinear_arith);
        assert(pow10(a + b) == x * (10 * y));
    } else {
        assert(pow10(b) == 1);
        assert(a + b == a);
    }
}

pub proof fn lemma_pow10_monotone(a: nat, b: nat)
    requires
        a <= b,
    ensures
        pow10(a) <= pow10(b),
{
    lemma_pow10_add(a, (b - a) as nat);
    lemma_pow10_positive((b - a) as nat);
    lemma_pow10_positive(a);
    lemma_mul_inequality(1, pow10((b - a) as nat) as int, pow10(a) as int);
}

pub proof fn lemma_pow10_bound(n: nat)
    requires
        n <= MAX_PRECISION,
    ensures
        pow10(n) <= pow10(MAX_PRECISION as nat) <= u64::MAX,
{
    lemma_pow10_monotone(n, MAX_PRECISION as nat);
    reveal_with_fuel(pow10, 20);
    assert(pow10(MAX_PRECISION as nat) == 10000000000000000000);
}

/// A fixed-point product never exceeds a factor when the other factor is at most one.
pub proof fn lemma_mul_raw_le(a: int, b: int, s: int)
    requires
        0 <= a <= s,
        0 <= b,
        0 < s,
    ensures
        0 <= mul_raw(a, b, s) <= b,
{
    lemma_mul_inequality(a, s, b);
    assert(s * b / s == b) by (nonlinear_arith)
        requires
            0 < s,
    ;
    assert(a * b == b * a) by (nonlinear_arith);
    assert(s * b == b * s) by (nonlinear_arith);
    lemma_div_is_ordered(a * b, s * b, s);
    assert(0 <= a * b) by (nonlinear_arith)
        requires
            0 <= a,
            0 <= b,
    ;
}

/// Multiplying both sides by a positive factor keeps their order.
pub proof fn lemma_scaled_le(x: int, y: int, p: int)
    requires
        p > 0,
    ensures
        (x * p <= y * p) == (x <= y),
{
    if x <= y {
        assert(x * p <= y * p) by (nonlinear_arith)
            requires
                x <= y,
                p > 0,
        ;
    } else {
        assert(x * p > y * p) by (nonlinear_arith)
            requires
                x > y,
                p > 0,
        ;
    }
}

/// A non-negative `i64` times a `u64` fits a `u128`.
proof fn lemma_product_fits(a: int, b: int)
    requires
        0 <= a <= i64::MAX,
        0 <= b <= u64::MAX,
    ensures
        0 <= a * b <= u128::MAX,
{
    assert(0 <= a * b <= (i64::MAX as int) * (u64::MAX as int)) by (nonlinear_arith)
        requires
            0 <= a <= i64::MAX,
            0 <= b <= u64::MAX,
    ;
}

/// `n / 10^k`, rounded toward zero.
fn shift_down(n: u128, k: u64) -> (r: u128)
    ensures
        r == n as int / pow10(k as nat) as int,
{
    let mut r: u128 = n;
    let mut i: u64 = 0;
    assert(pow10(0) == 1);
    while i < k && r > 0
        invariant
            i <= k,
            r == n as int / pow10(i as nat) as int,
        decreases k - i,
    {
        proof {
            lemma_pow10_positive(i as nat);
            lemma_div_denominator(n as int, pow10(i as nat) as int, 10);
            assert(pow10((i + 1) as nat) == 10 * pow10(i as nat));
        }
        r = r / 10;
        i = i + 1;
    }
    proof {
        if i < k {
            let rest = (k - i) as nat;
            lemma_pow10_add(i as nat, rest);
            lemma_pow10_positive(i as nat);
            lemma_pow10_positive(rest);
            lemma_div_denominator(n as int, pow10(i as nat) as int, pow10(rest) as int);
            assert(i as nat + rest == k as nat);
        }
    }
    r
}

/// `m * 10^k` where that is at most `u64::MAX`; otherwise some value above it.
fn mul_pow10_capped(m: u64, k: u64) -> (r: u128)
    ensures
        m * pow10(k as nat) <= u64::MAX ==> r == m * pow10(k as nat),
        m * pow10(k as nat) > u64::MAX ==> r > u64::MAX,
{
    if m == 0 {
        assert(m * pow10(k as nat) == 0);
        return 0;
    }
    let mut v: u128 = m as u128;
    let mut i: u64 = 0;
    assert(pow10(0) == 1);
    while i < k && v <= u64::MAX as u128
        invariant
            i <= k,
            v == m * pow10(i as nat),
            v <= 10 * (u64::MAX as int),
        decreases k - i,
    {
        proof {
            let p = pow10(i as nat) as int;
            assert(pow10((i + 1) as nat) == 10 * p);
            assert(m * (10 * p) == 10 * (m * p)) by (nonlinear_arith);
        }
        v = v * 10;
        i = i + 1;
    }
    proof {
        if i < k {
            lemma_pow10_monotone(i as nat, k as nat);
            lemma_mul_inequality(pow10(i as nat) as int, pow10(k as nat) as int, m as int);
            assert(m * pow10(i as nat) == pow10(i as nat) * m) by (nonlinear_arith);
            assert(m * pow10(k as nat) == pow10(k as nat) * m) by (nonlinear_arith);
        }
    }
    v
}

/// A decimal number written as `mantissa * 10^(-exponent)`, of either sign.
///
/// It is the input form of amounts: `1.5` is `mantissa: 15, exponent: 1`.
#[derive(Debug, Clone, Copy, PartialEq, Eq, Structural)]
pub struct DecimalLiteral {
    pub mantissa: i64,
    pub exponent: u32,
}

impl DecimalLiteral {
    /// The literal `mantissa * 10^(-exponent)`.
    pub fn new(mantissa: i64, exponent: u32) -> (r: DecimalLiteral)
        ensures
            r.mantissa == mantissa,
            r.exponent == exponent,
    {
        DecimalLiteral { mantissa, exponent }
    }

    /// The literal is below zero.
    pub open spec fn is_negative(self) -> bool {
        self.mantissa < 0
    }

    /// The value times `s`, rounded down.
    pub open spec fn scaled(self, s: int) -> int {
        self.mantissa * s / pow10(self.exponent as nat) as int
    }

    /// The value read as a percentage, as a fraction times `s`, rounded down.
    pub open spec fn percent_scaled(self, s: int) -> int {
        self.mantissa * s / (100 * pow10(self.exponent as nat)) as int
    }

    /// The value of `self` is at most that of `other`.
    pub open spec fn le(self, other: DecimalLiteral) -> bool {
        self.mantissa * pow10(other.exponent as nat) <= other.mantissa * pow10(
            self.exponent as nat,
        )
    }

    /// Exact comparison of two non-negative literals.
    pub fn is_at_most(&self, other: &DecimalLiteral) -> (r: bool)
        requires
            self.mantissa >= 0,
            other.mantissa >= 0,
        ensures
            r == self.le(*other),
    {
        let ea = self.exponent as u64;
        let eb = other.exponent as u64;
        proof {
            lemma_pow10_positive(ea as nat);
            lemma_pow10_positive(eb as nat);
        }
        if ea <= eb {
            let d = eb - ea;
            let v = mul_pow10_capped(self.mantissa as u64, d);
            proof {
                let pa = pow10(ea as nat) as int;
                let pd = pow10(d as nat) as int;
                lemma_pow10_add(ea as nat, d as nat);
                assert(ea as nat + d as nat == eb as nat);
                assert(self.mantissa * (pa * pd) == (self.mantissa * pd) * pa) by (nonlinear_arith);
                lemma_scaled_le(self.mantissa * pd, other.mantissa as int, pa);
            }
            v <= other.mantissa as u128
        } else {
            let d = ea - eb;
            let v = mul_pow10_capped(other.mantissa as u64, d);
            proof {
                let pb = pow10(eb as nat) as int;
                let pd = pow10(d as nat) as int;
                lemma_pow10_add(eb as nat, d as nat);
                assert(eb as nat + d as nat == ea as nat);
                assert(other.mantissa * (pb * pd) == (other.mantissa * pd) * pb) by (nonlinear_arith);
                lemma_scaled_le(self.mantissa as int, other.mantissa * pd, pb);
            }
            self.mantissa as u128 <= v
        }
    }
}

/// The amount with raw value `n` at `precision`, or `Overflow` where `n` does
/// not fit.
pub open spec fn checked_amount(n: int, precision: u64) -> Result<Decimal, PoolError> {
    if fits(n) {
        Ok(Decimal { number: n as u64, precision, scale: pow10(precision as nat) as u64 })
    } else {
        Err(PoolError::Overflow)
    }
}

/// Construction of an amount at a given precision from a value of type `T`.
pub trait DecimalInit<T>: Sized {
    /// What `init` returns.
    spec fn init_spec(number: T, precision: u64) -> Result<Self, PoolError>;

    fn init(number: T, precision: u64) -> (r: Result<Self, PoolError>)
        ensures
            r == Self::init_spec(number, precision),
    ;
}

impl DecimalInit<i64> for Decimal {
    /// `number * 10^precision`; negative numbers are rejected.
    open spec fn init_spec(number: i64, precision: u64) -> Result<Decimal, PoolError> {
        if number < 0 {
            Err(PoolError::InvalidArgument)
        } else if precision > MAX_PRECISION {
            Err(PoolError::Overflow)
        } else {
            checked_amount(number * pow10(precision as nat), precision)
        }
    }

    fn init(number: i64, precision: u64) -> (r: Result<Decimal, PoolError>) {
        if number < 0 {
            return Err(PoolError::InvalidArgument);
        }
        let scale = match Decimal::initialize_scale(precision) {
            Ok(f) => f,
            Err(e) => return Err(e),
        };
        proof {
            lemma_pow10_bound(precision as nat);
            lemma_product_fits(number as int, scale as int);
        }
        let n: u128 = number as u128 * scale as u128;
        if n > u64::MAX as u128 {
            return Err(PoolError::Overflow);
        }
        Ok(Decimal { number: n as u64, precision, scale })
    }
}

impl DecimalInit<DecimalLiteral> for Decimal {
    /// The literal times `10^precision`, rounded down; negative literals are
    /// rejected.
    open spec fn init_spec(number: DecimalLiteral, precision: u64) -> Result<Decimal, PoolError> {
        if number.is_negative() {
            Err(PoolError::InvalidArgument)
        } else if precision > MAX_PRECISION {
            Err(PoolError::Overflow)
        } else {
            checked_amount(number.scaled(pow10(precision as nat) as int), precision)
        }
    }

    fn init(number: DecimalLiteral, precision: u64) -> (r: Result<Decimal, PoolError>) {
        if number.mantissa < 0 {
            return Err(PoolError::InvalidArgument);
        }
        let scale = match Decimal::initialize_scale(precision) {
            Ok(f) => f,
            Err(e) => return Err(e),
        };
        proof {
            lemma_pow10_bound(precision as nat);
            lemma_product_fits(number.mantissa as int, scale as int);
        }
        let n = shift_down(number.mantissa as u128 * scale as u128, number.exponent as u64);
        if n > u64::MAX as u128 {
            return Err(PoolError::Overflow);
        }
        Ok(Decimal { number: n as u64, precision, scale })
    }
}

/// A non-negative amount held as an integer `number` scaled by `10^precision`.
///
/// `scale` caches the factor `10^precision`. Amounts are only combined with
/// amounts of the same precision.
#[derive(Debug, Clone, Copy, PartialEq, Eq, Structural, PartialOrd, Ord)]
pub struct Decimal {
    pub number: u64,
    pub precision: u64,
    pub scale: u64,
}

impl Decimal {
    /// The precision is representable and `scale` is its factor.
    pub open spec fn wf(self) -> bool {
        &&& self.precision <= MAX_PRECISION
        &&& self.scale == pow10(self.precision as nat)
    }

    /// Both amounts carry the same precision.
    pub open spec fn same_scale(self, other: Decimal) -> bool {
        self.precision == other.precision && self.scale == other.scale
    }

    /// The amount with raw value `n` at the precision of `self`.
    pub open spec fn with_number(self, n: int) -> Decimal {
        Decimal { number: n as u64, precision: self.precision, scale: self.scale }
    }

    /// Ten to the power `digits`: the scale factor of amounts with that many
    /// fractional digits. Fails with `Overflow` where it does not fit a `u64`.
    pub fn initialize_scale(digits: u64) -> (r: Result<u64, PoolError>)
        ensures
            digits <= MAX_PRECISION ==> r == Ok::<u64, PoolError>(pow10(digits as nat) as u64),
            digits > MAX_PRECISION ==> r == Err::<u64, PoolError>(PoolError::Overflow),
    {
        if digits > MAX_PRECISION {
            return Err(PoolError::Overflow);
        }
        let mut f: u64 = 1;
        let mut i: u64 = 0;
        while i < digits
            invariant
                i <= digits <= MAX_PRECISION,
                f == pow10(i as nat),
            decreases digits - i,
        {
            proof {
                lemma_pow10_bound((i + 1) as nat);
            }
            f = f * 10;
            i = i + 1;
        }
        Ok(f)
    }

    /// A percentage literal as a fraction at `precision`: the literal divided
    /// by one hundred, times `10^precision`, rounded down. Negative literals
    /// are rejected.
    pub fn from_percentage(percent: DecimalLiteral, precision: u64) -> (r: Result<Decimal, PoolError>)
        ensures
            percent.is_negative() ==> r == Err::<Decimal, PoolError>(PoolError::InvalidArgument),
            !percent.is_negative() && precision > MAX_PRECISION ==> r == Err::<Decimal, PoolError>(
                PoolError::Overflow,
            ),
            !percent.is_negative() && precision <= MAX_PRECISION ==> r == checked_amount(
                percent.percent_scaled(pow10(precision as nat) as int),
                precision,
            ),
    {
        if percent.mantissa < 0 {
            return Err(PoolError::InvalidArgument);
        }
        let scale = match Decimal::initialize_scale(precision) {
            Ok(f) => f,
            Err(e) => return Err(e),
        };
        proof {
            lemma_pow10_bound(precision as nat);
            lemma_product_fits(percent.mantissa as int, scale as int);
        }
        let whole = percent.mantissa as u128 * scale as u128;
        let n = shift_down(whole, percent.exponent as u64) / 100;
        proof {
            lemma_pow10_positive(percent.exponent as nat);
            lemma_div_denominator(whole as int, pow10(percent.exponent as nat) as int, 100);
        }
        if n > u64::MAX as u128 {
            return Err(PoolError::Overflow);
        }
        Ok(Decimal { number: n as u64, precision, scale })
    }

    /// The sum; `Overflow` where it does not fit.
    pub fn add(self, other: Decimal) -> (r: Result<Decimal, PoolError>)
        requires
            self.wf(),
            self.same_scale(other),
        ensures
            r == checked_amount(self.number + other.number, self.precision),
    {
        if self.number > u64::MAX - other.number {
            return Err(PoolError::Overflow);
        }
        Ok(Decimal { number: self.number + other.number, precision: self.precision, scale: self.scale })
    }

    /// The difference; `Underflow` where it would be negative.
    pub fn sub(self, other: Decimal) -> (r: Result<Decimal, PoolError>)
        requires
            self.same_scale(other),
        ensures
            other.number > self.number ==> r == Err::<Decimal, PoolError>(PoolError::Underflow),
            other.number <= self.number ==> r == Ok::<Decimal, PoolError>(
                self.with_number(self.number - other.number),
            ),
    {
        if other.number > self.number {
            return Err(PoolError::Underflow);
        }
        Ok(Decimal { number: self.number - other.number, precision: self.precision, scale: self.scale })
    }

    /// The fixed-point product `self * other / 10^precision`, rounded down;
    /// `Overflow` where it does not fit.
    pub fn mul(self, other: Decimal) -> (r: Result<Decimal, PoolError>)
        requires
            self.wf(),
            self.same_scale(other),
        ensures
            r == checked_amount(
                mul_raw(self.number as int, other.number as int, self.scale as int),
                self.precision,
            ),
    {
        proof {
            lemma_pow10_positive(self.precision as nat);
            assert(self.number * other.number <= u128::MAX) by (nonlinear_arith)
                requires
                    self.number <= u64::MAX,
                    other.number <= u64::MAX,
            ;
        }
        let n = (self.number as u128 * other.number as u128) / self.scale as u128;
        if n > u64::MAX as u128 {
            return Err(PoolError::Overflow);
        }
        Ok(Decimal { number: n as u64, precision: self.precision, scale: self.scale })
    }

    /// The amount times a whole number, without rescaling; `Overflow` where it
    /// does not fit.
    pub fn mul_by_integer(self, n: u64) -> (r: Result<Decimal, PoolError>)
        requires
            self.wf(),
        ensures
            r == checked_amount(self.number * n, self.precision),
    {
        proof {
            assert(self.number * n <= u128::MAX) by (nonlinear_arith)
                requires
                    self.number <= u64::MAX,
                    n <= u64::MAX,
            ;
        }
        let p = self.number as u128 * n as u128;
        if p > u64::MAX as u128 {
            return Err(PoolError::Overflow);
        }
        Ok(Decimal { number: p as u64, precision: self.precision, scale: self.scale })
    }

    /// The fixed-point quotient `self * 10^precision / other`, rounded down;
    /// `DivisionByZero` where `other` is zero, `Overflow` where it does not fit.
    pub fn div(self, other: Decimal) -> (r: Result<Decimal, PoolError>)
        requires
            self.wf(),
            self.same_scale(other),
        ensures
            other.number == 0 ==> r == Err::<Decimal, PoolError>(PoolError::DivisionByZero),
            other.number != 0 ==> r == checked_amount(
                div_raw(self.number as int, other.number as int, self.scale as int),
                self.precision,
            ),
    {
        if other.number == 0 {
            return Err(PoolError::DivisionByZero);
        }
        proof {
            assert(self.number * self.scale <= u128::MAX) by (nonlinear_arith)
                requires
                    self.number <= u64::MAX,
                    self.scale <= u64::MAX,
            ;
        }
        let n = (self.number as u128 * self.scale as u128) / other.number as u128;
        if n > u64::MAX as u128 {
            return Err(PoolError::Overflow);
        }
        Ok(Decimal { number: n as u64, precision: self.precision, scale: self.scale })
    }

    /// Adds `other` in place; on `Overflow` the amount is left as it was.
    pub fn add_assign(&mut self, other: Decimal) -> (r: Result<(), PoolError>)
        requires
            old(self).wf(),
            old(self).same_scale(other),
        ensures
            match checked_amount(old(self).number + other.number, old(self).precision) {
                Ok(d) => r is Ok && *final(self) == d,
                Err(e) => r == Err::<(), PoolError>(e) && *final(self) == *old(self),
            },
    {
        match self.add(other) {
            Ok(d) => {
                *self = d;
                Ok(())
            },
            Err(e) => Err(e),
        }
    }

    /// Subtracts `other` in place; on `Underflow` the amount is left as it was.
    pub fn sub_assign(&mut self, other: Decimal) -> (r: Result<(), PoolError>)
        requires
            old(self).same_scale(other),
        ensures
            other.number > old(self).number ==> r == Err::<(), PoolError>(PoolError::Underflow)
                && *final(self) == *old(self),
            other.number <= old(self).number ==> r is Ok && *final(self) == old(self).with_number(
                old(self).number - other.number,
            ),
    {
        match self.sub(other) {
            Ok(d) => {
                *self = d;
                Ok(())
            },
            Err(e) => Err(e),
        }
    }

    /// The scale factor `10^precision` of this amount.
    pub fn get_scale(&self) -> (r: u64)
        ensures
            r == self.scale,
    {
        self.scale
    }
}

} // verus!
