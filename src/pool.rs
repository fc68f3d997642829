use vstd::prelude::*;
use vstd::arithmetic::div_mod::{
    lemma_div_by_multiple,
    lemma_div_is_ordered,
    lemma_fundamental_div_mod,
};
use vstd::arithmetic::mul::lemma_mul_inequality;
use crate::decimal::{
    div_raw,
    fits,
    lemma_mul_raw_le,
    lemma_pow10_bound,
    lemma_pow10_positive,
    lemma_scaled_le,
    mul_raw,
    pow10,
    Decimal,
    DecimalInit,
    DecimalLiteral,
    MAX_PRECISION,
};
use crate::error::PoolError;

verus! {

/// The fee rate, as a raw fraction at scale factor `s`, when `token` base
/// tokens remain against a target of `target`: it falls linearly from
/// `max_fee` at an empty pool towards `min_fee` at the target, and is
/// `min_fee` from the target on.
pub open spec fn fee_rate_spec(token: int, target: int, min_fee: int, max_fee: int, s: int) -> int {
    if token < target {
        max_fee - mul_raw(max_fee - min_fee, div_raw(token, target, s), s)
    } else {
        min_fee
    }
}

/// A fixed-point quotient of a smaller by a larger amount is below one.
proof fn lemma_div_raw_lt(a: int, b: int, s: int)
    requires
        0 <= a < b,
        0 < s,
    ensures
        0 <= div_raw(a, b, s) < s,
{
    let q = a * s / b;
    let r = (a * s) % b;
    lemma_fundamental_div_mod(a * s, b);
    assert(0 <= q < s) by (nonlinear_arith)
        requires
            a * s == b * q + r,
            0 <= r < b,
            0 <= a < b,
            0 < s,
    ;
}

/// A fixed-point quotient of an amount by one at least as large is at most one.
proof fn lemma_div_raw_le(a: int, b: int, s: int)
    requires
        0 <= a <= b,
        0 < b,
        0 < s,
    ensures
        0 <= div_raw(a, b, s) <= s,
{
    lemma_mul_inequality(a, b, s);
    lemma_div_is_ordered(a * s, b * s, b);
    assert(b * s == s * b) by (nonlinear_arith);
    lemma_div_by_multiple(s, b);
    assert(0 <= a * s) by (nonlinear_arith)
        requires
            0 <= a,
            0 < s,
    ;
    lemma_div_is_ordered(0, a * s, b);
}

/// A fixed-point product of non-negative amounts is non-negative.
proof fn lemma_raw_nonneg(a: int, b: int, s: int)
    requires
        0 <= a,
        0 <= b,
        0 < s,
    ensures
        0 <= mul_raw(a, b, s),
{
    assert(0 <= a * b) by (nonlinear_arith)
        requires
            0 <= a,
            0 <= b,
    ;
    lemma_div_is_ordered(0, a * b, s);
}

/// A fixed-point quotient of non-negative amounts is non-negative.
proof fn lemma_quotient_nonneg(a: int, b: int, s: int)
    requires
        0 <= a,
        0 < b,
        0 < s,
    ensures
        0 <= div_raw(a, b, s),
{
    assert(0 <= a * s) by (nonlinear_arith)
        requires
            0 <= a,
            0 < s,
    ;
    lemma_div_is_ordered(0, a * s, b);
}

/// Rounding down keeps the order of two non-negative fractions:
/// `a / b <= c / d` gives `floor(a * s / b) <= floor(c * s / d)`.
proof fn lemma_floor_le(a: int, b: int, c: int, d: int, s: int)
    requires
        0 <= a,
        0 < b,
        0 <= c,
        0 < d,
        0 <= s,
        a * d <= c * b,
    ensures
        a * s / b <= c * s / d,
{
    let q = a * s / b;
    let r = (a * s) % b;
    lemma_fundamental_div_mod(a * s, b);
    assert(q * b <= a * s);
    assert(0 <= a * s) by (nonlinear_arith)
        requires
            0 <= a,
            0 <= s,
    ;
    lemma_div_is_ordered(0, a * s, b);
    assert(q * d * b <= c * s * b) by (nonlinear_arith)
        requires
            q * b <= a * s,
            a * d <= c * b,
            0 < d,
            0 <= s,
            0 <= q,
    ;
    lemma_scaled_le(q * d, c * s, b);
    lemma_div_is_ordered(q * d, c * s, d);
    lemma_div_by_multiple(q, d);
}

/// The fee rate never rises as the base-token reserve grows, and equals the
/// minimal fee from the liquidity target on.
pub proof fn lemma_fee_rate_nonincreasing(
    token_low: int,
    token_high: int,
    target: int,
    min_fee: int,
    max_fee: int,
    s: int,
)
    requires
        0 <= token_low <= token_high,
        0 < target,
        0 <= min_fee <= max_fee,
        0 < s,
    ensures
        fee_rate_spec(token_high, target, min_fee, max_fee, s) <= fee_rate_spec(
            token_low,
            target,
            min_fee,
            max_fee,
            s,
        ),
        token_high >= target ==> fee_rate_spec(token_high, target, min_fee, max_fee, s)
            == min_fee,
{
    let spread = max_fee - min_fee;
    if token_low < target {
        let ratio_low = div_raw(token_low, target, s);
        lemma_div_raw_lt(token_low, target, s);
        lemma_mul_raw_le(ratio_low, spread, s);
        assert(mul_raw(spread, ratio_low, s) == mul_raw(ratio_low, spread, s)) by {
            assert(spread * ratio_low == ratio_low * spread) by (nonlinear_arith);
        }
        if token_high < target {
            let ratio_high = div_raw(token_high, target, s);
            lemma_mul_inequality(token_low, token_high, s);
            lemma_div_is_ordered(token_low * s, token_high * s, target);
            lemma_mul_inequality(ratio_low, ratio_high, spread);
            assert(spread * ratio_low <= spread * ratio_high) by (nonlinear_arith)
                requires
                    ratio_low * spread <= ratio_high * spread,
            ;
            lemma_div_is_ordered(spread * ratio_low, spread * ratio_high, s);
        }
    }
}

/// The fee rate for a swap that leaves `token_amount` base tokens in a pool
/// with the given liquidity target and fee bounds.
pub fn fee_rate(
    token_amount: Decimal,
    liquidity_target: Decimal,
    min_fee: Decimal,
    max_fee: Decimal,
) -> (r: Decimal)
    requires
        min_fee.wf(),
        min_fee.same_scale(token_amount),
        min_fee.same_scale(liquidity_target),
        min_fee.same_scale(max_fee),
        min_fee.number <= max_fee.number <= min_fee.scale,
    ensures
        r.number == fee_rate_spec(
            token_amount.number as int,
            liquidity_target.number as int,
            min_fee.number as int,
            max_fee.number as int,
            min_fee.scale as int,
        ),
        r.same_scale(min_fee),
        min_fee.number <= r.number <= max_fee.number,
{
    proof {
        lemma_pow10_positive(min_fee.precision as nat);
    }
    if token_amount.number < liquidity_target.number {
        let ghost s = min_fee.scale as int;
        proof {
            lemma_div_raw_lt(token_amount.number as int, liquidity_target.number as int, s);
        }
        let ratio = token_amount.div(liquidity_target).unwrap();
        let spread = max_fee.sub(min_fee).unwrap();
        proof {
            lemma_mul_raw_le(ratio.number as int, spread.number as int, s);
            assert(ratio.number * spread.number == spread.number * ratio.number)
                by (nonlinear_arith);
        }
        let discount = spread.mul(ratio).unwrap();
        max_fee.sub(discount).unwrap()
    } else {
        min_fee
    }
}

/// The raw amount `n` at `precision`.
pub open spec fn amount_at(n: int, precision: u64) -> Decimal {
    Decimal { number: n as u64, precision, scale: pow10(precision as nat) as u64 }
}

/// One hundred, the bound of a fee given as a percentage.
pub open spec fn hundred() -> DecimalLiteral {
    DecimalLiteral { mantissa: 100, exponent: 0 }
}

/// A liquidity pool: a base-token reserve, the staked tokens swapped into it,
/// the pool-share supply, and the parameters of its fee curve.
#[derive(Debug, PartialEq, Eq, Structural)]
pub struct LpPool {
    /// Base tokens paid for one staked token.
    pub price: Decimal,
    /// The base-token reserve.
    pub token_amount: Decimal,
    /// The staked-token reserve.
    pub staked_token_amount: Decimal,
    /// The pool-share supply.
    pub lp_token_amount: Decimal,
    /// The base-token reserve below which the fee rises above `min_fee`.
    pub liquidity_target: Decimal,
    /// The smallest fee rate, as a fraction.
    pub min_fee: Decimal,
    /// The largest fee rate, as a fraction.
    pub max_fee: Decimal,
}

impl LpPool {
    /// The precision of every amount of the pool.
    pub open spec fn precision(self) -> u64 {
        self.price.precision
    }

    /// The scale factor of every amount of the pool.
    pub open spec fn scale(self) -> int {
        self.price.scale as int
    }

    /// All amounts share one valid precision and
    /// `0 <= min_fee <= max_fee <= 1`.
    pub open spec fn wf(self) -> bool {
        &&& self.price.wf()
        &&& self.price.same_scale(self.token_amount)
        &&& self.price.same_scale(self.staked_token_amount)
        &&& self.price.same_scale(self.lp_token_amount)
        &&& self.price.same_scale(self.liquidity_target)
        &&& self.price.same_scale(self.min_fee)
        &&& self.price.same_scale(self.max_fee)
        &&& self.min_fee.number <= self.max_fee.number <= self.price.scale
    }

    /// A pool with the given raw parameters and empty reserves.
    pub open spec fn fresh(
        price: int,
        min_fee: int,
        max_fee: int,
        liquidity_target: int,
        precision: u64,
    ) -> LpPool {
        LpPool {
            price: amount_at(price, precision),
            token_amount: amount_at(0, precision),
            staked_token_amount: amount_at(0, precision),
            lp_token_amount: amount_at(0, precision),
            liquidity_target: amount_at(liquidity_target, precision),
            min_fee: amount_at(min_fee, precision),
            max_fee: amount_at(max_fee, precision),
        }
    }

    /// Creates a pool with empty reserves. The fees are percentages and are
    /// stored as fractions; amounts are rounded down to `precision` digits.
    ///
    /// Fails with `InvalidArgument` on a negative argument, then with
    /// `FeeOrderError` where `max_fee < min_fee`, then with `FeeTooHigh` where
    /// `max_fee > 100`, and with `Overflow` where `10^precision` or a converted
    /// amount does not fit.
    pub fn init(
        price: DecimalLiteral,
        min_fee: DecimalLiteral,
        max_fee: DecimalLiteral,
        liquidity_target: DecimalLiteral,
        precision: u64,
    ) -> (r: Result<LpPool, PoolError>)
        ensures
            price.is_negative() || min_fee.is_negative() || max_fee.is_negative()
                || liquidity_target.is_negative() ==> r == Err::<LpPool, PoolError>(
                PoolError::InvalidArgument,
            ),
            !(price.is_negative() || min_fee.is_negative() || max_fee.is_negative()
                || liquidity_target.is_negative()) ==> {
                let s = pow10(precision as nat) as int;
                if !min_fee.le(max_fee) {
                    r == Err::<LpPool, PoolError>(PoolError::FeeOrderError)
                } else if !max_fee.le(hundred()) {
                    r == Err::<LpPool, PoolError>(PoolError::FeeTooHigh)
                } else if precision > MAX_PRECISION || !fits(price.scaled(s)) || !fits(
                    liquidity_target.scaled(s),
                ) {
                    r == Err::<LpPool, PoolError>(PoolError::Overflow)
                } else {
                    r == Ok::<LpPool, PoolError>(
                        LpPool::fresh(
                            price.scaled(s),
                            min_fee.percent_scaled(s),
                            max_fee.percent_scaled(s),
                            liquidity_target.scaled(s),
                            precision,
                        ),
                    )
                }
            },
            r matches Ok(pool) ==> pool.wf(),
    {
        if price.mantissa < 0 || min_fee.mantissa < 0 || max_fee.mantissa < 0
            || liquidity_target.mantissa < 0 {
            return Err(PoolError::InvalidArgument);
        }
        if !min_fee.is_at_most(&max_fee) {
            return Err(PoolError::FeeOrderError);
        }
        if !max_fee.is_at_most(&DecimalLiteral::new(100, 0)) {
            return Err(PoolError::FeeTooHigh);
        }
        let price = match Decimal::init(price, precision) {
            Ok(d) => d,
            Err(e) => return Err(e),
        };
        let ghost s = pow10(precision as nat) as int;
        proof {
            lemma_pow10_positive(min_fee.exponent as nat);
            lemma_pow10_positive(max_fee.exponent as nat);
            lemma_pow10_bound(precision as nat);
            let pa = pow10(min_fee.exponent as nat) as int;
            let pb = pow10(max_fee.exponent as nat) as int;
            assert(min_fee.mantissa * (100 * pb) <= max_fee.mantissa * (100 * pa)) by (nonlinear_arith)
                requires
                    min_fee.mantissa * pb <= max_fee.mantissa * pa,
            ;
            lemma_floor_le(min_fee.mantissa as int, 100 * pa, max_fee.mantissa as int, 100 * pb, s);
            assert(max_fee.mantissa * 1 <= 1 * (100 * pb));
            lemma_floor_le(max_fee.mantissa as int, 100 * pb, 1, 1, s);
        }
        let min_fee = Decimal::from_percentage(min_fee, precision).unwrap();
        let max_fee = Decimal::from_percentage(max_fee, precision).unwrap();
        let liquidity_target = match Decimal::init(liquidity_target, precision) {
            Ok(d) => d,
            Err(e) => return Err(e),
        };
        let zero = Decimal::init(0i64, precision).unwrap();
        Ok(
            LpPool {
                price,
                token_amount: zero,
                staked_token_amount: zero,
                lp_token_amount: zero,
                liquidity_target,
                min_fee,
                max_fee,
            },
        )
    }

    /// The pool's value in base-token units:
    /// `token_amount + price * staked_token_amount`.
    pub open spec fn valuation(self) -> int {
        self.token_amount.number + mul_raw(
            self.price.number as int,
            self.staked_token_amount.number as int,
            self.scale(),
        )
    }

    /// Pool shares minted for a deposit of raw amount `x`: as many as `x` on
    /// an empty pool, else `x * lp_token_amount / valuation`.
    pub open spec fn minted_for(self, x: int) -> int {
        if self.valuation() == 0 {
            x
        } else {
            div_raw(
                mul_raw(x, self.lp_token_amount.number as int, self.scale()),
                self.valuation(),
                self.scale(),
            )
        }
    }

    /// Every amount computed for a deposit of raw amount `x` fits.
    pub open spec fn deposit_fits(self, x: int) -> bool {
        &&& fits(x)
        &&& fits(self.valuation())
        &&& fits(self.token_amount.number + x)
        &&& self.valuation() != 0 ==> {
            &&& fits(mul_raw(x, self.lp_token_amount.number as int, self.scale()))
            &&& fits(self.lp_token_amount.number + self.minted_for(x))
        }
    }

    /// The pool after a deposit of raw amount `x`.
    pub open spec fn after_deposit(self, x: int) -> LpPool {
        LpPool {
            token_amount: self.token_amount.with_number(self.token_amount.number + x),
            lp_token_amount: self.lp_token_amount.with_number(
                if self.valuation() == 0 {
                    x
                } else {
                    self.lp_token_amount.number + self.minted_for(x)
                },
            ),
            ..self
        }
    }

    /// Deposits base tokens and returns the pool shares minted for them.
    ///
    /// On an empty pool (zero valuation) shares are minted one for one;
    /// otherwise in proportion to the share supply over the valuation. Fails
    /// with `InvalidArgument` on a negative amount and with `Overflow` where an
    /// amount does not fit; a failure leaves the pool as it was.
    pub fn add_liquidity(&mut self, amount: DecimalLiteral) -> (r: Result<Decimal, PoolError>)
        requires
            old(self).wf(),
        ensures
            final(self).wf(),
            amount.is_negative() ==> r == Err::<Decimal, PoolError>(PoolError::InvalidArgument)
                && *final(self) == *old(self),
            !amount.is_negative() ==> {
                let x = amount.scaled(old(self).scale());
                if old(self).deposit_fits(x) {
                    &&& r == Ok::<Decimal, PoolError>(
                        old(self).price.with_number(old(self).minted_for(x)),
                    )
                    &&& *final(self) == old(self).after_deposit(x)
                } else {
                    &&& r == Err::<Decimal, PoolError>(PoolError::Overflow)
                    &&& *final(self) == *old(self)
                }
            },
    {
        if amount.mantissa < 0 {
            return Err(PoolError::InvalidArgument);
        }
        let ghost s = self.scale();
        proof {
            lemma_pow10_positive(self.precision() as nat);
            lemma_raw_nonneg(self.price.number as int, self.staked_token_amount.number as int, s);
        }
        let deposit = match Decimal::init(amount, self.price.precision) {
            Ok(d) => d,
            Err(e) => return Err(e),
        };
        let staked_value = match self.price.mul(self.staked_token_amount) {
            Ok(v) => v,
            Err(e) => return Err(e),
        };
        let valuation = match self.token_amount.add(staked_value) {
            Ok(v) => v,
            Err(e) => return Err(e),
        };
        if valuation.number == 0 {
            self.token_amount = deposit;
            self.lp_token_amount = deposit;
            return Ok(deposit);
        }
        proof {
            lemma_raw_nonneg(deposit.number as int, self.lp_token_amount.number as int, s);
        }
        let product = match deposit.mul(self.lp_token_amount) {
            Ok(v) => v,
            Err(e) => return Err(e),
        };
        proof {
            lemma_quotient_nonneg(product.number as int, valuation.number as int, s);
        }
        let minted = match product.div(valuation) {
            Ok(v) => v,
            Err(e) => return Err(e),
        };
        let shares = match self.lp_token_amount.add(minted) {
            Ok(v) => v,
            Err(e) => return Err(e),
        };
        let tokens = match self.token_amount.add(deposit) {
            Ok(v) => v,
            Err(e) => return Err(e),
        };
        self.lp_token_amount = shares;
        self.token_amount = tokens;
        Ok(minted)
    }

    /// The base and staked tokens paid for redeeming raw amount `x` of pool
    /// shares: the fraction `x / lp_token_amount` of each reserve.
    pub open spec fn redeemed(self, x: int) -> (int, int) {
        let fraction = div_raw(x, self.lp_token_amount.number as int, self.scale());
        (
            mul_raw(fraction, self.token_amount.number as int, self.scale()),
            mul_raw(fraction, self.staked_token_amount.number as int, self.scale()),
        )
    }

    /// The pool after redeeming raw amount `x` of pool shares: the shares are
    /// burnt and the amounts paid leave the reserves.
    pub open spec fn after_redeem(self, x: int) -> LpPool {
        LpPool {
            token_amount: self.token_amount.with_number(
                self.token_amount.number - self.redeemed(x).0,
            ),
            staked_token_amount: self.staked_token_amount.with_number(
                self.staked_token_amount.number - self.redeemed(x).1,
            ),
            lp_token_amount: self.lp_token_amount.with_number(self.lp_token_amount.number - x),
            ..self
        }
    }

    /// Redeems pool shares for the same fraction of both reserves, which is
    /// paid out of them, so that each remaining share keeps its value.
    ///
    /// Fails with `InvalidArgument` on a negative amount, with
    /// `InsufficientShares` where more shares are redeemed than exist, and
    /// with `DivisionByZero` where no shares exist; a failure leaves the pool
    /// as it was.
    pub fn remove_liquidity(&mut self, amount: DecimalLiteral) -> (r: Result<
        (Decimal, Decimal),
        PoolError,
    >)
        requires
            old(self).wf(),
        ensures
            final(self).wf(),
            amount.is_negative() ==> r == Err::<(Decimal, Decimal), PoolError>(
                PoolError::InvalidArgument,
            ) && *final(self) == *old(self),
            !amount.is_negative() ==> {
                let x = amount.scaled(old(self).scale());
                if x > old(self).lp_token_amount.number {
                    &&& r == Err::<(Decimal, Decimal), PoolError>(PoolError::InsufficientShares)
                    &&& *final(self) == *old(self)
                } else if old(self).lp_token_amount.number == 0 {
                    &&& r == Err::<(Decimal, Decimal), PoolError>(PoolError::DivisionByZero)
                    &&& *final(self) == *old(self)
                } else {
                    &&& r == Ok::<(Decimal, Decimal), PoolError>(
                        (
                            old(self).price.with_number(old(self).redeemed(x).0),
                            old(self).price.with_number(old(self).redeemed(x).1),
                        ),
                    )
                    &&& *final(self) == old(self).after_redeem(x)
                }
            },
    {
        if amount.mantissa < 0 {
            return Err(PoolError::InvalidArgument);
        }
        let ghost s = self.scale();
        proof {
            lemma_pow10_positive(self.precision() as nat);
        }
        proof {
            lemma_pow10_positive(amount.exponent as nat);
            lemma_raw_nonneg(amount.mantissa as int, s, pow10(amount.exponent as nat) as int);
        }
        let shares = match Decimal::init(amount, self.price.precision) {
            Ok(d) => d,
            Err(_) => return Err(PoolError::InsufficientShares),
        };
        if shares.number > self.lp_token_amount.number {
            return Err(PoolError::InsufficientShares);
        }
        if self.lp_token_amount.number == 0 {
            return Err(PoolError::DivisionByZero);
        }
        proof {
            lemma_div_raw_le(shares.number as int, self.lp_token_amount.number as int, s);
        }
        let fraction = shares.div(self.lp_token_amount).unwrap();
        proof {
            lemma_mul_raw_le(fraction.number as int, self.token_amount.number as int, s);
            lemma_mul_raw_le(fraction.number as int, self.staked_token_amount.number as int, s);
        }
        let tokens = fraction.mul(self.token_amount).unwrap();
        let staked = fraction.mul(self.staked_token_amount).unwrap();
        self.token_amount = self.token_amount.sub(tokens).unwrap();
        self.staked_token_amount = self.staked_token_amount.sub(staked).unwrap();
        self.lp_token_amount = self.lp_token_amount.sub(shares).unwrap();
        Ok((tokens, staked))
    }

    /// Base tokens that raw amount `x` of staked tokens is worth, before the fee.
    pub open spec fn swap_output(self, x: int) -> int {
        mul_raw(x, self.price.number as int, self.scale())
    }

    /// The fee charged on a swap of raw amount `x` of staked tokens: the fee
    /// rate at the reserve left once the gross output is paid, times that
    /// output.
    pub open spec fn swap_fee(self, x: int) -> int {
        let rate = fee_rate_spec(
            self.token_amount.number - self.swap_output(x),
            self.liquidity_target.number as int,
            self.min_fee.number as int,
            self.max_fee.number as int,
            self.scale(),
        );
        mul_raw(rate, self.swap_output(x), self.scale())
    }

    /// The pool after a swap of raw amount `x` of staked tokens: the staked
    /// tokens join their reserve, the output leaves the base-token reserve and
    /// the fee returns to it.
    pub open spec fn after_swap(self, x: int) -> LpPool {
        LpPool {
            staked_token_amount: self.staked_token_amount.with_number(
                self.staked_token_amount.number + x,
            ),
            token_amount: self.token_amount.with_number(
                self.token_amount.number - self.swap_output(x) + self.swap_fee(x),
            ),
            ..self
        }
    }

    /// Exchanges staked tokens for base tokens at the pool price, less the
    /// utilisation-dependent fee, and returns the base tokens paid out.
    ///
    /// Fails with `InvalidArgument` on a negative amount, with
    /// `InsufficientLiquidity` where the output before the fee exceeds the
    /// base-token reserve, and with `Overflow` where the amount or the new
    /// staked-token reserve does not fit; a failure leaves the pool as it was.
    pub fn swap(&mut self, amount: DecimalLiteral) -> (r: Result<Decimal, PoolError>)
        requires
            old(self).wf(),
        ensures
            final(self).wf(),
            amount.is_negative() ==> r == Err::<Decimal, PoolError>(PoolError::InvalidArgument)
                && *final(self) == *old(self),
            !amount.is_negative() ==> {
                let x = amount.scaled(old(self).scale());
                if !fits(x) {
                    &&& r == Err::<Decimal, PoolError>(PoolError::Overflow)
                    &&& *final(self) == *old(self)
                } else if old(self).swap_output(x) > old(self).token_amount.number {
                    &&& r == Err::<Decimal, PoolError>(PoolError::InsufficientLiquidity)
                    &&& *final(self) == *old(self)
                } else if !fits(old(self).staked_token_amount.number + x) {
                    &&& r == Err::<Decimal, PoolError>(PoolError::Overflow)
                    &&& *final(self) == *old(self)
                } else {
                    &&& r == Ok::<Decimal, PoolError>(
                        old(self).price.with_number(
                            old(self).swap_output(x) - old(self).swap_fee(x),
                        ),
                    )
                    &&& *final(self) == old(self).after_swap(x)
                }
            },
    {
        if amount.mantissa < 0 {
            return Err(PoolError::InvalidArgument);
        }
        let ghost s = self.scale();
        proof {
            lemma_pow10_positive(self.precision() as nat);
        }
        let staked_in = match Decimal::init(amount, self.price.precision) {
            Ok(d) => d,
            Err(e) => return Err(e),
        };
        let gross = match staked_in.mul(self.price) {
            Ok(v) => v,
            Err(_) => return Err(PoolError::InsufficientLiquidity),
        };
        if gross.number > self.token_amount.number {
            return Err(PoolError::InsufficientLiquidity);
        }
        let staked_total = match self.staked_token_amount.add(staked_in) {
            Ok(v) => v,
            Err(e) => return Err(e),
        };
        let remaining = self.token_amount.sub(gross).unwrap();
        let rate = fee_rate(remaining, self.liquidity_target, self.min_fee, self.max_fee);
        proof {
            lemma_mul_raw_le(rate.number as int, gross.number as int, s);
        }
        let fee = rate.mul(gross).unwrap();
        let net = gross.sub(fee).unwrap();
        self.staked_token_amount = staked_total;
        self.token_amount = remaining.add(fee).unwrap();
        Ok(net)
    }
}

/// On a pool of zero valuation a deposit mints exactly as many shares as it
/// deposits, and the base-token reserve becomes the deposit.
pub proof fn lemma_first_deposit_one_for_one(pool: LpPool, x: int)
    requires
        pool.wf(),
        pool.valuation() == 0,
        fits(x),
    ensures
        pool.minted_for(x) == x,
        pool.after_deposit(x).token_amount.number == x,
        pool.after_deposit(x).lp_token_amount.number == x,
{
    lemma_pow10_positive(pool.precision() as nat);
    lemma_raw_nonneg(pool.price.number as int, pool.staked_token_amount.number as int, pool.scale());
}

} // verus!
