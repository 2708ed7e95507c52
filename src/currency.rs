use vstd::arithmetic::div_mod::{lemma_div_by_multiple, lemma_div_denominator};
use vstd::prelude::*;

use std::cmp::Ordering;

verus! {

/// An amount of money in one of four denominations.
///
/// One Platinum is worth 10 Gold, 100 Silver or 1000 Copper.
#[derive(Debug, Clone, Copy, PartialEq, Eq, Structural)]
pub enum Currency {
    Platinum(u64),
    Gold(u64),
    Silver(u64),
    Copper(u64),
}

/// Failures of currency arithmetic.
#[derive(Debug, Clone, Copy, PartialEq, Eq, Structural)]
pub enum CurrencyError {
    /// A Copper-normalized amount does not fit in 64 bits.
    Overflow,
    /// A subtraction would go below zero.
    Underflow,
}

/// How many Copper one unit of the denomination of the given tier is worth
/// (Copper is tier 0, Platinum tier 3).
pub open spec fn tier_scale(tier: nat) -> nat {
    if tier == 0 {
        1
    } else if tier == 1 {
        10
    } else if tier == 2 {
        100
    } else {
        1000
    }
}

/// The currency of the given tier holding `amount`.
pub open spec fn currency_of(tier: nat, amount: u64) -> Currency {
    if tier == 0 {
        Currency::Copper(amount)
    } else if tier == 1 {
        Currency::Silver(amount)
    } else if tier == 2 {
        Currency::Gold(amount)
    } else {
        Currency::Platinum(amount)
    }
}

/// Greedy promotion of `amount` units of tier `tier`: move one tier up while
/// the amount is positive and divisible by ten, stopping at Platinum.
/// Returns the final tier and amount.
pub open spec fn promote(tier: nat, amount: nat) -> (nat, nat)
    decreases 3 - tier,
{
    if tier < 3 && amount > 0 && amount % 10 == 0 {
        promote(tier + 1, amount / 10)
    } else {
        (tier, amount)
    }
}

/// The three-way comparison of two naturals.
pub open spec fn ordering_of(a: nat, b: nat) -> Ordering {
    if a < b {
        Ordering::Less
    } else if a == b {
        Ordering::Equal
    } else {
        Ordering::Greater
    }
}

/// The largest-denomination currency worth `value` Copper, if its amount fits in 64 bits.
pub open spec fn currency_worth(value: nat) -> Option<Currency> {
    let p = promote(0, value);
    if p.1 <= u64::MAX {
        Some(currency_of(p.0, p.1 as u64))
    } else {
        None
    }
}

/// The sum of two amounts, as `checked_add` computes it.
pub open spec fn sum_of(a: Currency, b: Currency) -> Result<Currency, CurrencyError> {
    if a.value() + b.value() <= u64::MAX {
        Ok(Currency::Copper((a.value() + b.value()) as u64).largest_denomination())
    } else {
        Err(CurrencyError::Overflow)
    }
}

/// The difference of two amounts, as `checked_sub` computes it.
pub open spec fn difference_of(a: Currency, b: Currency) -> Result<Currency, CurrencyError> {
    if a.value() > u64::MAX || b.value() > u64::MAX {
        Err(CurrencyError::Overflow)
    } else if b.value() > a.value() {
        Err(CurrencyError::Underflow)
    } else {
        Ok(Currency::Copper((a.value() - b.value()) as u64).largest_denomination())
    }
}

impl Currency {
    /// The tier of the denomination: Copper 0, Silver 1, Gold 2, Platinum 3.
    pub open spec fn tier(self) -> nat {
        match self {
            Currency::Platinum(_) => 3,
            Currency::Gold(_) => 2,
            Currency::Silver(_) => 1,
            Currency::Copper(_) => 0,
        }
    }

    /// The number of units held, whatever the denomination.
    pub open spec fn units(self) -> u64 {
        match self {
            Currency::Platinum(a) => a,
            Currency::Gold(a) => a,
            Currency::Silver(a) => a,
            Currency::Copper(a) => a,
        }
    }

    /// The Copper-normalized amount.
    pub open spec fn value(self) -> nat {
        (self.units() as nat) * tier_scale(self.tier())
    }

    /// The largest-denomination form: greedy promotion from this denomination.
    pub open spec fn largest_denomination(self) -> Currency {
        let p = promote(self.tier(), self.units() as nat);
        currency_of(p.0, p.1 as u64)
    }

    /// This value in the denomination of `tier`, truncating toward zero.
    pub open spec fn in_tier(self, tier: nat) -> Currency {
        currency_of(tier, (self.value() / tier_scale(tier)) as u64)
    }

    /// Whether the value, expressed in the denomination of `tier`, fits in 64 bits.
    pub open spec fn fits_in_tier(self, tier: nat) -> bool {
        self.value() / tier_scale(tier) <= u64::MAX
    }

    /// The result of one promotion step, if the amount allows one.
    pub open spec fn promoted(self) -> Option<Currency> {
        if self.tier() < 3 && self.units() > 0 && self.units() % 10 == 0 {
            Some(currency_of(self.tier() + 1, self.units() / 10))
        } else {
            None
        }
    }

    /// One tier down, with the amount multiplied by ten; Copper stays as it is.
    pub open spec fn demoted(self) -> Currency {
        if self.tier() == 0 {
            self
        } else {
            currency_of((self.tier() - 1) as nat, (self.units() * 10) as u64)
        }
    }

    pub fn amount(&self) -> (r: u64)
        ensures
            r == self.units(),
    {
        match self {
            Currency::Platinum(amount) => *amount,
            Currency::Gold(amount) => *amount,
            Currency::Silver(amount) => *amount,
            Currency::Copper(amount) => *amount,
        }
    }

    /// The same denomination holding `amount` instead.
    pub fn with_amount(self, amount: u64) -> (r: Self)
        ensures
            r == currency_of(self.tier(), amount),
    {
        match self {
            Currency::Platinum(_) => Currency::Platinum(amount),
            Currency::Gold(_) => Currency::Gold(amount),
            Currency::Silver(_) => Currency::Silver(amount),
            Currency::Copper(_) => Currency::Copper(amount),
        }
    }

    /// Promotes to the next larger denomination when the amount is positive
    /// and divisible by ten; `None` at Platinum or when the division is not exact.
    pub fn try_convert_up(&self) -> (r: Option<Self>)
        ensures
            r == self.promoted(),
    {
        let amount = self.amount();
        if amount > 0 && amount % 10 == 0 {
            match self {
                Currency::Platinum(_) => None,
                Currency::Gold(a) => Some(Currency::Platinum(*a / 10)),
                Currency::Silver(a) => Some(Currency::Gold(*a / 10)),
                Currency::Copper(a) => Some(Currency::Silver(*a / 10)),
            }
        } else {
            None
        }
    }

    /// Promotes repeatedly, as long as each step is exact.
    pub fn to_largest_denomination(self) -> (r: Self)
        ensures
            r == self.largest_denomination(),
            r.value() == self.value(),
    {
        let mut current = self;
        loop
            invariant
                current.largest_denomination() == self.largest_denomination(),
                current.tier() <= 3,
            decreases 3 - current.tier(),
        {
            match current.try_convert_up() {
                Some(next) => {
                    current = next;
                },
                None => {
                    proof {
                        lemma_promote_keeps_value(self.tier(), self.units() as nat);
                        lemma_currency_of(current.tier(), current.units());
                        let p = promote(self.tier(), self.units() as nat);
                        lemma_currency_of(p.0, p.1 as u64);
                    }
                    return current;
                },
            }
        }
    }

    /// One denomination down, multiplying the amount by ten.
    pub fn convert_down(self) -> (r: Self)
        requires
            self.tier() == 0 || self.units() * 10 <= u64::MAX,
        ensures
            r == self.demoted(),
            r.value() == self.value(),
    {
        match self {
            Currency::Platinum(a) => Currency::Gold(a * 10),
            Currency::Gold(a) => Currency::Silver(a * 10),
            Currency::Silver(a) => Currency::Copper(a * 10),
            Currency::Copper(_) => self,
        }
    }

    /// The Copper-normalized amount; it always fits in 128 bits.
    pub fn copper_value(&self) -> (r: u128)
        ensures
            r == self.value(),
    {
        match self {
            Currency::Platinum(a) => *a as u128 * 1000,
            Currency::Gold(a) => *a as u128 * 100,
            Currency::Silver(a) => *a as u128 * 10,
            Currency::Copper(a) => *a as u128,
        }
    }

    /// Compares by the Copper-normalized amount.
    pub fn compare(&self, other: &Self) -> (r: Ordering)
        ensures
            r == ordering_of(self.value(), other.value()),
    {
        let a = self.copper_value();
        let b = other.copper_value();
        if a < b {
            Ordering::Less
        } else if a == b {
            Ordering::Equal
        } else {
            Ordering::Greater
        }
    }

    /// Adds the Copper-normalized amounts and returns the sum in its largest
    /// denomination; `Overflow` when the sum does not fit in 64 bits.
    pub fn checked_add(self, other: Self) -> (r: Result<Self, CurrencyError>)
        ensures
            r == sum_of(self, other),
    {
        proof {
            lemma_value_bound(self);
            lemma_value_bound(other);
        }
        let total = self.copper_value() + other.copper_value();
        if total > u64::MAX as u128 {
            Err(CurrencyError::Overflow)
        } else {
            Ok(Currency::from(total as u64))
        }
    }

    /// Subtracts the Copper-normalized amounts and returns the difference in its
    /// largest denomination; `Overflow` when an operand does not fit in 64 bits
    /// as Copper, `Underflow` when `other` is worth more than `self`.
    pub fn checked_sub(self, other: Self) -> (r: Result<Self, CurrencyError>)
        ensures
            r == difference_of(self, other),
    {
        let a = self.copper_value();
        let b = other.copper_value();
        if a > u64::MAX as u128 || b > u64::MAX as u128 {
            Err(CurrencyError::Overflow)
        } else if b > a {
            Err(CurrencyError::Underflow)
        } else {
            Ok(Currency::from((a - b) as u64))
        }
    }

    pub fn to_platinum(self) -> (r: Self)
        ensures
            r == self.in_tier(3),
    {
        proof {
            lemma_tier_conversions(self.units() as nat);
        }
        match self {
            Currency::Platinum(_) => self,
            Currency::Gold(a) => Currency::Platinum(a / 10),
            Currency::Silver(a) => Currency::Platinum(a / 100),
            Currency::Copper(a) => Currency::Platinum(a / 1000),
        }
    }

    pub fn to_gold(self) -> (r: Self)
        requires
            self.fits_in_tier(2),
        ensures
            r == self.in_tier(2),
    {
        proof {
            lemma_tier_conversions(self.units() as nat);
        }
        match self {
            Currency::Platinum(a) => Currency::Gold(a * 10),
            Currency::Gold(_) => self,
            Currency::Silver(a) => Currency::Gold(a / 10),
            Currency::Copper(a) => Currency::Gold(a / 100),
        }
    }

    pub fn to_silver(self) -> (r: Self)
        requires
            self.fits_in_tier(1),
        ensures
            r == self.in_tier(1),
    {
        proof {
            lemma_tier_conversions(self.units() as nat);
        }
        match self {
            Currency::Platinum(a) => Currency::Silver(a * 100),
            Currency::Gold(a) => Currency::Silver(a * 10),
            Currency::Silver(_) => self,
            Currency::Copper(a) => Currency::Silver(a / 10),
        }
    }

    pub fn to_copper(self) -> (r: Self)
        requires
            self.fits_in_tier(0),
        ensures
            r == self.in_tier(0),
    {
        proof {
            lemma_tier_conversions(self.units() as nat);
        }
        match self {
            Currency::Platinum(a) => Currency::Copper(a * 1000),
            Currency::Gold(a) => Currency::Copper(a * 100),
            Currency::Silver(a) => Currency::Copper(a * 10),
            Currency::Copper(_) => self,
        }
    }
}

/// The largest-denomination form of the Copper-normalized amount `value`, or
/// `None` when even that form needs more than 64 bits.
pub fn currency_from_value(value: u128) -> (r: Option<Currency>)
    ensures
        r == currency_worth(value as nat),
{
    let mut tier: u8 = 0;
    let mut amount: u128 = value;
    while tier < 3 && amount > 0 && amount % 10 == 0
        invariant
            tier <= 3,
            promote(tier as nat, amount as nat) == promote(0, value as nat),
        decreases 3 - tier,
    {
        amount = amount / 10;
        tier = tier + 1;
    }
    if amount > u64::MAX as u128 {
        None
    } else {
        let a = amount as u64;
        if tier == 0 {
            Some(Currency::Copper(a))
        } else if tier == 1 {
            Some(Currency::Silver(a))
        } else if tier == 2 {
            Some(Currency::Gold(a))
        } else {
            Some(Currency::Platinum(a))
        }
    }
}

impl From<u64> for Currency {
    /// The largest-denomination form of `value` Copper.
    fn from(value: u64) -> Self {
        Currency::Copper(value).to_largest_denomination()
    }
}

impl vstd::std_specs::convert::FromSpecImpl<u64> for Currency {
    open spec fn obeys_from_spec() -> bool {
        true
    }

    open spec fn from_spec(v: u64) -> Self {
        Currency::Copper(v).largest_denomination()
    }
}

impl Default for Currency {
    fn default() -> (r: Self)
        ensures
            r == Currency::Copper(0),
    {
        Currency::Copper(0)
    }
}

impl PartialOrd for Currency {
    /// Orders by the Copper-normalized amount.
    fn partial_cmp(&self, other: &Self) -> Option<Ordering> {
        Some(self.compare(other))
    }
}

impl vstd::std_specs::cmp::PartialOrdSpecImpl for Currency {
    open spec fn obeys_partial_cmp_spec() -> bool {
        true
    }

    open spec fn partial_cmp_spec(&self, other: &Self) -> Option<Ordering> {
        Some(ordering_of(self.value(), other.value()))
    }
}

/// A currency built from a tier and an amount has that tier and amount.
pub proof fn lemma_currency_of(tier: nat, amount: u64)
    requires
        tier <= 3,
    ensures
        currency_of(tier, amount).tier() == tier,
        currency_of(tier, amount).units() == amount,
{
}

/// Promotion preserves the Copper-normalized amount and never goes past Platinum.
pub proof fn lemma_promote_keeps_value(tier: nat, amount: nat)
    requires
        tier <= 3,
    ensures
        promote(tier, amount).0 <= 3,
        promote(tier, amount).0 >= tier,
        promote(tier, amount).1 <= amount,
        promote(tier, amount).1 * tier_scale(promote(tier, amount).0) == amount * tier_scale(tier),
    decreases 3 - tier,
{
    if tier < 3 && amount > 0 && amount % 10 == 0 {
        lemma_promote_keeps_value(tier + 1, amount / 10);
        assert((amount / 10) * tier_scale(tier + 1) == amount * tier_scale(tier)) by {
            assert(amount == (amount / 10) * 10);
        }
    }
}

/// Rescaling between the fixed denomination ratios.
proof fn lemma_tier_conversions(a: nat)
    ensures
        (a * 10) / 1000 == a / 100,
        (a * 100) / 1000 == a / 10,
        (a * 10) / 100 == a / 10,
        (a * 1000) / 100 == a * 10,
        (a * 1000) / 10 == a * 100,
        (a * 100) / 10 == a * 10,
        (a * 1000) / 1000 == a,
        (a * 100) / 100 == a,
        (a * 10) / 10 == a,
        a / 1 == a,
        (a * 1) / 1 == a,
        (a * 1) / 10 == a / 10,
        (a * 1) / 100 == a / 100,
        (a * 1) / 1000 == a / 1000,
        (a * 10) / 1 == a * 10,
        (a * 100) / 1 == a * 100,
        (a * 1000) / 1 == a * 1000,
{
    lemma_div_by_multiple(a as int, 10);
    lemma_div_by_multiple(a as int, 100);
    lemma_div_by_multiple(a as int, 1000);
    lemma_div_by_multiple((a * 10) as int, 10);
    lemma_div_by_multiple((a * 100) as int, 10);
    lemma_div_denominator((a * 10) as int, 10, 100);
    lemma_div_denominator((a * 100) as int, 100, 10);
    lemma_div_denominator((a * 10) as int, 10, 10);
    assert((a * 1000) == (a * 10) * 100);
    assert((a * 1000) == (a * 100) * 10);
    assert((a * 100) == (a * 10) * 10);
    lemma_div_by_multiple((a * 10) as int, 100);
}

/// No currency is worth more than a thousand times the largest 64-bit amount.
pub proof fn lemma_value_bound(c: Currency)
    ensures
        c.value() <= 1000 * (u64::MAX as nat),
{
}

/// The largest-denomination form is worth as much as the currency it came from.
pub proof fn lemma_largest_keeps_value(c: Currency)
    ensures
        c.largest_denomination().value() == c.value(),
        c.largest_denomination().tier() >= c.tier(),
{
    let p = promote(c.tier(), c.units() as nat);
    lemma_promote_keeps_value(c.tier(), c.units() as nat);
    lemma_currency_of(p.0, p.1 as u64);
}

/// Greedy promotion ends where no further step applies.
pub proof fn lemma_promote_settles(tier: nat, amount: nat)
    requires
        tier <= 3,
    ensures
        promote(promote(tier, amount).0, promote(tier, amount).1) == promote(tier, amount),
    decreases 3 - tier,
{
    if tier < 3 && amount > 0 && amount % 10 == 0 {
        lemma_promote_settles(tier + 1, amount / 10);
    }
}

/// Taking the largest-denomination form twice gives the same as taking it once.
pub proof fn lemma_largest_idempotent(c: Currency)
    ensures
        c.largest_denomination().largest_denomination() == c.largest_denomination(),
{
    let p = promote(c.tier(), c.units() as nat);
    lemma_promote_keeps_value(c.tier(), c.units() as nat);
    lemma_promote_settles(c.tier(), c.units() as nat);
    lemma_currency_of(p.0, p.1 as u64);
}

/// A raw Copper amount and its largest-denomination form are worth the same,
/// so equal raw amounts give equal currencies whatever their denomination.
pub proof fn lemma_raw_amount_value(v: u64)
    ensures
        Currency::Copper(v).largest_denomination().value() == v,
        currency_worth(v as nat) == Some(Currency::Copper(v).largest_denomination()),
{
    lemma_promote_keeps_value(0, v as nat);
    lemma_largest_keeps_value(Currency::Copper(v));
}

/// Converting to any denomination gives the same as converting to Copper first.
pub proof fn lemma_conversion_through_copper(c: Currency, tier: nat)
    requires
        tier <= 3,
        c.fits_in_tier(0),
    ensures
        c.in_tier(0).in_tier(tier) == c.in_tier(tier),
        c.in_tier(0).value() == c.value(),
{
    let v = c.value();
    assert(v / 1 == v) by (nonlinear_arith);
    assert(v * 1 == v);
    lemma_currency_of(0, v as u64);
}

/// Adding then subtracting the same amount gives back the first operand's worth,
/// and a successful sum is worth at least the first operand.
pub proof fn lemma_add_then_subtract(a: Currency, b: Currency)
    requires
        sum_of(a, b) is Ok,
    ensures
        difference_of(sum_of(a, b)->Ok_0, b) == Ok::<Currency, CurrencyError>(
            Currency::Copper(a.value() as u64).largest_denomination(),
        ),
        (sum_of(a, b)->Ok_0).value() == a.value() + b.value(),
        (sum_of(a, b)->Ok_0).value() >= a.value(),
{
    let total = (a.value() + b.value()) as u64;
    lemma_largest_keeps_value(Currency::Copper(total));
}

/// Promoting a positive Copper amount reaches the same form as promoting the
/// same worth held in a larger denomination.
pub proof fn lemma_promote_from_copper(tier: nat, amount: nat)
    requires
        tier <= 3,
        amount > 0,
    ensures
        promote(0, amount * tier_scale(tier)) == promote(tier, amount),
{
    lemma_tier_conversions(amount);
    assert((amount * 10) % 10 == 0) by (nonlinear_arith);
    assert((amount * 100) % 10 == 0) by (nonlinear_arith);
    assert((amount * 1000) % 10 == 0) by (nonlinear_arith);
    assert(amount * 1 == amount);
    if tier == 2 {
        assert(promote(1, amount * 10) == promote(2, amount));
    } else if tier == 3 {
        assert(promote(2, amount * 10) == promote(3, amount));
        assert(promote(1, amount * 100) == promote(2, amount * 10));
    }
}

/// The largest-denomination form of a currency's worth in Copper: the
/// currency itself in its largest denomination, or Copper zero when it holds
/// nothing.
pub proof fn lemma_worth_is_largest(c: Currency)
    ensures
        currency_worth(c.value()) == Some(
            if c.units() > 0 {
                c.largest_denomination()
            } else {
                Currency::Copper(0)
            },
        ),
{
    if c.units() > 0 {
        lemma_promote_from_copper(c.tier(), c.units() as nat);
        lemma_promote_keeps_value(c.tier(), c.units() as nat);
    } else {
        assert(c.value() == 0);
    }
}

} // verus!
